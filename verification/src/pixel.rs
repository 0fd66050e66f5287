use vstd::prelude::*;

verus! {

/// One decoded pixel: three colour channels and the record's position in the
/// source buffer. The position is set once at decode time and never changes;
/// it is what lets the recolouring path restore the original buffer order
/// after partitioning has scrambled the sequence order.
#[derive(Clone, Copy, Debug, PartialEq, Eq, Structural)]
pub struct RGB {
    pub r: u8,
    pub g: u8,
    pub b: u8,
    pub index: usize,
}

/// The colour channel a median-cut step splits on.
#[derive(Clone, Copy, Debug)]
pub enum Channel {
    Red,
    Green,
    Blue,
}

/// The value of one channel of a pixel.
pub open spec fn chan(p: RGB, c: Channel) -> u8 {
    match c {
        Channel::Red => p.r,
        Channel::Green => p.g,
        Channel::Blue => p.b,
    }
}

/// A byte buffer decoded into pixels: one pixel per complete 4-byte record
/// (red, green, blue, alpha; alpha is ignored), with trailing bytes that do
/// not form a complete record silently dropped. Record `i` keeps `i` as its
/// position.
pub open spec fn decode(bytes: Seq<u8>) -> Seq<RGB> {
    Seq::new(bytes.len() / 4, |i: int| RGB {
        r: bytes[4 * i],
        g: bytes[4 * i + 1],
        b: bytes[4 * i + 2],
        index: i as usize,
    })
}

/// A colour packed into one integer as 0xRRGGBB.
pub open spec fn pack(p: RGB) -> u32 {
    (p.r * 0x1_0000 + p.g * 0x100 + p.b) as u32
}

impl RGB {
    /// The all-zero colour; the fold seed when scanning for per-channel maxima.
    pub fn black() -> (p: RGB)
        ensures
            p == (RGB { r: 0, g: 0, b: 0, index: 0 }),
    {
        RGB { r: 0, g: 0, b: 0, index: 0 }
    }

    /// The all-255 colour; the fold seed when scanning for per-channel minima.
    pub fn white() -> (p: RGB)
        ensures
            p == (RGB { r: 255, g: 255, b: 255, index: 0 }),
    {
        RGB { r: 255, g: 255, b: 255, index: 0 }
    }

    /// Reads one channel, selected at run time.
    pub fn channel(&self, c: Channel) -> (v: u8)
        ensures
            v == chan(*self, c),
    {
        match c {
            Channel::Red => self.r,
            Channel::Green => self.g,
            Channel::Blue => self.b,
        }
    }

    /// Packs the colour as 0xRRGGBB.
    pub fn to_u32(&self) -> (x: u32)
        ensures
            x == pack(*self),
    {
        let x = (self.r as u32) << 16 | (self.g as u32) << 8 | self.b as u32;
        proof {
            let r = self.r;
            let g = self.g;
            let b = self.b;
            assert((r as u32) << 16 | (g as u32) << 8 | (b as u32)
                == (r as u32) * 0x1_0000 + (g as u32) * 0x100 + (b as u32)) by (bit_vector);
        }
        x
    }

    /// Unpacks a 0xRRGGBB colour; the position is 0.
    pub fn from_u32(x: u32) -> (p: RGB)
        ensures
            p.r == (x / 0x1_0000) % 0x100,
            p.g == (x / 0x100) % 0x100,
            p.b == x % 0x100,
            p.index == 0,
    {
        let r = #[verifier::truncate] ((x >> 16) as u8);
        let g = #[verifier::truncate] ((x >> 8) as u8);
        let b = #[verifier::truncate] (x as u8);
        proof {
            assert(((x >> 16) as u8) == (x / 0x1_0000) % 0x100) by (bit_vector);
            assert(((x >> 8) as u8) == (x / 0x100) % 0x100) by (bit_vector);
            assert((x as u8) == x % 0x100) by (bit_vector);
        }
        RGB { r, g, b, index: 0 }
    }

    /// Per-channel difference; used on a per-channel maximum and minimum, so
    /// each channel of `other` must not exceed the matching channel of `self`.
    pub fn minus(&self, other: &RGB) -> (d: RGB)
        requires
            other.r <= self.r,
            other.g <= self.g,
            other.b <= self.b,
        ensures
            d.r == self.r - other.r,
            d.g == self.g - other.g,
            d.b == self.b - other.b,
            d.index == 0,
    {
        RGB {
            r: self.r - other.r,
            g: self.g - other.g,
            b: self.b - other.b,
            index: 0,
        }
    }

    /// Decodes a flat byte buffer into pixels, 4 bytes per record, dropping
    /// any incomplete trailing record.
    pub fn arr_from_byte_array(v: Vec<u8>) -> (pixels: Vec<RGB>)
        ensures
            pixels@ == decode(v@),
    {
        let n = v.len() / 4;
        let mut pixels: Vec<RGB> = Vec::new();
        proof {
            vstd::arithmetic::div_mod::lemma_fundamental_div_mod(v@.len() as int, 4);
            vstd::arithmetic::div_mod::lemma_mod_bound(v@.len() as int, 4);
        }
        for i in 0..n
            invariant
                n == v@.len() / 4,
                4 * n <= v@.len(),
                v@.len() <= usize::MAX,
                pixels@.len() == i,
                forall|j: int| 0 <= j < i ==> pixels@[j] == decode(v@)[j],
        {
            pixels.push(RGB {
                r: v[4 * i],
                g: v[4 * i + 1],
                b: v[4 * i + 2],
                index: i,
            });
        }
        proof {
            assert(pixels@ =~= decode(v@));
        }
        pixels
    }
}

} // verus!

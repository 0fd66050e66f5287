//! Colour analysis and quantization over flat RGBA pixel buffers.
//!
//! The crate decodes a byte buffer into pixels and offers two independent
//! pipelines over the decoded list: a 360-bin hue histogram, and a reduced
//! colour palette computed by recursive median-cut partitioning, optionally
//! used to recolour every pixel with its cluster's mean while keeping the
//! original pixel order.

use vstd::prelude::*;

pub mod cut;
pub mod hue;
pub mod model;
pub mod palette;
pub mod pixel;
pub mod remap;
pub mod select;

pub use crate::remap::compute_recolored_image;

use crate::cut::{is_grouping_of, pow2};
use crate::model::{cut_model, pops_of};
use crate::hue::{bucket_count, histogram, sum_counts};
use crate::palette::{mean_pixel, packed_palette, palette_of};
use crate::pixel::{decode, pack, RGB};

verus! {

/// Builds the hue histogram of a flat RGBA byte buffer: 360 whole-degree
/// bins, bin `b` counting the decoded pixels whose hue lies in `[b, b+1)`
/// degrees. The bins sum to the number of complete 4-byte records.
pub fn run_image(img: Vec<u8>) -> (hist: Vec<usize>)
    ensures
        hist@.len() == 360,
        forall|b: int| 0 <= b < 360 ==> hist@[b] == bucket_count(decode(img@), b),
        sum_counts(hist@) == img@.len() / 4,
{
    let pixels = RGB::arr_from_byte_array(img);
    histogram(&pixels)
}

/// Computes the reduced colour palette of a flat RGBA byte buffer: the
/// decoded pixels are median-cut into non-empty groups that together hold
/// every decoded pixel exactly once, and each group contributes its mean
/// colour, packed as 0xRRGGBB, in group order. An empty buffer yields an
/// empty palette; zero divisions yield the single mean of the whole image.
pub fn calc_palette(img: Vec<u8>, divisions: usize) -> (pal: Vec<u32>)
    ensures
        img@.len() / 4 > 0 ==> exists|gs: Seq<Seq<RGB>>|
            #[trigger] is_grouping_of(gs, decode(img@)) && pops_of(gs) == cut_model(
                decode(img@).to_multiset(),
                divisions as nat,
            ) && pal@ == packed_palette(gs),
        img@.len() / 4 == 0 ==> pal@.len() == 0,
        img@.len() / 4 > 0 ==> pal@.len() >= 1,
        pal@.len() <= pow2(divisions as nat),
        divisions == 0 && img@.len() / 4 > 0 ==> pal@ == seq![pack(mean_pixel(decode(img@)))],
{
    let pixels = RGB::arr_from_byte_array(img);
    let ghost pv = pixels@;
    if pixels.len() == 0 {
        let pal: Vec<u32> = Vec::new();
        return pal;
    }
    let rgb_pal = RGB::calc_palette(pixels, divisions);
    let ghost gs = choose|gs: Seq<Seq<RGB>>|
        #[trigger] is_grouping_of(gs, pv) && pops_of(gs) == cut_model(
            pv.to_multiset(),
            divisions as nat,
        ) && rgb_pal@ == palette_of(gs);
    let mut pal: Vec<u32> = Vec::new();
    let m = rgb_pal.len();
    for idx in 0..m
        invariant
            m == rgb_pal@.len(),
            rgb_pal@ == palette_of(gs),
            pal@.len() == idx,
            forall|j: int| 0 <= j < idx ==> pal@[j] == pack(mean_pixel(gs[j])),
    {
        let p = rgb_pal[idx];
        pal.push(p.to_u32());
    }
    proof {
        assert(pal@ =~= packed_palette(gs));
        if divisions == 0 && pv.len() > 0 {
            assert(rgb_pal@ == seq![mean_pixel(pv)]);
            assert(rgb_pal@[0] == mean_pixel(pv));
            assert(palette_of(gs)[0] == mean_pixel(gs[0]));
            assert(mean_pixel(gs[0]) == mean_pixel(pv));
            assert(pal@[0] == pack(mean_pixel(pv)));
            assert(pal@ =~= seq![pack(mean_pixel(pv))]);
        }
    }
    pal
}

} // verus!


use vstd::prelude::*;

use crate::pixel::RGB;

verus! {

/// The largest of the three channel values.
pub open spec fn max3(r: u8, g: u8, b: u8) -> u8 {
    if r >= g && r >= b {
        r
    } else if g >= b {
        g
    } else {
        b
    }
}

/// The smallest of the three channel values.
pub open spec fn min3(r: u8, g: u8, b: u8) -> u8 {
    if r <= g && r <= b {
        r
    } else if g <= b {
        g
    } else {
        b
    }
}

/// The histogram bin of a pixel's hue: the hue in whole degrees, mod 360.
///
/// The hue of the usual RGB-to-HSL transform is a rational function of the
/// channels: with `mx`/`mn` the largest/smallest channel and `d = mx - mn`,
/// an achromatic pixel (`mx == mn`, tested with exact equality) has hue 0;
/// otherwise the hue in degrees is `60*(g-b)/d` (wrapped by +360 when
/// `g < b`) when red is the largest channel, `60*(b-r)/d + 120` when green
/// is, and `60*(r-g)/d + 240` when blue is. The numerator below folds the
/// wrap and the offsets in, so the whole-degree bin is one exact integer
/// division; it is never negative and always below 360.
pub open spec fn spec_hue_bucket(r: u8, g: u8, b: u8) -> int {
    let mx = max3(r, g, b);
    let mn = min3(r, g, b);
    if mx == mn {
        0
    } else {
        let d = mx - mn;
        let num = if r == mx {
            if g >= b {
                60 * (g - b)
            } else {
                60 * (g - b) + 360 * d
            }
        } else if g == mx {
            60 * (b - r) + 120 * d
        } else {
            60 * (r - g) + 240 * d
        };
        (num / (d as int)) % 360
    }
}

/// The hue bin of a pixel.
pub open spec fn bucket_of(p: RGB) -> int {
    spec_hue_bucket(p.r, p.g, p.b)
}

/// How many pixels of `s` fall in hue bin `b`.
pub open spec fn bucket_count(s: Seq<RGB>, b: int) -> nat
    decreases s.len(),
{
    if s.len() == 0 {
        0
    } else {
        bucket_count(s.drop_last(), b) + (if bucket_of(s.last()) == b {
            1nat
        } else {
            0nat
        })
    }
}

/// The sum of a sequence of bin counts.
pub open spec fn sum_counts(s: Seq<usize>) -> int
    decreases s.len(),
{
    if s.len() == 0 {
        0
    } else {
        sum_counts(s.drop_last()) + s.last()
    }
}

/// No bin of `s` counts more pixels than `s` holds.
pub proof fn lemma_bucket_count_le_len(s: Seq<RGB>, b: int)
    ensures
        bucket_count(s, b) <= s.len(),
    decreases s.len(),
{
    if s.len() > 0 {
        lemma_bucket_count_le_len(s.drop_last(), b);
    }
}

/// Replacing one entry changes the sum by the difference of the entries.
proof fn lemma_sum_update(s: Seq<usize>, i: int, v: usize)
    requires
        0 <= i < s.len(),
    ensures
        sum_counts(s.update(i, v)) == sum_counts(s) - s[i] + v,
    decreases s.len(),
{
    if i == s.len() - 1 {
        assert(s.update(i, v).drop_last() =~= s.drop_last());
    } else {
        assert(s.update(i, v).drop_last() =~= s.drop_last().update(i, v));
        lemma_sum_update(s.drop_last(), i, v);
    }
}

impl RGB {
    /// The hue histogram bin of this pixel, computed exactly in integers.
    pub fn hue_bucket(&self) -> (h: usize)
        ensures
            h == spec_hue_bucket(self.r, self.g, self.b),
            h < 360,
    {
        let r = self.r;
        let g = self.g;
        let b = self.b;
        let mx = if r >= g && r >= b {
            r
        } else if g >= b {
            g
        } else {
            b
        };
        let mn = if r <= g && r <= b {
            r
        } else if g <= b {
            g
        } else {
            b
        };
        if mx == mn {
            return 0;
        }
        let d: u32 = (mx - mn) as u32;
        let num: u32 = if r == mx {
            if g >= b {
                60 * ((g - b) as u32)
            } else {
                360 * d - 60 * ((b - g) as u32)
            }
        } else if g == mx {
            if b >= r {
                60 * ((b - r) as u32) + 120 * d
            } else {
                120 * d - 60 * ((r - b) as u32)
            }
        } else {
            if r >= g {
                60 * ((r - g) as u32) + 240 * d
            } else {
                240 * d - 60 * ((g - r) as u32)
            }
        };
        ((num / d) % 360) as usize
    }
}

/// Buckets every pixel's hue into one of 360 whole-degree bins. Bin `b`
/// counts exactly the pixels whose hue falls in `[b, b+1)` degrees, and the
/// bins sum to the number of pixels.
pub fn histogram(pixels: &Vec<RGB>) -> (hist: Vec<usize>)
    ensures
        hist@.len() == 360,
        forall|b: int| 0 <= b < 360 ==> hist@[b] == bucket_count(pixels@, b),
        sum_counts(hist@) == pixels@.len(),
{
    let mut hist: Vec<usize> = Vec::new();
    for k in 0..360
        invariant
            hist@.len() == k,
            forall|j: int| 0 <= j < k ==> hist@[j] == 0,
            sum_counts(hist@) == 0,
    {
        let ghost prev = hist@;
        hist.push(0);
        proof {
            assert(hist@.drop_last() =~= prev);
        }
    }
    let ghost all = pixels@;
    proof {
        assert(forall|b: int| bucket_count(all.take(0), b) == 0);
    }
    let n = pixels.len();
    for i in 0..n
        invariant
            n == all.len(),
            all == pixels@,
            all.len() <= usize::MAX,
            hist@.len() == 360,
            forall|b: int| 0 <= b < 360 ==> hist@[b] == bucket_count(all.take(i as int), b),
            sum_counts(hist@) == i,
    {
        let bk = pixels[i].hue_bucket();
        let cur = hist[bk];
        proof {
            lemma_bucket_count_le_len(all.take(i as int), bk as int);
            lemma_sum_update(hist@, bk as int, (cur + 1) as usize);
            assert(all.take(i + 1).drop_last() =~= all.take(i as int));
        }
        hist[bk] = cur + 1;
        proof {
            assert forall|b: int| 0 <= b < 360 implies hist@[b] == bucket_count(
                all.take(i + 1),
                b,
            ) by {
                assert(bucket_count(all.take(i + 1), b) == bucket_count(all.take(i as int), b) + (
                if bucket_of(all[i as int]) == b {
                    1nat
                } else {
                    0nat
                }));
            }
        }
    }
    proof {
        assert(all.take(n as int) =~= all);
    }
    hist
}

} // verus!

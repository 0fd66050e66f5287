use vstd::multiset::Multiset;
use vstd::prelude::*;

use crate::cut::{is_grouping_of, median_cut, pow2, views_of};
use crate::model::{cut_model, pops_of};
use crate::pixel::{pack, RGB};

verus! {

broadcast use vstd::seq_lib::group_to_multiset_ensures, vstd::multiset::group_multiset_axioms;

/// The sum of the red channel over a pixel list.
pub open spec fn sum_r(s: Seq<RGB>) -> int
    decreases s.len(),
{
    if s.len() == 0 {
        0
    } else {
        sum_r(s.drop_last()) + s.last().r
    }
}

/// The sum of the green channel over a pixel list.
pub open spec fn sum_g(s: Seq<RGB>) -> int
    decreases s.len(),
{
    if s.len() == 0 {
        0
    } else {
        sum_g(s.drop_last()) + s.last().g
    }
}

/// The sum of the blue channel over a pixel list.
pub open spec fn sum_b(s: Seq<RGB>) -> int
    decreases s.len(),
{
    if s.len() == 0 {
        0
    } else {
        sum_b(s.drop_last()) + s.last().b
    }
}

/// Each channel sum lies between 0 and 255 per pixel.
pub proof fn lemma_sums_bounded(s: Seq<RGB>)
    ensures
        0 <= sum_r(s) <= 255 * s.len(),
        0 <= sum_g(s) <= 255 * s.len(),
        0 <= sum_b(s) <= 255 * s.len(),
    decreases s.len(),
{
    if s.len() > 0 {
        lemma_sums_bounded(s.drop_last());
    }
}

/// Taking one position out takes exactly its channel values out of the sums.
proof fn lemma_sum_remove(s: Seq<RGB>, i: int)
    requires
        0 <= i < s.len(),
    ensures
        sum_r(s) == sum_r(s.remove(i)) + s[i].r,
        sum_g(s) == sum_g(s.remove(i)) + s[i].g,
        sum_b(s) == sum_b(s.remove(i)) + s[i].b,
    decreases s.len(),
{
    if i == s.len() - 1 {
        assert(s.remove(i) =~= s.drop_last());
    } else {
        lemma_sum_remove(s.drop_last(), i);
        assert(s.remove(i).drop_last() =~= s.drop_last().remove(i));
        assert(s.remove(i).last() == s.last());
    }
}

/// The channel sums of a list depend only on which pixels it holds, with
/// multiplicity — not on their order.
pub proof fn lemma_sums_of_population(s1: Seq<RGB>, s2: Seq<RGB>)
    requires
        s1.to_multiset() == s2.to_multiset(),
    ensures
        sum_r(s1) == sum_r(s2),
        sum_g(s1) == sum_g(s2),
        sum_b(s1) == sum_b(s2),
    decreases s1.len(),
{
    assert(s1.to_multiset().len() == s1.len());
    assert(s2.to_multiset().len() == s2.len());
    if s1.len() > 0 {
        let x = s1.last();
        assert(s1.contains(x));
        assert(s2.to_multiset().count(x) > 0);
        assert(s2.contains(x));
        let idx = choose|i: int| 0 <= i < s2.len() && s2[i] == x;
        lemma_sum_remove(s1, s1.len() - 1);
        lemma_sum_remove(s2, idx);
        assert(s1.remove(s1.len() - 1) =~= s1.drop_last());
        assert(s1.drop_last().to_multiset() == s2.remove(idx).to_multiset());
        lemma_sums_of_population(s1.drop_last(), s2.remove(idx));
    }
}

/// The mean colour of a group depends only on its population: two groups
/// holding the same pixels with the same multiplicities have the same mean,
/// whatever their order — so a palette is a function of the leaf
/// populations alone.
pub proof fn lemma_mean_of_population(s1: Seq<RGB>, s2: Seq<RGB>)
    requires
        s1.to_multiset() == s2.to_multiset(),
    ensures
        mean_pixel(s1) == mean_pixel(s2),
{
    lemma_sums_of_population(s1, s2);
    assert(s1.to_multiset().len() == s1.len());
    assert(s2.to_multiset().len() == s2.len());
}

/// The mean colour of a non-empty pixel list: each channel is the integer
/// quotient of the channel sum by the pixel count — truncation, never
/// rounding. The position of the mean is 0.
pub open spec fn mean_pixel(s: Seq<RGB>) -> RGB
    recommends
        s.len() > 0,
{
    RGB {
        r: (sum_r(s) / s.len() as int) as u8,
        g: (sum_g(s) / s.len() as int) as u8,
        b: (sum_b(s) / s.len() as int) as u8,
        index: 0,
    }
}

/// The palette of a grouping: the mean colour of each group, in group order.
pub open spec fn palette_of(gs: Seq<Seq<RGB>>) -> Seq<RGB> {
    Seq::new(gs.len(), |i: int| mean_pixel(gs[i]))
}

/// The palette of a grouping with each colour packed as 0xRRGGBB.
pub open spec fn packed_palette(gs: Seq<Seq<RGB>>) -> Seq<u32> {
    Seq::new(gs.len(), |i: int| pack(mean_pixel(gs[i])))
}

/// The mean colour of one non-empty group.
pub(crate) fn average(group: &Vec<RGB>) -> (m: RGB)
    requires
        group@.len() >= 1,
    ensures
        m == mean_pixel(group@),
{
    let n = group.len();
    let mut acc_r: u128 = 0;
    let mut acc_g: u128 = 0;
    let mut acc_b: u128 = 0;
    for i in 0..n
        invariant
            n == group@.len(),
            n <= usize::MAX,
            acc_r == sum_r(group@.take(i as int)),
            acc_g == sum_g(group@.take(i as int)),
            acc_b == sum_b(group@.take(i as int)),
            acc_r <= 255 * i,
            acc_g <= 255 * i,
            acc_b <= 255 * i,
    {
        let p = group[i];
        proof {
            assert(group@.take(i + 1).drop_last() =~= group@.take(i as int));
        }
        acc_r = acc_r + p.r as u128;
        acc_g = acc_g + p.g as u128;
        acc_b = acc_b + p.b as u128;
    }
    proof {
        assert(group@.take(n as int) =~= group@);
        lemma_sums_bounded(group@);
        assert(sum_r(group@) / (n as int) <= 255 && sum_g(group@) / (n as int) <= 255 && sum_b(
            group@,
        ) / (n as int) <= 255 && sum_r(group@) / (n as int) >= 0 && sum_g(group@) / (n as int) >= 0
            && sum_b(group@) / (n as int) >= 0) by (nonlinear_arith)
            requires
                n >= 1,
                0 <= sum_r(group@) <= 255 * (n as int),
                0 <= sum_g(group@) <= 255 * (n as int),
                0 <= sum_b(group@) <= 255 * (n as int),
        ;
    }
    RGB {
        r: (acc_r / n as u128) as u8,
        g: (acc_g / n as u128) as u8,
        b: (acc_b / n as u128) as u8,
        index: 0,
    }
}

impl RGB {
    /// Reduces a pixel list to its palette: the list is median-cut into
    /// groups and each group is replaced by its mean colour, in group order.
    /// An empty list yields an empty palette; zero divisions yield the single
    /// mean of the whole list.
    pub fn calc_palette(v: Vec<RGB>, divisions: usize) -> (pal: Vec<RGB>)
        ensures
            v@.len() > 0 ==> exists|gs: Seq<Seq<RGB>>|
                #[trigger] is_grouping_of(gs, v@) && pops_of(gs) == cut_model(
                    v@.to_multiset(),
                    divisions as nat,
                ) && pal@ == palette_of(gs),
            v@.len() == 0 ==> pal@.len() == 0,
            v@.len() > 0 ==> pal@.len() >= 1,
            pal@.len() <= pow2(divisions as nat),
            divisions == 0 && v@.len() > 0 ==> pal@ == seq![mean_pixel(v@)],
    {
        if v.len() == 0 {
            let pal: Vec<RGB> = Vec::new();
            return pal;
        }
        let ghost vv = v@;
        let groups = median_cut(v, divisions);
        let ghost gs = views_of(groups@);
        let mut pal: Vec<RGB> = Vec::new();
        let m = groups.len();
        for idx in 0..m
            invariant
                m == groups@.len(),
                gs == views_of(groups@),
                is_grouping_of(gs, vv),
                pal@.len() == idx,
                forall|j: int| 0 <= j < idx ==> pal@[j] == mean_pixel(gs[j]),
        {
            proof {
                assert(gs[idx as int] == groups@[idx as int]@);
                assert(gs[idx as int].len() > 0);
            }
            let m_px = average(&groups[idx]);
            pal.push(m_px);
        }
        proof {
            assert(pal@ =~= palette_of(gs));
            if groups@.len() == 0 {
                assert(gs =~= Seq::<Seq<RGB>>::empty());
                assert(vv.to_multiset().len() == vv.len());
                assert(false);
            }
            if divisions == 0 {
                assert(gs[0] == vv);
                assert(pal@ =~= seq![mean_pixel(vv)]);
            }
        }
        pal
    }
}

} // verus!

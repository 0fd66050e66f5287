use vstd::multiset::Multiset;
use vstd::prelude::*;

use crate::model::{
    chan_bounds, chooses_channel, cut_model, drop_empty, is_median_value, lemma_count_above_bound,
    lemma_count_at_least_bound, lemma_cut_model_step, lemma_drop_empty_push, lemma_pops_drop_empty,
    lemma_three_way_split, pick_channel, pops_of, splits_at, three_way,
};
use crate::pixel::{chan, Channel, RGB};
use crate::select::median_of_array;

verus! {

broadcast use vstd::seq_lib::group_to_multiset_ensures, vstd::multiset::group_multiset_axioms;

/// The views of a list of pixel lists.
pub open spec fn views_of(gs: Seq<Vec<RGB>>) -> Seq<Seq<RGB>> {
    Seq::new(gs.len(), |i: int| gs[i]@)
}

/// All the pixels held by a list of groups, with multiplicity.
pub open spec fn groups_msum(gs: Seq<Seq<RGB>>) -> Multiset<RGB>
    decreases gs.len(),
{
    if gs.len() == 0 {
        Multiset::empty()
    } else {
        groups_msum(gs.drop_last()).add(gs.last().to_multiset())
    }
}

/// Every group holds at least one pixel.
pub open spec fn all_nonempty(gs: Seq<Seq<RGB>>) -> bool {
    forall|i: int| 0 <= i < gs.len() ==> gs[i].len() > 0
}

/// The number of leaf partitions a division budget can produce.
pub open spec fn pow2(n: nat) -> nat
    decreases n,
{
    if n == 0 {
        1
    } else {
        2 * pow2((n - 1) as nat)
    }
}

/// A division budget always allows at least one leaf.
pub proof fn lemma_pow2_pos(n: nat)
    ensures
        pow2(n) >= 1,
    decreases n,
{
    if n > 0 {
        lemma_pow2_pos((n - 1) as nat);
    }
}

/// `gs` splits `s` into non-empty groups: each group is non-empty and
/// together the groups hold exactly the elements of `s`, with multiplicity —
/// so the groups are pairwise disjoint portions of `s` and their union is all
/// of `s`.
pub open spec fn is_grouping_of(gs: Seq<Seq<RGB>>, s: Seq<RGB>) -> bool {
    &&& groups_msum(gs) == s.to_multiset()
    &&& all_nonempty(gs)
}

/// Appending one group adds exactly its elements.
pub proof fn lemma_msum_push(gs: Seq<Seq<RGB>>, g: Seq<RGB>)
    ensures
        groups_msum(gs.push(g)) == groups_msum(gs).add(g.to_multiset()),
{
    assert(gs.push(g).drop_last() =~= gs);
}

/// The elements of concatenated group lists are the two groups' elements put
/// together.
pub proof fn lemma_msum_concat(a: Seq<Seq<RGB>>, b: Seq<Seq<RGB>>)
    ensures
        groups_msum(a + b) == groups_msum(a).add(groups_msum(b)),
    decreases b.len(),
{
    if b.len() == 0 {
        assert(a + b =~= a);
        assert(groups_msum(a).add(groups_msum(b)) =~= groups_msum(a));
    } else {
        lemma_msum_concat(a, b.drop_last());
        assert((a + b).drop_last() =~= a + b.drop_last());
        assert((a + b).last() == b.last());
        assert(groups_msum(a).add(groups_msum(b.drop_last())).add(b.last().to_multiset())
            =~= groups_msum(a).add(groups_msum(b.drop_last()).add(b.last().to_multiset())));
        assert(groups_msum(b.drop_last()).add(b.last().to_multiset()) == groups_msum(b));
    }
}

/// A group's count of a pixel never exceeds the whole grouping's count.
pub proof fn lemma_msum_count_group(gs: Seq<Seq<RGB>>, j: int, x: RGB)
    requires
        0 <= j < gs.len(),
    ensures
        groups_msum(gs).count(x) >= gs[j].to_multiset().count(x),
    decreases gs.len(),
{
    if j == gs.len() - 1 {
    } else {
        lemma_msum_count_group(gs.drop_last(), j, x);
        assert(gs.drop_last()[j] == gs[j]);
    }
}

/// Two different groups both holding a pixel put it at least twice into the
/// grouping as a whole.
pub proof fn lemma_msum_count_two_groups(gs: Seq<Seq<RGB>>, j: int, k: int, x: RGB)
    requires
        0 <= j < k < gs.len(),
        gs[j].to_multiset().count(x) >= 1,
        gs[k].to_multiset().count(x) >= 1,
    ensures
        groups_msum(gs).count(x) >= 2,
    decreases gs.len(),
{
    if k == gs.len() - 1 {
        lemma_msum_count_group(gs.drop_last(), j, x);
        assert(gs.drop_last()[j] == gs[j]);
    } else {
        assert(gs.drop_last()[j] == gs[j]);
        assert(gs.drop_last()[k] == gs[k]);
        lemma_msum_count_two_groups(gs.drop_last(), j, k, x);
    }
}

/// A pixel counted by the grouping lies in one of its groups.
pub proof fn lemma_msum_member(gs: Seq<Seq<RGB>>, x: RGB)
    requires
        groups_msum(gs).count(x) >= 1,
    ensures
        exists|j: int| 0 <= j < gs.len() && (#[trigger] gs[j]).contains(x),
    decreases gs.len(),
{
    if gs.len() == 0 {
        assert(false);
    } else if gs.last().to_multiset().count(x) >= 1 {
        assert(gs[gs.len() - 1].contains(x));
    } else {
        lemma_msum_member(gs.drop_last(), x);
        let j = choose|j: int|
            0 <= j < gs.drop_last().len() && (#[trigger] gs.drop_last()[j]).contains(x);
        assert(gs[j].contains(x));
    }
}

/// The pixel lies in at least one group of the grouping.
pub open spec fn in_some_group(gs: Seq<Seq<RGB>>, x: RGB) -> bool {
    exists|j: int| 0 <= j < gs.len() && #[trigger] gs[j].contains(x)
}

/// A grouping of a duplicate-free pixel list is a true partition of it:
/// every group member is a pixel of the list, every pixel of the list lies
/// in some group, and no two groups share a pixel — so the union of the
/// groups is exactly the list and the groups are pairwise disjoint.
pub proof fn lemma_grouping_partition(gs: Seq<Seq<RGB>>, s: Seq<RGB>)
    requires
        is_grouping_of(gs, s),
        s.no_duplicates(),
    ensures
        forall|j: int, x: RGB|
            0 <= j < gs.len() && #[trigger] gs[j].contains(x) ==> s.contains(x),
        forall|p: int| 0 <= p < s.len() ==> in_some_group(gs, #[trigger] s[p]),
        forall|j: int, k: int, x: RGB|
            0 <= j < gs.len() && 0 <= k < gs.len() && j != k && #[trigger] gs[j].contains(x)
                ==> !(#[trigger] gs[k].contains(x)),
{
    s.lemma_multiset_has_no_duplicates();
    assert forall|j: int, x: RGB|
        0 <= j < gs.len() && #[trigger] gs[j].contains(x) implies s.contains(x) by {
        lemma_msum_count_group(gs, j, x);
        assert(s.to_multiset().count(x) >= 1);
    }
    assert forall|p: int| 0 <= p < s.len() implies in_some_group(gs, #[trigger] s[p]) by {
        assert(s.contains(s[p]));
        assert(s.to_multiset().count(s[p]) >= 1);
        lemma_msum_member(gs, s[p]);
        let j = choose|j: int| 0 <= j < gs.len() && (#[trigger] gs[j]).contains(s[p]);
        assert(gs[j].contains(s[p]));
    }
    assert forall|j: int, k: int, x: RGB|
        0 <= j < gs.len() && 0 <= k < gs.len() && j != k && #[trigger] gs[j].contains(x)
        implies !(#[trigger] gs[k].contains(x)) by {
        if gs[k].contains(x) {
            if j < k {
                lemma_msum_count_two_groups(gs, j, k, x);
            } else {
                lemma_msum_count_two_groups(gs, k, j, x);
            }
            lemma_msum_count_group(gs, j, x);
            assert(s.to_multiset().count(x) >= 2);
            assert(s.to_multiset().count(x) <= 1);
        }
    }
}

/// One pass over the list, folding per-channel minima and maxima.
fn min_max(v: &Vec<RGB>) -> (mm: (RGB, RGB))
    ensures
        forall|i: int|
            0 <= i < v@.len() ==> mm.0.r <= v@[i].r && mm.0.g <= v@[i].g && mm.0.b <= v@[i].b,
        forall|i: int|
            0 <= i < v@.len() ==> v@[i].r <= mm.1.r && v@[i].g <= mm.1.g && v@[i].b <= mm.1.b,
        v@.len() > 0 ==> mm.0.r <= mm.1.r && mm.0.g <= mm.1.g && mm.0.b <= mm.1.b,
        v@.len() > 0 ==> exists|i: int| #![trigger v@[i]] 0 <= i < v@.len() && v@[i].r == mm.1.r,
        v@.len() > 0 ==> exists|i: int| #![trigger v@[i]] 0 <= i < v@.len() && v@[i].g == mm.1.g,
        v@.len() > 0 ==> exists|i: int| #![trigger v@[i]] 0 <= i < v@.len() && v@[i].b == mm.1.b,
        v@.len() > 0 ==> exists|i: int| #![trigger v@[i]] 0 <= i < v@.len() && v@[i].r == mm.0.r,
        v@.len() > 0 ==> exists|i: int| #![trigger v@[i]] 0 <= i < v@.len() && v@[i].g == mm.0.g,
        v@.len() > 0 ==> exists|i: int| #![trigger v@[i]] 0 <= i < v@.len() && v@[i].b == mm.0.b,
{
    let mut mn = RGB::white();
    let mut mx = RGB::black();
    let n = v.len();
    for i in 0..n
        invariant
            n == v@.len(),
            forall|t: int| 0 <= t < i ==> mn.r <= v@[t].r && mn.g <= v@[t].g && mn.b <= v@[t].b,
            forall|t: int| 0 <= t < i ==> v@[t].r <= mx.r && v@[t].g <= mx.g && v@[t].b <= mx.b,
            i > 0 ==> mn.r <= mx.r && mn.g <= mx.g && mn.b <= mx.b,
            i == 0 ==> mx == (RGB { r: 0, g: 0, b: 0, index: 0 }) && mn == (RGB {
                r: 255,
                g: 255,
                b: 255,
                index: 0,
            }),
            i > 0 ==> exists|t: int| #![trigger v@[t]] 0 <= t < i && v@[t].r == mx.r,
            i > 0 ==> exists|t: int| #![trigger v@[t]] 0 <= t < i && v@[t].g == mx.g,
            i > 0 ==> exists|t: int| #![trigger v@[t]] 0 <= t < i && v@[t].b == mx.b,
            i > 0 ==> exists|t: int| #![trigger v@[t]] 0 <= t < i && v@[t].r == mn.r,
            i > 0 ==> exists|t: int| #![trigger v@[t]] 0 <= t < i && v@[t].g == mn.g,
            i > 0 ==> exists|t: int| #![trigger v@[t]] 0 <= t < i && v@[t].b == mn.b,
    {
        let p = v[i];
        if p.r < mn.r {
            mn.r = p.r;
        }
        if p.g < mn.g {
            mn.g = p.g;
        }
        if p.b < mn.b {
            mn.b = p.b;
        }
        if p.r > mx.r {
            mx.r = p.r;
        }
        if p.g > mx.g {
            mx.g = p.g;
        }
        if p.b > mx.b {
            mx.b = p.b;
        }
        proof {
            let vi = i as int;
            assert(v@[vi] == p);
            assert(exists|t: int| #![trigger v@[t]] 0 <= t < i + 1 && v@[t].r == mx.r) by {
                if mx.r == p.r {
                    assert(0 <= vi < i + 1 && v@[vi].r == mx.r);
                }
            }
            assert(exists|t: int| #![trigger v@[t]] 0 <= t < i + 1 && v@[t].g == mx.g) by {
                if mx.g == p.g {
                    assert(0 <= vi < i + 1 && v@[vi].g == mx.g);
                }
            }
            assert(exists|t: int| #![trigger v@[t]] 0 <= t < i + 1 && v@[t].b == mx.b) by {
                if mx.b == p.b {
                    assert(0 <= vi < i + 1 && v@[vi].b == mx.b);
                }
            }
            assert(exists|t: int| #![trigger v@[t]] 0 <= t < i + 1 && v@[t].r == mn.r) by {
                if mn.r == p.r {
                    assert(0 <= vi < i + 1 && v@[vi].r == mn.r);
                }
            }
            assert(exists|t: int| #![trigger v@[t]] 0 <= t < i + 1 && v@[t].g == mn.g) by {
                if mn.g == p.g {
                    assert(0 <= vi < i + 1 && v@[vi].g == mn.g);
                }
            }
            assert(exists|t: int| #![trigger v@[t]] 0 <= t < i + 1 && v@[t].b == mn.b) by {
                if mn.b == p.b {
                    assert(0 <= vi < i + 1 && v@[vi].b == mn.b);
                }
            }
        }
    }
    (mn, mx)
}

/// Splits a list into the pixels strictly above the threshold along `c` and
/// the rest, keeping encounter order within each side. Every pixel whose
/// channel ties the threshold lands on the "not greater" side.
fn split_by_channel(v: Vec<RGB>, c: Channel, threshold: u8) -> (parts: (Vec<RGB>, Vec<RGB>))
    ensures
        parts.0@.to_multiset().add(parts.1@.to_multiset()) == v@.to_multiset(),
        forall|i: int| 0 <= i < parts.0@.len() ==> chan(parts.0@[i], c) > threshold,
        forall|i: int| 0 <= i < parts.1@.len() ==> chan(parts.1@[i], c) <= threshold,
        parts.0@.len() + parts.1@.len() == v@.len(),
        (exists|i: int| 0 <= i < v@.len() && chan(v@[i], c) <= threshold) ==> parts.1@.len() > 0,
{
    let ghost s = v@;
    let mut hi: Vec<RGB> = Vec::new();
    let mut lo: Vec<RGB> = Vec::new();
    let n = v.len();
    for idx in 0..n
        invariant
            n == s.len(),
            s == v@,
            hi@.to_multiset().add(lo@.to_multiset()) == s.take(idx as int).to_multiset(),
            forall|i: int| 0 <= i < hi@.len() ==> chan(hi@[i], c) > threshold,
            forall|i: int| 0 <= i < lo@.len() ==> chan(lo@[i], c) <= threshold,
            hi@.len() + lo@.len() == idx,
            forall|t: int| 0 <= t < idx && chan(s[t], c) <= threshold ==> lo@.len() > 0,
    {
        let p = v[idx];
        proof {
            assert(s.take(idx + 1) =~= s.take(idx as int).push(s[idx as int]));
        }
        if p.channel(c) > threshold {
            let ghost hi_pre = hi@;
            hi.push(p);
            proof {
                assert(hi@ == hi_pre.push(p));
                assert(hi@.to_multiset() == hi_pre.to_multiset().insert(p));
                assert(hi@.to_multiset().add(lo@.to_multiset()) =~= hi_pre.to_multiset().add(
                    lo@.to_multiset(),
                ).insert(p));
            }
        } else {
            let ghost lo_pre = lo@;
            lo.push(p);
            proof {
                assert(lo@ == lo_pre.push(p));
                assert(lo@.to_multiset() == lo_pre.to_multiset().insert(p));
                assert(hi@.to_multiset().add(lo@.to_multiset()) =~= hi@.to_multiset().add(
                    lo_pre.to_multiset(),
                ).insert(p));
            }
        }
    }
    proof {
        assert(s.take(n as int) =~= s);
    }
    (hi, lo)
}

/// Recursive median-cut partitioning. With a division budget left and at
/// least two pixels, the pixels are split at the median of the channel with
/// the greatest value range and both sides are partitioned further with the
/// budget reduced by one; results are concatenated first-side-first and empty
/// groups are dropped. Otherwise the whole input comes back as the single
/// group. The groups always hold exactly the input pixels, and on non-empty
/// input every group is non-empty.
#[verifier::rlimit(100)]
pub fn median_cut(rgb: Vec<RGB>, divisions: usize) -> (groups: Vec<Vec<RGB>>)
    ensures
        groups_msum(views_of(groups@)) == rgb@.to_multiset(),
        rgb@.len() > 0 ==> is_grouping_of(views_of(groups@), rgb@),
        (divisions == 0 || rgb@.len() <= 1) ==> groups@.len() == 1 && groups@[0]@ == rgb@,
        groups@.len() <= pow2(divisions as nat),
        pops_of(views_of(groups@)) == cut_model(rgb@.to_multiset(), divisions as nat),
    decreases divisions,
{
    if divisions == 0 || rgb.len() <= 1 {
        proof {
            lemma_pow2_pos(divisions as nat);
        }
        let ghost rv = rgb@;
        let mut out: Vec<Vec<RGB>> = Vec::new();
        out.push(rgb);
        proof {
            assert(views_of(out@) =~= seq![rv]);
            lemma_msum_push(Seq::<Seq<RGB>>::empty(), rv);
            assert(seq![rv] =~= Seq::<Seq<RGB>>::empty().push(rv));
            assert(groups_msum(views_of(out@)) =~= rv.to_multiset());
            assert(rv.to_multiset().len() == rv.len());
            assert(views_of(out@)[0] == rv);
            assert(pops_of(views_of(out@)) =~= cut_model(rv.to_multiset(), divisions as nat));
        }
        return out;
    }
    let mm = min_max(&rgb);
    let ranges = mm.1.minus(&mm.0);
    // Known quirk, kept on purpose: red or green is chosen only on a strictly
    // greatest range, so when the red and green ranges tie (both at least
    // blue's) neither strict test holds and the split falls through to blue.
    let red_is_max = ranges.r > ranges.g && ranges.r > ranges.b;
    let green_is_max = ranges.g > ranges.r && ranges.g > ranges.b;
    let channel = if red_is_max {
        Channel::Red
    } else if green_is_max {
        Channel::Green
    } else {
        Channel::Blue
    };
    let mut work = rgb;
    let ghost rv = work@;
    let med = median_of_array(&mut work, channel);
    let threshold = med.channel(channel);
    proof {
        assert(work@[rv.len() as int / 2] == med);
        assert(chan(work@[rv.len() as int / 2], channel) <= threshold);
        let ms = rv.to_multiset();
        assert(ms.len() == rv.len());
        assert forall|p: RGB| #[trigger] ms.count(p) > 0 implies mm.0.r <= p.r && p.r <= mm.1.r
            && mm.0.g <= p.g && p.g <= mm.1.g && mm.0.b <= p.b && p.b <= mm.1.b by {
            assert(rv.contains(p));
            let i = choose|i: int| 0 <= i < rv.len() && rv[i] == p;
            assert(mm.0.r <= rv[i].r && rv[i].r <= mm.1.r);
        }
        let i1 = choose|i: int| 0 <= i < rv.len() && (#[trigger] rv[i]).r == mm.1.r;
        let i2 = choose|i: int| 0 <= i < rv.len() && (#[trigger] rv[i]).g == mm.1.g;
        let i3 = choose|i: int| 0 <= i < rv.len() && (#[trigger] rv[i]).b == mm.1.b;
        let i4 = choose|i: int| 0 <= i < rv.len() && (#[trigger] rv[i]).r == mm.0.r;
        let i5 = choose|i: int| 0 <= i < rv.len() && (#[trigger] rv[i]).g == mm.0.g;
        let i6 = choose|i: int| 0 <= i < rv.len() && (#[trigger] rv[i]).b == mm.0.b;
        assert(rv.contains(rv[i1]) && ms.count(rv[i1]) > 0);
        assert(rv.contains(rv[i2]) && ms.count(rv[i2]) > 0);
        assert(rv.contains(rv[i3]) && ms.count(rv[i3]) > 0);
        assert(rv.contains(rv[i4]) && ms.count(rv[i4]) > 0);
        assert(rv.contains(rv[i5]) && ms.count(rv[i5]) > 0);
        assert(rv.contains(rv[i6]) && ms.count(rv[i6]) > 0);
        assert(chan_bounds(ms, mm.0, mm.1));
        assert(pick_channel(mm.0, mm.1) == channel);
        assert(chooses_channel(ms, channel));
        let k = rv.len() as int / 2;
        let tw = lemma_three_way_split(work@, channel, threshold);
        assert forall|i: int| k <= i < work@.len() implies chan(#[trigger] work@[i], channel)
            <= threshold by {
            if i > k {
                assert(chan(work@[i], channel) <= chan(med, channel));
            }
        }
        lemma_count_above_bound(work@, channel, threshold, k);
        assert forall|i: int| 0 <= i < k + 1 implies chan(#[trigger] work@[i], channel)
            >= threshold by {
            if i < k {
                assert(chan(work@[i], channel) >= chan(med, channel));
            }
        }
        lemma_count_at_least_bound(work@, channel, threshold, k + 1);
        assert(work@.to_multiset() == ms);
        assert(three_way(ms, channel, threshold, tw.0, tw.1, tw.2));
        assert(tw.0.len() <= ms.len() / 2 && tw.0.len() + tw.1.len() > ms.len() / 2);
        assert(is_median_value(ms, channel, threshold));
    }
    let parts = split_by_channel(work, channel, threshold);
    let ghost hi_view = parts.0@;
    let ghost lo_view = parts.1@;
    proof {
        let ms = rv.to_multiset();
        assert forall|p: RGB| #[trigger] hi_view.to_multiset().count(p) > 0 implies chan(
            p,
            channel,
        ) > threshold by {
            assert(hi_view.contains(p));
            let i = choose|i: int| 0 <= i < hi_view.len() && hi_view[i] == p;
        }
        assert forall|p: RGB| #[trigger] lo_view.to_multiset().count(p) > 0 implies chan(
            p,
            channel,
        ) <= threshold by {
            assert(lo_view.contains(p));
            let i = choose|i: int| 0 <= i < lo_view.len() && lo_view[i] == p;
        }
        assert(splits_at(ms, channel, threshold, hi_view.to_multiset(), lo_view.to_multiset()));
    }
    let mut acc = median_cut(parts.0, divisions - 1);
    let mut acc2 = median_cut(parts.1, divisions - 1);
    let ghost acc_view = views_of(acc@);
    let ghost acc2_view = views_of(acc2@);
    acc.append(&mut acc2);
    proof {
        assert(views_of(acc@) =~= acc_view + acc2_view);
        lemma_msum_concat(acc_view, acc2_view);
        assert(groups_msum(views_of(acc@)) =~= rv.to_multiset());
    }
    let ghost accv = views_of(acc@);
    let mut rest = acc;
    let mut groups: Vec<Vec<RGB>> = Vec::new();
    proof {
        assert(accv.skip(0) =~= accv);
        assert(views_of(groups@) =~= Seq::<Seq<RGB>>::empty());
        assert(accv.take(0) =~= Seq::<Seq<RGB>>::empty());
        assert(drop_empty(accv.take(0)) =~= Seq::<Seq<RGB>>::empty());
    }
    while rest.len() > 0
        invariant
            views_of(rest@) == accv.skip(accv.len() - rest@.len()),
            rest@.len() <= accv.len(),
            groups_msum(views_of(groups@)) == groups_msum(
                accv.take(accv.len() - rest@.len()),
            ),
            all_nonempty(views_of(groups@)),
            groups@.len() + rest@.len() <= accv.len(),
            views_of(groups@) == drop_empty(accv.take(accv.len() - rest@.len())),
        decreases rest@.len(),
    {
        let ghost done = accv.len() - rest@.len();
        let ghost rest_pre = rest@;
        let g = rest.remove(0);
        proof {
            assert(views_of(rest_pre)[0] == accv.skip(done)[0]);
            assert(accv[done] == g@);
            assert forall|i: int| 0 <= i < rest@.len() implies views_of(rest@)[i] == accv.skip(
                done + 1,
            )[i] by {
                assert(rest@[i] == rest_pre[i + 1]);
                assert(views_of(rest_pre)[i + 1] == rest_pre[i + 1]@);
            }
            assert(views_of(rest@) =~= accv.skip(done + 1));
            assert(accv.take(done + 1) =~= accv.take(done).push(accv[done]));
            lemma_msum_push(accv.take(done), accv[done]);
            lemma_drop_empty_push(accv.take(done), accv[done]);
        }
        if g.len() > 0 {
            let ghost gv = views_of(groups@);
            groups.push(g);
            proof {
                assert(views_of(groups@) =~= gv.push(accv[done]));
                lemma_msum_push(gv, accv[done]);
            }
        } else {
            proof {
                assert(g@.to_multiset() =~= Multiset::<RGB>::empty());
                assert(groups_msum(accv.take(done + 1)) =~= groups_msum(accv.take(done)));
            }
        }
    }
    proof {
        assert(accv.take(accv.len() as int) =~= accv);
        assert(groups_msum(views_of(groups@)) =~= rv.to_multiset());
        let ms = rv.to_multiset();
        let d = divisions as nat;
        let subd = (d - 1) as nat;
        let hi_ms = hi_view.to_multiset();
        let lo_ms = lo_view.to_multiset();
        assert(subd == (divisions - 1) as nat);
        assert(pops_of(acc_view) == cut_model(hi_ms, subd));
        assert(pops_of(acc2_view) == cut_model(lo_ms, subd));
        assert(views_of(groups@) == drop_empty(acc_view + acc2_view));
        assert(ms.len() == rv.len());
        assert(splits_at(ms, channel, threshold, hi_ms, lo_ms));
        lemma_cut_model_step(ms, d, channel, threshold, hi_ms, lo_ms);
        lemma_pops_drop_empty(acc_view + acc2_view);
        assert(pops_of(acc_view + acc2_view) =~= pops_of(acc_view) + pops_of(acc2_view));
        assert(pops_of(views_of(groups@)) == cut_model(ms, d));

    }
    groups
}

} // verus!

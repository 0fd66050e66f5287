use vstd::multiset::Multiset;
use vstd::prelude::*;

use crate::pixel::{chan, Channel, RGB};

verus! {

broadcast use vstd::seq_lib::group_to_multiset_ensures, vstd::multiset::group_multiset_axioms;

// The functional model of the median-cut recursion: `cut_model` maps a pixel
// population and a division budget to the leaf populations the recursion
// produces, in left-subtree-first order. It is stated over the population's
// multiset, so it depends on nothing but the pixels themselves (with
// multiplicity) and the budget; the channel, the median and the split it
// chooses at each step are each proved unique below.

/// How many positions of the list hold a channel value strictly above `t`.
pub open spec fn count_above(s: Seq<RGB>, c: Channel, t: u8) -> nat
    decreases s.len(),
{
    if s.len() == 0 {
        0
    } else {
        count_above(s.drop_last(), c, t) + (if chan(s.last(), c) > t {
            1nat
        } else {
            0nat
        })
    }
}

/// How many positions of the list hold a channel value of at least `t`.
pub open spec fn count_at_least(s: Seq<RGB>, c: Channel, t: u8) -> nat
    decreases s.len(),
{
    if s.len() == 0 {
        0
    } else {
        count_at_least(s.drop_last(), c, t) + (if chan(s.last(), c) >= t {
            1nat
        } else {
            0nat
        })
    }
}

/// `mn` and `mx` are the per-channel minima and maxima of the population:
/// they bound every pixel in it and each of the six values is attained.
pub open spec fn chan_bounds(ms: Multiset<RGB>, mn: RGB, mx: RGB) -> bool {
    &&& forall|p: RGB|
        #[trigger] ms.count(p) > 0 ==> mn.r <= p.r && p.r <= mx.r && mn.g <= p.g && p.g <= mx.g
            && mn.b <= p.b && p.b <= mx.b
    &&& exists|p: RGB| #[trigger] ms.count(p) > 0 && p.r == mx.r
    &&& exists|p: RGB| #[trigger] ms.count(p) > 0 && p.g == mx.g
    &&& exists|p: RGB| #[trigger] ms.count(p) > 0 && p.b == mx.b
    &&& exists|p: RGB| #[trigger] ms.count(p) > 0 && p.r == mn.r
    &&& exists|p: RGB| #[trigger] ms.count(p) > 0 && p.g == mn.g
    &&& exists|p: RGB| #[trigger] ms.count(p) > 0 && p.b == mn.b
}

/// The split channel for the given per-channel minima and maxima: red or
/// green only on a strictly greatest range, blue otherwise — so equal red
/// and green ranges fall through to blue even when blue's range is smaller.
pub open spec fn pick_channel(mn: RGB, mx: RGB) -> Channel {
    let rr = mx.r - mn.r;
    let rg = mx.g - mn.g;
    let rb = mx.b - mn.b;
    if rr > rg && rr > rb {
        Channel::Red
    } else if rg > rr && rg > rb {
        Channel::Green
    } else {
        Channel::Blue
    }
}

/// `c` is the channel the recursion splits the population on: the one picked
/// by the strict-maxima range rule.
pub open spec fn chooses_channel(ms: Multiset<RGB>, c: Channel) -> bool {
    exists|mn: RGB, mx: RGB| #[trigger] chan_bounds(ms, mn, mx) && c == pick_channel(mn, mx)
}

/// The population decomposes into the pixels strictly above `m`, exactly at
/// `m`, and strictly below `m`, along channel `c`.
pub open spec fn three_way(
    ms: Multiset<RGB>,
    c: Channel,
    m: u8,
    hi: Multiset<RGB>,
    eq: Multiset<RGB>,
    lt: Multiset<RGB>,
) -> bool {
    &&& hi.add(eq).add(lt) == ms
    &&& forall|p: RGB| #[trigger] hi.count(p) > 0 ==> chan(p, c) > m
    &&& forall|p: RGB| #[trigger] eq.count(p) > 0 ==> chan(p, c) == m
    &&& forall|p: RGB| #[trigger] lt.count(p) > 0 ==> chan(p, c) < m
}

/// `m` is the channel value at position `len/2` of the population sorted in
/// descending channel order — the order statistic the selector lands on: at
/// most `len/2` pixels lie strictly above `m`, and more than `len/2` lie at
/// or above it.
pub open spec fn is_median_value(ms: Multiset<RGB>, c: Channel, m: u8) -> bool {
    exists|hi: Multiset<RGB>, eq: Multiset<RGB>, lt: Multiset<RGB>|
        #[trigger] three_way(ms, c, m, hi, eq, lt) && hi.len() <= ms.len() / 2 && hi.len()
            + eq.len() > ms.len() / 2
}

/// The population splits into the pixels strictly above `m` and the rest
/// along channel `c`; every tie with `m` lands on the "not greater" side.
pub open spec fn splits_at(
    ms: Multiset<RGB>,
    c: Channel,
    m: u8,
    hi: Multiset<RGB>,
    lo: Multiset<RGB>,
) -> bool {
    &&& hi.add(lo) == ms
    &&& forall|p: RGB| #[trigger] hi.count(p) > 0 ==> chan(p, c) > m
    &&& forall|p: RGB| #[trigger] lo.count(p) > 0 ==> chan(p, c) <= m
}

/// The list of leaf populations with the empty ones removed, order kept.
pub open spec fn drop_empty_pops(ls: Seq<Multiset<RGB>>) -> Seq<Multiset<RGB>>
    decreases ls.len(),
{
    if ls.len() == 0 {
        Seq::empty()
    } else {
        drop_empty_pops(ls.drop_last()) + (if ls.last().len() > 0 {
            seq![ls.last()]
        } else {
            Seq::<Multiset<RGB>>::empty()
        })
    }
}

/// The group list with its empty groups removed, order kept.
pub open spec fn drop_empty(gs: Seq<Seq<RGB>>) -> Seq<Seq<RGB>>
    decreases gs.len(),
{
    if gs.len() == 0 {
        Seq::empty()
    } else {
        drop_empty(gs.drop_last()) + (if gs.last().len() > 0 {
            seq![gs.last()]
        } else {
            Seq::<Seq<RGB>>::empty()
        })
    }
}

/// The population of each group of a group list, in group order.
pub open spec fn pops_of(gs: Seq<Seq<RGB>>) -> Seq<Multiset<RGB>> {
    Seq::new(gs.len(), |i: int| gs[i].to_multiset())
}

/// The leaf populations of the median-cut recursion on population `ms` with
/// `d` divisions left, in left-subtree-first order. With no budget left or
/// at most one pixel the whole population is the single leaf. Otherwise the
/// population is split on the channel with the strictly greatest range
/// (ties fall through to blue), at the median channel value, the
/// strictly-greater side against the rest (ties with the median go to the
/// "not greater" side); both sides are cut further with one less division,
/// the first side's leaves precede the second side's, and empty leaves are
/// dropped.
pub open spec fn cut_model(ms: Multiset<RGB>, d: nat) -> Seq<Multiset<RGB>>
    decreases d,
{
    if d == 0 || ms.len() <= 1 {
        seq![ms]
    } else {
        let c = choose|c: Channel| chooses_channel(ms, c);
        let m = choose|m: u8| is_median_value(ms, c, m);
        let hl = choose|hl: (Multiset<RGB>, Multiset<RGB>)| splits_at(ms, c, m, hl.0, hl.1);
        drop_empty_pops(cut_model(hl.0, (d - 1) as nat) + cut_model(hl.1, (d - 1) as nat))
    }
}

/// Only one channel satisfies the range rule on a given population.
pub proof fn lemma_channel_unique(ms: Multiset<RGB>, c1: Channel, c2: Channel)
    requires
        chooses_channel(ms, c1),
        chooses_channel(ms, c2),
    ensures
        c1 == c2,
{
    let (mn1, mx1) = choose|mn: RGB, mx: RGB|
        #[trigger] chan_bounds(ms, mn, mx) && c1 == pick_channel(mn, mx);
    let (mn2, mx2) = choose|mn: RGB, mx: RGB|
        #[trigger] chan_bounds(ms, mn, mx) && c2 == pick_channel(mn, mx);
    assert(mx1.r == mx2.r && mx1.g == mx2.g && mx1.b == mx2.b && mn1.r == mn2.r && mn1.g == mn2.g
        && mn1.b == mn2.b);
}

/// Only one channel value is the median of a population along a channel.
pub proof fn lemma_median_unique(ms: Multiset<RGB>, c: Channel, m1: u8, m2: u8)
    requires
        is_median_value(ms, c, m1),
        is_median_value(ms, c, m2),
    ensures
        m1 == m2,
{
    if m1 != m2 {
        let lo_m = if m1 < m2 {
            m1
        } else {
            m2
        };
        let hi_m = if m1 < m2 {
            m2
        } else {
            m1
        };
        let (a1, e1, l1) = choose|a: Multiset<RGB>, e: Multiset<RGB>, l: Multiset<RGB>|
            #[trigger] three_way(ms, c, lo_m, a, e, l) && a.len() <= ms.len() / 2 && a.len()
                + e.len() > ms.len() / 2;
        let (a2, e2, l2) = choose|a: Multiset<RGB>, e: Multiset<RGB>, l: Multiset<RGB>|
            #[trigger] three_way(ms, c, hi_m, a, e, l) && a.len() <= ms.len() / 2 && a.len()
                + e.len() > ms.len() / 2;
        // everything at or above the larger value lies strictly above the
        // smaller one, so the larger value's upper block fits inside the
        // smaller value's strict-upper block
        assert forall|p: RGB| true implies a2.add(e2).count(p) <= a1.count(p) by {
            if a2.count(p) > 0 || e2.count(p) > 0 {
                assert(chan(p, c) >= hi_m);
                assert(e1.count(p) == 0 && l1.count(p) == 0);
                assert(a1.add(e1).add(l1).count(p) == a1.count(p));
                assert(a2.add(e2).count(p) <= ms.count(p));
            }
        }
        assert(a2.add(e2).subset_of(a1));
        assert(a1.sub(a2.add(e2)).len() == a1.len() - a2.add(e2).len());
        assert(a2.len() + e2.len() <= a1.len());
        assert(false);
    }
}

/// A population splits at a threshold in only one way.
pub proof fn lemma_split_unique(
    ms: Multiset<RGB>,
    c: Channel,
    m: u8,
    hi1: Multiset<RGB>,
    lo1: Multiset<RGB>,
    hi2: Multiset<RGB>,
    lo2: Multiset<RGB>,
)
    requires
        splits_at(ms, c, m, hi1, lo1),
        splits_at(ms, c, m, hi2, lo2),
    ensures
        hi1 == hi2,
        lo1 == lo2,
{
    assert forall|p: RGB| true implies hi1.count(p) == hi2.count(p) && lo1.count(p)
        == lo2.count(p) by {
        if chan(p, c) > m {
            assert(lo1.count(p) == 0 && lo2.count(p) == 0);
        } else {
            assert(hi1.count(p) == 0 && hi2.count(p) == 0);
        }
        assert(hi1.add(lo1).count(p) == ms.count(p));
        assert(hi2.add(lo2).count(p) == ms.count(p));
    }
    assert(hi1 =~= hi2);
    assert(lo1 =~= lo2);
}

/// One recursive step of the model: when a channel chosen by the range
/// rule, a median value and a split at it are in hand, the model's leaves
/// are the two sides' leaves, first side first, cleaned of empty leaves.
pub proof fn lemma_cut_model_step(
    ms: Multiset<RGB>,
    d: nat,
    c: Channel,
    m: u8,
    hi: Multiset<RGB>,
    lo: Multiset<RGB>,
)
    requires
        d > 0,
        ms.len() > 1,
        chooses_channel(ms, c),
        is_median_value(ms, c, m),
        splits_at(ms, c, m, hi, lo),
    ensures
        cut_model(ms, d) == drop_empty_pops(
            cut_model(hi, (d - 1) as nat) + cut_model(lo, (d - 1) as nat),
        ),
{
    let c0 = choose|c0: Channel| chooses_channel(ms, c0);
    lemma_channel_unique(ms, c0, c);
    let m0 = choose|m0: u8| is_median_value(ms, c0, m0);
    lemma_median_unique(ms, c, m0, m);
    assert(splits_at(ms, c0, m0, (hi, lo).0, (hi, lo).1));
    let hl0 = choose|hl: (Multiset<RGB>, Multiset<RGB>)| splits_at(ms, c0, m0, hl.0, hl.1);
    lemma_split_unique(ms, c, m, hl0.0, hl0.1, hi, lo);
}

/// No list counts more positions above a threshold than it has.
proof fn lemma_count_above_le_len(s: Seq<RGB>, c: Channel, t: u8)
    ensures
        count_above(s, c, t) <= s.len(),
    decreases s.len(),
{
    if s.len() > 0 {
        lemma_count_above_le_len(s.drop_last(), c, t);
    }
}

/// When every position from `k` on lies at or below `t`, at most `k`
/// positions lie strictly above it.
pub proof fn lemma_count_above_bound(s: Seq<RGB>, c: Channel, t: u8, k: int)
    requires
        0 <= k <= s.len(),
        forall|i: int| k <= i < s.len() ==> chan(#[trigger] s[i], c) <= t,
    ensures
        count_above(s, c, t) <= k,
    decreases s.len(),
{
    if s.len() > k {
        lemma_count_above_bound(s.drop_last(), c, t, k);
    } else {
        lemma_count_above_le_len(s, c, t);
    }
}

/// When every position before `k` lies at or above `t`, at least `k`
/// positions do.
pub proof fn lemma_count_at_least_bound(s: Seq<RGB>, c: Channel, t: u8, k: int)
    requires
        0 <= k <= s.len(),
        forall|i: int| 0 <= i < k ==> chan(#[trigger] s[i], c) >= t,
    ensures
        count_at_least(s, c, t) >= k,
    decreases s.len(),
{
    if s.len() > k {
        lemma_count_at_least_bound(s.drop_last(), c, t, k);
    } else if s.len() == k && k > 0 {
        lemma_count_at_least_bound(s.drop_last(), c, t, k - 1);
    }
}

/// Builds the three-way decomposition of a list's population at a threshold,
/// with the two position counts it witnesses.
pub proof fn lemma_three_way_split(s: Seq<RGB>, c: Channel, m: u8) -> (r: (
    Multiset<RGB>,
    Multiset<RGB>,
    Multiset<RGB>,
))
    ensures
        three_way(s.to_multiset(), c, m, r.0, r.1, r.2),
        r.0.len() == count_above(s, c, m),
        r.0.len() + r.1.len() == count_at_least(s, c, m),
    decreases s.len(),
{
    if s.len() == 0 {
        let r = (Multiset::<RGB>::empty(), Multiset::<RGB>::empty(), Multiset::<RGB>::empty());
        assert(s.to_multiset() =~= Multiset::<RGB>::empty());
        assert(r.0.add(r.1).add(r.2) =~= s.to_multiset());
        r
    } else {
        let sub = lemma_three_way_split(s.drop_last(), c, m);
        let x = s.last();
        assert(s.drop_last().push(x) =~= s);
        assert(s.to_multiset() == s.drop_last().to_multiset().insert(x));
        if chan(x, c) > m {
            let r = (sub.0.insert(x), sub.1, sub.2);
            assert(r.0.add(r.1).add(r.2) =~= s.to_multiset());
            r
        } else if chan(x, c) == m {
            let r = (sub.0, sub.1.insert(x), sub.2);
            assert(r.0.add(r.1).add(r.2) =~= s.to_multiset());
            r
        } else {
            let r = (sub.0, sub.1, sub.2.insert(x));
            assert(r.0.add(r.1).add(r.2) =~= s.to_multiset());
            r
        }
    }
}

/// Appending one group to the list either appends it to the cleaned list or
/// leaves the cleaned list alone, by whether the group is empty.
pub proof fn lemma_drop_empty_push(gs: Seq<Seq<RGB>>, g: Seq<RGB>)
    ensures
        g.len() > 0 ==> drop_empty(gs.push(g)) == drop_empty(gs).push(g),
        g.len() == 0 ==> drop_empty(gs.push(g)) == drop_empty(gs),
{
    assert(gs.push(g).drop_last() =~= gs);
    assert(drop_empty(gs) + seq![g] =~= drop_empty(gs).push(g));
    assert(drop_empty(gs) + Seq::<Seq<RGB>>::empty() =~= drop_empty(gs));
}

/// Taking populations commutes with dropping empty groups: a group is empty
/// exactly when its population is.
pub proof fn lemma_pops_drop_empty(gs: Seq<Seq<RGB>>)
    ensures
        pops_of(drop_empty(gs)) == drop_empty_pops(pops_of(gs)),
    decreases gs.len(),
{
    if gs.len() == 0 {
        assert(pops_of(drop_empty(gs)) =~= drop_empty_pops(pops_of(gs)));
    } else {
        lemma_pops_drop_empty(gs.drop_last());
        assert(pops_of(gs).drop_last() =~= pops_of(gs.drop_last()));
        assert(pops_of(gs).last() == gs.last().to_multiset());
        assert(gs.last().to_multiset().len() == gs.last().len());
        if gs.last().len() > 0 {
            assert(pops_of(drop_empty(gs.drop_last()) + seq![gs.last()]) =~= pops_of(
                drop_empty(gs.drop_last()),
            ) + seq![gs.last().to_multiset()]);
            assert(pops_of(drop_empty(gs)) =~= drop_empty_pops(pops_of(gs)));
        } else {
            assert(pops_of(drop_empty(gs.drop_last()) + Seq::<Seq<RGB>>::empty()) =~= pops_of(
                drop_empty(gs.drop_last()),
            ));
            assert(pops_of(drop_empty(gs)) =~= drop_empty_pops(pops_of(gs)));
        }
    }
}

} // verus!

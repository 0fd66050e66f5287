use vstd::prelude::*;

use crate::pixel::{chan, Channel, RGB};

verus! {

/// Exchanges two positions of the list; the elements as a whole are kept.
fn swap_pixels(v: &mut Vec<RGB>, a: usize, b: usize)
    requires
        a < old(v).len(),
        b < old(v).len(),
    ensures
        final(v)@ == old(v)@.update(a as int, old(v)@[b as int]).update(
            b as int,
            old(v)@[a as int],
        ),
        final(v)@.len() == old(v)@.len(),
        final(v)@.to_multiset() == old(v)@.to_multiset(),
{
    let pa = v[a];
    let pb = v[b];
    v[a] = pb;
    v[b] = pa;
    proof {
        broadcast use vstd::seq_lib::group_to_multiset_ensures;
        broadcast use vstd::multiset::group_multiset_axioms;

        let s = old(v)@;
        if a == b {
            assert(v@ =~= s);
        } else {
            assert(s.contains(s[a as int]));
            assert(s.to_multiset().count(s[a as int]) > 0);
            assert(v@.to_multiset() =~= s.to_multiset());
        }
    }
}

/// In-place selection (quickselect) of the lower-median position, under the
/// "greater along channel `c` comes first" ordering that the median-cut
/// partitioner's comparison induces. After the call the element at position
/// `len/2` is the true median under that ordering: every element before it
/// compares at least as large along `c`, every element after it at most as
/// large. The list is reordered in place but keeps exactly the same
/// elements. Expected linear time, quadratic in the worst case.
pub fn median_of_array(v: &mut Vec<RGB>, c: Channel) -> (med: RGB)
    requires
        old(v).len() >= 1,
    ensures
        final(v)@.len() == old(v)@.len(),
        final(v)@.to_multiset() == old(v)@.to_multiset(),
        med == final(v)@[old(v)@.len() as int / 2],
        forall|i: int| 0 <= i < old(v)@.len() / 2 ==> chan(final(v)@[i], c) >= chan(med, c),
        forall|i: int|
            old(v)@.len() / 2 < i < old(v)@.len() ==> chan(final(v)@[i], c) <= chan(med, c),
{
    let k: usize = v.len() / 2;
    let mut l: usize = 0;
    let mut r: usize = v.len() - 1;
    loop
        invariant
            l <= k <= r < v@.len(),
            v@.len() == old(v)@.len(),
            v@.to_multiset() == old(v)@.to_multiset(),
            k == old(v)@.len() / 2,
            forall|a: int, b: int|
                0 <= a < l && l <= b < v@.len() ==> chan(v@[a], c) >= chan(v@[b], c),
            forall|a: int, b: int|
                0 <= a <= r && r < b < v@.len() ==> chan(v@[a], c) >= chan(v@[b], c),
        decreases r - l,
    {
        let ghost pre = v@;
        let ghost pv = chan(pre[r as int], c);
        let mut i = l;
        let mut j = l;
        while j < r
            invariant
                l <= i <= j <= r < v@.len(),
                v@.len() == pre.len(),
                v@.to_multiset() == pre.to_multiset(),
                chan(v@[r as int], c) == pv,
                forall|t: int| l <= t < i ==> chan(v@[t], c) > pv,
                forall|t: int| i <= t < j ==> chan(v@[t], c) <= pv,
                forall|a: int, b: int|
                    0 <= a < l && l <= b < v@.len() ==> chan(v@[a], c) >= chan(v@[b], c),
                forall|a: int, b: int|
                    0 <= a <= r && r < b < v@.len() ==> chan(v@[a], c) >= chan(v@[b], c),
            decreases r - j,
        {
            let pivot_channel = v[r].channel(c);
            let current = v[j].channel(c);
            if pivot_channel < current {
                swap_pixels(v, i, j);
                i = i + 1;
            }
            j = j + 1;
        }
        swap_pixels(v, i, r);
        if i == k {
            return v[i];
        } else if i < k {
            l = i + 1;
        } else {
            r = i - 1;
        }
    }
}

} // verus!

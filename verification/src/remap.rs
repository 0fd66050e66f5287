use vstd::multiset::Multiset;
use vstd::prelude::*;

use crate::cut::{
    is_grouping_of, lemma_msum_count_group, lemma_msum_count_two_groups, lemma_msum_member,
    median_cut, views_of,
};
use crate::model::{cut_model, pops_of};
use crate::palette::{average, mean_pixel};
use crate::pixel::{decode, RGB};

verus! {

broadcast use vstd::seq_lib::group_to_multiset_ensures, vstd::multiset::group_multiset_axioms;

/// Every pixel of the list carries its own position.
pub open spec fn indexed(s: Seq<RGB>) -> bool {
    forall|i: int| 0 <= i < s.len() ==> (#[trigger] s[i]).index == i
}

/// The pixel carries the colour of `m` (its position is its own).
pub open spec fn colored_matches(c: RGB, m: RGB) -> bool {
    c.r == m.r && c.g == m.g && c.b == m.b
}

/// Record `p` of the byte buffer carries the colour of `m` and full opacity.
pub open spec fn slot_matches(out: Seq<u8>, p: int, m: RGB) -> bool {
    &&& out[4 * p] == m.r
    &&& out[4 * p + 1] == m.g
    &&& out[4 * p + 2] == m.b
    &&& out[4 * p + 3] == 255
}

/// Record `p` of the byte buffer carries the mean colour of a group that
/// holds input pixel `p`.
pub open spec fn slot_recolored(gs: Seq<Seq<RGB>>, s: Seq<RGB>, out: Seq<u8>, p: int) -> bool {
    exists|j: int|
        0 <= j < gs.len() && #[trigger] gs[j].contains(s[p]) && slot_matches(
            out,
            p,
            mean_pixel(gs[j]),
        )
}

/// Every record of the byte buffer carries the mean colour of the group
/// holding the input pixel of that position: recolouring permutes nothing.
pub open spec fn recolored_by(gs: Seq<Seq<RGB>>, s: Seq<RGB>, out: Seq<u8>) -> bool {
    forall|p: int| 0 <= p < s.len() ==> #[trigger] slot_recolored(gs, s, out, p)
}

/// On a buffer made of whole 4-byte records, the recoloured buffer's length
/// — 4 bytes for each complete input record — is exactly the input's length.
pub proof fn lemma_whole_records_keep_length(len: int)
    requires
        len >= 0,
        len % 4 == 0,
    ensures
        4 * (len / 4) == len,
{
    vstd::arithmetic::div_mod::lemma_fundamental_div_mod(len, 4);
}

/// A copy of a pixel list.
fn copy_pixels(v: &Vec<RGB>) -> (c: Vec<RGB>)
    ensures
        c@ == v@,
{
    let mut c: Vec<RGB> = Vec::new();
    let n = v.len();
    for i in 0..n
        invariant
            n == v@.len(),
            c@.len() == i,
            forall|j: int| 0 <= j < i ==> c@[j] == v@[j],
    {
        c.push(v[i]);
    }
    proof {
        assert(c@ =~= v@);
    }
    c
}

/// Recolours a flat RGBA byte buffer to its reduced palette: the decoded
/// pixels are median-cut into groups, every pixel takes its group's mean
/// colour, the alpha byte is forced fully opaque whatever it was, and the
/// records come back in exactly the original buffer order, 4 bytes per
/// complete input record.
#[verifier::loop_isolation(false)]
pub fn compute_recolored_image(img: Vec<u8>, divisions: usize) -> (out: Vec<u8>)
    ensures
        out@.len() == 4 * (img@.len() / 4),
        forall|i: int| 0 <= i < out@.len() && i % 4 == 3 ==> out@[i] == 255,
        exists|gs: Seq<Seq<RGB>>|
            #[trigger] is_grouping_of(gs, decode(img@)) && recolored_by(gs, decode(img@), out@)
                && (decode(img@).len() > 0 ==> pops_of(gs) == cut_model(
                decode(img@).to_multiset(),
                divisions as nat,
            )),
{
    let ghost iv = img@;
    let pixels = RGB::arr_from_byte_array(img);
    let ghost s = pixels@;
    let n = pixels.len();
    proof {
        assert(indexed(s));
        assert(s.no_duplicates()) by {
            assert forall|a: int, b: int|
                0 <= a < s.len() && 0 <= b < s.len() && a != b implies s[a] != s[b] by {
                assert(s[a].index == a && s[b].index == b);
            }
        }
        s.lemma_multiset_has_no_duplicates();
        vstd::arithmetic::div_mod::lemma_fundamental_div_mod(iv.len() as int, 4);
        vstd::arithmetic::div_mod::lemma_mod_bound(iv.len() as int, 4);
    }
    let mut colored = copy_pixels(&pixels);
    let groups = median_cut(pixels, divisions);
    let ghost gs = views_of(groups@);
    let gcount = groups.len();
    for j in 0..gcount
        invariant
            colored@.len() == n,
            forall|p: int| 0 <= p < n ==> (#[trigger] colored@[p]).index == p,
            forall|p: int, jj: int|
                0 <= p < n && 0 <= jj < j && (#[trigger] gs[jj]).contains(#[trigger] s[p])
                    ==> colored_matches(colored@[p], mean_pixel(gs[jj])),
    {
        let glen = groups[j].len();
        if glen > 0 {
            let m_px = average(&groups[j]);
            proof {
                assert(gs[j as int] == groups@[j as int]@);
            }
            for t in 0..glen
                invariant
                    colored@.len() == n,
                    forall|p: int| 0 <= p < n ==> (#[trigger] colored@[p]).index == p,
                    forall|p: int, jj: int|
                        0 <= p < n && 0 <= jj < j && (#[trigger] gs[jj]).contains(#[trigger] s[p])
                            ==> colored_matches(colored@[p], mean_pixel(gs[jj])),
                    forall|tt: int|
                        0 <= tt < t ==> colored_matches(
                            colored@[(#[trigger] gs[j as int][tt]).index as int],
                            mean_pixel(gs[j as int]),
                        ),
            {
                let member = groups[j][t];
                proof {
                    let jj0 = j as int;
                    let q = gs[jj0][t as int];
                    assert(member == q);
                    assert(gs[jj0].contains(q));
                    assert(gs[jj0].to_multiset().count(q) >= 1);
                    lemma_msum_count_group(gs, jj0, q);
                    assert(s.to_multiset().count(q) >= 1);
                    assert(s.contains(q));
                    let p0 = choose|p0: int| 0 <= p0 < s.len() && s[p0] == q;
                    assert(q.index == p0);
                    assert(0 <= q.index < n);
                }
                let idx = member.index;
                let new_px = RGB { r: m_px.r, g: m_px.g, b: m_px.b, index: idx };
                colored[idx] = new_px;
                proof {
                    let jj0 = j as int;
                    let q = gs[jj0][t as int];
                    assert(s[idx as int] == q);
                    assert forall|p: int, jj: int|
                        0 <= p < n && 0 <= jj < jj0 && (#[trigger] gs[jj]).contains(
                            #[trigger] s[p],
                        ) implies colored_matches(colored@[p], mean_pixel(gs[jj])) by {
                        if p == idx as int {
                            lemma_msum_count_two_groups(gs, jj, jj0, q);
                            assert(false);
                        }
                    }
                    assert forall|tt: int| 0 <= tt < t + 1 implies colored_matches(
                        colored@[(#[trigger] gs[jj0][tt]).index as int],
                        mean_pixel(gs[jj0]),
                    ) by {
                        let q2 = gs[jj0][tt];
                        assert(gs[jj0].contains(q2));
                        assert(gs[jj0].to_multiset().count(q2) >= 1);
                        lemma_msum_count_group(gs, jj0, q2);
                        assert(s.to_multiset().count(q2) >= 1);
                        assert(s.contains(q2));
                        let p2 = choose|p2: int| 0 <= p2 < s.len() && s[p2] == q2;
                        assert(q2.index == p2);
                        assert(0 <= q2.index < n);
                        if tt < t {
                            if q2.index == idx {
                                assert(colored@[idx as int] == new_px);
                            }
                        } else {
                            assert(q2 == q);
                        }
                    }
                }
            }
            proof {
                let jj0 = j as int;
                assert forall|p: int|
                    0 <= p < n && (#[trigger] gs[jj0]).contains(#[trigger] s[p]) implies
                    colored_matches(colored@[p], mean_pixel(gs[jj0])) by {
                    let tt = choose|tt: int| 0 <= tt < gs[jj0].len() && gs[jj0][tt] == s[p];
                    assert(gs[jj0][tt].index == p);
                }
            }
        } else {
            proof {
                let jj0 = j as int;
                assert forall|p: int| 0 <= p < n implies !(#[trigger] gs[jj0]).contains(
                    #[trigger] s[p],
                ) by {
                    assert(gs[jj0] == groups@[jj0]@);
                    assert(gs[jj0].len() == 0);
                }
            }
        }
    }
    let mut out: Vec<u8> = Vec::new();
    for p in 0..n
        invariant
            out@.len() == 4 * p,
            forall|i: int| 0 <= i < p ==> #[trigger] slot_matches(out@, i, colored@[i]),
    {
        let cp = colored[p];
        let ghost out_pre = out@;
        out.push(cp.r);
        out.push(cp.g);
        out.push(cp.b);
        out.push(255);
        proof {
            assert forall|i: int| 0 <= i < p + 1 implies #[trigger] slot_matches(
                out@,
                i,
                colored@[i],
            ) by {
                if i < p {
                    assert(slot_matches(out_pre, i, colored@[i]));
                    assert(out@[4 * i] == out_pre[4 * i]);
                    assert(out@[4 * i + 1] == out_pre[4 * i + 1]);
                    assert(out@[4 * i + 2] == out_pre[4 * i + 2]);
                    assert(out@[4 * i + 3] == out_pre[4 * i + 3]);
                } else {
                    assert(out@[4 * i] == cp.r);
                    assert(out@[4 * i + 1] == cp.g);
                    assert(out@[4 * i + 2] == cp.b);
                    assert(out@[4 * i + 3] == 255);
                }
            }
        }
    }
    proof {
        assert forall|i: int| 0 <= i < out@.len() && i % 4 == 3 implies out@[i] == 255 by {
            vstd::arithmetic::div_mod::lemma_fundamental_div_mod(i, 4);
            let p = i / 4;
            assert(i == 4 * p + 3);
            assert(4 * p + 3 < 4 * n);
            assert(0 <= p < n) by (nonlinear_arith)
                requires
                    i == 4 * p + 3,
                    0 <= i,
                    4 * p + 3 < 4 * (n as int),
            ;
            assert(slot_matches(out@, p, colored@[p]));
            assert(out@[4 * p + 3] == 255);
        }
        if n == 0 {
            let egs = Seq::<Seq<RGB>>::empty();
            assert(s.to_multiset() =~= Multiset::<RGB>::empty());
            assert(is_grouping_of(egs, s));
            assert(recolored_by(egs, s, out@));
        } else {
            assert(is_grouping_of(gs, s));
            assert(pops_of(gs) == cut_model(s.to_multiset(), divisions as nat));
            assert forall|p: int| 0 <= p < s.len() implies #[trigger] slot_recolored(
                gs,
                s,
                out@,
                p,
            ) by {
                assert(s.contains(s[p]));
                assert(s.to_multiset().count(s[p]) >= 1);
                lemma_msum_member(gs, s[p]);
                let j = choose|j: int| 0 <= j < gs.len() && (#[trigger] gs[j]).contains(s[p]);
                assert(colored_matches(colored@[p], mean_pixel(gs[j])));
                assert(slot_matches(out@, p, colored@[p]));
                assert(slot_matches(out@, p, mean_pixel(gs[j])));
            }
            assert(recolored_by(gs, s, out@));
        }
    }
    out
}

} // verus!

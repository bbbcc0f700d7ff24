//! Ordering intervals for the merging scan.
//!
//! The scan wants intervals by ascending start; of two that start at the
//! same address the longer comes first, so that whatever it contains follows
//! it. The order is established by a merge sort.

use vstd::prelude::*;
use vstd::seq_lib::{to_multiset_build, lemma_multiset_commutative};
use crate::block::Interval;

verus! {

/// `a` may stand before `b` in scan order.
pub open spec fn comes_before(a: Interval, b: Interval) -> bool {
    a.start() < b.start() || (a.start() == b.start() && a.end() >= b.end())
}

/// Every interval of the sequence may stand before all that follow it.
pub open spec fn in_scan_order(s: Seq<Interval>) -> bool {
    forall|i: int, j: int| 0 <= i < j < s.len() ==> comes_before(#[trigger] s[i], #[trigger] s[j])
}

/// Decides `comes_before`.
fn precedes(a: &Interval, b: &Interval) -> (r: bool)
    ensures
        r == comes_before(*a, *b),
{
    a.start() < b.start() || (a.start() == b.start() && a.end() >= b.end())
}

/// Merges two sequences in scan order into one.
fn merge_sorted(a: &Vec<Interval>, b: &Vec<Interval>) -> (out: Vec<Interval>)
    requires
        in_scan_order(a@),
        in_scan_order(b@),
    ensures
        in_scan_order(out@),
        out@.to_multiset() == a@.to_multiset().add(b@.to_multiset()),
{
    let mut out: Vec<Interval> = Vec::new();
    let mut i: usize = 0;
    let mut j: usize = 0;
    proof {
        let none = Seq::<Interval>::empty();
        assert(a@.take(0) =~= none);
        assert(b@.take(0) =~= none);
        assert(out@ =~= none);
        lemma_multiset_commutative(none, none);
        assert(none + none =~= none);
    }
    while i < a.len() || j < b.len()
        invariant
            i <= a.len(),
            j <= b.len(),
            in_scan_order(a@),
            in_scan_order(b@),
            in_scan_order(out@),
            out@.to_multiset() == a@.take(i as int).to_multiset().add(
                b@.take(j as int).to_multiset(),
            ),
            forall|k: int, p: int|
                0 <= k < out@.len() && i <= p < a@.len() ==> comes_before(
                    #[trigger] out@[k],
                    #[trigger] a@[p],
                ),
            forall|k: int, q: int|
                0 <= k < out@.len() && j <= q < b@.len() ==> comes_before(
                    #[trigger] out@[k],
                    #[trigger] b@[q],
                ),
        decreases (a.len() - i) + (b.len() - j),
    {
        let ghost before = out@;
        let from_a = if i == a.len() {
            false
        } else if j == b.len() {
            true
        } else {
            precedes(&a[i], &b[j])
        };
        if from_a {
            let x = a[i];
            out.push(x);
            proof {
                to_multiset_build(before, x);
                to_multiset_build(a@.take(i as int), x);
                assert(a@.take(i + 1) =~= a@.take(i as int).push(x));
                assert(out@.to_multiset() =~= a@.take(i + 1).to_multiset().add(
                    b@.take(j as int).to_multiset(),
                ));
                assert forall|k: int, l: int| 0 <= k < l < out@.len() implies comes_before(
                    #[trigger] out@[k],
                    #[trigger] out@[l],
                ) by {
                    assert(out@[k] == before[k]);
                    if l < before.len() {
                        assert(out@[l] == before[l]);
                    } else {
                        assert(out@[l] == a@[i as int]);
                    }
                }
                assert forall|k: int, p: int|
                    0 <= k < out@.len() && i + 1 <= p < a@.len() implies comes_before(
                    #[trigger] out@[k],
                    #[trigger] a@[p],
                ) by {
                    if k < before.len() {
                        assert(out@[k] == before[k]);
                    } else {
                        assert(comes_before(a@[i as int], a@[p]));
                    }
                }
                assert forall|k: int, q: int|
                    0 <= k < out@.len() && j <= q < b@.len() implies comes_before(
                    #[trigger] out@[k],
                    #[trigger] b@[q],
                ) by {
                    if k < before.len() {
                        assert(out@[k] == before[k]);
                    } else {
                        assert(comes_before(a@[i as int], b@[j as int]));
                        if j < q {
                            assert(comes_before(b@[j as int], b@[q]));
                        }
                    }
                }
            }
            i = i + 1;
        } else {
            let x = b[j];
            out.push(x);
            proof {
                to_multiset_build(before, x);
                to_multiset_build(b@.take(j as int), x);
                assert(b@.take(j + 1) =~= b@.take(j as int).push(x));
                assert(out@.to_multiset() =~= a@.take(i as int).to_multiset().add(
                    b@.take(j + 1).to_multiset(),
                ));
                assert forall|k: int, l: int| 0 <= k < l < out@.len() implies comes_before(
                    #[trigger] out@[k],
                    #[trigger] out@[l],
                ) by {
                    assert(out@[k] == before[k]);
                    if l < before.len() {
                        assert(out@[l] == before[l]);
                    } else {
                        assert(out@[l] == b@[j as int]);
                    }
                }
                assert forall|k: int, q: int|
                    0 <= k < out@.len() && j + 1 <= q < b@.len() implies comes_before(
                    #[trigger] out@[k],
                    #[trigger] b@[q],
                ) by {
                    if k < before.len() {
                        assert(out@[k] == before[k]);
                    } else {
                        assert(comes_before(b@[j as int], b@[q]));
                    }
                }
                assert forall|k: int, p: int|
                    0 <= k < out@.len() && i <= p < a@.len() implies comes_before(
                    #[trigger] out@[k],
                    #[trigger] a@[p],
                ) by {
                    if k < before.len() {
                        assert(out@[k] == before[k]);
                    } else {
                        assert(!comes_before(a@[i as int], b@[j as int]));
                        if i < p {
                            assert(comes_before(a@[i as int], a@[p]));
                        }
                    }
                }
            }
            j = j + 1;
        }
    }
    proof {
        assert(a@.take(i as int) =~= a@);
        assert(b@.take(j as int) =~= b@);
    }
    out
}

/// Sorts the part `lo .. hi` of `v`.
fn sort_part(v: &Vec<Interval>, lo: usize, hi: usize) -> (out: Vec<Interval>)
    requires
        lo <= hi <= v.len(),
    ensures
        in_scan_order(out@),
        out@.to_multiset() == v@.subrange(lo as int, hi as int).to_multiset(),
    decreases hi - lo,
{
    if hi - lo <= 1 {
        let mut out: Vec<Interval> = Vec::new();
        if hi - lo == 1 {
            out.push(v[lo]);
        }
        proof {
            assert(out@ =~= v@.subrange(lo as int, hi as int));
        }
        out
    } else {
        let mid = lo + (hi - lo) / 2;
        let left = sort_part(v, lo, mid);
        let right = sort_part(v, mid, hi);
        proof {
            let l = v@.subrange(lo as int, mid as int);
            let r = v@.subrange(mid as int, hi as int);
            lemma_multiset_commutative(l, r);
            assert(l + r =~= v@.subrange(lo as int, hi as int));
        }
        merge_sorted(&left, &right)
    }
}

/// The same intervals in scan order: by ascending start, and by descending
/// end where the starts are equal.
pub fn sort_intervals(v: &Vec<Interval>) -> (out: Vec<Interval>)
    ensures
        in_scan_order(out@),
        out@.to_multiset() == v@.to_multiset(),
{
    proof {
        assert(v@.subrange(0, v@.len() as int) =~= v@);
    }
    sort_part(v, 0, v.len())
}

/// Sequences with the same multiset of items hold the same items.
pub proof fn lemma_same_items(s: Seq<Interval>, t: Seq<Interval>)
    requires
        s.to_multiset() == t.to_multiset(),
    ensures
        forall|x: Interval| s.contains(x) <==> t.contains(x),
{
    assert forall|x: Interval| s.contains(x) <==> t.contains(x) by {
        vstd::seq_lib::to_multiset_contains(s, x);
        vstd::seq_lib::to_multiset_contains(t, x);
    }
}

} // verus!

//! Joining intervals that overlap or touch.

use vstd::prelude::*;
use crate::block::Interval;
use crate::family::lemma_space_values;
use crate::sort::{comes_before, in_scan_order, sort_intervals, lemma_same_items};

verus! {

/// Some interval of the sequence holds the address `a`.
pub open spec fn any_holds(s: Seq<Interval>, a: int) -> bool {
    exists|i: int| 0 <= i < s.len() && #[trigger] s[i].contains(a)
}

/// Some interval among the first `n` of the sequence holds the address `a`.
pub open spec fn any_of_first(s: Seq<Interval>, n: int, a: int) -> bool {
    exists|i: int| 0 <= i < n && i < s.len() && #[trigger] s[i].contains(a)
}

/// All intervals of the sequence are of one family.
pub open spec fn one_family(s: Seq<Interval>) -> bool {
    forall|i: int, j: int|
        0 <= i < s.len() && 0 <= j < s.len() ==> (#[trigger] s[i]).family() == (#[trigger] s[j]).family()
}

/// `out` holds the merged ranges of `input`: in ascending order, any two
/// with at least one address between them that neither holds, together
/// holding exactly the addresses that the intervals of `input` hold.
pub open spec fn is_merge_of(out: Seq<Interval>, input: Seq<Interval>) -> bool {
    &&& forall|i: int| 0 <= i < out.len() ==> (#[trigger] out[i]).wf()
    &&& forall|i: int, j: int|
        0 <= i < out.len() && 0 <= j < input.len() ==> (#[trigger] out[i]).family() == (
        #[trigger] input[j]).family()
    &&& forall|i: int, j: int|
        0 <= i < j < out.len() ==> (#[trigger] out[i]).end() + 1 < (#[trigger] out[j]).start()
    &&& forall|a: int|
        #![trigger any_holds(out, a)]
        #![trigger any_holds(input, a)]
        any_holds(out, a) <==> any_holds(input, a)
}

/// Merges intervals of one family into maximal ranges: sorts them, then
/// scans once, extending the current range while the next interval overlaps
/// or touches it.
pub fn merge_intervals(intervals: &Vec<Interval>) -> (out: Vec<Interval>)
    requires
        one_family(intervals@),
    ensures
        is_merge_of(out@, intervals@),
{
    let sorted = sort_intervals(intervals);
    let n = sorted.len();
    let mut out: Vec<Interval> = Vec::new();
    proof {
        lemma_same_items(sorted@, intervals@);
        assert forall|a: int|
            #![trigger any_holds(sorted@, a)]
            #![trigger any_holds(intervals@, a)]
            any_holds(sorted@, a) <==> any_holds(intervals@, a) by {
            if any_holds(sorted@, a) {
                let i = choose|i: int| 0 <= i < sorted@.len() && #[trigger] sorted@[i].contains(a);
                assert(sorted@.contains(sorted@[i]));
                let j = choose|j: int| 0 <= j < intervals@.len() && intervals@[j] == sorted@[i];
                assert(intervals@[j].contains(a));
            }
            if any_holds(intervals@, a) {
                let i = choose|i: int|
                    0 <= i < intervals@.len() && #[trigger] intervals@[i].contains(a);
                assert(intervals@.contains(intervals@[i]));
                let j = choose|j: int| 0 <= j < sorted@.len() && sorted@[j] == intervals@[i];
                assert(sorted@[j].contains(a));
            }
        }
    }
    if n == 0 {
        return out;
    }
    let head = sorted[0];
    let family = head.family();
    let mut cur_start = head.start();
    let mut cur_end = head.end();
    let mut k: usize = 1;
    proof {
        use_type_invariant(&head);
        lemma_space_values();
        assert(sorted@.contains(sorted@[0]));
        assert forall|j: int| 0 <= j < intervals@.len() implies family == (
        #[trigger] intervals@[j]).family() by {
            let m = choose|m: int| 0 <= m < intervals@.len() && intervals@[m] == sorted@[0];
            assert(intervals@[m].family() == intervals@[j].family());
        }
        assert forall|p: int| 0 <= p < n implies (#[trigger] sorted@[p]).family() == family by {
            assert(sorted@.contains(sorted@[p]));
            let m = choose|m: int| 0 <= m < intervals@.len() && intervals@[m] == sorted@[p];
        }
        assert forall|a: int| #![trigger any_of_first(sorted@, 1, a)]
            cur_start <= a <= cur_end <==> any_of_first(sorted@, 1, a) by {
            if cur_start <= a <= cur_end {
                assert(sorted@[0].contains(a));
            }
        }
    }
    while k < n
        invariant
            n == sorted@.len(),
            1 <= k <= n,
            in_scan_order(sorted@),
            cur_start <= cur_end < family.space(),
            forall|p: int| 0 <= p < n ==> (#[trigger] sorted@[p]).family() == family,
            forall|p: int| k <= p < n ==> cur_start <= (#[trigger] sorted@[p]).start(),
            forall|i: int|
                0 <= i < out@.len() ==> (#[trigger] out@[i]).wf() && out@[i].family() == family
                    && out@[i].end() + 1 < cur_start,
            forall|i: int, j: int|
                0 <= i < j < out@.len() ==> (#[trigger] out@[i]).end() + 1 < (
                #[trigger] out@[j]).start(),
            forall|a: int|
                #![trigger any_of_first(sorted@, k as int, a)]
                (any_holds(out@, a) || cur_start <= a <= cur_end) <==> any_of_first(
                    sorted@,
                    k as int,
                    a,
                ),
        decreases n - k,
    {
        let next = sorted[k];
        let s = next.start();
        let e = next.end();
        let ghost before = out@;
        let ghost old_start = cur_start;
        let ghost old_end = cur_end;
        proof {
            use_type_invariant(&next);
            assert(cur_start <= sorted@[k as int].start());
        }
        if s <= cur_end || s - 1 == cur_end {
            if e > cur_end {
                cur_end = e;
            }
        } else {
            out.push(Interval::from_bounds(family, cur_start, cur_end));
            cur_start = s;
            cur_end = e;
            proof {
                let m = before.len() as int;
                assert forall|i: int| 0 <= i < out@.len() implies (#[trigger] out@[i]).wf()
                    && out@[i].family() == family && out@[i].end() + 1 < cur_start by {
                    if i < m {
                        assert(out@[i] == before[i]);
                    }
                }
                assert forall|i: int, j: int| 0 <= i < j < out@.len() implies (
                #[trigger] out@[i]).end() + 1 < (#[trigger] out@[j]).start() by {
                    assert(out@[i] == before[i]);
                    if j < m {
                        assert(out@[j] == before[j]);
                    }
                }
                assert forall|a: int|
                    #![trigger any_holds(out@, a)]
                    any_holds(out@, a) <==> (any_holds(before, a) || old_start <= a <= old_end) by {
                    if any_holds(out@, a) {
                        let i = choose|i: int| 0 <= i < out@.len() && #[trigger] out@[i].contains(a);
                        if i < m {
                            assert(before[i].contains(a));
                        }
                    }
                    if any_holds(before, a) {
                        let i = choose|i: int| 0 <= i < before.len() && #[trigger] before[i].contains(a);
                        assert(out@[i].contains(a));
                    }
                    if old_start <= a <= old_end {
                        assert(out@[m].contains(a));
                    }
                }
            }
        }
        proof {
            assert forall|p: int| k + 1 <= p < n implies cur_start <= (
            #[trigger] sorted@[p]).start() by {
                assert(comes_before(sorted@[k as int], sorted@[p]));
            }
            assert forall|a: int|
                #![trigger any_of_first(sorted@, k + 1, a)]
                (any_holds(out@, a) || cur_start <= a <= cur_end) <==> any_of_first(
                    sorted@,
                    k + 1,
                    a,
                ) by {
                let here = sorted@[k as int].contains(a);
                assert(any_of_first(sorted@, k + 1, a) <==> (any_of_first(sorted@, k as int, a)
                    || here)) by {
                    if any_of_first(sorted@, k + 1, a) {
                        let i = choose|i: int|
                            0 <= i < k + 1 && i < sorted@.len() && #[trigger] sorted@[i].contains(a);
                        if i < k {
                            assert(any_of_first(sorted@, k as int, a));
                        }
                    }
                    if any_of_first(sorted@, k as int, a) {
                        let i = choose|i: int|
                            0 <= i < k && i < sorted@.len() && #[trigger] sorted@[i].contains(a);
                        assert(sorted@[i].contains(a));
                    }
                }
            }
        }
        k = k + 1;
    }
    let ghost before = out@;
    out.push(Interval::from_bounds(family, cur_start, cur_end));
    proof {
        let m = before.len() as int;
        assert forall|i: int| 0 <= i < out@.len() implies (#[trigger] out@[i]).wf() by {
            if i < m {
                assert(out@[i] == before[i]);
            }
        }
        assert forall|i: int, j: int|
            0 <= i < out@.len() && 0 <= j < intervals@.len() implies (#[trigger] out@[i]).family()
            == (#[trigger] intervals@[j]).family() by {
            if i < m {
                assert(out@[i] == before[i]);
            }
        }
        assert forall|i: int, j: int| 0 <= i < j < out@.len() implies (#[trigger] out@[i]).end()
            + 1 < (#[trigger] out@[j]).start() by {
            assert(out@[i] == before[i]);
            if j < m {
                assert(out@[j] == before[j]);
            }
        }
        assert forall|a: int|
            #![trigger any_holds(out@, a)]
            #![trigger any_holds(sorted@, a)]
            any_holds(out@, a) <==> any_holds(sorted@, a) by {
            if any_holds(out@, a) {
                let i = choose|i: int| 0 <= i < out@.len() && #[trigger] out@[i].contains(a);
                if i < m {
                    assert(before[i].contains(a));
                }
                assert(any_of_first(sorted@, n as int, a));
                let j = choose|j: int|
                    0 <= j < n && j < sorted@.len() && #[trigger] sorted@[j].contains(a);
                assert(sorted@[j].contains(a));
            }
            if any_holds(sorted@, a) {
                let j = choose|j: int| 0 <= j < sorted@.len() && #[trigger] sorted@[j].contains(a);
                assert(any_of_first(sorted@, n as int, a));
                if any_holds(before, a) {
                    let i = choose|i: int| 0 <= i < before.len() && #[trigger] before[i].contains(a);
                    assert(out@[i].contains(a));
                } else {
                    assert(out@[m].contains(a));
                }
            }
        }
    }
    out
}

} // verus!

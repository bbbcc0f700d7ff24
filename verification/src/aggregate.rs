//! The aggregation engine: from a list of blocks to the shortest list of
//! blocks that covers the same addresses.
//!
//! Within each family the blocks become intervals, the intervals are merged
//! into maximal ranges, and each range is cut into blocks. The result is
//! described without reference to these steps: it covers what the input
//! covers, it is in ascending order, and each of its blocks is as large as
//! the covered addresses allow.

use vstd::prelude::*;
use crate::block::{Block, Interval};
use crate::decompose::{decompose_range, decomposes, fits, maximal_within, some_holds};
use crate::family::Family;
use crate::merge::{any_holds, any_of_first, is_merge_of, merge_intervals};

verus! {

/// The block `b` is of family `f` and holds the address `a`.
pub open spec fn holds(b: Block, f: Family, a: int) -> bool {
    b.family() == f && b.contains(a)
}

/// Some block of `s` is of family `f` and holds the address `a`.
pub open spec fn covers(s: Seq<Block>, f: Family, a: int) -> bool {
    exists|i: int| 0 <= i < s.len() && #[trigger] holds(s[i], f, a)
}

/// Some block among the first `n` of `s` is of family `f` and holds `a`.
pub open spec fn covers_first(s: Seq<Block>, n: int, f: Family, a: int) -> bool {
    exists|i: int| 0 <= i < n && i < s.len() && #[trigger] holds(s[i], f, a)
}

/// Every address of `b` is covered by `s`.
pub open spec fn inside(b: Block, s: Seq<Block>) -> bool {
    forall|a: int| b.contains(a) ==> #[trigger] covers(s, b.family(), a)
}

/// `b` is as large as `s` allows: a canonical block that contains `b` and
/// lies inside what `s` covers is `b` itself.
pub open spec fn maximal_in(b: Block, s: Seq<Block>) -> bool {
    forall|c: Block|
        c.wf() && c.family() == b.family() && c.first() <= b.first() && b.last() <= c.last()
            && #[trigger] inside(c, s) ==> c == b
}

/// `x` stands before `y` in the result: IPv4 before IPv6, and within a
/// family the block with the lower addresses first, the two sharing none.
pub open spec fn goes_before(x: Block, y: Block) -> bool {
    ||| x.family() == Family::V4 && y.family() == Family::V6
    ||| x.family() == y.family() && x.last() < y.first()
}

/// Every block of the sequence stands before all that follow it.
pub open spec fn ascending(s: Seq<Block>) -> bool {
    forall|i: int, j: int| 0 <= i < j < s.len() ==> goes_before(#[trigger] s[i], #[trigger] s[j])
}

/// `out` is the aggregate of `s`: canonical blocks in ascending order that
/// cover, family by family, exactly the addresses that `s` covers, each as
/// large as those addresses allow.
pub open spec fn is_aggregate_of(out: Seq<Block>, s: Seq<Block>) -> bool {
    &&& forall|i: int| 0 <= i < out.len() ==> (#[trigger] out[i]).wf() && maximal_in(out[i], s)
    &&& forall|f: Family, a: int|
        #![trigger covers(out, f, a)]
        #![trigger covers(s, f, a)]
        covers(out, f, a) <==> covers(s, f, a)
    &&& ascending(out)
}

/// `out` is the part of the aggregate of `s` that belongs to family `f`.
pub open spec fn is_family_aggregate(out: Seq<Block>, s: Seq<Block>, f: Family) -> bool {
    &&& forall|i: int|
        0 <= i < out.len() ==> (#[trigger] out[i]).wf() && out[i].family() == f && maximal_in(
            out[i],
            s,
        )
    &&& forall|a: int|
        #![trigger covers(out, f, a)]
        #![trigger covers(s, f, a)]
        covers(out, f, a) <==> covers(s, f, a)
    &&& forall|i: int, j: int|
        0 <= i < j < out.len() ==> (#[trigger] out[i]).last() < (#[trigger] out[j]).first()
}

/// The intervals of the blocks of one family, in the order of the blocks.
fn family_intervals(blocks: &Vec<Block>, family: Family) -> (out: Vec<Interval>)
    ensures
        forall|i: int| 0 <= i < out@.len() ==> (#[trigger] out@[i]).family() == family,
        forall|a: int|
            #![trigger any_holds(out@, a)]
            #![trigger covers(blocks@, family, a)]
            any_holds(out@, a) <==> covers(blocks@, family, a),
{
    let mut out: Vec<Interval> = Vec::new();
    let mut k: usize = 0;
    while k < blocks.len()
        invariant
            k <= blocks@.len(),
            forall|i: int| 0 <= i < out@.len() ==> (#[trigger] out@[i]).family() == family,
            forall|a: int|
                #![trigger any_holds(out@, a)]
                #![trigger covers_first(blocks@, k as int, family, a)]
                any_holds(out@, a) <==> covers_first(blocks@, k as int, family, a),
        decreases blocks@.len() - k,
    {
        let block = &blocks[k];
        let ghost before = out@;
        let ghost taken = block.family() == family;
        if block.family() == family {
            out.push(block.to_interval());
        }
        proof {
            let b = blocks@[k as int];
            assert forall|a: int|
                #![trigger any_holds(out@, a)]
                #![trigger covers_first(blocks@, k + 1, family, a)]
                any_holds(out@, a) <==> covers_first(blocks@, k + 1, family, a) by {
                assert(covers_first(blocks@, k + 1, family, a) <==> (covers_first(
                    blocks@,
                    k as int,
                    family,
                    a,
                ) || holds(b, family, a))) by {
                    if covers_first(blocks@, k + 1, family, a) {
                        let i = choose|i: int|
                            0 <= i < k + 1 && i < blocks@.len() && #[trigger] holds(
                                blocks@[i],
                                family,
                                a,
                            );
                        if i < k {
                            assert(covers_first(blocks@, k as int, family, a));
                        }
                    }
                    if covers_first(blocks@, k as int, family, a) {
                        let i = choose|i: int|
                            0 <= i < k && i < blocks@.len() && #[trigger] holds(
                                blocks@[i],
                                family,
                                a,
                            );
                        assert(holds(blocks@[i], family, a));
                    }
                }
                assert(any_holds(out@, a) <==> (any_holds(before, a) || holds(b, family, a))) by {
                    if any_holds(out@, a) {
                        let i = choose|i: int| 0 <= i < out@.len() && #[trigger] out@[i].contains(a);
                        if i < before.len() {
                            assert(before[i].contains(a));
                        }
                    }
                    if any_holds(before, a) {
                        let i = choose|i: int|
                            0 <= i < before.len() && #[trigger] before[i].contains(a);
                        assert(out@[i].contains(a));
                    }
                    if holds(b, family, a) {
                        assert(out@[before.len() as int].contains(a));
                    }
                }
            }
        }
        k = k + 1;
    }
    proof {
        assert forall|a: int|
            #![trigger any_holds(out@, a)]
            #![trigger covers(blocks@, family, a)]
            any_holds(out@, a) <==> covers(blocks@, family, a) by {
            if covers(blocks@, family, a) {
                let i = choose|i: int| 0 <= i < blocks@.len() && #[trigger] holds(blocks@[i], family, a);
                assert(covers_first(blocks@, k as int, family, a));
            }
            if covers_first(blocks@, k as int, family, a) {
                let i = choose|i: int|
                    0 <= i < k && i < blocks@.len() && #[trigger] holds(blocks@[i], family, a);
                assert(holds(blocks@[i], family, a));
            }
        }
    }
    out
}

/// A block cut from a merged range is as large as the covered addresses
/// allow: the addresses next to the range on either side are not covered, so
/// a covered block around it cannot reach beyond the range.
proof fn lemma_piece_is_maximal(s: Seq<Block>, f: Family, ranges: Seq<Interval>, t: int, b: Block)
    requires
        0 <= t < ranges.len(),
        forall|i: int| 0 <= i < ranges.len() ==> (#[trigger] ranges[i]).wf(),
        forall|i: int, j: int|
            0 <= i < j < ranges.len() ==> (#[trigger] ranges[i]).end() + 1 < (
            #[trigger] ranges[j]).start(),
        forall|a: int|
            #![trigger any_holds(ranges, a)]
            #![trigger covers(s, f, a)]
            any_holds(ranges, a) <==> covers(s, f, a),
        b.wf(),
        b.family() == f,
        ranges[t].start() <= b.first(),
        b.last() <= ranges[t].end(),
        maximal_within(b, ranges[t].start() as int, ranges[t].end() as int),
    ensures
        inside(b, s),
        maximal_in(b, s),
{
    let lo = ranges[t].start() as int;
    let hi = ranges[t].end() as int;
    assert forall|a: int| b.contains(a) implies #[trigger] covers(s, b.family(), a) by {
        assert(ranges[t].contains(a));
        assert(any_holds(ranges, a));
    }
    assert forall|c: Block|
        c.wf() && c.family() == b.family() && c.first() <= b.first() && b.last() <= c.last()
            && #[trigger] inside(c, s) implies c == b by {
        if c.first() < lo {
            let a = lo - 1;
            assert(c.contains(a));
            assert(covers(s, c.family(), a));
            assert(any_holds(ranges, a));
            let j = choose|j: int| 0 <= j < ranges.len() && #[trigger] ranges[j].contains(a);
            if j < t {
                assert(ranges[j].end() + 1 < ranges[t].start());
            } else if j > t {
                assert(ranges[t].end() + 1 < ranges[j].start());
            }
        }
        if c.last() > hi {
            let a = hi + 1;
            assert(c.contains(a));
            assert(covers(s, c.family(), a));
            assert(any_holds(ranges, a));
            let j = choose|j: int| 0 <= j < ranges.len() && #[trigger] ranges[j].contains(a);
            if j < t {
                assert(ranges[j].end() + 1 < ranges[t].start());
            } else if j > t {
                assert(ranges[t].end() + 1 < ranges[j].start());
            }
        }
        assert(fits(c.first(), c.host_bits(), lo, hi));
        c.lemma_same(b);
    }
}

/// The aggregate of the blocks of one family: their intervals are merged
/// into ranges, and each range is cut into blocks.
pub fn aggregate_family(blocks: &Vec<Block>, family: Family) -> (out: Vec<Block>)
    ensures
        is_family_aggregate(out@, blocks@, family),
{
    let intervals = family_intervals(blocks, family);
    let ranges = merge_intervals(&intervals);
    let mut out: Vec<Block> = Vec::new();
    let mut t: usize = 0;
    proof {
        assert forall|i: int| 0 <= i < ranges@.len() implies (#[trigger] ranges@[i]).family()
            == family by {
            let a = ranges@[i].start() as int;
            assert(ranges@[i].contains(a));
            assert(any_holds(ranges@, a));
            let j = choose|j: int| 0 <= j < intervals@.len() && #[trigger] intervals@[j].contains(a);
            assert(ranges@[i].family() == intervals@[j].family());
        }
    }
    while t < ranges.len()
        invariant
            t <= ranges@.len(),
            is_merge_of(ranges@, intervals@),
            forall|i: int| 0 <= i < ranges@.len() ==> (#[trigger] ranges@[i]).family() == family,
            forall|a: int|
                #![trigger any_holds(intervals@, a)]
                #![trigger covers(blocks@, family, a)]
                any_holds(intervals@, a) <==> covers(blocks@, family, a),
            forall|i: int|
                0 <= i < out@.len() ==> {
                    &&& (#[trigger] out@[i]).wf()
                    &&& out@[i].family() == family
                    &&& inside(out@[i], blocks@)
                    &&& maximal_in(out@[i], blocks@)
                    &&& t > 0
                    &&& out@[i].last() <= ranges@[t - 1].end()
                },
            forall|i: int, j: int|
                0 <= i < j < out@.len() ==> (#[trigger] out@[i]).last() < (
                #[trigger] out@[j]).first(),
            forall|a: int|
                #![trigger any_of_first(ranges@, t as int, a)]
                any_of_first(ranges@, t as int, a) ==> some_holds(out@, a),
        decreases ranges@.len() - t,
    {
        let range = &ranges[t];
        let mut pieces = decompose_range(range);
        let ghost before = out@;
        let ghost cut = pieces@;
        proof {
            assert forall|i: int| 0 <= i < cut.len() implies inside(#[trigger] cut[i], blocks@)
                && maximal_in(cut[i], blocks@) by {
                lemma_piece_is_maximal(blocks@, family, ranges@, t as int, cut[i]);
            }
        }
        out.append(&mut pieces);
        proof {
            let m = before.len() as int;
            assert forall|i: int| 0 <= i < out@.len() implies {
                &&& (#[trigger] out@[i]).wf()
                &&& out@[i].family() == family
                &&& inside(out@[i], blocks@)
                &&& maximal_in(out@[i], blocks@)
                &&& out@[i].last() <= ranges@[t as int].end()
            } by {
                if i < m {
                    assert(out@[i] == before[i]);
                    assert(ranges@[t - 1].end() + 1 < ranges@[t as int].start());
                } else {
                    assert(out@[i] == cut[i - m]);
                }
            }
            assert forall|i: int, j: int| 0 <= i < j < out@.len() implies (
            #[trigger] out@[i]).last() < (#[trigger] out@[j]).first() by {
                if j < m {
                    assert(out@[i] == before[i]);
                    assert(out@[j] == before[j]);
                } else if i < m {
                    assert(out@[i] == before[i]);
                    assert(out@[j] == cut[j - m]);
                    assert(ranges@[t - 1].end() + 1 < ranges@[t as int].start());
                } else {
                    assert(out@[i] == cut[i - m]);
                    assert(out@[j] == cut[j - m]);
                }
            }
            assert forall|a: int|
                #![trigger any_of_first(ranges@, t + 1, a)]
                any_of_first(ranges@, t + 1, a) implies some_holds(out@, a) by {
                let i = choose|i: int|
                    0 <= i < t + 1 && i < ranges@.len() && #[trigger] ranges@[i].contains(a);
                if i < t {
                    assert(any_of_first(ranges@, t as int, a));
                    assert(some_holds(before, a));
                    let p = choose|p: int| 0 <= p < before.len() && #[trigger] before[p].contains(a);
                    assert(out@[p] == before[p]);
                    assert(out@[p].contains(a));
                } else {
                    assert(some_holds(cut, a));
                    let p = choose|p: int| 0 <= p < cut.len() && #[trigger] cut[p].contains(a);
                    assert(out@[m + p] == cut[p]);
                    assert(out@[m + p].contains(a));
                }
            }
        }
        t = t + 1;
    }
    proof {
        assert forall|a: int|
            #![trigger covers(out@, family, a)]
            #![trigger covers(blocks@, family, a)]
            covers(out@, family, a) <==> covers(blocks@, family, a) by {
            if covers(out@, family, a) {
                let i = choose|i: int| 0 <= i < out@.len() && #[trigger] holds(out@[i], family, a);
                assert(out@[i].contains(a));
                assert(covers(blocks@, out@[i].family(), a));
            }
            if covers(blocks@, family, a) {
                assert(any_holds(intervals@, a));
                assert(any_holds(ranges@, a));
                let i = choose|i: int| 0 <= i < ranges@.len() && #[trigger] ranges@[i].contains(a);
                assert(any_of_first(ranges@, t as int, a));
                assert(some_holds(out@, a));
                let p = choose|p: int| 0 <= p < out@.len() && #[trigger] out@[p].contains(a);
                assert(holds(out@[p], family, a));
            }
        }
    }
    out
}

/// Aggregates a list of blocks: the result covers, in each family, exactly
/// the addresses that the blocks cover, with the fewest blocks possible,
/// IPv4 first and in ascending order within each family.
pub fn aggregate(blocks: &Vec<Block>) -> (out: Vec<Block>)
    ensures
        is_aggregate_of(out@, blocks@),
{
    let mut out = aggregate_family(blocks, Family::V4);
    let mut rest = aggregate_family(blocks, Family::V6);
    let ghost v4 = out@;
    let ghost v6 = rest@;
    out.append(&mut rest);
    proof {
        let m = v4.len() as int;
        assert forall|i: int| 0 <= i < out@.len() implies (#[trigger] out@[i]).wf() && maximal_in(
            out@[i],
            blocks@,
        ) by {
            if i < m {
                assert(out@[i] == v4[i]);
            } else {
                assert(out@[i] == v6[i - m]);
            }
        }
        assert forall|i: int, j: int| 0 <= i < j < out@.len() implies goes_before(
            #[trigger] out@[i],
            #[trigger] out@[j],
        ) by {
            if i < m {
                assert(out@[i] == v4[i]);
            } else {
                assert(out@[i] == v6[i - m]);
            }
            if j < m {
                assert(out@[j] == v4[j]);
            } else {
                assert(out@[j] == v6[j - m]);
            }
        }
        assert forall|f: Family, a: int|
            #![trigger covers(out@, f, a)]
            #![trigger covers(blocks@, f, a)]
            covers(out@, f, a) <==> covers(blocks@, f, a) by {
            let part = if f == Family::V4 { v4 } else { v6 };
            let shift = if f == Family::V4 { 0 } else { m };
            if covers(out@, f, a) {
                let i = choose|i: int| 0 <= i < out@.len() && #[trigger] holds(out@[i], f, a);
                if i < m {
                    assert(out@[i] == v4[i]);
                    assert(holds(v4[i], f, a));
                } else {
                    assert(out@[i] == v6[i - m]);
                    assert(holds(v6[i - m], f, a));
                }
                assert(covers(part, f, a));
            }
            if covers(blocks@, f, a) {
                assert(covers(part, f, a));
                let p = choose|p: int| 0 <= p < part.len() && #[trigger] holds(part[p], f, a);
                assert(out@[shift + p] == part[p]);
                assert(holds(out@[shift + p], f, a));
            }
        }
    }
    out
}

/// Gathers networks into their minimal representation: duplicates are
/// dropped, networks inside larger ones are absorbed, and neighbours that
/// make up a larger block are joined.
pub fn gather(nets: &Vec<Block>) -> (out: Vec<Block>)
    ensures
        is_aggregate_of(out@, nets@),
{
    aggregate(nets)
}

} // verus!

//! Splitting an interval of addresses into the fewest blocks.
//!
//! Starting at the low end, the largest block that is aligned at the current
//! address and still fits is cut off, until the interval is used up. Each
//! block cut this way is as large as the interval allows: no aligned range
//! inside the interval contains it and is larger.

use vstd::prelude::*;
use vstd::arithmetic::power2::{pow2, lemma_pow2_pos, lemma_pow2_strictly_increases};
use crate::align::{
    aligned,
    range_last,
    lemma_aligned_lower,
    lemma_aligned_next,
    lemma_nested_or_disjoint,
    lemma_pow2_monotone,
    lemma_pow2_step,
};
use crate::block::{Block, Interval};
use crate::family::{Family, lemma_space_values};

verus! {

/// The aligned range of `bits` bits at `first` lies inside `lo ..= hi`.
pub open spec fn fits(first: int, bits: nat, lo: int, hi: int) -> bool {
    aligned(first, bits) && lo <= first && range_last(first, bits) <= hi
}

/// `bits` is the largest size at which a range aligned at `start` ends at or
/// before `end`.
pub open spec fn is_largest_at(start: int, bits: nat, end: int) -> bool {
    &&& aligned(start, bits)
    &&& range_last(start, bits) <= end
    &&& forall|k: nat| k > bits ==> !(#[trigger] aligned(start, k) && range_last(start, k) <= end)
}

/// No aligned range inside `lo ..= hi` is larger than `b` and contains it.
pub open spec fn maximal_within(b: Block, lo: int, hi: int) -> bool {
    forall|first: int, bits: nat|
        #[trigger] fits(first, bits, lo, hi) && first <= b.first() && b.last() <= range_last(
            first,
            bits,
        ) ==> first == b.first() && bits == b.host_bits()
}

/// Some block of the sequence holds the address `a`.
pub open spec fn some_holds(blocks: Seq<Block>, a: int) -> bool {
    exists|i: int| 0 <= i < blocks.len() && #[trigger] blocks[i].contains(a)
}

/// `blocks` is the decomposition of `lo ..= hi` in the family: canonical
/// blocks in ascending order that follow one another without gap from `lo`
/// to `hi`, each as large as the interval allows.
pub open spec fn decomposes(blocks: Seq<Block>, family: Family, lo: int, hi: int) -> bool {
    &&& blocks.len() > 0
    &&& blocks[0].first() == lo
    &&& blocks[blocks.len() - 1].last() == hi
    &&& forall|i: int|
        0 <= i < blocks.len() ==> {
            &&& (#[trigger] blocks[i]).wf()
            &&& blocks[i].family() == family
            &&& lo <= blocks[i].first()
            &&& blocks[i].last() <= hi
            &&& maximal_within(blocks[i], lo, hi)
        }
    &&& forall|i: int|
        0 <= i < blocks.len() - 1 ==> (#[trigger] blocks[i]).last() + 1 == blocks[i + 1].first()
    &&& forall|i: int, j: int|
        0 <= i < j < blocks.len() ==> (#[trigger] blocks[i]).last() < (#[trigger] blocks[j]).first()
    &&& forall|a: int| lo <= a <= hi ==> #[trigger] some_holds(blocks, a)
}

/// When the next size up is not possible at `start`, no larger size is.
proof fn lemma_no_larger(start: int, bits: nat, end: int)
    requires
        aligned(start, bits),
        range_last(start, bits) <= end,
        !(aligned(start, bits + 1) && range_last(start, bits + 1) <= end),
    ensures
        is_largest_at(start, bits, end),
{
    assert forall|k: nat| k > bits implies !(#[trigger] aligned(start, k) && range_last(start, k)
        <= end) by {
        if aligned(start, k) && range_last(start, k) <= end {
            lemma_aligned_lower(start, bits + 1, k);
            lemma_pow2_monotone(bits + 1, k);
        }
    }
}

/// The largest block that starts at the low end of `range` and stays inside
/// it. Returns the number of its addresses less one, and its prefix length.
pub fn largest_aligned_block(range: &Interval) -> (r: (u128, u8))
    ensures
        r.1 <= range.family().width(),
        r.0 == pow2((range.family().width() - r.1) as nat) - 1,
        is_largest_at(
            range.start() as int,
            (range.family().width() - r.1) as nat,
            range.end() as int,
        ),
{
    proof {
        use_type_invariant(range);
        lemma_space_values();
    }
    let start = range.start();
    let end = range.end();
    let width = range.family().bits();
    let room = end - start;
    let mut span: u128 = 0;
    let mut bits: u8 = 0;
    let mut growing = true;
    proof {
        lemma_pow2_step(0);
        vstd::arithmetic::power2::lemma2_to64();
        assert(aligned(start as int, 0));
    }
    while growing && bits < width
        invariant
            width == range.family().width(),
            bits <= width <= 128,
            start <= end < range.family().space(),
            room == end - start,
            span == pow2(bits as nat) - 1,
            span <= room,
            aligned(start as int, bits as nat),
            !growing ==> !(aligned(start as int, (bits + 1) as nat) && range_last(
                start as int,
                (bits + 1) as nat,
            ) <= end),
        decreases 2 * (width - bits) + (if growing { 1int } else { 0int }),
    {
        proof {
            lemma_pow2_step(bits as nat);
            lemma_aligned_next(start as int, bits as nat);
        }
        if room - span <= span {
            growing = false;
        } else {
            let size = span + 1;
            if (start / size) % 2 != 0 {
                growing = false;
            } else {
                span = 2 * span + 1;
                bits = bits + 1;
            }
        }
    }
    proof {
        if growing {
            lemma_pow2_step(bits as nat);
        }
        lemma_no_larger(start as int, bits as nat, end as int);
    }
    (span, width - bits)
}

/// Cuts `range` into blocks: the decomposition of the interval, which is
/// the shortest list of blocks that covers exactly its addresses.
pub fn decompose_range(range: &Interval) -> (out: Vec<Block>)
    ensures
        decomposes(out@, range.family(), range.start() as int, range.end() as int),
{
    proof {
        use_type_invariant(range);
        lemma_space_values();
    }
    let family = range.family();
    let end = range.end();
    let ghost lo = range.start() as int;
    let ghost hi = end as int;
    let mut out: Vec<Block> = Vec::new();
    let mut start = range.start();
    let mut more = true;
    while more
        invariant
            family == range.family(),
            lo == range.start(),
            hi == end,
            end < family.space(),
            lo <= start <= end,
            more ==> forall|first: int, bits: nat|
                #[trigger] fits(first, bits, lo, hi) && first < start ==> range_last(first, bits)
                    < start,
            out@.len() == 0 ==> more && start == lo,
            out@.len() > 0 ==> out@[0].first() == lo,
            out@.len() > 0 && more ==> out@[out@.len() - 1].last() + 1 == start,
            !more ==> out@.len() > 0 && out@[out@.len() - 1].last() == hi,
            forall|i: int|
                0 <= i < out@.len() ==> {
                    &&& (#[trigger] out@[i]).wf()
                    &&& out@[i].family() == family
                    &&& lo <= out@[i].first()
                    &&& out@[i].last() <= hi
                    &&& more ==> out@[i].last() < start
                    &&& maximal_within(out@[i], lo, hi)
                },
            forall|i: int|
                0 <= i < out@.len() - 1 ==> (#[trigger] out@[i]).last() + 1 == out@[i + 1].first(),
            forall|i: int, j: int|
                0 <= i < j < out@.len() ==> (#[trigger] out@[i]).last() < (#[trigger] out@[j]).first(),
            forall|a: int|
                lo <= a && (if more { a < start } else { a <= hi }) ==> #[trigger] some_holds(
                    out@,
                    a,
                ),
        decreases (end - start) + (if more { 1int } else { 0int }),
    {
        let rest = Interval::from_bounds(family, start, end);
        let (span, prefix_len) = largest_aligned_block(&rest);
        let ghost bits = (family.width() - prefix_len) as nat;
        let block = Block::from_canonical(family, start, prefix_len);
        let ghost before = out@;
        proof {
            lemma_pow2_pos(bits);
            assert(block.host_bits() == bits);
            assert(block.first() == start);
            assert(block.last() == start + span);
            assert(maximal_within(block, lo, hi)) by {
                assert forall|first: int, k: nat|
                    #[trigger] fits(first, k, lo, hi) && first <= block.first() && block.last()
                        <= range_last(first, k) implies first == block.first() && k
                    == block.host_bits() by {
                    if k < bits {
                        lemma_pow2_strictly_increases(k, bits);
                    }
                    if k > bits {
                        assert(aligned(start as int, k));
                    }
                }
            }
        }
        out.push(block);
        proof {
            let n = before.len() as int;
            assert(out@[n] == block);
            assert forall|i: int| 0 <= i < out@.len() implies {
                &&& (#[trigger] out@[i]).wf()
                &&& out@[i].family() == family
                &&& lo <= out@[i].first()
                &&& out@[i].last() <= hi
                &&& maximal_within(out@[i], lo, hi)
            } by {
                if i < n {
                    assert(out@[i] == before[i]);
                }
            }
            assert forall|i: int| 0 <= i < out@.len() - 1 implies (#[trigger] out@[i]).last() + 1
                == out@[i + 1].first() by {
                if i < n - 1 {
                    assert(out@[i] == before[i]);
                    assert(out@[i + 1] == before[i + 1]);
                } else {
                    assert(out@[i] == before[n - 1]);
                }
            }
            assert forall|i: int, j: int| 0 <= i < j < out@.len() implies (#[trigger] out@[i]).last()
                < (#[trigger] out@[j]).first() by {
                assert(out@[i] == before[i]);
                if j < n {
                    assert(out@[j] == before[j]);
                }
            }
            assert forall|a: int| lo <= a <= start + span implies #[trigger] some_holds(out@, a) by {
                if a < start {
                    assert(some_holds(before, a));
                    let i = choose|i: int| 0 <= i < before.len() && #[trigger] before[i].contains(a);
                    assert(out@[i] == before[i]);
                    assert(out@[i].contains(a));
                } else {
                    assert(out@[n].contains(a));
                }
            }
        }
        if end - start == span {
            more = false;
        } else {
            let ghost old_start = start as int;
            start = start + span + 1;
            proof {
                assert forall|first: int, k: nat|
                    #[trigger] fits(first, k, lo, hi) && first < start implies range_last(first, k)
                    < start by {
                    if first >= old_start {
                        lemma_pow2_pos(k);
                        if k <= bits {
                            lemma_nested_or_disjoint(first, k, old_start, bits);
                        } else {
                            lemma_nested_or_disjoint(old_start, bits, first, k);
                            assert(aligned(old_start, k));
                        }
                    }
                }
            }
        }
    }
    out
}

} // verus!

//! What holds of every aggregate.
//!
//! The statements here speak of `is_aggregate_of`, which is what `aggregate`
//! ensures of its result, so each of them holds of every call.

use vstd::prelude::*;
use vstd::arithmetic::power2::{pow2, lemma_pow2_strictly_increases};
use vstd::relations::injective_on;
use vstd::set_lib::{set_int_range, lemma_int_range, lemma_len_subset, lemma_map_size};
use crate::aggregate::{ascending, covers, goes_before, holds, inside, is_aggregate_of, maximal_in};
use crate::align::{aligned, lemma_nested_or_disjoint};
use crate::block::Block;
use crate::decompose::{decomposes, fits, maximal_within, some_holds};
use crate::family::Family;

verus! {

/// Blocks nest: of two canonical blocks of one family that share an
/// address, the one with no more free bits lies inside the other.
pub proof fn lemma_blocks_nest(x: Block, y: Block)
    requires
        x.wf(),
        y.wf(),
        x.family() == y.family(),
        x.first() <= y.last(),
        y.first() <= x.last(),
        x.host_bits() <= y.host_bits(),
    ensures
        y.first() <= x.first(),
        x.last() <= y.last(),
{
    lemma_nested_or_disjoint(x.first(), x.host_bits(), y.first(), y.host_bits());
}

/// Canonical blocks of one family with the same first and last address are
/// the same block.
pub proof fn lemma_same_range_same_block(x: Block, y: Block)
    requires
        x.wf(),
        y.wf(),
        x.family() == y.family(),
        x.first() == y.first(),
        x.last() == y.last(),
    ensures
        x == y,
{
    if x.host_bits() < y.host_bits() {
        lemma_pow2_strictly_increases(x.host_bits(), y.host_bits());
    }
    if y.host_bits() < x.host_bits() {
        lemma_pow2_strictly_increases(y.host_bits(), x.host_bits());
    }
    x.lemma_same(y);
}

/// A block of the aggregate contains every canonical block that shares an
/// address with it and lies inside what the input covers.
pub proof fn lemma_result_absorbs(s: Seq<Block>, out: Seq<Block>, i: int, c: Block)
    requires
        is_aggregate_of(out, s),
        0 <= i < out.len(),
        c.wf(),
        c.family() == out[i].family(),
        inside(c, s),
        c.first() <= out[i].last(),
        out[i].first() <= c.last(),
    ensures
        out[i].first() <= c.first(),
        c.last() <= out[i].last(),
{
    let b = out[i];
    assert(b.wf() && maximal_in(b, s));
    if c.host_bits() <= b.host_bits() {
        lemma_blocks_nest(c, b);
    } else {
        lemma_blocks_nest(b, c);
        assert(c == b);
    }
}

/// Coverage equivalence: in each family the aggregate covers exactly the
/// addresses that the input covers.
pub proof fn lemma_covers_the_same(s: Seq<Block>, out: Seq<Block>, f: Family, a: int)
    requires
        is_aggregate_of(out, s),
    ensures
        covers(out, f, a) <==> covers(s, f, a),
{
}

/// Every block of the aggregate lies inside what the input covers.
pub proof fn lemma_result_inside(s: Seq<Block>, out: Seq<Block>, i: int)
    requires
        is_aggregate_of(out, s),
        0 <= i < out.len(),
    ensures
        inside(out[i], s),
{
    assert forall|a: int| out[i].contains(a) implies #[trigger] covers(s, out[i].family(), a) by {
        assert(holds(out[i], out[i].family(), a));
        assert(covers(out, out[i].family(), a));
    }
}

/// Disjointness: two different blocks of the aggregate that are of one
/// family share no address.
pub proof fn lemma_results_disjoint(s: Seq<Block>, out: Seq<Block>, i: int, j: int, a: int)
    requires
        is_aggregate_of(out, s),
        0 <= i < out.len(),
        0 <= j < out.len(),
        i != j,
        out[i].family() == out[j].family(),
    ensures
        !(out[i].contains(a) && out[j].contains(a)),
{
    if i < j {
        assert(goes_before(out[i], out[j]));
    } else {
        assert(goes_before(out[j], out[i]));
    }
}

/// No two blocks of the aggregate can be merged: no canonical block holds
/// exactly the addresses of two of them.
pub proof fn lemma_no_two_results_merge(s: Seq<Block>, out: Seq<Block>, i: int, j: int, c: Block)
    requires
        is_aggregate_of(out, s),
        0 <= i < out.len(),
        0 <= j < out.len(),
        i != j,
        c.wf(),
        c.family() == out[i].family(),
        c.family() == out[j].family(),
    ensures
        !(forall|a: int| c.contains(a) <==> out[i].contains(a) || out[j].contains(a)),
{
    if forall|a: int| c.contains(a) <==> out[i].contains(a) || out[j].contains(a) {
        let x = out[i];
        let y = out[j];
        assert(x.wf() && y.wf() && maximal_in(x, s));
        x.lemma_not_empty();
        y.lemma_not_empty();
        assert(x.contains(x.first()) && x.contains(x.last()));
        assert(y.contains(y.first()));
        assert(c.contains(x.first()) && c.contains(x.last()) && c.contains(y.first()));
        assert forall|a: int| c.contains(a) implies #[trigger] covers(s, c.family(), a) by {
            if x.contains(a) {
                assert(holds(x, c.family(), a));
            } else {
                assert(holds(y, c.family(), a));
            }
            assert(covers(out, c.family(), a));
        }
        assert(inside(c, s));
        assert(c == x);
        lemma_results_disjoint(s, out, i, j, y.first());
    }
}

/// Every stretch `lo ..= hi` of addresses is covered by `s` in family `f`.
pub open spec fn stretch_covered(s: Seq<Block>, f: Family, lo: int, hi: int) -> bool {
    lo <= hi && forall|a: int| lo <= a <= hi ==> #[trigger] covers(s, f, a)
}

/// What `s` covers falls into whole blocks: every covered stretch of
/// addresses lies in one canonical block that is covered too.
pub open spec fn covered_in_whole_blocks(s: Seq<Block>) -> bool {
    forall|f: Family, lo: int, hi: int|
        #![trigger stretch_covered(s, f, lo, hi)]
        stretch_covered(s, f, lo, hi) ==> exists|c: Block|
            c.wf() && c.family() == f && c.first() <= lo && hi <= c.last() && #[trigger] inside(c, s)
}

/// Where what the input covers falls into whole blocks, two blocks of the
/// aggregate that are of one family are not even adjacent: an address that
/// neither holds lies between them. (Without that condition a range such as
/// three consecutive blocks of one size yields two adjacent results of
/// different sizes, which cannot be joined into one block.)
pub proof fn lemma_results_apart(s: Seq<Block>, out: Seq<Block>, i: int, j: int)
    requires
        is_aggregate_of(out, s),
        covered_in_whole_blocks(s),
        0 <= i < j < out.len(),
        out[i].family() == out[j].family(),
    ensures
        out[i].last() + 1 < out[j].first(),
{
    let x = out[i];
    let y = out[j];
    let f = x.family();
    assert(goes_before(x, y));
    assert(x.wf() && y.wf() && maximal_in(x, s));
    x.lemma_not_empty();
    y.lemma_not_empty();
    if x.last() + 1 == y.first() {
        assert forall|a: int| x.first() <= a <= y.last() implies #[trigger] covers(s, f, a) by {
            if a <= x.last() {
                assert(holds(x, f, a));
            } else {
                assert(holds(y, f, a));
            }
            assert(covers(out, f, a));
        }
        assert(stretch_covered(s, f, x.first(), y.last()));
        let c = choose|c: Block|
            c.wf() && c.family() == f && c.first() <= x.first() && y.last() <= c.last()
                && #[trigger] inside(c, s);
        assert(c == x);
    }
}

/// The condition of `lemma_results_apart` leaves out no input of which its
/// conclusion holds: where no two blocks of the aggregate are adjacent, what
/// the input covers falls into whole blocks.
pub proof fn lemma_whole_blocks_when_apart(s: Seq<Block>, out: Seq<Block>)
    requires
        is_aggregate_of(out, s),
        forall|i: int, j: int|
            0 <= i < j < out.len() && (#[trigger] out[i]).family() == (#[trigger] out[j]).family()
                ==> out[i].last() + 1 < out[j].first(),
    ensures
        covered_in_whole_blocks(s),
{
    assert forall|f: Family, lo: int, hi: int|
        #![trigger stretch_covered(s, f, lo, hi)]
        stretch_covered(s, f, lo, hi) implies exists|c: Block|
        c.wf() && c.family() == f && c.first() <= lo && hi <= c.last() && #[trigger] inside(c, s) by {
        assert(covers(s, f, lo));
        assert(covers(out, f, lo));
        let i = choose|i: int| 0 <= i < out.len() && #[trigger] holds(out[i], f, lo);
        let c = out[i];
        assert(c.wf());
        lemma_result_inside(s, out, i);
        if c.last() < hi {
            let a = c.last() + 1;
            assert(covers(s, f, a));
            assert(covers(out, f, a));
            let j = choose|j: int| 0 <= j < out.len() && #[trigger] holds(out[j], f, a);
            if i < j {
                assert(out[i].last() + 1 < out[j].first());
            } else if j < i {
                assert(goes_before(out[j], out[i]));
            }
        }
    }
}

/// Canonical alignment: the address of every block of the aggregate is a
/// multiple of the number of addresses in the block.
pub proof fn lemma_results_aligned(s: Seq<Block>, out: Seq<Block>, i: int)
    requires
        is_aggregate_of(out, s),
        0 <= i < out.len(),
    ensures
        out[i].prefix_len() <= out[i].family().width(),
        out[i].address() as int % pow2((out[i].family().width() - out[i].prefix_len()) as nat) as int
            == 0,
{
    assert(out[i].wf());
    assert(aligned(out[i].first(), out[i].host_bits()));
}

/// Two ascending sequences of canonical blocks that hold the same blocks
/// are the same sequence.
pub proof fn lemma_ascending_same_items(x: Seq<Block>, y: Seq<Block>)
    requires
        ascending(x),
        ascending(y),
        forall|i: int| 0 <= i < x.len() ==> (#[trigger] x[i]).wf() && y.contains(x[i]),
        forall|j: int| 0 <= j < y.len() ==> (#[trigger] y[j]).wf() && x.contains(y[j]),
    ensures
        x == y,
    decreases x.len(),
{
    if x.len() == 0 {
        if y.len() > 0 {
            assert(x.contains(y[0]));
        }
        assert(x =~= y);
    } else {
        assert(x[0].wf() && y.contains(x[0]));
        let j0 = choose|j: int| 0 <= j < y.len() && y[j] == x[0];
        assert(y[0].wf() && x.contains(y[0]));
        let i0 = choose|i: int| 0 <= i < x.len() && x[i] == y[0];
        x[0].lemma_not_empty();
        y[0].lemma_not_empty();
        if j0 > 0 {
            assert(goes_before(y[0], y[j0]));
            if i0 > 0 {
                assert(goes_before(x[0], x[i0]));
            }
        }
        assert(x[0] == y[0]);
        let xs = x.drop_first();
        let ys = y.drop_first();
        assert forall|i: int| 0 <= i < xs.len() implies (#[trigger] xs[i]).wf() && ys.contains(
            xs[i],
        ) by {
            assert(xs[i] == x[i + 1]);
            assert(x[i + 1].wf() && y.contains(x[i + 1]));
            let j = choose|j: int| 0 <= j < y.len() && y[j] == x[i + 1];
            assert(goes_before(x[0], x[i + 1]));
            x[i + 1].lemma_not_empty();
            assert(j > 0);
            assert(ys[j - 1] == y[j]);
        }
        assert forall|j: int| 0 <= j < ys.len() implies (#[trigger] ys[j]).wf() && xs.contains(
            ys[j],
        ) by {
            assert(ys[j] == y[j + 1]);
            assert(y[j + 1].wf() && x.contains(y[j + 1]));
            let i = choose|i: int| 0 <= i < x.len() && x[i] == y[j + 1];
            assert(goes_before(y[0], y[j + 1]));
            y[j + 1].lemma_not_empty();
            assert(i > 0);
            assert(xs[i - 1] == x[i]);
        }
        assert forall|i: int, j: int| 0 <= i < j < xs.len() implies goes_before(
            #[trigger] xs[i],
            #[trigger] xs[j],
        ) by {
            assert(goes_before(x[i + 1], x[j + 1]));
        }
        assert forall|i: int, j: int| 0 <= i < j < ys.len() implies goes_before(
            #[trigger] ys[i],
            #[trigger] ys[j],
        ) by {
            assert(goes_before(y[i + 1], y[j + 1]));
        }
        lemma_ascending_same_items(xs, ys);
        assert(x =~= seq![x[0]] + xs);
        assert(y =~= seq![y[0]] + ys);
    }
}

/// Every block of one aggregate occurs in any aggregate of an input that
/// covers the same addresses.
proof fn lemma_result_occurs(s: Seq<Block>, t: Seq<Block>, x: Seq<Block>, y: Seq<Block>, i: int)
    requires
        forall|f: Family, a: int| covers(s, f, a) <==> covers(t, f, a),
        is_aggregate_of(x, s),
        is_aggregate_of(y, t),
        0 <= i < x.len(),
    ensures
        y.contains(x[i]),
{
    let b = x[i];
    let f = b.family();
    assert(b.wf());
    b.lemma_not_empty();
    assert(holds(b, f, b.first()));
    assert(covers(x, f, b.first()));
    assert(covers(s, f, b.first()));
    assert(covers(t, f, b.first()));
    assert(covers(y, f, b.first()));
    let j = choose|j: int| 0 <= j < y.len() && #[trigger] holds(y[j], f, b.first());
    let c = y[j];
    assert(c.wf());
    lemma_result_inside(s, x, i);
    lemma_result_inside(t, y, j);
    assert forall|a: int| c.contains(a) implies #[trigger] covers(s, c.family(), a) by {
        assert(covers(t, c.family(), a));
    }
    assert forall|a: int| b.contains(a) implies #[trigger] covers(t, b.family(), a) by {
        assert(covers(s, b.family(), a));
    }
    lemma_result_absorbs(s, x, i, c);
    lemma_result_absorbs(t, y, j, b);
    lemma_same_range_same_block(b, c);
}

/// The aggregate depends only on the addresses covered: inputs that cover
/// the same addresses in each family have the same aggregate, block for
/// block. In particular neither the order of the input nor repetitions in
/// it matter.
pub proof fn lemma_aggregate_unique(s: Seq<Block>, t: Seq<Block>, x: Seq<Block>, y: Seq<Block>)
    requires
        forall|f: Family, a: int| covers(s, f, a) <==> covers(t, f, a),
        is_aggregate_of(x, s),
        is_aggregate_of(y, t),
    ensures
        x == y,
{
    assert forall|i: int| 0 <= i < x.len() implies (#[trigger] x[i]).wf() && y.contains(x[i]) by {
        lemma_result_occurs(s, t, x, y, i);
    }
    assert forall|j: int| 0 <= j < y.len() implies (#[trigger] y[j]).wf() && x.contains(y[j]) by {
        lemma_result_occurs(t, s, y, x, j);
    }
    lemma_ascending_same_items(x, y);
}

/// Idempotence: the aggregate of an aggregate is that aggregate.
pub proof fn lemma_aggregate_idempotent(s: Seq<Block>, out: Seq<Block>, again: Seq<Block>)
    requires
        is_aggregate_of(out, s),
        is_aggregate_of(again, out),
    ensures
        again == out,
{
    lemma_aggregate_unique(out, s, again, out);
}

/// An injection from `0 .. n` into `0 .. m` shows that `n <= m`.
proof fn lemma_injection_bound(n: int, m: int, g: spec_fn(int) -> int)
    requires
        0 <= n,
        0 <= m,
        forall|i: int| 0 <= i < n ==> 0 <= #[trigger] g(i) < m,
        forall|i: int, j: int| 0 <= i < n && 0 <= j < n && #[trigger] g(i) == #[trigger] g(j) ==> i == j,
    ensures
        n <= m,
{
    let from = set_int_range(0, n);
    let to = set_int_range(0, m);
    let image = from.map(g);
    lemma_int_range(0, n);
    lemma_int_range(0, m);
    assert(injective_on(g, from));
    lemma_map_size(from, image, g);
    assert(image.subset_of(to)) by {
        assert forall|v: int| image.contains(v) implies to.contains(v) by {
            let i = choose|i: int| from.contains(i) && v == g(i);
            assert(0 <= g(i) < m);
        }
    }
    lemma_len_subset(image, to);
}

/// Minimality: no list of canonical blocks that covers the same addresses
/// is shorter than the aggregate.
pub proof fn lemma_aggregate_is_shortest(s: Seq<Block>, out: Seq<Block>, other: Seq<Block>)
    requires
        is_aggregate_of(out, s),
        forall|j: int| 0 <= j < other.len() ==> (#[trigger] other[j]).wf(),
        forall|f: Family, a: int| covers(other, f, a) <==> covers(s, f, a),
    ensures
        out.len() <= other.len(),
{
    let g = |i: int|
        choose|j: int|
            0 <= j < other.len() && #[trigger] holds(other[j], out[i].family(), out[i].first());
    assert forall|i: int| 0 <= i < out.len() implies {
        &&& 0 <= #[trigger] g(i) < other.len()
        &&& other[g(i)].family() == out[i].family()
        &&& out[i].first() <= other[g(i)].first()
        &&& other[g(i)].last() <= out[i].last()
    } by {
        let b = out[i];
        let f = b.family();
        assert(b.wf());
        b.lemma_not_empty();
        assert(holds(b, f, b.first()));
        assert(covers(out, f, b.first()));
        assert(covers(s, f, b.first()));
        assert(covers(other, f, b.first()));
        let j = g(i);
        let c = other[j];
        assert(holds(c, f, b.first()));
        assert forall|a: int| c.contains(a) implies #[trigger] covers(s, c.family(), a) by {
            assert(holds(c, c.family(), a));
            assert(covers(other, c.family(), a));
        }
        lemma_result_absorbs(s, out, i, c);
    }
    assert forall|i: int, k: int|
        0 <= i < out.len() && 0 <= k < out.len() && #[trigger] g(i) == #[trigger] g(k) implies i
        == k by {
        if i != k {
            let c = other[g(i)];
            assert(c.wf());
            c.lemma_not_empty();
            assert(out[i].contains(c.first()) && out[k].contains(c.first()));
            lemma_results_disjoint(s, out, i, k, c.first());
        }
    }
    lemma_injection_bound(out.len() as int, other.len() as int, g);
}

/// The aggregate does not depend on the order of the input, nor on how
/// often a block occurs in it: inputs that hold the same blocks have the
/// same aggregate.
pub proof fn lemma_aggregate_ignores_order(
    s: Seq<Block>,
    t: Seq<Block>,
    x: Seq<Block>,
    y: Seq<Block>,
)
    requires
        forall|i: int| 0 <= i < s.len() ==> t.contains(#[trigger] s[i]),
        forall|j: int| 0 <= j < t.len() ==> s.contains(#[trigger] t[j]),
        is_aggregate_of(x, s),
        is_aggregate_of(y, t),
    ensures
        x == y,
{
    assert forall|f: Family, a: int| covers(s, f, a) <==> covers(t, f, a) by {
        if covers(s, f, a) {
            let i = choose|i: int| 0 <= i < s.len() && #[trigger] holds(s[i], f, a);
            assert(t.contains(s[i]));
            let j = choose|j: int| 0 <= j < t.len() && t[j] == s[i];
            assert(holds(t[j], f, a));
        }
        if covers(t, f, a) {
            let j = choose|j: int| 0 <= j < t.len() && #[trigger] holds(t[j], f, a);
            assert(s.contains(t[j]));
            let i = choose|i: int| 0 <= i < s.len() && s[i] == t[j];
            assert(holds(s[i], f, a));
        }
    }
    lemma_aggregate_unique(s, t, x, y);
}

/// The decomposition of an interval is its shortest cover: no list of
/// canonical blocks of the family that covers exactly `lo ..= hi` is
/// shorter.
pub proof fn lemma_decomposition_is_shortest(
    blocks: Seq<Block>,
    family: Family,
    lo: int,
    hi: int,
    other: Seq<Block>,
)
    requires
        decomposes(blocks, family, lo, hi),
        forall|j: int|
            0 <= j < other.len() ==> (#[trigger] other[j]).wf() && other[j].family() == family && lo
                <= other[j].first() && other[j].last() <= hi,
        forall|a: int| lo <= a <= hi ==> #[trigger] some_holds(other, a),
    ensures
        blocks.len() <= other.len(),
{
    let g = |i: int| choose|j: int| 0 <= j < other.len() && #[trigger] other[j].contains(blocks[i].first());
    assert forall|i: int| 0 <= i < blocks.len() implies {
        &&& 0 <= #[trigger] g(i) < other.len()
        &&& blocks[i].first() <= other[g(i)].first()
        &&& other[g(i)].last() <= blocks[i].last()
    } by {
        let b = blocks[i];
        assert(b.wf() && maximal_within(b, lo, hi));
        b.lemma_not_empty();
        assert(some_holds(other, b.first()));
        let c = other[g(i)];
        assert(c.contains(b.first()));
        assert(c.wf());
        if c.host_bits() <= b.host_bits() {
            lemma_blocks_nest(c, b);
        } else {
            lemma_blocks_nest(b, c);
            assert(fits(c.first(), c.host_bits(), lo, hi));
        }
    }
    assert forall|i: int, k: int|
        0 <= i < blocks.len() && 0 <= k < blocks.len() && #[trigger] g(i) == #[trigger] g(k) implies i
        == k by {
        let c = other[g(i)];
        assert(c.wf());
        c.lemma_not_empty();
        if i < k {
            assert(blocks[i].last() < blocks[k].first());
        }
        if k < i {
            assert(blocks[k].last() < blocks[i].first());
        }
    }
    lemma_injection_bound(blocks.len() as int, other.len() as int, g);
}

} // verus!

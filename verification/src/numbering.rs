//! The flat-tree numbering: which flat index a node of given depth and offset
//! has, and the way back from an index to its depth and offset.
use vstd::arithmetic::div_mod::lemma_div_denominator;
use vstd::arithmetic::power2::{lemma2_to64, lemma_pow2_pos, lemma_pow2_unfold, pow2};
use vstd::prelude::*;

verus! {

/// Flat index of the node at `depth`, counted upward from the leaves, and
/// `offset`, counted from the left among the nodes of that depth.
pub open spec fn index_of(depth: nat, offset: nat) -> nat {
    (offset * pow2(depth + 1) + pow2(depth) - 1) as nat
}

/// Depth of the node at a flat index: the number of one bits that end its
/// binary form.
pub open spec fn depth_of(index: nat) -> nat
    decreases index,
{
    if index % 2 == 0 {
        0
    } else {
        1 + depth_of(index / 2)
    }
}

/// Offset of the node at a flat index among the nodes of its own depth.
pub open spec fn offset_of(index: nat) -> nat {
    index / pow2(depth_of(index) + 1)
}

/// Leaves are spaced by two, and each level up doubles an index and adds one.
pub proof fn lemma_index_of_unfold(depth: nat, offset: nat)
    ensures
        index_of(0, offset) == 2 * offset,
        index_of(depth + 1, offset) == 2 * index_of(depth, offset) + 1,
        index_of(depth, offset) == offset * pow2(depth + 1) + pow2(depth) - 1,
{
    lemma2_to64();
    lemma_pow2_pos(depth);
    lemma_pow2_pos(depth + 1);
    lemma_pow2_unfold(depth + 1);
    lemma_pow2_unfold(depth + 2);
    let p: int = pow2(depth + 1) as int;
    let q: int = pow2(depth + 2) as int;
    assert(offset * q == 2 * (offset * p)) by (nonlinear_arith)
        requires
            q == 2 * p,
    ;
    assert(offset * p >= 0) by (nonlinear_arith)
        requires
            p > 0,
            offset >= 0,
    ;
    let r: int = pow2(1) as int;
    assert(offset * r == 2 * offset) by (nonlinear_arith)
        requires
            r == 2,
    ;
}

/// An odd index has the offset of the index it halves to.
pub proof fn lemma_offset_of_odd(index: nat)
    requires
        index % 2 == 1,
    ensures
        offset_of(index) == offset_of(index / 2),
{
    let d: nat = depth_of(index / 2);
    lemma_pow2_pos(d + 1);
    lemma_pow2_unfold(d + 2);
    lemma_div_denominator(index as int, 2, pow2(d + 1) as int);
}

/// A node's index only grows with its depth.
pub proof fn lemma_index_of_grows(low: nat, high: nat, offset: nat)
    requires
        low <= high,
    ensures
        index_of(low, offset) <= index_of(high, offset),
    decreases high - low,
{
    if low < high {
        lemma_index_of_grows(low + 1, high, offset);
        lemma_index_of_unfold(low, offset);
    }
}

/// Every index is the index of its own depth and offset.
pub proof fn lemma_index_of_depth_offset(index: nat)
    ensures
        index_of(depth_of(index), offset_of(index)) == index,
    decreases index,
{
    if index % 2 == 0 {
        lemma2_to64();
        lemma_index_of_unfold(0, index / 2);
    } else {
        lemma_index_of_depth_offset(index / 2);
        lemma_offset_of_odd(index);
        lemma_index_of_unfold(depth_of(index / 2), offset_of(index / 2));
    }
}

/// The depth of the node at `depth` and `offset` is `depth`.
pub proof fn lemma_depth_of_index_of(depth: nat, offset: nat)
    ensures
        depth_of(index_of(depth, offset)) == depth,
    decreases depth,
{
    if depth == 0 {
        lemma_index_of_unfold(0, offset);
    } else {
        let below: nat = (depth - 1) as nat;
        lemma_index_of_unfold(below, offset);
        lemma_depth_of_index_of(below, offset);
    }
}

/// The offset of the node at `depth` and `offset` is `offset`.
pub proof fn lemma_offset_of_index_of(depth: nat, offset: nat)
    ensures
        offset_of(index_of(depth, offset)) == offset,
    decreases depth,
{
    if depth == 0 {
        lemma2_to64();
        lemma_index_of_unfold(0, offset);
    } else {
        let below: nat = (depth - 1) as nat;
        lemma_index_of_unfold(below, offset);
        lemma_offset_of_index_of(below, offset);
        lemma_offset_of_odd(index_of(depth, offset));
    }
}

/// The depth is zero on the even indices and nowhere else.
pub proof fn lemma_leaf_iff_even(index: nat)
    ensures
        depth_of(index) == 0 <==> index % 2 == 0,
{
}

/// The flat index of the node at `depth` and `offset`.
pub fn index(depth: usize, offset: usize) -> (i: usize)
    requires
        index_of(depth as nat, offset as nat) <= usize::MAX,
    ensures
        i == index_of(depth as nat, offset as nat),
{
    proof {
        lemma_index_of_unfold(0, offset as nat);
        lemma_index_of_grows(0, depth as nat, offset as nat);
    }
    let mut i: usize = 2 * offset;
    let mut level: usize = 0;
    while level < depth
        invariant
            level <= depth,
            i == index_of(level as nat, offset as nat),
            index_of(depth as nat, offset as nat) <= usize::MAX,
        decreases depth - level,
    {
        proof {
            lemma_index_of_unfold(level as nat, offset as nat);
            lemma_index_of_grows((level + 1) as nat, depth as nat, offset as nat);
        }
        i = 2 * i + 1;
        level = level + 1;
    }
    i
}

/// The depth of the node at a flat index.
pub fn depth(index: usize) -> (d: usize)
    ensures
        d == depth_of(index as nat),
{
    let mut rest: usize = index;
    let mut d: usize = 0;
    while rest % 2 == 1
        invariant
            d + rest <= index,
            d + depth_of(rest as nat) == depth_of(index as nat),
        decreases rest,
    {
        rest = rest / 2;
        d = d + 1;
    }
    d
}

/// The offset of the node at a flat index among the nodes of its depth.
pub fn offset(index: usize) -> (o: usize)
    ensures
        o == offset_of(index as nat),
{
    let mut rest: usize = index;
    while rest % 2 == 1
        invariant
            offset_of(rest as nat) == offset_of(index as nat),
        decreases rest,
    {
        proof {
            lemma_offset_of_odd(rest as nat);
        }
        rest = rest / 2;
    }
    proof {
        lemma2_to64();
    }
    rest / 2
}

} // verus!

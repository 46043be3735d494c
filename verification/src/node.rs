//! Positions in the tree and the moves between them, as mathematics: a
//! position is a depth and an offset, a move is a function on positions, and
//! the lemmas say what each move does to the flat index.
use crate::numbering::{
    depth_of, index_of, lemma_depth_of_index_of, lemma_index_of_depth_offset,
    lemma_index_of_unfold, lemma_offset_of_index_of, offset_of,
};
use vstd::arithmetic::power2::{
    lemma2_to64, lemma_pow2_adds, lemma_pow2_pos, lemma_pow2_strictly_increases,
    lemma_pow2_unfold, pow2,
};
use vstd::prelude::*;

verus! {

/// A position in the tree: `depth` levels above the leaves, and the
/// `offset`-th node of that level from the left, counted from zero.
pub struct Node {
    pub depth: nat,
    pub offset: nat,
}

impl Node {
    /// The position that a flat index stands for.
    pub open spec fn at(index: nat) -> Node {
        Node { depth: depth_of(index), offset: offset_of(index) }
    }

    /// The flat index of this position.
    pub open spec fn index(self) -> nat {
        index_of(self.depth, self.offset)
    }

    /// The distance in flat indices between neighbours of this depth.
    pub open spec fn factor(self) -> nat {
        pow2(self.depth + 1)
    }

    /// Both the index and the factor of this position fit a `usize`.
    pub open spec fn in_range(self) -> bool {
        self.index() <= usize::MAX && self.depth + 1 < usize::BITS
    }

    /// This position is the left child of its parent.
    pub open spec fn is_left(self) -> bool {
        self.offset % 2 == 0
    }

    /// The neighbour to the right, at the same depth.
    pub open spec fn next(self) -> Node {
        Node { depth: self.depth, offset: self.offset + 1 }
    }

    /// The neighbour to the left, at the same depth; the first node of a
    /// depth has none and stands for itself.
    pub open spec fn prev(self) -> Node {
        if self.offset == 0 {
            self
        } else {
            Node { depth: self.depth, offset: (self.offset - 1) as nat }
        }
    }

    /// The other child of this position's parent.
    pub open spec fn sibling(self) -> Node {
        if self.is_left() {
            self.next()
        } else {
            self.prev()
        }
    }

    /// The position one level up that covers this one.
    pub open spec fn parent(self) -> Node {
        Node { depth: self.depth + 1, offset: self.offset / 2 }
    }

    /// The left one of the two positions below; a leaf has none and stands
    /// for itself.
    pub open spec fn left_child(self) -> Node {
        if self.depth == 0 {
            self
        } else {
            Node { depth: (self.depth - 1) as nat, offset: 2 * self.offset }
        }
    }

    /// The right one of the two positions below; a leaf has none and stands
    /// for itself.
    pub open spec fn right_child(self) -> Node {
        if self.depth == 0 {
            self
        } else {
            Node { depth: (self.depth - 1) as nat, offset: 2 * self.offset + 1 }
        }
    }

    /// The leftmost leaf below this position.
    pub open spec fn left_span(self) -> Node {
        Node { depth: 0, offset: self.offset * pow2(self.depth) }
    }

    /// The rightmost leaf below this position.
    pub open spec fn right_span(self) -> Node {
        Node { depth: 0, offset: ((self.offset + 1) * pow2(self.depth) - 1) as nat }
    }
}

/// A flat index and its position stand for each other.
pub proof fn lemma_at_index(index: nat, node: Node)
    ensures
        Node::at(index).index() == index,
        Node::at(node.index()) == node,
{
    lemma_index_of_depth_offset(index);
    lemma_depth_of_index_of(node.depth, node.offset);
    lemma_offset_of_index_of(node.depth, node.offset);
}

/// The factor is at least two, even, and two exactly on the leaves.
pub proof fn lemma_factor(node: Node)
    ensures
        node.factor() == 2 * pow2(node.depth),
        node.factor() >= 2,
        node.factor() == 2 <==> node.depth == 0,
        node.index() + 1 >= node.factor() / 2,
{
    lemma2_to64();
    lemma_pow2_pos(node.depth);
    lemma_pow2_unfold(node.depth + 1);
    if node.depth > 0 {
        lemma_pow2_strictly_increases(0, node.depth);
    }
    lemma_index_of_unfold(node.depth, node.offset);
    let p: int = node.factor() as int;
    assert(node.offset * p >= 0) by (nonlinear_arith)
        requires
            p > 0,
            node.offset >= 0,
    ;
}

/// A step to the right adds the factor to the index; a step to the left
/// takes it off.
pub proof fn lemma_step_index(node: Node)
    ensures
        node.next().index() == node.index() + node.factor(),
        node.next().factor() == node.factor(),
        node.offset > 0 ==> node.prev().index() == node.index() - node.factor(),
        node.prev().factor() == node.factor(),
{
    let p: int = node.factor() as int;
    let o: int = node.offset as int;
    lemma_index_of_unfold(node.depth, node.offset);
    lemma_index_of_unfold(node.depth, node.offset + 1);
    assert((o + 1) * p == o * p + p) by (nonlinear_arith);
    if o > 0 {
        lemma_index_of_unfold(node.depth, (node.offset - 1) as nat);
        assert((o - 1) * p == o * p - p) by (nonlinear_arith);
    }
}

/// The parent lies half a factor to the right of a left child and half a
/// factor to the left of a right child, and its factor is twice theirs.
pub proof fn lemma_parent_index(node: Node)
    ensures
        node.is_left() ==> node.parent().index() == node.index() + node.factor() / 2,
        !node.is_left() ==> node.parent().index() == node.index() - node.factor() / 2,
        node.parent().factor() == 2 * node.factor(),
{
    let p: int = node.factor() as int;
    let q: int = node.parent().factor() as int;
    let o: int = node.offset as int;
    let k: int = o / 2;
    lemma_factor(node);
    lemma_factor(node.parent());
    lemma_index_of_unfold(node.depth, node.offset);
    lemma_index_of_unfold(node.depth + 1, node.offset / 2);
    assert(k * q == 2 * (k * p)) by (nonlinear_arith)
        requires
            q == 2 * p,
    ;
    if o % 2 == 0 {
        assert(o * p == 2 * (k * p)) by (nonlinear_arith)
            requires
                o == 2 * k,
        ;
    } else {
        assert(o * p == 2 * (k * p) + p) by (nonlinear_arith)
            requires
                o == 2 * k + 1,
        ;
    }
}

/// Below a node that is no leaf, the left child lies a quarter of the factor
/// to the left, the right child a quarter to the right, and their factor is
/// half the node's.
pub proof fn lemma_child_index(node: Node)
    requires
        node.depth > 0,
    ensures
        node.left_child().index() == node.index() - node.factor() / 4,
        node.right_child().index() == node.index() + node.factor() / 4,
        2 * node.left_child().factor() == node.factor(),
        2 * node.right_child().factor() == node.factor(),
{
    lemma_parent_index(node.left_child());
    lemma_parent_index(node.right_child());
    lemma_factor(node.left_child());
}

/// The leaves below a node reach half a factor less one to either side of
/// it.
pub proof fn lemma_span_index(node: Node)
    ensures
        node.left_span().index() == node.index() + 1 - node.factor() / 2,
        node.right_span().index() == node.index() + node.factor() / 2 - 1,
{
    let half: int = pow2(node.depth) as int;
    let p: int = node.factor() as int;
    let o: int = node.offset as int;
    lemma_factor(node);
    lemma_index_of_unfold(node.depth, node.offset);
    lemma_index_of_unfold(0, node.left_span().offset);
    lemma_index_of_unfold(0, node.right_span().offset);
    assert(o * p == 2 * (o * half)) by (nonlinear_arith)
        requires
            p == 2 * half,
    ;
    assert((o + 1) * half == o * half + half) by (nonlinear_arith);
    assert(o * half >= 0) by (nonlinear_arith)
        requires
            o >= 0,
            half > 0,
    ;
}

/// The largest `usize` is one less than two to the width of a `usize`.
pub proof fn lemma_usize_max()
    ensures
        usize::MAX + 1 == pow2(usize::BITS as nat),
{
    lemma2_to64();
}

/// The whole subtree below a node in range lies in range, and so does the
/// right sibling of a left child.
pub proof fn lemma_subtree_in_range(node: Node)
    requires
        node.in_range(),
    ensures
        node.index() + node.factor() / 2 <= usize::MAX,
        node.is_left() ==> node.index() + node.factor() <= usize::MAX,
{
    let width: nat = usize::BITS as nat;
    let above: nat = (width - node.depth - 1) as nat;
    let p: int = node.factor() as int;
    let m: int = pow2(above) as int;
    let o: int = node.offset as int;
    lemma_usize_max();
    lemma_factor(node);
    lemma_index_of_unfold(node.depth, node.offset);
    lemma_pow2_adds(node.depth + 1, above);
    lemma_pow2_unfold(above);
    assert(o < m) by (nonlinear_arith)
        requires
            o * p < p * m,
            p > 0,
    ;
    assert((o + 1) * p <= p * m && (o + 1) * p == o * p + p) by (nonlinear_arith)
        requires
            o + 1 <= m,
            p > 0,
    ;
    if node.is_left() {
        assert((o + 2) * p <= p * m && (o + 2) * p == o * p + 2 * p) by (nonlinear_arith)
            requires
                o + 2 <= m,
                p > 0,
        ;
    }
}

/// Of all the indices that a `usize` holds, two stand for positions whose
/// factor does not fit a `usize`: the largest index, and half of it.
pub proof fn lemma_factor_fits(index: usize)
    ensures
        depth_of(index as nat) + 1 < usize::BITS <==> index != usize::MAX && index != usize::MAX
            / 2,
{
    let width: nat = usize::BITS as nat;
    let below: nat = (width - 1) as nat;
    let depth: nat = depth_of(index as nat);
    let offset: int = offset_of(index as nat) as int;
    let top: int = pow2(width) as int;
    lemma_usize_max();
    lemma_pow2_unfold(width);
    lemma_index_of_depth_offset(index as nat);
    lemma_index_of_unfold(depth, offset as nat);
    lemma_index_of_unfold(width, 0);
    lemma_index_of_unfold(below, 0);
    lemma_depth_of_index_of(width, 0);
    lemma_depth_of_index_of(below, 0);
    if depth > width {
        lemma_pow2_strictly_increases(width, depth);
    }
    if depth == below {
        assert(offset == 0) by (nonlinear_arith)
            requires
                offset >= 0,
                top > 0,
                offset * top < top,
        ;
    }
    assert(offset * pow2(depth + 1) >= 0) by (nonlinear_arith)
        requires
            offset >= 0,
    ;
}

/// Seeking to an index and then asking for the offset gives the offset of
/// that index.
pub proof fn lemma_seek_then_offset(index: nat)
    ensures
        Node::at(index).offset == offset_of(index),
        Node::at(index).index() == index,
{
    lemma_at_index(index, Node::at(index));
}

/// Going up to the parent and down again on the side one came from leads
/// back to where one stood.
pub proof fn lemma_parent_then_child(node: Node)
    ensures
        node.is_left() ==> node.parent().left_child() == node,
        !node.is_left() ==> node.parent().right_child() == node,
{
}

/// A position whose factor is two is a leaf, and a leaf is its own left and
/// right child.
pub proof fn lemma_leaf_children(node: Node)
    requires
        node.factor() == 2,
    ensures
        node.depth == 0,
        node.left_child() == node,
        node.right_child() == node,
{
    lemma_factor(node);
}

/// A step to the right and a step back to the left lead back to where one
/// stood, with the same index, offset and factor.
pub proof fn lemma_next_then_prev(node: Node)
    ensures
        node.next().prev() == node,
        node.next().prev().index() == node.index(),
        node.next().prev().factor() == node.factor(),
{
}

} // verus!

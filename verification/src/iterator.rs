//! The cursor: a flat index together with the offset and the factor of its
//! position, kept in step so that every move is a few additions.
use crate::node::{
    lemma_at_index, lemma_child_index, lemma_factor, lemma_factor_fits, lemma_parent_index,
    lemma_span_index, lemma_step_index, lemma_subtree_in_range, lemma_usize_max, Node,
};
use crate::numbering::{lemma_index_of_grows, lemma_index_of_unfold, offset_of};
use vstd::arithmetic::power2::{lemma2_to64, lemma_pow2_adds, lemma_pow2_strictly_increases, pow2};
use vstd::bits::{lemma_usize_pow2_no_overflow, lemma_usize_shl_is_mul};
use vstd::prelude::*;

verus! {

/// A cursor over the tree. It stands on one node at a time and moves to a
/// neighbouring node in constant time.
#[derive(Clone, Copy, Debug)]
pub struct Iterator {
    index: usize,
    offset: usize,
    factor: usize,
}

impl View for Iterator {
    type V = Node;

    /// The position that the cursor stands on.
    closed spec fn view(&self) -> Node {
        Node::at(self.index as nat)
    }
}

impl Default for Iterator {
    /// A cursor on the first leaf.
    fn default() -> (cursor: Self)
        ensures
            cursor.wf(),
            cursor@ == (Node { depth: 0, offset: 0 }),
    {
        proof {
            lemma2_to64();
            lemma_at_index(0, Node { depth: 0, offset: 0 });
            lemma_index_of_unfold(0, 0);
        }
        Iterator { index: 0, offset: 0, factor: 2 }
    }
}

impl Iterator {
    /// The offset and the factor that the cursor carries are those of the
    /// position it stands on.
    pub closed spec fn wf(&self) -> bool {
        &&& self.offset == self@.offset
        &&& self.factor == self@.factor()
    }

    /// A consistent cursor stands on a position in range.
    pub proof fn lemma_in_range(&self)
        requires
            self.wf(),
        ensures
            self@.in_range(),
    {
        let width: nat = usize::BITS as nat;
        lemma_at_index(self.index as nat, self@);
        lemma_usize_max();
        if self@.depth + 1 > width {
            lemma_pow2_strictly_increases(width, self@.depth + 1);
        }
    }

    /// Two consistent cursors on the same position agree in index, offset
    /// and factor.
    pub proof fn lemma_same_position(&self, other: &Iterator)
        requires
            self.wf(),
            other.wf(),
            self@ == other@,
        ensures
            *self == *other,
    {
        lemma_at_index(self.index as nat, self@);
        lemma_at_index(other.index as nat, other@);
    }

    /// Create a cursor on the node at `index`. The two indices whose factor
    /// does not fit a `usize` are left out.
    pub fn new(index: usize) -> (cursor: Self)
        requires
            index != usize::MAX,
            index != usize::MAX / 2,
        ensures
            cursor.wf(),
            cursor@ == Node::at(index as nat),
            cursor@.index() == index,
    {
        proof {
            lemma_at_index(0, Node { depth: 0, offset: 0 });
            lemma_index_of_unfold(0, 0);
        }
        let mut instance: Iterator = Iterator::default();
        if index != 0 {
            instance.seek(index);
        }
        instance
    }

    /// Get the current index.
    #[inline]
    pub fn index(&self) -> (i: usize)
        ensures
            i == self@.index(),
    {
        proof {
            lemma_at_index(self.index as nat, self@);
        }
        self.index
    }

    /// Move the cursor to the node at `index`, wherever it stood. The two
    /// indices whose factor does not fit a `usize` are left out.
    pub fn seek(&mut self, index: usize)
        requires
            index != usize::MAX,
            index != usize::MAX / 2,
        ensures
            final(self).wf(),
            final(self)@ == Node::at(index as nat),
            final(self)@.index() == index,
    {
        proof {
            lemma_at_index(index as nat, Node::at(index as nat));
            lemma_factor_fits(index);
        }
        self.index = index;
        if self.index % 2 == 1 {
            self.offset = crate::numbering::offset(index);
            self.factor = two_pow(crate::numbering::depth(index) + 1);
        } else {
            proof {
                lemma2_to64();
            }
            self.offset = index / 2;
            self.factor = 2;
        }
    }

    /// Whether the cursor stands on a left child. The cursor stays where it is.
    #[inline]
    pub fn is_left(&mut self) -> (left: bool)
        requires
            old(self).wf(),
        ensures
            *final(self) == *old(self),
            left == old(self)@.is_left(),
    {
        self.offset % 2 == 0
    }

    /// Whether the cursor stands on a right child. The cursor stays where it
    /// is.
    #[inline]
    pub fn is_right(&mut self) -> (right: bool)
        requires
            old(self).wf(),
        ensures
            *final(self) == *old(self),
            right == !old(self)@.is_left(),
    {
        !self.is_left()
    }

    /// Move the cursor one node to the right at its depth and get the index
    /// it then stands on.
    pub fn next(&mut self) -> (i: Option<usize>)
        requires
            old(self).wf(),
            old(self)@.index() + old(self)@.factor() <= usize::MAX,
        ensures
            final(self).wf(),
            final(self)@ == old(self)@.next(),
            i == Some(final(self)@.index() as usize),
            final(self)@.index() == old(self)@.index() + old(self)@.factor(),
    {
        proof {
            let target: Node = self@.next();
            lemma_at_index(self.index as nat, target);
            lemma_step_index(self@);
            lemma_index_of_unfold(0, target.offset);
            lemma_index_of_grows(0, target.depth, target.offset);
        }
        self.offset = self.offset + 1;
        self.index = self.index + self.factor;
        assert(self.index == old(self)@.next().index());
        Some(self.index)
    }

    /// Move the cursor one node to the left at its depth and get the index
    /// it then stands on. On the first node of a depth it stays.
    pub fn prev(&mut self) -> (i: usize)
        requires
            old(self).wf(),
        ensures
            final(self).wf(),
            final(self)@ == old(self)@.prev(),
            i == final(self)@.index(),
            old(self)@.offset == 0 ==> *final(self) == *old(self),
            old(self)@.offset == 0 ==> i == old(self)@.index(),
            old(self)@.offset > 0 ==> i == old(self)@.index() - old(self)@.factor(),
    {
        proof {
            lemma_at_index(self.index as nat, self@.prev());
            lemma_step_index(self@);
        }
        if self.offset == 0 {
            return self.index;
        }
        self.offset = self.offset - 1;
        self.index = self.index - self.factor;
        assert(self.index == old(self)@.prev().index());
        self.index
    }

    /// Move the cursor to the other child of its parent and get the index it
    /// then stands on.
    pub fn sibling(&mut self) -> (i: usize)
        requires
            old(self).wf(),
        ensures
            final(self).wf(),
            final(self)@ == old(self)@.sibling(),
            i == final(self)@.index(),
            old(self)@.is_left() ==> i == old(self)@.index() + old(self)@.factor(),
            !old(self)@.is_left() ==> i == old(self)@.index() - old(self)@.factor(),
    {
        proof {
            self.lemma_in_range();
            lemma_at_index(self.index as nat, self@);
            lemma_step_index(self@);
            lemma_subtree_in_range(self@);
        }
        if self.is_left() {
            self.next().unwrap()
        } else {
            self.prev()
        }
    }

    /// Get the offset of the current position and move the cursor to the
    /// node whose flat index is that offset. The one offset whose factor does
    /// not fit a `usize` is left out.
    pub fn offset(&mut self) -> (o: usize)
        requires
            old(self).wf(),
            old(self)@.offset != usize::MAX / 2,
        ensures
            final(self).wf(),
            final(self)@ == Node::at(old(self)@.offset),
            o == old(self)@.offset,
            o == offset_of(old(self)@.index()),
            o == final(self)@.index(),
    {
        proof {
            lemma_at_index(self.index as nat, self@);
            lemma_index_of_unfold(0, self@.offset);
            lemma_index_of_grows(0, self@.depth, self@.offset);
        }
        let o: usize = crate::numbering::offset(self.index);
        self.seek(o);
        o
    }

    /// Move the cursor to the parent of its position and get the index it
    /// then stands on.
    pub fn parent(&mut self) -> (i: usize)
        requires
            old(self).wf(),
            2 * old(self)@.factor() <= usize::MAX,
        ensures
            final(self).wf(),
            final(self)@ == old(self)@.parent(),
            i == final(self)@.index(),
            old(self)@.is_left() ==> i == old(self)@.index() + old(self)@.factor() / 2,
            !old(self)@.is_left() ==> i == old(self)@.index() - old(self)@.factor() / 2,
    {
        proof {
            self.lemma_in_range();
            lemma_at_index(self.index as nat, self@.parent());
            lemma_parent_index(self@);
            lemma_factor(self@);
            lemma_subtree_in_range(self@);
        }
        if self.offset % 2 == 1 {
            self.index = self.index - self.factor / 2;
        } else {
            self.index = self.index + self.factor / 2;
        }
        self.offset = self.offset / 2;
        self.factor = self.factor * 2;
        assert(self.index == old(self)@.parent().index());
        self.index
    }

    /// Move the cursor to the leftmost leaf below its position and get the
    /// index it then stands on.
    pub fn left_span(&mut self) -> (i: usize)
        requires
            old(self).wf(),
        ensures
            final(self).wf(),
            final(self)@ == old(self)@.left_span(),
            i == final(self)@.index(),
            i == old(self)@.index() + 1 - old(self)@.factor() / 2,
    {
        proof {
            self.lemma_in_range();
            lemma_at_index(self.index as nat, self@.left_span());
            lemma_span_index(self@);
            lemma_factor(self@);
            lemma_subtree_in_range(self@);
            lemma_index_of_unfold(0, self@.left_span().offset);
            lemma2_to64();
        }
        self.index = self.index + 1 - self.factor / 2;
        self.offset = self.index / 2;
        self.factor = 2;
        assert(self.index == old(self)@.left_span().index());
        self.index
    }

    /// Move the cursor to the rightmost leaf below its position and get the
    /// index it then stands on.
    pub fn right_span(&mut self) -> (i: usize)
        requires
            old(self).wf(),
        ensures
            final(self).wf(),
            final(self)@ == old(self)@.right_span(),
            i == final(self)@.index(),
            i == old(self)@.index() + old(self)@.factor() / 2 - 1,
    {
        proof {
            self.lemma_in_range();
            lemma_at_index(self.index as nat, self@.right_span());
            lemma_span_index(self@);
            lemma_factor(self@);
            lemma_subtree_in_range(self@);
            lemma_index_of_unfold(0, self@.right_span().offset);
            lemma2_to64();
        }
        self.index = self.index + self.factor / 2 - 1;
        self.offset = self.index / 2;
        self.factor = 2;
        assert(self.index == old(self)@.right_span().index());
        self.index
    }

    /// Move the cursor to the left child of its position and get the index
    /// it then stands on. On a leaf it stays.
    pub fn left_child(&mut self) -> (i: usize)
        requires
            old(self).wf(),
        ensures
            final(self).wf(),
            final(self)@ == old(self)@.left_child(),
            i == final(self)@.index(),
            old(self)@.depth == 0 ==> *final(self) == *old(self),
            old(self)@.depth == 0 ==> i == old(self)@.index(),
            old(self)@.depth > 0 ==> i == old(self)@.index() - old(self)@.factor() / 4,
    {
        proof {
            self.lemma_in_range();
            lemma_at_index(self.index as nat, self@.left_child());
            lemma_factor(self@);
            lemma_subtree_in_range(self@);
            if self@.depth > 0 {
                lemma_child_index(self@);
            }
        }
        if self.factor == 2 {
            return self.index;
        }
        self.factor = self.factor / 2;
        self.index = self.index - self.factor / 2;
        self.offset = self.offset * 2;
        assert(self.index == old(self)@.left_child().index());
        self.index
    }

    /// Move the cursor to the right child of its position and get the index
    /// it then stands on. On a leaf it stays.
    pub fn right_child(&mut self) -> (i: usize)
        requires
            old(self).wf(),
        ensures
            final(self).wf(),
            final(self)@ == old(self)@.right_child(),
            i == final(self)@.index(),
            old(self)@.depth == 0 ==> *final(self) == *old(self),
            old(self)@.depth == 0 ==> i == old(self)@.index(),
            old(self)@.depth > 0 ==> i == old(self)@.index() + old(self)@.factor() / 4,
    {
        proof {
            self.lemma_in_range();
            lemma_at_index(self.index as nat, self@.right_child());
            lemma_factor(self@);
            lemma_subtree_in_range(self@);
            if self@.depth > 0 {
                lemma_child_index(self@);
                lemma_index_of_unfold(0, self@.right_child().offset);
                lemma_index_of_grows(0, self@.right_child().depth, self@.right_child().offset);
            }
        }
        if self.factor == 2 {
            return self.index;
        }
        self.factor = self.factor / 2;
        self.index = self.index + self.factor / 2;
        self.offset = 2 * self.offset + 1;
        assert(self.index == old(self)@.right_child().index());
        self.index
    }
}

/// Two to the power `exponent`. Exponents past 30 are split into two shifts,
/// so that no single shift leaves the width that every target has.
fn two_pow(exponent: usize) -> (power: usize)
    requires
        exponent < usize::BITS,
    ensures
        power == pow2(exponent as nat),
{
    proof {
        lemma2_to64();
        lemma_usize_pow2_no_overflow(exponent as nat);
    }
    if exponent < 31 {
        proof {
            lemma_usize_shl_is_mul(1, exponent);
        }
        1usize << exponent
    } else {
        let rest: usize = exponent - 30;
        proof {
            lemma_usize_pow2_no_overflow(rest as nat);
            lemma_usize_pow2_no_overflow(30);
            lemma_usize_shl_is_mul(1, 30);
            lemma_usize_shl_is_mul(1, rest);
            lemma_pow2_adds(30, rest as nat);
        }
        (1usize << 30) * (1usize << rest)
    }
}

} // verus!

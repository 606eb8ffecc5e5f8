//! The quad node: a leaf that may hold a chunk, or a branch of four
//! children.

use vstd::prelude::*;
use crate::grid::Cell;

verus! {

/// A node of the tree. A leaf holds the chunk of its cell, if one has been
/// made; a branch owns its four quadrants and holds no chunk. The cell of a
/// node is not stored: the root's is the whole grid, and a child's follows
/// from its parent's and its quadrant.
pub enum Quad<C> {
    Leaf(Option<C>),
    Branch(Box<Quad<C>>, Box<Quad<C>>, Box<Quad<C>>, Box<Quad<C>>),
}

impl<C> Quad<C> {
    /// The node is a tree over a cell of `level`: no branch stands at
    /// level 0.
    pub open spec fn fits(self, level: u32) -> bool
        decreases self,
    {
        match self {
            Quad::Leaf(_) => true,
            Quad::Branch(a, b, c, d) => {
                &&& level > 0
                &&& a.fits((level - 1) as u32)
                &&& b.fits((level - 1) as u32)
                &&& c.fits((level - 1) as u32)
                &&& d.fits((level - 1) as u32)
            },
        }
    }

    /// Quadrant `i` of a branch.
    pub open spec fn child(self, i: int) -> Quad<C> {
        match self {
            Quad::Leaf(_) => self,
            Quad::Branch(a, b, c, d) => if i == 0 {
                *a
            } else if i == 1 {
                *b
            } else if i == 2 {
                *c
            } else {
                *d
            },
        }
    }

    /// What a leaf holds; nothing for a branch.
    pub open spec fn chunk(self) -> Option<C> {
        match self {
            Quad::Leaf(chunk) => chunk,
            Quad::Branch(..) => None,
        }
    }

    /// The leaf whose cell covers the finest cell `(px, py)`, found by
    /// walking down from this node at `at`.
    pub open spec fn leaf_over(self, at: Cell, px: nat, py: nat) -> Cell
        decreases self,
    {
        match self {
            Quad::Leaf(_) => at,
            Quad::Branch(..) => {
                let i = crate::grid::covering_quadrant(at, px, py);
                self.child(i).leaf_over(at.child(i), px, py)
            },
        }
    }

    /// `cell` is the cell of a leaf of this node at `at`.
    pub open spec fn has_leaf(self, at: Cell, cell: Cell) -> bool
        decreases self,
    {
        match self {
            Quad::Leaf(_) => cell == at,
            Quad::Branch(a, b, c, d) => {
                ||| a.has_leaf(at.child(0), cell)
                ||| b.has_leaf(at.child(1), cell)
                ||| c.has_leaf(at.child(2), cell)
                ||| d.has_leaf(at.child(3), cell)
            },
        }
    }

    /// A leaf without a chunk: a tree before its first update.
    pub fn new() -> (quad: Self)
        ensures
            quad == Quad::<C>::Leaf(None),
    {
        Quad::Leaf(None)
    }

    /// Whether the node is a branch.
    pub fn has_children(&self) -> (branch: bool)
        ensures
            branch == (*self is Branch),
    {
        match self {
            Quad::Leaf(_) => false,
            Quad::Branch(..) => true,
        }
    }

    /// Takes the chunk out of a leaf.
    pub fn into_chunk(self) -> (chunk: Option<C>)
        requires
            self is Leaf,
        ensures
            self == Quad::Leaf(chunk),
    {
        match self {
            Quad::Leaf(chunk) => chunk,
            Quad::Branch(..) => None,
        }
    }
}

} // verus!

//! A picture of the tree for debugging: one rectangle for each leaf.

use vstd::prelude::*;
use vstd::arithmetic::power2::pow2;
use crate::grid::{Cell, lod_size};
use crate::quad::Quad;

verus! {

/// The footprint of one leaf, in finest cells, with what its colour tells.
#[derive(Clone, Copy, Debug, PartialEq, Eq, Structural)]
pub struct DebugRect {
    /// Left edge.
    pub x: u64,
    /// Top edge.
    pub y: u64,
    /// Length of each edge.
    pub size: u64,
    /// Level of the leaf.
    pub level: u32,
    /// The leaf is quadrant 1 or 2 of its parent, so that neighbours
    /// differ like the fields of a chequerboard.
    pub chequered: bool,
    /// The leaf holds a chunk.
    pub has_chunk: bool,
}

impl DebugRect {
    /// The colour of the rectangle as red, green and blue in tenths: red
    /// falls by two tenths with each level, green is two tenths on the
    /// chequered quadrants, blue is full where the leaf holds a chunk.
    pub fn color_tenths(&self) -> (rgb: (i64, i64, i64))
        ensures
            rgb.0 == 10 - 2 * self.level,
            rgb.1 == if self.chequered { 2int } else { 0int },
            rgb.2 == if self.has_chunk { 10int } else { 0int },
    {
        let red: i64 = 10 - 2 * (self.level as i64);
        let green: i64 = if self.chequered { 2 } else { 0 };
        let blue: i64 = if self.has_chunk { 10 } else { 0 };
        (red, green, blue)
    }
}

/// The rectangle of a leaf of `at` that is quadrant `quadrant` of its
/// parent and holds `chunk`.
pub open spec fn leaf_rect<C>(chunk: Option<C>, at: Cell, quadrant: u32) -> DebugRect {
    DebugRect {
        x: (at.x * pow2(at.level as nat)) as u64,
        y: (at.y * pow2(at.level as nat)) as u64,
        size: pow2(at.level as nat) as u64,
        level: at.level,
        chequered: quadrant == 1 || quadrant == 2,
        has_chunk: chunk is Some,
    }
}

/// The rectangles of the leaves of `node`, quadrant by quadrant.
pub open spec fn outline<C>(node: Quad<C>, at: Cell, quadrant: u32) -> Seq<DebugRect>
    decreases node,
{
    match node {
        Quad::Leaf(chunk) => seq![leaf_rect(chunk, at, quadrant)],
        Quad::Branch(a, b, c, d) => outline(*a, at.child(0), 0) + outline(*b, at.child(1), 1)
            + outline(*c, at.child(2), 2) + outline(*d, at.child(3), 3),
    }
}

/// Appends the rectangles of the leaves of `quad` to `rects`.
pub(crate) fn debug_draw_tree_recursive<C>(quad: &Quad<C>, at: Cell, child_index: u32, rects: &mut Vec<DebugRect>)
    requires
        at.in_grid(),
        quad.fits(at.level),
    ensures
        final(rects)@ == old(rects)@ + outline(*quad, at, child_index),
    decreases *quad,
{
    match quad {
        Quad::Leaf(chunk) => {
            let size: u64 = lod_size(at.level);
            proof {
                vstd::arithmetic::power2::lemma2_to64();
                assert(at.x * pow2(at.level as nat) <= (at.x + 1) * pow2(at.level as nat))
                    by (nonlinear_arith);
                assert(at.y * pow2(at.level as nat) <= (at.y + 1) * pow2(at.level as nat))
                    by (nonlinear_arith);
            }
            let rect = DebugRect {
                x: (at.x as u64) * size,
                y: (at.y as u64) * size,
                size,
                level: at.level,
                chequered: child_index == 1 || child_index == 2,
                has_chunk: chunk.is_some(),
            };
            rects.push(rect);
            assert(rects@ =~= old(rects)@ + outline(*quad, at, child_index));
        },
        Quad::Branch(a, b, c, d) => {
            debug_draw_tree_recursive(&**a, at.quadrant(0), 0, rects);
            debug_draw_tree_recursive(&**b, at.quadrant(1), 1, rects);
            debug_draw_tree_recursive(&**c, at.quadrant(2), 2, rects);
            debug_draw_tree_recursive(&**d, at.quadrant(3), 3, rects);
            assert(rects@ =~= old(rects)@ + outline(*quad, at, child_index));
        },
    }
}

} // verus!

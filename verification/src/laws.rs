//! What holds of every tree and of every pass.

use vstd::prelude::*;
use vstd::multiset::Multiset;
use vstd::arithmetic::power2::pow2;
use crate::grid::{Cell, MAX_LEVEL, covering_quadrant, lemma_child_in_grid, lemma_children_partition, lemma_root_in_grid};
use crate::proximity::{Sight, VerticalBounds, proximity};
use crate::host::{ChunkHost, Request, History, answer_at};
use crate::quad::Quad;
use crate::replay::{Outcome, visit, update, lemma_visit_span, lemma_visit_fits};
use crate::ledger::{Held, holding, holdings, settle, lemma_settle_prefix, lemma_update_balanced};
use crate::engine::QuadTreeLod;
use crate::debug::{DebugRect, outline};

verus! {

broadcast use vstd::multiset::group_multiset_axioms;

/// How often, among the first `to` requests of `s`, the chunk of `held`
/// was made for its cell.
pub open spec fn times_made<C>(s: History<C>, held: Held<C>, to: nat) -> nat
    decreases to,
{
    if to == 0 || to > s.len() {
        0
    } else {
        times_made(s, held, (to - 1) as nat) + if s[to - 1] == (Request::Make {
            cell: held.cell,
            made: Some(held.chunk),
        }) {
            1nat
        } else {
            0nat
        }
    }
}

/// How often, among the first `to` requests of `s`, the chunk of `held`
/// was handed back for its cell.
pub open spec fn times_recycled<C>(s: History<C>, held: Held<C>, to: nat) -> nat
    decreases to,
{
    if to == 0 || to > s.len() {
        0
    } else {
        times_recycled(s, held, (to - 1) as nat) + if s[to - 1] == (Request::Recycle {
            cell: held.cell,
            chunk: held.chunk,
        }) {
            1nat
        } else {
            0nat
        }
    }
}

/// In a history that balances, a chunk has been made for a cell as often
/// as it has been handed back for it, and once more while it is live.
pub proof fn lemma_made_and_recycled<C>(s: History<C>, live: Multiset<Held<C>>, held: Held<C>, to: nat)
    requires
        to <= s.len(),
        settle(Multiset::empty(), s, 0, to) == Some(live),
    ensures
        times_made(s, held, to) == times_recycled(s, held, to) + live.count(held),
    decreases to,
{
    if to > 0 {
        let before = settle(Multiset::<Held<C>>::empty(), s, 0, (to - 1) as nat);
        lemma_made_and_recycled(s, before->0, held, (to - 1) as nat);
        match s[to - 1] {
            Request::Bounds { .. } => {},
            Request::Make { cell, made } => {
                match made {
                    Some(c) => {
                        assert(holding(made, cell).count(held) == if (Held { cell, chunk: c })
                            == held {
                            1nat
                        } else {
                            0nat
                        });
                    },
                    None => {},
                }
            },
            Request::Recycle { cell, chunk } => {},
        }
    }
}

/// Pairing. Once an engine's tree is a single empty leaf, as it is after
/// `clear`, every chunk that the history of the engine shows as made for
/// a cell is shown as handed back for that cell exactly as often, and up
/// to no moment more often handed back than made: nothing leaks, nothing
/// is recycled twice, nothing is recycled before it is made. The history
/// is what the hosts were asked: every operation that extends it extends
/// the record of the host it calls by the same requests.
pub proof fn lemma_pairing<C, H: ChunkHost<C>>(engine: &QuadTreeLod<C, H>, held: Held<C>, moment: nat)
    requires
        engine.inv(),
        engine.tree() == Some(Quad::<C>::Leaf(None)),
        moment <= engine.history().len(),
    ensures
        times_made(engine.history(), held, engine.history().len()) == times_recycled(
            engine.history(),
            held,
            engine.history().len(),
        ),
        times_recycled(engine.history(), held, moment) <= times_made(engine.history(), held, moment),
{
    let s = engine.history();
    engine.lemma_balanced();
    let nothing = Multiset::<Held<C>>::empty();
    lemma_made_and_recycled(s, nothing, held, s.len());
    lemma_settle_prefix(nothing, s, 0, moment, s.len());
    lemma_made_and_recycled(s, settle(nothing, s, 0, moment)->0, held, moment);
}

/// While an engine has its tree, each chunk that a leaf holds has been
/// made once more often than handed back, and every other chunk as often.
pub proof fn lemma_live_chunks<C, H: ChunkHost<C>>(engine: &QuadTreeLod<C, H>, held: Held<C>)
    requires
        engine.inv(),
        !engine.is_held(),
    ensures
        times_made(engine.history(), held, engine.history().len()) == times_recycled(
            engine.history(),
            held,
            engine.history().len(),
        ) + holdings(engine.tree()->0, Cell::root(engine.max_depth())).count(held),
{
    engine.lemma_balanced();
    lemma_made_and_recycled(
        engine.history(),
        holdings(engine.tree()->0, Cell::root(engine.max_depth())),
        held,
        engine.history().len(),
    );
}

/// A leaf of a tree lies within the cell of the tree.
pub proof fn lemma_leaf_within<C>(node: Quad<C>, at: Cell, cell: Cell, px: nat, py: nat)
    requires
        at.in_grid(),
        node.fits(at.level),
        node.has_leaf(at, cell),
        cell.covers(px, py),
    ensures
        at.covers(px, py),
    decreases node,
{
    match node {
        Quad::Leaf(_) => {},
        Quad::Branch(a, b, c, d) => {
            lemma_child_in_grid(at, 0);
            lemma_child_in_grid(at, 1);
            lemma_child_in_grid(at, 2);
            lemma_child_in_grid(at, 3);
            lemma_children_partition(at, px, py);
            if a.has_leaf(at.child(0), cell) {
                lemma_leaf_within(*a, at.child(0), cell, px, py);
            } else if b.has_leaf(at.child(1), cell) {
                lemma_leaf_within(*b, at.child(1), cell, px, py);
            } else if c.has_leaf(at.child(2), cell) {
                lemma_leaf_within(*c, at.child(2), cell, px, py);
            } else {
                lemma_leaf_within(*d, at.child(3), cell, px, py);
            }
        },
    }
}

/// The leaves of a tree tile its cell: every finest cell that the tree's
/// cell covers is covered by one leaf, the one that `leaf_over` finds, and
/// by no other. There are no gaps and no overlaps.
pub proof fn lemma_leaves_tile<C>(node: Quad<C>, at: Cell, px: nat, py: nat)
    requires
        at.in_grid(),
        node.fits(at.level),
        at.covers(px, py),
    ensures
        node.has_leaf(at, node.leaf_over(at, px, py)),
        node.leaf_over(at, px, py).covers(px, py),
        forall|cell: Cell| #[trigger]
            node.has_leaf(at, cell) && cell.covers(px, py) ==> cell == node.leaf_over(at, px, py),
    decreases node,
{
    match node {
        Quad::Leaf(_) => {},
        Quad::Branch(a, b, c, d) => {
            let i = covering_quadrant(at, px, py);
            lemma_children_partition(at, px, py);
            lemma_child_in_grid(at, 0);
            lemma_child_in_grid(at, 1);
            lemma_child_in_grid(at, 2);
            lemma_child_in_grid(at, 3);
            lemma_leaves_tile(node.child(i), at.child(i), px, py);
            assert forall|cell: Cell| #[trigger]
                node.has_leaf(at, cell) && cell.covers(px, py) implies cell == node.leaf_over(
                at,
                px,
                py,
            ) by {
                let j: int = if a.has_leaf(at.child(0), cell) {
                    0
                } else if b.has_leaf(at.child(1), cell) {
                    1
                } else if c.has_leaf(at.child(2), cell) {
                    2
                } else {
                    3
                };
                assert(node.child(j).has_leaf(at.child(j), cell));
                lemma_leaf_within(node.child(j), at.child(j), cell, px, py);
                assert(at.child(j).covers(px, py));
                assert(j == i);
                assert(node.child(i).has_leaf(at.child(i), cell));
            }
        },
    }
}

/// The leaves of an engine's tree tile the whole grid of the engine, which
/// is `2^max_depth` finest cells on each side.
pub proof fn lemma_engine_leaves_tile<C, H: ChunkHost<C>>(engine: &QuadTreeLod<C, H>, px: nat, py: nat)
    requires
        engine.inv(),
        !engine.is_held(),
        px < pow2(engine.max_depth() as nat),
        py < pow2(engine.max_depth() as nat),
    ensures
        ({
            let tree = engine.tree()->0;
            let root = Cell::root(engine.max_depth());
            &&& tree.has_leaf(root, tree.leaf_over(root, px, py))
            &&& tree.leaf_over(root, px, py).covers(px, py)
            &&& forall|cell: Cell| #[trigger]
                tree.has_leaf(root, cell) && cell.covers(px, py) ==> cell == tree.leaf_over(
                    root,
                    px,
                    py,
                )
        }),
{
    engine.lemma_balanced();
    lemma_root_in_grid(engine.max_depth());
    assert(0 * pow2(engine.max_depth() as nat) == 0);
    lemma_leaves_tile(engine.tree()->0, Cell::root(engine.max_depth()), px, py);
}

/// `rect` frames `cell`: it has the cell's level, corner and edge.
pub open spec fn frames(rect: DebugRect, cell: Cell) -> bool {
    &&& rect.level == cell.level
    &&& rect.x == cell.left()
    &&& rect.y == cell.top()
    &&& rect.size == cell.span()
}

/// Each rectangle of the debug picture frames a leaf of the tree.
pub proof fn lemma_outline_frames_leaves<C>(node: Quad<C>, at: Cell, quadrant: u32, k: int)
    requires
        at.in_grid(),
        node.fits(at.level),
        0 <= k < outline(node, at, quadrant).len(),
    ensures
        exists|cell: Cell| #[trigger] node.has_leaf(at, cell) && frames(outline(node, at, quadrant)[k], cell),
    decreases node,
{
    match node {
        Quad::Leaf(_) => {
            vstd::arithmetic::power2::lemma2_to64();
            let p = pow2(at.level as nat);
            assert(at.x * p <= (at.x + 1) * p && at.y * p <= (at.y + 1) * p) by (nonlinear_arith);
            crate::grid::lemma_pow2_at_most(at.level as nat, 32);
            assert(node.has_leaf(at, at) && frames(outline(node, at, quadrant)[k], at));
        },
        Quad::Branch(a, b, c, d) => {
            lemma_child_in_grid(at, 0);
            lemma_child_in_grid(at, 1);
            lemma_child_in_grid(at, 2);
            lemma_child_in_grid(at, 3);
            let o0 = outline(*a, at.child(0), 0);
            let o1 = outline(*b, at.child(1), 1);
            let o2 = outline(*c, at.child(2), 2);
            let o3 = outline(*d, at.child(3), 3);
            let whole = outline(node, at, quadrant);
            assert(whole == o0 + o1 + o2 + o3);
            if k < o0.len() {
                lemma_outline_frames_leaves(*a, at.child(0), 0, k);
                let cell = choose|cell: Cell| #[trigger]
                    a.has_leaf(at.child(0), cell) && frames(o0[k], cell);
                assert(whole[k] == o0[k]);
                assert(node.has_leaf(at, cell) && frames(whole[k], cell));
            } else if k < o0.len() + o1.len() {
                let j = k - o0.len();
                lemma_outline_frames_leaves(*b, at.child(1), 1, j);
                let cell = choose|cell: Cell| #[trigger]
                    b.has_leaf(at.child(1), cell) && frames(o1[j], cell);
                assert(whole[k] == o1[j]);
                assert(node.has_leaf(at, cell) && frames(whole[k], cell));
            } else if k < o0.len() + o1.len() + o2.len() {
                let j = k - o0.len() - o1.len();
                lemma_outline_frames_leaves(*c, at.child(2), 2, j);
                let cell = choose|cell: Cell| #[trigger]
                    c.has_leaf(at.child(2), cell) && frames(o2[j], cell);
                assert(whole[k] == o2[j]);
                assert(node.has_leaf(at, cell) && frames(whole[k], cell));
            } else {
                let j = k - o0.len() - o1.len() - o2.len();
                lemma_outline_frames_leaves(*d, at.child(3), 3, j);
                let cell = choose|cell: Cell| #[trigger]
                    d.has_leaf(at.child(3), cell) && frames(o3[j], cell);
                assert(whole[k] == o3[j]);
                assert(node.has_leaf(at, cell) && frames(whole[k], cell));
            }
        },
    }
}

/// A node on the boundary holds still: a pass over a leaf whose centre is
/// exactly at the split distance leaves the leaf as it is and asks for its
/// heights only, and a pass over such a branch does not join it.
pub proof fn lemma_boundary_holds<C>(node: Quad<C>, at: Cell, sight: Sight, s: History<C>, i: nat)
    requires
        visit(node, at, sight, s, i).ok,
        !(answer_at(s, i) is Invalid),
        proximity(at, sight, answer_at(s, i)) is Boundary,
    ensures
        node is Leaf ==> visit(node, at, sight, s, i).node == node && visit(node, at, sight, s, i).end
            == i + 1,
        node is Branch ==> visit(node, at, sight, s, i).node is Branch,
{
}

/// Each height asked for in `s` from `from` up to `to` was answered as
/// `heights` tells.
pub open spec fn answered_by<C>(
    s: History<C>,
    from: nat,
    to: nat,
    heights: spec_fn(Cell) -> VerticalBounds,
) -> bool {
    forall|j: int|
        from <= j < to && j < s.len() ==> match #[trigger] s[j] {
            Request::Bounds { cell, answer } => answer == heights(cell),
            _ => true,
        }
}

/// The requests of `s` from `from` up to `to` ask for heights only: no
/// chunk is made and none handed back.
pub open spec fn only_asks<C>(s: History<C>, from: nat, to: nat) -> bool {
    forall|j: int| from <= j < to && j < s.len() ==> #[trigger] s[j] is Bounds
}

/// Nothing in the tree is due to change: no leaf that a pass looks at is
/// near enough to split, and no branch of four leaves far enough to join.
/// A pass does not look below a cell whose heights are no range.
pub open spec fn at_rest<C>(
    node: Quad<C>,
    at: Cell,
    sight: Sight,
    heights: spec_fn(Cell) -> VerticalBounds,
) -> bool
    decreases node,
{
    heights(at) is Invalid || match node {
        Quad::Leaf(_) => !(at.level > 0 && proximity(at, sight, heights(at)) is Near),
        Quad::Branch(a, b, c, d) => {
            &&& at_rest(*a, at.child(0), sight, heights)
            &&& at_rest(*b, at.child(1), sight, heights)
            &&& at_rest(*c, at.child(2), sight, heights)
            &&& at_rest(*d, at.child(3), sight, heights)
            &&& !(*a is Leaf && *b is Leaf && *c is Leaf && *d is Leaf && proximity(
                at,
                sight,
                heights(at),
            ) is Far)
        },
    }
}

/// A pass over the tree splits a leaf.
pub open spec fn splits<C>(
    node: Quad<C>,
    at: Cell,
    sight: Sight,
    heights: spec_fn(Cell) -> VerticalBounds,
) -> bool
    decreases node,
{
    !(heights(at) is Invalid) && match node {
        Quad::Leaf(_) => at.level > 0 && proximity(at, sight, heights(at)) is Near,
        Quad::Branch(a, b, c, d) => {
            ||| splits(*a, at.child(0), sight, heights)
            ||| splits(*b, at.child(1), sight, heights)
            ||| splits(*c, at.child(2), sight, heights)
            ||| splits(*d, at.child(3), sight, heights)
        },
    }
}

/// The view is beyond the split distance of every node of the tree, and
/// the heights of every node are known.
pub open spec fn out_of_reach<C>(
    node: Quad<C>,
    at: Cell,
    sight: Sight,
    heights: spec_fn(Cell) -> VerticalBounds,
) -> bool
    decreases node,
{
    &&& !(heights(at) is Invalid)
    &&& proximity(at, sight, heights(at)) is Far
    &&& match node {
        Quad::Leaf(_) => true,
        Quad::Branch(a, b, c, d) => {
            &&& out_of_reach(*a, at.child(0), sight, heights)
            &&& out_of_reach(*b, at.child(1), sight, heights)
            &&& out_of_reach(*c, at.child(2), sight, heights)
            &&& out_of_reach(*d, at.child(3), sight, heights)
        },
    }
}

/// A pass over a tree at rest leaves it as it is, and asks for heights
/// only.
pub proof fn lemma_rest_is_kept<C>(
    node: Quad<C>,
    at: Cell,
    sight: Sight,
    heights: spec_fn(Cell) -> VerticalBounds,
    s: History<C>,
    i: nat,
)
    requires
        visit(node, at, sight, s, i).ok,
        answered_by(s, i, visit(node, at, sight, s, i).end, heights),
        at_rest(node, at, sight, heights),
    ensures
        visit(node, at, sight, s, i).node == node,
        only_asks(s, i, visit(node, at, sight, s, i).end),
    decreases node,
{
    lemma_visit_span(node, at, sight, s, i);
    assert(s[i as int] is Bounds);
    assert(answer_at(s, i) == heights(at));
    if !(answer_at(s, i) is Invalid) {
        match node {
            Quad::Leaf(chunk) => {},
            Quad::Branch(a, b, c, d) => {
                let r0 = visit(*a, at.child(0), sight, s, i + 1);
                let r1 = visit(*b, at.child(1), sight, s, r0.end);
                let r2 = visit(*c, at.child(2), sight, s, r1.end);
                let r3 = visit(*d, at.child(3), sight, s, r2.end);
                lemma_visit_span(*a, at.child(0), sight, s, i + 1);
                lemma_visit_span(*b, at.child(1), sight, s, r0.end);
                lemma_visit_span(*c, at.child(2), sight, s, r1.end);
                lemma_visit_span(*d, at.child(3), sight, s, r2.end);
                lemma_rest_is_kept(*a, at.child(0), sight, heights, s, i + 1);
                lemma_rest_is_kept(*b, at.child(1), sight, heights, s, r0.end);
                lemma_rest_is_kept(*c, at.child(2), sight, heights, s, r1.end);
                lemma_rest_is_kept(*d, at.child(3), sight, heights, s, r2.end);
            },
        }
    }
}

/// A pass that splits no leaf brings the tree to rest.
pub proof fn lemma_comes_to_rest<C>(
    node: Quad<C>,
    at: Cell,
    sight: Sight,
    heights: spec_fn(Cell) -> VerticalBounds,
    s: History<C>,
    i: nat,
)
    requires
        visit(node, at, sight, s, i).ok,
        answered_by(s, i, visit(node, at, sight, s, i).end, heights),
        !splits(node, at, sight, heights),
    ensures
        at_rest(visit(node, at, sight, s, i).node, at, sight, heights),
    decreases node,
{
    lemma_visit_span(node, at, sight, s, i);
    assert(s[i as int] is Bounds);
    assert(answer_at(s, i) == heights(at));
    if !(answer_at(s, i) is Invalid) {
        match node {
            Quad::Leaf(chunk) => {},
            Quad::Branch(a, b, c, d) => {
                let r0 = visit(*a, at.child(0), sight, s, i + 1);
                let r1 = visit(*b, at.child(1), sight, s, r0.end);
                let r2 = visit(*c, at.child(2), sight, s, r1.end);
                let r3 = visit(*d, at.child(3), sight, s, r2.end);
                lemma_visit_span(*a, at.child(0), sight, s, i + 1);
                lemma_visit_span(*b, at.child(1), sight, s, r0.end);
                lemma_visit_span(*c, at.child(2), sight, s, r1.end);
                lemma_visit_span(*d, at.child(3), sight, s, r2.end);
                lemma_comes_to_rest(*a, at.child(0), sight, heights, s, i + 1);
                lemma_comes_to_rest(*b, at.child(1), sight, heights, s, r0.end);
                lemma_comes_to_rest(*c, at.child(2), sight, heights, s, r1.end);
                lemma_comes_to_rest(*d, at.child(3), sight, heights, s, r2.end);
            },
        }
    }
}

/// Idempotence. Of two updates in a row for the same view, over the same
/// heights, the second makes no chunk, hands none back and leaves the tree
/// as it is, provided that the first left the tree at rest and the root
/// with a chunk if it is a leaf.
pub proof fn lemma_second_update_idle<C>(
    root: Quad<C>,
    max_depth: u32,
    sight: Sight,
    heights: spec_fn(Cell) -> VerticalBounds,
    s: History<C>,
    i: nat,
)
    requires
        update(root, max_depth, sight, s, i).ok,
        update(update(root, max_depth, sight, s, i).node, max_depth, sight, s, update(root, max_depth, sight, s, i).end).ok,
        answered_by(
            s,
            update(root, max_depth, sight, s, i).end,
            update(update(root, max_depth, sight, s, i).node, max_depth, sight, s, update(root, max_depth, sight, s, i).end).end,
            heights,
        ),
        at_rest(update(root, max_depth, sight, s, i).node, Cell::root(max_depth), sight, heights),
        update(root, max_depth, sight, s, i).node != Quad::<C>::Leaf(None),
    ensures
        ({
            let first = update(root, max_depth, sight, s, i);
            let second = update(first.node, max_depth, sight, s, first.end);
            &&& second.node == first.node
            &&& only_asks(s, first.end, second.end)
        }),
{
    let first = update(root, max_depth, sight, s, i);
    lemma_rest_is_kept(first.node, Cell::root(max_depth), sight, heights, s, first.end);
}

/// An update that splits no leaf leaves the tree at rest, so that a second
/// update for the same view is idle, if the root has its chunk.
pub proof fn lemma_update_comes_to_rest<C>(
    root: Quad<C>,
    max_depth: u32,
    sight: Sight,
    heights: spec_fn(Cell) -> VerticalBounds,
    s: History<C>,
    i: nat,
)
    requires
        update(root, max_depth, sight, s, i).ok,
        answered_by(s, i, update(root, max_depth, sight, s, i).end, heights),
        !splits(root, Cell::root(max_depth), sight, heights),
    ensures
        at_rest(update(root, max_depth, sight, s, i).node, Cell::root(max_depth), sight, heights),
{
    let at = Cell::root(max_depth);
    lemma_visit_span(root, at, sight, s, i);
    lemma_comes_to_rest(root, at, sight, heights, s, i);
    let pass = visit(root, at, sight, s, i);
    if pass.node == Quad::<C>::Leaf(None) {
        assert(pass.node is Leaf);
        assert(at_rest(Quad::Leaf(crate::host::made_at(s, pass.end)), at, sight, heights));
    }
}

/// A pass for a view that is out of reach of every node joins the whole
/// tree into one leaf.
pub proof fn lemma_far_view_collapses<C>(
    node: Quad<C>,
    at: Cell,
    sight: Sight,
    heights: spec_fn(Cell) -> VerticalBounds,
    s: History<C>,
    i: nat,
)
    requires
        visit(node, at, sight, s, i).ok,
        answered_by(s, i, visit(node, at, sight, s, i).end, heights),
        out_of_reach(node, at, sight, heights),
    ensures
        visit(node, at, sight, s, i).node is Leaf,
    decreases node,
{
    lemma_visit_span(node, at, sight, s, i);
    assert(s[i as int] is Bounds);
    assert(answer_at(s, i) == heights(at));
    match node {
        Quad::Leaf(chunk) => {},
        Quad::Branch(a, b, c, d) => {
            let r0 = visit(*a, at.child(0), sight, s, i + 1);
            let r1 = visit(*b, at.child(1), sight, s, r0.end);
            let r2 = visit(*c, at.child(2), sight, s, r1.end);
            let r3 = visit(*d, at.child(3), sight, s, r2.end);
            lemma_visit_span(*a, at.child(0), sight, s, i + 1);
            lemma_visit_span(*b, at.child(1), sight, s, r0.end);
            lemma_visit_span(*c, at.child(2), sight, s, r1.end);
            lemma_visit_span(*d, at.child(3), sight, s, r2.end);
            lemma_far_view_collapses(*a, at.child(0), sight, heights, s, i + 1);
            lemma_far_view_collapses(*b, at.child(1), sight, heights, s, r0.end);
            lemma_far_view_collapses(*c, at.child(2), sight, heights, s, r1.end);
            lemma_far_view_collapses(*d, at.child(3), sight, heights, s, r2.end);
        },
    }
}

/// Collapse. An update for a view that is out of reach of every node
/// leaves a single leaf, and of all the chunks that were live before it
/// or were made in it, only the one made last for the root is live after:
/// every other has been handed back.
pub proof fn lemma_far_update_collapses<C>(
    root: Quad<C>,
    max_depth: u32,
    sight: Sight,
    heights: spec_fn(Cell) -> VerticalBounds,
    s: History<C>,
    i: nat,
)
    requires
        update(root, max_depth, sight, s, i).ok,
        answered_by(s, i, update(root, max_depth, sight, s, i).end, heights),
        out_of_reach(root, Cell::root(max_depth), sight, heights),
    ensures
        update(root, max_depth, sight, s, i).node is Leaf,
        settle(
            holdings(root, Cell::root(max_depth)),
            s,
            i,
            update(root, max_depth, sight, s, i).end,
        ) == Some(
            holding(update(root, max_depth, sight, s, i).node.chunk(), Cell::root(max_depth)),
        ),
{
    let at = Cell::root(max_depth);
    lemma_visit_span(root, at, sight, s, i);
    lemma_far_view_collapses(root, at, sight, heights, s, i);
    lemma_update_balanced(root, max_depth, sight, s, i, Multiset::empty());
    let done = update(root, max_depth, sight, s, i).node;
    assert(holdings(root, at).add(Multiset::empty()) =~= holdings(root, at));
    assert(holdings(done, at).add(Multiset::empty()) =~= holdings(done, at));
}

/// The heights over every cell are known: no answer is malformed.
pub open spec fn heights_known(heights: spec_fn(Cell) -> VerticalBounds) -> bool {
    forall|cell: Cell| !(#[trigger] heights(cell) is Invalid)
}

/// No branch of four leaves in the tree is far enough to join.
pub open spec fn joined_up<C>(
    node: Quad<C>,
    at: Cell,
    sight: Sight,
    heights: spec_fn(Cell) -> VerticalBounds,
) -> bool
    decreases node,
{
    match node {
        Quad::Leaf(_) => true,
        Quad::Branch(a, b, c, d) => {
            &&& joined_up(*a, at.child(0), sight, heights)
            &&& joined_up(*b, at.child(1), sight, heights)
            &&& joined_up(*c, at.child(2), sight, heights)
            &&& joined_up(*d, at.child(3), sight, heights)
            &&& !(*a is Leaf && *b is Leaf && *c is Leaf && *d is Leaf && proximity(
                at,
                sight,
                heights(at),
            ) is Far)
        },
    }
}

/// No leaf above level `n` is near enough to split.
pub open spec fn split_down_to<C>(
    node: Quad<C>,
    at: Cell,
    sight: Sight,
    heights: spec_fn(Cell) -> VerticalBounds,
    n: nat,
) -> bool
    decreases node,
{
    match node {
        Quad::Leaf(_) => at.level > n ==> !(proximity(at, sight, heights(at)) is Near),
        Quad::Branch(a, b, c, d) => {
            &&& split_down_to(*a, at.child(0), sight, heights, n)
            &&& split_down_to(*b, at.child(1), sight, heights, n)
            &&& split_down_to(*c, at.child(2), sight, heights, n)
            &&& split_down_to(*d, at.child(3), sight, heights, n)
        },
    }
}

/// `k` updates in a row, replayed on `s` from `i`.
pub open spec fn updates<C>(
    root: Quad<C>,
    max_depth: u32,
    sight: Sight,
    s: History<C>,
    i: nat,
    k: nat,
) -> Outcome<C>
    decreases k,
{
    if k == 0 {
        Outcome { node: root, end: i, ok: true }
    } else {
        let before = updates(root, max_depth, sight, s, i, (k - 1) as nat);
        let last = update(before.node, max_depth, sight, s, before.end);
        Outcome { node: last.node, end: last.end, ok: before.ok && last.ok }
    }
}

/// No leaf of a tree stands above the level of the tree.
proof fn lemma_leaves_are_below<C>(
    node: Quad<C>,
    at: Cell,
    sight: Sight,
    heights: spec_fn(Cell) -> VerticalBounds,
    n: nat,
)
    requires
        node.fits(at.level),
        at.level <= n,
    ensures
        split_down_to(node, at, sight, heights, n),
    decreases node,
{
    match node {
        Quad::Leaf(_) => {},
        Quad::Branch(a, b, c, d) => {
            lemma_leaves_are_below(*a, at.child(0), sight, heights, n);
            lemma_leaves_are_below(*b, at.child(1), sight, heights, n);
            lemma_leaves_are_below(*c, at.child(2), sight, heights, n);
            lemma_leaves_are_below(*d, at.child(3), sight, heights, n);
        },
    }
}

/// A tree in which nothing is left to join and nothing to split is at
/// rest.
proof fn lemma_rest_from_parts<C>(
    node: Quad<C>,
    at: Cell,
    sight: Sight,
    heights: spec_fn(Cell) -> VerticalBounds,
)
    requires
        joined_up(node, at, sight, heights),
        split_down_to(node, at, sight, heights, 0),
    ensures
        at_rest(node, at, sight, heights),
    decreases node,
{
    match node {
        Quad::Leaf(_) => {},
        Quad::Branch(a, b, c, d) => {
            lemma_rest_from_parts(*a, at.child(0), sight, heights);
            lemma_rest_from_parts(*b, at.child(1), sight, heights);
            lemma_rest_from_parts(*c, at.child(2), sight, heights);
            lemma_rest_from_parts(*d, at.child(3), sight, heights);
        },
    }
}

/// One pass joins all that is to join, and where no leaf above level `n`
/// was near before it, none above level `n - 1` is near after it: a pass
/// splits one level further down.
pub proof fn lemma_pass_refines<C>(
    node: Quad<C>,
    at: Cell,
    sight: Sight,
    heights: spec_fn(Cell) -> VerticalBounds,
    s: History<C>,
    i: nat,
    n: nat,
)
    requires
        visit(node, at, sight, s, i).ok,
        answered_by(s, i, visit(node, at, sight, s, i).end, heights),
        heights_known(heights),
        node.fits(at.level),
        split_down_to(node, at, sight, heights, n),
    ensures
        joined_up(visit(node, at, sight, s, i).node, at, sight, heights),
        split_down_to(
            visit(node, at, sight, s, i).node,
            at,
            sight,
            heights,
            if n > 0 {
                (n - 1) as nat
            } else {
                0
            },
        ),
    decreases node,
{
    let m: nat = if n > 0 {
        (n - 1) as nat
    } else {
        0
    };
    lemma_visit_span(node, at, sight, s, i);
    assert(s[i as int] is Bounds);
    assert(answer_at(s, i) == heights(at));
    assert(!(heights(at) is Invalid));
    match node {
        Quad::Leaf(chunk) => {
            if at.level > 0 && proximity(at, sight, heights(at)) is Near {
                let made = visit(node, at, sight, s, i).node;
                assert(made is Branch);
                assert(at.child(0).level == at.level - 1);
                assert(at.child(1).level == at.level - 1);
                assert(at.child(2).level == at.level - 1);
                assert(at.child(3).level == at.level - 1);
                assert(split_down_to(made.child(0), at.child(0), sight, heights, m));
                assert(split_down_to(made.child(1), at.child(1), sight, heights, m));
                assert(split_down_to(made.child(2), at.child(2), sight, heights, m));
                assert(split_down_to(made.child(3), at.child(3), sight, heights, m));
                assert(joined_up(made.child(0), at.child(0), sight, heights));
                assert(joined_up(made.child(1), at.child(1), sight, heights));
                assert(joined_up(made.child(2), at.child(2), sight, heights));
                assert(joined_up(made.child(3), at.child(3), sight, heights));
            }
        },
        Quad::Branch(a, b, c, d) => {
            let r0 = visit(*a, at.child(0), sight, s, i + 1);
            let r1 = visit(*b, at.child(1), sight, s, r0.end);
            let r2 = visit(*c, at.child(2), sight, s, r1.end);
            let r3 = visit(*d, at.child(3), sight, s, r2.end);
            lemma_visit_span(*a, at.child(0), sight, s, i + 1);
            lemma_visit_span(*b, at.child(1), sight, s, r0.end);
            lemma_visit_span(*c, at.child(2), sight, s, r1.end);
            lemma_visit_span(*d, at.child(3), sight, s, r2.end);
            assert(at.child(0).level == at.level - 1);
            assert(at.child(1).level == at.level - 1);
            assert(at.child(2).level == at.level - 1);
            assert(at.child(3).level == at.level - 1);
            lemma_pass_refines(*a, at.child(0), sight, heights, s, i + 1, n);
            lemma_pass_refines(*b, at.child(1), sight, heights, s, r0.end, n);
            lemma_pass_refines(*c, at.child(2), sight, heights, s, r1.end, n);
            lemma_pass_refines(*d, at.child(3), sight, heights, s, r2.end, n);
        },
    }
}

/// After `k` updates in a row, `k` at least 1, nothing is left to join,
/// and no leaf above level `max_depth - k` is near enough to split.
proof fn lemma_updates_refine<C>(
    root: Quad<C>,
    max_depth: u32,
    sight: Sight,
    heights: spec_fn(Cell) -> VerticalBounds,
    s: History<C>,
    i: nat,
    k: nat,
)
    requires
        updates(root, max_depth, sight, s, i, k).ok,
        answered_by(s, i, updates(root, max_depth, sight, s, i, k).end, heights),
        heights_known(heights),
        max_depth <= MAX_LEVEL,
        root.fits(max_depth),
    ensures
        i <= updates(root, max_depth, sight, s, i, k).end,
        updates(root, max_depth, sight, s, i, k).node.fits(max_depth),
        k >= 1 ==> joined_up(
            updates(root, max_depth, sight, s, i, k).node,
            Cell::root(max_depth),
            sight,
            heights,
        ),
        split_down_to(
            updates(root, max_depth, sight, s, i, k).node,
            Cell::root(max_depth),
            sight,
            heights,
            if k <= max_depth {
                (max_depth - k) as nat
            } else {
                0
            },
        ),
    decreases k,
{
    let at = Cell::root(max_depth);
    if k == 0 {
        lemma_leaves_are_below(root, at, sight, heights, max_depth as nat);
    } else {
        let before = updates(root, max_depth, sight, s, i, (k - 1) as nat);
        let pass = visit(before.node, at, sight, s, before.end);
        lemma_visit_span(before.node, at, sight, s, before.end);
        lemma_updates_refine(root, max_depth, sight, heights, s, i, (k - 1) as nat);
        let n: nat = if k - 1 <= max_depth {
            (max_depth - (k - 1)) as nat
        } else {
            0
        };
        lemma_root_in_grid(max_depth);
        lemma_visit_fits(before.node, at, sight, s, before.end);
        lemma_pass_refines(before.node, at, sight, heights, s, before.end, n);
    }
}

/// Convergence. Updates in a row for the same view, over heights that are
/// known and stay the same, bring the tree to rest: as many of them as the
/// tree has levels above level 0, and at least one, suffice. What joins
/// does so in the first update, and each update splits one level further
/// down.
pub proof fn lemma_updates_converge<C>(
    root: Quad<C>,
    max_depth: u32,
    sight: Sight,
    heights: spec_fn(Cell) -> VerticalBounds,
    s: History<C>,
    i: nat,
    k: nat,
)
    requires
        updates(root, max_depth, sight, s, i, k).ok,
        answered_by(s, i, updates(root, max_depth, sight, s, i, k).end, heights),
        heights_known(heights),
        max_depth <= MAX_LEVEL,
        root.fits(max_depth),
        k >= 1,
        k >= max_depth,
    ensures
        at_rest(updates(root, max_depth, sight, s, i, k).node, Cell::root(max_depth), sight, heights),
{
    lemma_updates_refine(root, max_depth, sight, heights, s, i, k);
    lemma_rest_from_parts(
        updates(root, max_depth, sight, s, i, k).node,
        Cell::root(max_depth),
        sight,
        heights,
    );
}

/// Each chunk asked for in `s` from `from` up to `to` was made: the host
/// answered with a chunk, not with none.
pub open spec fn makes_chunks<C>(s: History<C>, from: nat, to: nat) -> bool {
    forall|j: int|
        from <= j < to && j < s.len() ==> match #[trigger] s[j] {
            Request::Make { made, .. } => made is Some,
            _ => true,
        }
}

/// An update under which the host makes each chunk it is asked for does
/// not leave the tree a leaf without a chunk.
proof fn lemma_update_fills_root<C>(root: Quad<C>, max_depth: u32, sight: Sight, s: History<C>, i: nat)
    requires
        update(root, max_depth, sight, s, i).ok,
        makes_chunks(s, i, update(root, max_depth, sight, s, i).end),
    ensures
        update(root, max_depth, sight, s, i).node != Quad::<C>::Leaf(None),
        i < update(root, max_depth, sight, s, i).end <= s.len(),
{
    let at = Cell::root(max_depth);
    let pass = visit(root, at, sight, s, i);
    lemma_visit_span(root, at, sight, s, i);
    if pass.node == Quad::<C>::Leaf(None) {
        assert(s[pass.end as int] is Make);
    }
}

/// Idempotence, once the tree has converged. After as many updates in a
/// row as the tree has levels above level 0, and at least one, a further
/// update for the same view makes no chunk, hands none back and leaves the
/// tree as it is. This holds over heights that are known and stay the
/// same, flat terrain among them, and for a host that makes each chunk it
/// is asked for.
pub proof fn lemma_idle_after_convergence<C>(
    root: Quad<C>,
    max_depth: u32,
    sight: Sight,
    heights: spec_fn(Cell) -> VerticalBounds,
    s: History<C>,
    i: nat,
    k: nat,
)
    requires
        updates(root, max_depth, sight, s, i, k).ok,
        update(
            updates(root, max_depth, sight, s, i, k).node,
            max_depth,
            sight,
            s,
            updates(root, max_depth, sight, s, i, k).end,
        ).ok,
        answered_by(
            s,
            i,
            update(
                updates(root, max_depth, sight, s, i, k).node,
                max_depth,
                sight,
                s,
                updates(root, max_depth, sight, s, i, k).end,
            ).end,
            heights,
        ),
        heights_known(heights),
        makes_chunks(s, i, updates(root, max_depth, sight, s, i, k).end),
        max_depth <= MAX_LEVEL,
        root.fits(max_depth),
        k >= 1,
        k >= max_depth,
    ensures
        ({
            let before = updates(root, max_depth, sight, s, i, k);
            let further = update(before.node, max_depth, sight, s, before.end);
            &&& further.node == before.node
            &&& only_asks(s, before.end, further.end)
        }),
{
    let at = Cell::root(max_depth);
    let before = updates(root, max_depth, sight, s, i, k);
    let earlier = updates(root, max_depth, sight, s, i, (k - 1) as nat);
    lemma_visit_span(before.node, at, sight, s, before.end);
    lemma_visit_span(earlier.node, at, sight, s, earlier.end);
    assert(earlier.end <= before.end <= update(before.node, max_depth, sight, s, before.end).end);
    lemma_updates_refine(root, max_depth, sight, heights, s, i, (k - 1) as nat);
    lemma_update_fills_root(earlier.node, max_depth, sight, s, earlier.end);
    lemma_updates_converge(root, max_depth, sight, heights, s, i, k);
    lemma_rest_is_kept(before.node, at, sight, heights, s, before.end);
}

} // verus!

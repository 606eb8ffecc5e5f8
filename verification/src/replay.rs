//! What a pass over the tree does, told over the history of its requests.
//!
//! A pass decides from the answers of its host, so its result is stated as
//! a replay: given the tree before, and a history that holds the requests
//! of the pass from some index on, `visit` reads off the tree after and
//! the index at which the pass ends, and says whether the history holds
//! exactly the requests that the pass makes, in its order.

use vstd::prelude::*;
use crate::grid::{Cell, lemma_child_in_grid};
use crate::proximity::{Sight, proximity};
use crate::host::{History, is_bounds_at, answer_at, is_make_at, made_at, retire, holds_at, agree};
use crate::quad::Quad;

verus! {

/// Where a replay arrives.
pub struct Outcome<C> {
    /// The node after the pass.
    pub node: Quad<C>,
    /// The index behind the last request of the pass.
    pub end: nat,
    /// The history held the requests of the pass.
    pub ok: bool,
}

/// A leaf of `at` that holds `chunk` splits: a chunk is made for each of
/// the four quadrants, in their order, and then the leaf's own chunk is
/// retired.
pub open spec fn split<C>(chunk: Option<C>, at: Cell, s: History<C>, i: nat) -> Outcome<C> {
    Outcome {
        node: Quad::Branch(
            Box::new(Quad::Leaf(made_at(s, i))),
            Box::new(Quad::Leaf(made_at(s, i + 1))),
            Box::new(Quad::Leaf(made_at(s, i + 2))),
            Box::new(Quad::Leaf(made_at(s, i + 3))),
        ),
        end: i + 4 + retire(chunk, at).len(),
        ok: {
            &&& is_make_at(s, i, at.child(0))
            &&& is_make_at(s, i + 1, at.child(1))
            &&& is_make_at(s, i + 2, at.child(2))
            &&& is_make_at(s, i + 3, at.child(3))
            &&& holds_at(s, i + 4, retire(chunk, at))
        },
    }
}

/// The requests that retire the chunks of four leaves, the quadrants of
/// `at`, in their order.
pub open spec fn retire_quadrants<C>(
    k0: Option<C>,
    k1: Option<C>,
    k2: Option<C>,
    k3: Option<C>,
    at: Cell,
) -> History<C> {
    retire(k0, at.child(0)) + retire(k1, at.child(1)) + retire(k2, at.child(2)) + retire(
        k3,
        at.child(3),
    )
}

/// Four leaves, the quadrants of `at`, join: their chunks are retired, and
/// then a chunk is made for `at`.
pub open spec fn join<C>(
    k0: Option<C>,
    k1: Option<C>,
    k2: Option<C>,
    k3: Option<C>,
    at: Cell,
    s: History<C>,
    i: nat,
) -> Outcome<C> {
    let retired = retire_quadrants(k0, k1, k2, k3, at);
    Outcome {
        node: Quad::Leaf(made_at(s, i + retired.len())),
        end: i + retired.len() + 1,
        ok: holds_at(s, i, retired) && is_make_at(s, i + retired.len(), at),
    }
}

/// One pass over `node`, which stands at `at`, replayed on `s` from `i`.
///
/// The heights over the cell are asked for first. On an answer that is no
/// range the node and all below it are left as they are. Otherwise a leaf
/// above level 0 that the view is near to splits; a branch has its four
/// quadrants visited in their order and then, if none of them is a branch
/// and the view is far, joins.
pub open spec fn visit<C>(node: Quad<C>, at: Cell, sight: Sight, s: History<C>, i: nat) -> Outcome<C>
    decreases node,
{
    if !is_bounds_at(s, i, at) {
        Outcome { node, end: i, ok: false }
    } else if answer_at(s, i) is Invalid {
        Outcome { node, end: i + 1, ok: true }
    } else {
        let nearness = proximity(at, sight, answer_at(s, i));
        match node {
            Quad::Leaf(chunk) => {
                if at.level > 0 && nearness is Near {
                    split(chunk, at, s, i + 1)
                } else {
                    Outcome { node, end: i + 1, ok: true }
                }
            },
            Quad::Branch(a, b, c, d) => {
                let r0 = visit(*a, at.child(0), sight, s, i + 1);
                let r1 = visit(*b, at.child(1), sight, s, r0.end);
                let r2 = visit(*c, at.child(2), sight, s, r1.end);
                let r3 = visit(*d, at.child(3), sight, s, r2.end);
                let kept = Quad::Branch(
                    Box::new(r0.node),
                    Box::new(r1.node),
                    Box::new(r2.node),
                    Box::new(r3.node),
                );
                if !(r0.ok && r1.ok && r2.ok && r3.ok) {
                    Outcome { node: kept, end: r3.end, ok: false }
                } else if r0.node is Leaf && r1.node is Leaf && r2.node is Leaf && r3.node is Leaf
                    && nearness is Far {
                    join(
                        r0.node.chunk(),
                        r1.node.chunk(),
                        r2.node.chunk(),
                        r3.node.chunk(),
                        at,
                        s,
                        r3.end,
                    )
                } else {
                    Outcome { node: kept, end: r3.end, ok: true }
                }
            },
        }
    }
}

/// One update of a whole tree of `max_depth` levels above level 0: a pass
/// over the root and then, if the tree is a single leaf without a chunk,
/// a request for the root's chunk.
pub open spec fn update<C>(root: Quad<C>, max_depth: u32, sight: Sight, s: History<C>, i: nat) -> Outcome<C> {
    let pass = visit(root, Cell::root(max_depth), sight, s, i);
    if pass.ok && pass.node == Quad::<C>::Leaf(None) {
        Outcome {
            node: Quad::Leaf(made_at(s, pass.end)),
            end: pass.end + 1,
            ok: is_make_at(s, pass.end, Cell::root(max_depth)),
        }
    } else {
        pass
    }
}

/// The requests that take a whole tree down: the chunk of every leaf that
/// holds one is retired, the leaves taken quadrant by quadrant.
pub open spec fn teardown<C>(node: Quad<C>, at: Cell) -> History<C>
    decreases node,
{
    match node {
        Quad::Leaf(chunk) => retire(chunk, at),
        Quad::Branch(a, b, c, d) => teardown(*a, at.child(0)) + teardown(*b, at.child(1))
            + teardown(*c, at.child(2)) + teardown(*d, at.child(3)),
    }
}

/// A replay that succeeds ends within the history, reads nothing outside
/// the requests from `i` up to its end, and leaves a tree that fits the
/// level it began at.
pub proof fn lemma_visit_reads<C>(
    node: Quad<C>,
    at: Cell,
    sight: Sight,
    s: History<C>,
    t: History<C>,
    i: nat,
)
    requires
        visit(node, at, sight, s, i).ok,
        agree(s, t, i, visit(node, at, sight, s, i).end),
    ensures
        i < visit(node, at, sight, s, i).end <= s.len(),
        visit(node, at, sight, t, i) == visit(node, at, sight, s, i),
    decreases node,
{
    let end = visit(node, at, sight, s, i).end;
    lemma_visit_span(node, at, sight, s, i);
    assert(is_bounds_at(t, i, at));
    if !(answer_at(s, i) is Invalid) {
        match node {
            Quad::Leaf(chunk) => {
                if at.level > 0 && proximity(at, sight, answer_at(s, i)) is Near {
                    let tail = retire(chunk, at);
                    assert(holds_at(t, i + 5, tail)) by {
                        assert forall|j: int| 0 <= j < tail.len() implies t[i + 5 + j] == tail[j] by {
                            assert(s[i + 5 + j] == tail[j]);
                        }
                    }
                    assert(made_at(t, i + 1) == made_at(s, i + 1));
                    assert(made_at(t, i + 2) == made_at(s, i + 2));
                    assert(made_at(t, i + 3) == made_at(s, i + 3));
                    assert(made_at(t, i + 4) == made_at(s, i + 4));
                }
            },
            Quad::Branch(a, b, c, d) => {
                let r0 = visit(*a, at.child(0), sight, s, i + 1);
                let r1 = visit(*b, at.child(1), sight, s, r0.end);
                let r2 = visit(*c, at.child(2), sight, s, r1.end);
                let r3 = visit(*d, at.child(3), sight, s, r2.end);
                lemma_visit_span(*a, at.child(0), sight, s, i + 1);
                lemma_visit_span(*b, at.child(1), sight, s, r0.end);
                lemma_visit_span(*c, at.child(2), sight, s, r1.end);
                lemma_visit_span(*d, at.child(3), sight, s, r2.end);
                assert(r3.end <= end);
                lemma_visit_reads(*a, at.child(0), sight, s, t, i + 1);
                lemma_visit_reads(*b, at.child(1), sight, s, t, r0.end);
                lemma_visit_reads(*c, at.child(2), sight, s, t, r1.end);
                lemma_visit_reads(*d, at.child(3), sight, s, t, r2.end);
                if r0.node is Leaf && r1.node is Leaf && r2.node is Leaf && r3.node is Leaf
                    && proximity(at, sight, answer_at(s, i)) is Far {
                    let retired = retire_quadrants(
                        r0.node.chunk(),
                        r1.node.chunk(),
                        r2.node.chunk(),
                        r3.node.chunk(),
                        at,
                    );
                    assert(holds_at(t, r3.end, retired)) by {
                        assert forall|j: int| 0 <= j < retired.len() implies t[r3.end + j]
                            == retired[j] by {
                            assert(s[r3.end + j] == retired[j]);
                        }
                    }
                    assert(made_at(t, r3.end + retired.len()) == made_at(s, r3.end + retired.len()));
                }
            },
        }
    }
}

/// A replay that succeeds covers at least its first request and ends
/// within the history.
pub proof fn lemma_visit_span<C>(node: Quad<C>, at: Cell, sight: Sight, s: History<C>, i: nat)
    requires
        visit(node, at, sight, s, i).ok,
    ensures
        i < visit(node, at, sight, s, i).end <= s.len(),
    decreases node,
{
    if !(answer_at(s, i) is Invalid) {
        match node {
            Quad::Leaf(chunk) => {},
            Quad::Branch(a, b, c, d) => {
                let r0 = visit(*a, at.child(0), sight, s, i + 1);
                let r1 = visit(*b, at.child(1), sight, s, r0.end);
                let r2 = visit(*c, at.child(2), sight, s, r1.end);
                lemma_visit_span(*a, at.child(0), sight, s, i + 1);
                lemma_visit_span(*b, at.child(1), sight, s, r0.end);
                lemma_visit_span(*c, at.child(2), sight, s, r1.end);
                lemma_visit_span(*d, at.child(3), sight, s, r2.end);
            },
        }
    }
}

/// A pass keeps the tree within its level: it splits no leaf of level 0.
pub proof fn lemma_visit_fits<C>(node: Quad<C>, at: Cell, sight: Sight, s: History<C>, i: nat)
    requires
        node.fits(at.level),
        at.in_grid(),
    ensures
        visit(node, at, sight, s, i).node.fits(at.level),
    decreases node,
{
    if is_bounds_at(s, i, at) && !(answer_at(s, i) is Invalid) {
        match node {
            Quad::Leaf(chunk) => {
                let below = (at.level - 1) as u32;
                assert(Quad::Leaf(made_at(s, i + 1)).fits(below));
                assert(Quad::Leaf(made_at(s, i + 2)).fits(below));
                assert(Quad::Leaf(made_at(s, i + 3)).fits(below));
                assert(Quad::Leaf(made_at(s, i + 4)).fits(below));
            },
            Quad::Branch(a, b, c, d) => {
                let r0 = visit(*a, at.child(0), sight, s, i + 1);
                let r1 = visit(*b, at.child(1), sight, s, r0.end);
                let r2 = visit(*c, at.child(2), sight, s, r1.end);
                lemma_child_in_grid(at, 0);
                lemma_child_in_grid(at, 1);
                lemma_child_in_grid(at, 2);
                lemma_child_in_grid(at, 3);
                lemma_visit_fits(*a, at.child(0), sight, s, i + 1);
                lemma_visit_fits(*b, at.child(1), sight, s, r0.end);
                lemma_visit_fits(*c, at.child(2), sight, s, r1.end);
                lemma_visit_fits(*d, at.child(3), sight, s, r2.end);
            },
        }
    }
}

} // verus!

//! The passes over the tree: the adaptive update, and the teardown.
//!
//! Each function carries the history of requests along and extends it by
//! what it asks of the host.

use vstd::prelude::*;
use crate::grid::Cell;
use crate::proximity::{Sight, VerticalBounds, Proximity, classify, lemma_measures_below};
use crate::host::{ChunkHost, Request, History, continues, retire, made_at, added, answered, lemma_added_one, lemma_added_chain};
use crate::quad::Quad;
use crate::replay::{Outcome, visit, lemma_visit_reads, retire_quadrants};

verus! {

/// Appending in two steps is appending the two parts joined.
proof fn lemma_joined<C>(base: History<C>, first: History<C>, second: History<C>)
    ensures
        base + first + second == base + (first + second),
{
    assert(base + first + second =~= base + (first + second));
}

/// Asks the host for the chunk of `cell`.
fn make_chunk<C, H: ChunkHost<C>>(host: &mut H, cell: Cell, Ghost(log): Ghost<History<C>>) -> (out: (
    Option<C>,
    Ghost<History<C>>,
))
    ensures
        out.1@ == log.push(Request::Make { cell, made: out.0 }),
        final(host).requests() == old(host).requests().push(Request::Make { cell, made: out.0 }),
        H::answers(Request::Make { cell, made: out.0 }),
        continues(out.1@, log),
        final(host).requests() == old(host).requests() + added(out.1@, log),
        answered::<C, H>(out.1@, log.len()),
{
    let made = host.make(cell);
    proof {
        lemma_added_one(log, Request::Make { cell, made });
        assert(old(host).requests().push(Request::Make { cell, made }) =~= old(host).requests()
            + seq![Request::Make { cell, made }]);
    }
    (made, Ghost(log.push(Request::Make { cell, made })))
}

/// Hands the chunk of `cell` back to the host, if there is one.
fn recycle_chunk<C, H: ChunkHost<C>>(
    host: &mut H,
    chunk: Option<C>,
    cell: Cell,
    Ghost(log): Ghost<History<C>>,
) -> (out: Ghost<History<C>>)
    ensures
        out@ == log + retire(chunk, cell),
        final(host).requests() == old(host).requests() + retire(chunk, cell),
        continues(out@, log),
        final(host).requests() == old(host).requests() + added(out@, log),
        answered::<C, H>(out@, log.len()),
{
    match chunk {
        Some(c) => {
            let ghost next = log.push(Request::Recycle { cell, chunk: c });
            host.recycle(c, cell);
            proof {
                lemma_added_one(log, Request::Recycle { cell, chunk: c });
                assert(next =~= log + retire(chunk, cell));
                assert(host.requests() =~= old(host).requests() + retire(chunk, cell));
                assert(retire(chunk, cell) =~= seq![Request::Recycle { cell, chunk: c }]);
            }
            Ghost(next)
        },
        None => {
            proof {
                assert(log =~= log + retire(chunk, cell));
                assert(host.requests() =~= old(host).requests() + retire(chunk, cell));
                assert(added(log, log) =~= retire(chunk, cell));
            }
            Ghost(log)
        },
    }
}

/// Splits a leaf of `at` that holds `chunk`.
fn split<C, H: ChunkHost<C>>(chunk: Option<C>, at: Cell, host: &mut H, Ghost(log): Ghost<History<C>>) -> (out: (
    Quad<C>,
    Ghost<History<C>>,
))
    requires
        at.in_grid(),
        at.level > 0,
    ensures
        continues(out.1@, log),
        crate::replay::split(chunk, at, out.1@, log.len()) == (Outcome {
            node: out.0,
            end: out.1@.len(),
            ok: true,
        }),
        out.0.fits(at.level),
        final(host).requests() == old(host).requests() + added(out.1@, log),
        answered::<C, H>(out.1@, log.len()),
{
    let ghost begun = host.requests();
    let (k0, Ghost(l0)) = make_chunk(host, at.quadrant(0), Ghost(log));
    let (k1, Ghost(l1)) = make_chunk(host, at.quadrant(1), Ghost(l0));
    proof {
        lemma_added_chain::<C, H>(log, l0, l1);
        lemma_joined(begun, added(l0, log), added(l1, l0));
    }
    let (k2, Ghost(l2)) = make_chunk(host, at.quadrant(2), Ghost(l1));
    proof {
        lemma_added_chain::<C, H>(log, l1, l2);
        lemma_joined(begun, added(l1, log), added(l2, l1));
    }
    let (k3, Ghost(l3)) = make_chunk(host, at.quadrant(3), Ghost(l2));
    proof {
        lemma_added_chain::<C, H>(log, l2, l3);
        lemma_joined(begun, added(l2, log), added(l3, l2));
    }
    let Ghost(l4) = recycle_chunk(host, chunk, at, Ghost(l3));
    proof {
        lemma_added_chain::<C, H>(log, l3, l4);
        lemma_joined(begun, added(l3, log), added(l4, l3));
    }
    let node = Quad::Branch(
        Box::new(Quad::Leaf(k0)),
        Box::new(Quad::Leaf(k1)),
        Box::new(Quad::Leaf(k2)),
        Box::new(Quad::Leaf(k3)),
    );
    proof {
        let below = (at.level - 1) as u32;
        assert(Quad::Leaf(k0).fits(below));
        assert(Quad::Leaf(k1).fits(below));
        assert(Quad::Leaf(k2).fits(below));
        assert(Quad::Leaf(k3).fits(below));
        let n = log.len() as int;
        assert(l4[n] == l0[n]);
        assert(l4[n + 1] == l1[n + 1]);
        assert(l4[n + 2] == l2[n + 2]);
        assert(l4[n + 3] == l3[n + 3]);
    }
    (node, Ghost(l4))
}

/// Joins four leaves, the quadrants of `at`, that hold `k0` to `k3`.
fn join<C, H: ChunkHost<C>>(
    k0: Option<C>,
    k1: Option<C>,
    k2: Option<C>,
    k3: Option<C>,
    at: Cell,
    host: &mut H,
    Ghost(log): Ghost<History<C>>,
) -> (out: (Quad<C>, Ghost<History<C>>))
    requires
        at.in_grid(),
        at.level > 0,
    ensures
        continues(out.1@, log),
        crate::replay::join(k0, k1, k2, k3, at, out.1@, log.len()) == (Outcome {
            node: out.0,
            end: out.1@.len(),
            ok: true,
        }),
        out.0 is Leaf,
        final(host).requests() == old(host).requests() + added(out.1@, log),
        answered::<C, H>(out.1@, log.len()),
{
    let ghost begun = host.requests();
    let Ghost(l0) = recycle_chunk(host, k0, at.quadrant(0), Ghost(log));
    let Ghost(l1) = recycle_chunk(host, k1, at.quadrant(1), Ghost(l0));
    proof {
        lemma_added_chain::<C, H>(log, l0, l1);
        lemma_joined(begun, added(l0, log), added(l1, l0));
    }
    let Ghost(l2) = recycle_chunk(host, k2, at.quadrant(2), Ghost(l1));
    proof {
        lemma_added_chain::<C, H>(log, l1, l2);
        lemma_joined(begun, added(l1, log), added(l2, l1));
    }
    let Ghost(l3) = recycle_chunk(host, k3, at.quadrant(3), Ghost(l2));
    proof {
        lemma_added_chain::<C, H>(log, l2, l3);
        lemma_joined(begun, added(l2, log), added(l3, l2));
    }
    let (made, Ghost(l4)) = make_chunk(host, at, Ghost(l3));
    proof {
        lemma_added_chain::<C, H>(log, l3, l4);
        lemma_joined(begun, added(l3, log), added(l4, l3));
    }
    proof {
        let retired = retire_quadrants(k0, k1, k2, k3, at);
        assert(l3 =~= log + retired);
        assert(made_at(l4, log.len() + retired.len()) == made);
    }
    (Quad::Leaf(made), Ghost(l4))
}

/// One pass of the adaptive update over `quad`, which stands at `at`.
pub(crate) fn quad_update<C, H: ChunkHost<C>>(
    quad: Quad<C>,
    at: Cell,
    sight: &Sight,
    host: &mut H,
    Ghost(log): Ghost<History<C>>,
) -> (out: (Quad<C>, Ghost<History<C>>))
    requires
        at.in_grid(),
        quad.fits(at.level),
        sight.measures(at.level),
    ensures
        continues(out.1@, log),
        visit(quad, at, *sight, out.1@, log.len()) == (Outcome {
            node: out.0,
            end: out.1@.len(),
            ok: true,
        }),
        out.0.fits(at.level),
        final(host).requests() == old(host).requests() + added(out.1@, log),
        answered::<C, H>(out.1@, log.len()),
    decreases quad,
{
    let answer = host.vertical_bounds(at);
    let ghost asked = log.push(Request::Bounds { cell: at, answer });
    let ghost begun = old(host).requests();
    proof {
        lemma_added_one(log, Request::Bounds { cell: at, answer });
        assert(begun.push(Request::Bounds { cell: at, answer }) =~= begun + added(asked, log));
    }
    let nearness = match answer {
        VerticalBounds::Invalid => {
            return (quad, Ghost(asked));
        },
        _ => classify(at, sight, answer),
    };
    match quad {
        Quad::Leaf(chunk) => {
            let near = match nearness {
                Proximity::Near => true,
                _ => false,
            };
            if at.level > 0 && near {
                let (node, Ghost(done)) = split(chunk, at, host, Ghost(asked));
                proof {
                    lemma_added_chain::<C, H>(log, asked, done);
                    lemma_joined(begun, added(asked, log), added(done, asked));
                }
                (node, Ghost(done))
            } else {
                (Quad::Leaf(chunk), Ghost(asked))
            }
        },
        Quad::Branch(a, b, c, d) => {
            proof {
                lemma_measures_below(*sight, at.level, (at.level - 1) as u32);
            }
            let (n0, Ghost(l0)) = quad_update(*a, at.quadrant(0), sight, host, Ghost(asked));
            proof {
                lemma_added_chain::<C, H>(log, asked, l0);
                lemma_joined(begun, added(asked, log), added(l0, asked));
            }
            let (n1, Ghost(l1)) = quad_update(*b, at.quadrant(1), sight, host, Ghost(l0));
            proof {
                lemma_added_chain::<C, H>(log, l0, l1);
                lemma_joined(begun, added(l0, log), added(l1, l0));
            }
            let (n2, Ghost(l2)) = quad_update(*c, at.quadrant(2), sight, host, Ghost(l1));
            proof {
                lemma_added_chain::<C, H>(log, l1, l2);
                lemma_joined(begun, added(l1, log), added(l2, l1));
            }
            let (n3, Ghost(l3)) = quad_update(*d, at.quadrant(3), sight, host, Ghost(l2));
            proof {
                lemma_added_chain::<C, H>(log, l2, l3);
                lemma_joined(begun, added(l2, log), added(l3, l2));
            }
            let far = match nearness {
                Proximity::Far => true,
                _ => false,
            };
            let no_split_child = !n0.has_children() && !n1.has_children() && !n2.has_children()
                && !n3.has_children();
            if no_split_child && far {
                let (node, Ghost(done)) = join(
                    n0.into_chunk(),
                    n1.into_chunk(),
                    n2.into_chunk(),
                    n3.into_chunk(),
                    at,
                    host,
                    Ghost(l3),
                );
                proof {
                    lemma_visit_reads(*a, at.child(0), *sight, l0, done, asked.len());
                    lemma_visit_reads(*b, at.child(1), *sight, l1, done, l0.len());
                    lemma_visit_reads(*c, at.child(2), *sight, l2, done, l1.len());
                    lemma_visit_reads(*d, at.child(3), *sight, l3, done, l2.len());
                    lemma_added_chain::<C, H>(log, l3, done);
                    lemma_joined(begun, added(l3, log), added(done, l3));
                }
                (node, Ghost(done))
            } else {
                proof {
                    lemma_visit_reads(*a, at.child(0), *sight, l0, l3, asked.len());
                    lemma_visit_reads(*b, at.child(1), *sight, l1, l3, l0.len());
                    lemma_visit_reads(*c, at.child(2), *sight, l2, l3, l1.len());
                }
                (Quad::Branch(Box::new(n0), Box::new(n1), Box::new(n2), Box::new(n3)), Ghost(l3))
            }
        },
    }
}

/// One update of the whole tree: a pass over the root, and then the root's
/// chunk if the tree is a single leaf that has none.
pub(crate) fn update_tree<C, H: ChunkHost<C>>(
    root: Quad<C>,
    max_depth: u32,
    sight: &Sight,
    host: &mut H,
    Ghost(log): Ghost<History<C>>,
) -> (out: (Quad<C>, Ghost<History<C>>))
    requires
        max_depth <= crate::grid::MAX_LEVEL,
        root.fits(max_depth),
        sight.measures(max_depth),
    ensures
        continues(out.1@, log),
        crate::replay::update(root, max_depth, *sight, out.1@, log.len()) == (Outcome {
            node: out.0,
            end: out.1@.len(),
            ok: true,
        }),
        out.0.fits(max_depth),
        final(host).requests() == old(host).requests() + added(out.1@, log),
        answered::<C, H>(out.1@, log.len()),
{
    let at = Cell { level: max_depth, x: 0, y: 0 };
    proof {
        crate::grid::lemma_root_in_grid(max_depth);
    }
    let (node, Ghost(passed)) = quad_update(root, at, sight, host, Ghost(log));
    match node {
        Quad::Leaf(None) => {
            let (made, Ghost(done)) = make_chunk(host, at, Ghost(passed));
            proof {
                lemma_visit_reads(root, at, *sight, passed, done, log.len());
                lemma_added_one(passed, Request::Make { cell: at, made });
                lemma_added_chain::<C, H>(log, passed, done);
                lemma_joined(old(host).requests(), added(passed, log), added(done, passed));
            }
            (Quad::Leaf(made), Ghost(done))
        },
        other => (other, Ghost(passed)),
    }
}

/// Takes the whole of `quad` down: every chunk it holds goes back to the
/// host.
pub(crate) fn join_all_recursively<C, H: ChunkHost<C>>(
    quad: Quad<C>,
    at: Cell,
    host: &mut H,
    Ghost(log): Ghost<History<C>>,
) -> (out: Ghost<History<C>>)
    requires
        at.in_grid(),
        quad.fits(at.level),
    ensures
        out@ == log + crate::replay::teardown(quad, at),
        final(host).requests() == old(host).requests() + crate::replay::teardown(quad, at),
    decreases quad,
{
    match quad {
        Quad::Leaf(chunk) => recycle_chunk(host, chunk, at, Ghost(log)),
        Quad::Branch(a, b, c, d) => {
            let Ghost(l0) = join_all_recursively(*a, at.quadrant(0), host, Ghost(log));
            let Ghost(l1) = join_all_recursively(*b, at.quadrant(1), host, Ghost(l0));
            let Ghost(l2) = join_all_recursively(*c, at.quadrant(2), host, Ghost(l1));
            let Ghost(l3) = join_all_recursively(*d, at.quadrant(3), host, Ghost(l2));
            assert(l3 =~= log + crate::replay::teardown(quad, at));
            assert(host.requests() =~= old(host).requests() + crate::replay::teardown(quad, at));
            Ghost(l3)
        },
    }
}

} // verus!

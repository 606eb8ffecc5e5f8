//! The pairing of chunks: what is live, and how a history of requests
//! keeps account of it.
//!
//! A chunk that the host made is live until it is handed back. The ledger
//! of a history is the multiset of live chunks, each with the cell it was
//! made for; a history balances only if every chunk it hands back was live
//! for that very cell at that moment.

use vstd::prelude::*;
use vstd::multiset::Multiset;
use crate::grid::Cell;
use crate::proximity::{Sight, proximity};
use crate::host::{Request, History, answer_at, is_make_at, made_at, retire, holds_at, agree};
use crate::quad::Quad;
use crate::replay::{visit, update, teardown, retire_quadrants, lemma_visit_span};

verus! {

broadcast use vstd::multiset::group_multiset_axioms;

/// A live chunk, with the cell it was made for.
pub struct Held<C> {
    pub cell: Cell,
    pub chunk: C,
}

/// What a leaf of `cell` holds, as a ledger.
pub open spec fn holding<C>(chunk: Option<C>, cell: Cell) -> Multiset<Held<C>> {
    match chunk {
        Some(c) => Multiset::singleton(Held { cell, chunk: c }),
        None => Multiset::empty(),
    }
}

/// The chunks that the leaves of `node` hold, each with its leaf's cell.
pub open spec fn holdings<C>(node: Quad<C>, at: Cell) -> Multiset<Held<C>>
    decreases node,
{
    match node {
        Quad::Leaf(chunk) => holding(chunk, at),
        Quad::Branch(a, b, c, d) => holdings(*a, at.child(0)).add(holdings(*b, at.child(1))).add(
            holdings(*c, at.child(2)),
        ).add(holdings(*d, at.child(3))),
    }
}

/// The ledger after one request: a chunk that was made becomes live, and
/// one that is handed back must be live and is so no longer.
pub open spec fn after<C>(live: Multiset<Held<C>>, request: Request<C>) -> Option<Multiset<Held<C>>> {
    match request {
        Request::Bounds { .. } => Some(live),
        Request::Make { cell, made } => Some(live.add(holding(made, cell))),
        Request::Recycle { cell, chunk } => if live.count(Held { cell, chunk }) > 0 {
            Some(live.remove(Held { cell, chunk }))
        } else {
            None
        },
    }
}

/// The ledger after the requests of `s` from `from` up to `to`, begun with
/// `live`; `None` if one of them hands back a chunk that is not live.
pub open spec fn settle<C>(live: Multiset<Held<C>>, s: History<C>, from: nat, to: nat) -> Option<
    Multiset<Held<C>>,
>
    decreases to,
{
    if to <= from || to > s.len() {
        Some(live)
    } else {
        match settle(live, s, from, (to - 1) as nat) {
            Some(before) => after(before, s[to - 1]),
            None => None,
        }
    }
}

/// The whole of `s` balances, begun with nothing live, and leaves `live`.
pub open spec fn balances<C>(s: History<C>, live: Multiset<Held<C>>) -> bool {
    settle(Multiset::empty(), s, 0, s.len()) == Some(live)
}

/// Settling up to `mid` and on from there is settling through.
pub proof fn lemma_settle_chain<C>(live: Multiset<Held<C>>, s: History<C>, from: nat, mid: nat, to: nat)
    requires
        from <= mid <= to <= s.len(),
        settle(live, s, from, mid) is Some,
    ensures
        settle(live, s, from, to) == settle(settle(live, s, from, mid)->0, s, mid, to),
    decreases to,
{
    if mid < to {
        lemma_settle_chain(live, s, from, mid, (to - 1) as nat);
    }
}

/// Settling reads only the requests it runs over.
pub proof fn lemma_settle_reads<C>(live: Multiset<Held<C>>, s: History<C>, t: History<C>, from: nat, to: nat)
    requires
        agree(s, t, from, to),
    ensures
        settle(live, t, from, to) == settle(live, s, from, to),
    decreases to,
{
    if from < to {
        lemma_settle_reads(live, s, t, from, (to - 1) as nat);
    }
}

/// A history that balances does so up to each of its requests.
pub proof fn lemma_settle_prefix<C>(live: Multiset<Held<C>>, s: History<C>, from: nat, mid: nat, to: nat)
    requires
        from <= mid <= to <= s.len(),
        settle(live, s, from, to) is Some,
    ensures
        settle(live, s, from, mid) is Some,
    decreases to,
{
    if mid < to {
        lemma_settle_prefix(live, s, from, mid, (to - 1) as nat);
    }
}

/// Retiring what a leaf holds takes just that off the ledger.
proof fn lemma_settle_retire<C>(
    chunk: Option<C>,
    cell: Cell,
    frame: Multiset<Held<C>>,
    s: History<C>,
    i: nat,
)
    requires
        holds_at(s, i, retire(chunk, cell)),
    ensures
        settle(holding(chunk, cell).add(frame), s, i, i + retire(chunk, cell).len()) == Some(frame),
{
    let live = holding(chunk, cell).add(frame);
    match chunk {
        Some(c) => {
            assert(s[i as int + 0] == retire(chunk, cell)[0]);
            assert(settle(live, s, i, i) == Some(live));
            assert(live.remove(Held { cell, chunk: c }) =~= frame);
        },
        None => {
            assert(live =~= frame);
        },
    }
}

/// A request for a chunk puts what was made on the ledger.
proof fn lemma_settle_make<C>(cell: Cell, live: Multiset<Held<C>>, s: History<C>, i: nat)
    requires
        is_make_at(s, i, cell),
    ensures
        settle(live, s, i, i + 1) == Some(live.add(holding(made_at(s, i), cell))),
{
    assert(settle(live, s, i, i) == Some(live));
}

/// Where the requests from `i` on begin with `first + second`, they begin
/// with `first`, and those behind it with `second`.
proof fn lemma_holds_at_parts<C>(s: History<C>, i: nat, first: History<C>, second: History<C>)
    requires
        holds_at(s, i, first + second),
    ensures
        holds_at(s, i, first),
        holds_at(s, i + first.len(), second),
{
    let whole = first + second;
    assert forall|j: int| 0 <= j < first.len() implies s[i + j] == first[j] by {
        assert(whole[j] == first[j]);
    }
    assert forall|j: int| 0 <= j < second.len() implies s[i + first.len() + j] == second[j] by {
        assert(whole[first.len() + j] == second[j]);
    }
}

/// Splitting a leaf keeps the account: the four chunks made are live in
/// place of the leaf's own.
proof fn lemma_split_balanced<C>(
    chunk: Option<C>,
    at: Cell,
    s: History<C>,
    i: nat,
    frame: Multiset<Held<C>>,
)
    requires
        crate::replay::split(chunk, at, s, i).ok,
    ensures
        settle(holding(chunk, at).add(frame), s, i, crate::replay::split(chunk, at, s, i).end)
            == Some(holdings(crate::replay::split(chunk, at, s, i).node, at).add(frame)),
{
    let own = holding(chunk, at);
    let m0 = own.add(frame);
    let h0 = holding(made_at(s, i), at.child(0));
    let h1 = holding(made_at(s, i + 1), at.child(1));
    let h2 = holding(made_at(s, i + 2), at.child(2));
    let h3 = holding(made_at(s, i + 3), at.child(3));
    let made = h0.add(h1).add(h2).add(h3);
    let m1 = m0.add(h0);
    let m2 = m1.add(h1);
    let m3 = m2.add(h2);
    let m4 = m3.add(h3);
    lemma_settle_make(at.child(0), m0, s, i);
    lemma_settle_make(at.child(1), m1, s, i + 1);
    lemma_settle_make(at.child(2), m2, s, i + 2);
    lemma_settle_make(at.child(3), m3, s, i + 3);
    lemma_settle_chain(m0, s, i, i + 1, i + 2);
    lemma_settle_chain(m0, s, i, i + 2, i + 3);
    lemma_settle_chain(m0, s, i, i + 3, i + 4);
    assert(settle(m0, s, i, i + 4) == Some(m4));
    assert(m4 =~= own.add(made.add(frame)));
    lemma_settle_retire(chunk, at, made.add(frame), s, i + 4);
    lemma_settle_chain(m0, s, i, i + 4, i + 4 + retire(chunk, at).len());
    let node = crate::replay::split(chunk, at, s, i).node;
    assert(holdings(node, at) =~= made) by {
        assert(holdings(node.child(0), at.child(0)) == h0);
        assert(holdings(node.child(1), at.child(1)) == h1);
        assert(holdings(node.child(2), at.child(2)) == h2);
        assert(holdings(node.child(3), at.child(3)) == h3);
    }
    assert(made.add(frame) =~= holdings(node, at).add(frame));
}

/// Joining four leaves keeps the account: the chunk made for the parent is
/// live in place of theirs.
proof fn lemma_join_balanced<C>(
    k0: Option<C>,
    k1: Option<C>,
    k2: Option<C>,
    k3: Option<C>,
    at: Cell,
    s: History<C>,
    i: nat,
    frame: Multiset<Held<C>>,
)
    requires
        crate::replay::join(k0, k1, k2, k3, at, s, i).ok,
    ensures
        settle(
            holding(k0, at.child(0)).add(holding(k1, at.child(1))).add(holding(k2, at.child(2))).add(
                holding(k3, at.child(3)),
            ).add(frame),
            s,
            i,
            crate::replay::join(k0, k1, k2, k3, at, s, i).end,
        ) == Some(holdings(crate::replay::join(k0, k1, k2, k3, at, s, i).node, at).add(frame)),
{
    let h0 = holding(k0, at.child(0));
    let h1 = holding(k1, at.child(1));
    let h2 = holding(k2, at.child(2));
    let h3 = holding(k3, at.child(3));
    let r0 = retire(k0, at.child(0));
    let r1 = retire(k1, at.child(1));
    let r2 = retire(k2, at.child(2));
    let r3 = retire(k3, at.child(3));
    let m0 = h0.add(h1).add(h2).add(h3).add(frame);
    let m1 = h1.add(h2).add(h3).add(frame);
    let m2 = h2.add(h3).add(frame);
    let m3 = h3.add(frame);
    let e0 = i + r0.len();
    let e1 = e0 + r1.len();
    let e2 = e1 + r2.len();
    let e3 = e2 + r3.len();
    assert(retire_quadrants(k0, k1, k2, k3, at) == r0 + r1 + r2 + r3);
    lemma_holds_at_parts(s, i, r0 + r1 + r2, r3);
    lemma_holds_at_parts(s, i, r0 + r1, r2);
    lemma_holds_at_parts(s, i, r0, r1);
    assert(m0 =~= h0.add(m1));
    assert(m1 =~= h1.add(m2));
    assert(m2 =~= h2.add(m3));
    lemma_settle_retire(k0, at.child(0), m1, s, i);
    lemma_settle_retire(k1, at.child(1), m2, s, e0);
    lemma_settle_retire(k2, at.child(2), m3, s, e1);
    lemma_settle_retire(k3, at.child(3), frame, s, e2);
    lemma_settle_make(at, frame, s, e3);
    lemma_settle_chain(m0, s, i, e0, e1);
    lemma_settle_chain(m0, s, i, e1, e2);
    lemma_settle_chain(m0, s, i, e2, e3);
    lemma_settle_chain(m0, s, i, e3, e3 + 1);
    assert(frame.add(holding(made_at(s, e3), at)) =~= holding(made_at(s, e3), at).add(frame));
}

/// A pass keeps the account: replayed from a ledger that holds the chunks
/// of the node, and whatever else is live, the requests of the pass
/// balance and leave the chunks of the node after, and the rest as it was.
pub proof fn lemma_visit_balanced<C>(
    node: Quad<C>,
    at: Cell,
    sight: Sight,
    s: History<C>,
    i: nat,
    frame: Multiset<Held<C>>,
)
    requires
        visit(node, at, sight, s, i).ok,
    ensures
        settle(holdings(node, at).add(frame), s, i, visit(node, at, sight, s, i).end) == Some(
            holdings(visit(node, at, sight, s, i).node, at).add(frame),
        ),
    decreases node,
{
    let live = holdings(node, at).add(frame);
    lemma_visit_span(node, at, sight, s, i);
    assert(settle(live, s, i, i) == Some(live));
    assert(settle(live, s, i, i + 1) == Some(live));
    if !(answer_at(s, i) is Invalid) {
        match node {
            Quad::Leaf(chunk) => {
                if at.level > 0 && proximity(at, sight, answer_at(s, i)) is Near {
                    lemma_split_balanced(chunk, at, s, i + 1, frame);
                    lemma_settle_chain(live, s, i, i + 1, crate::replay::split(chunk, at, s, i + 1).end);
                }
            },
            Quad::Branch(a, b, c, d) => {
                let r0 = visit(*a, at.child(0), sight, s, i + 1);
                let r1 = visit(*b, at.child(1), sight, s, r0.end);
                let r2 = visit(*c, at.child(2), sight, s, r1.end);
                let r3 = visit(*d, at.child(3), sight, s, r2.end);
                lemma_visit_span(*a, at.child(0), sight, s, i + 1);
                lemma_visit_span(*b, at.child(1), sight, s, r0.end);
                lemma_visit_span(*c, at.child(2), sight, s, r1.end);
                lemma_visit_span(*d, at.child(3), sight, s, r2.end);
                let ha = holdings(*a, at.child(0));
                let hb = holdings(*b, at.child(1));
                let hc = holdings(*c, at.child(2));
                let hd = holdings(*d, at.child(3));
                let g0 = holdings(r0.node, at.child(0));
                let g1 = holdings(r1.node, at.child(1));
                let g2 = holdings(r2.node, at.child(2));
                let g3 = holdings(r3.node, at.child(3));
                let f0 = hb.add(hc).add(hd).add(frame);
                let f1 = g0.add(hc).add(hd).add(frame);
                let f2 = g0.add(g1).add(hd).add(frame);
                let f3 = g0.add(g1).add(g2).add(frame);
                lemma_visit_balanced(*a, at.child(0), sight, s, i + 1, f0);
                lemma_visit_balanced(*b, at.child(1), sight, s, r0.end, f1);
                lemma_visit_balanced(*c, at.child(2), sight, s, r1.end, f2);
                lemma_visit_balanced(*d, at.child(3), sight, s, r2.end, f3);
                assert(live =~= ha.add(f0));
                assert(g0.add(f0) =~= hb.add(f1));
                assert(g1.add(f1) =~= hc.add(f2));
                assert(g2.add(f2) =~= hd.add(f3));
                let kept = g0.add(g1).add(g2).add(g3).add(frame);
                assert(g3.add(f3) =~= kept);
                lemma_settle_chain(live, s, i, i + 1, r0.end);
                lemma_settle_chain(live, s, i, r0.end, r1.end);
                lemma_settle_chain(live, s, i, r1.end, r2.end);
                lemma_settle_chain(live, s, i, r2.end, r3.end);
                assert(settle(live, s, i, r3.end) == Some(kept));
                if r0.node is Leaf && r1.node is Leaf && r2.node is Leaf && r3.node is Leaf
                    && proximity(at, sight, answer_at(s, i)) is Far {
                    let joined = crate::replay::join(
                        r0.node.chunk(),
                        r1.node.chunk(),
                        r2.node.chunk(),
                        r3.node.chunk(),
                        at,
                        s,
                        r3.end,
                    );
                    lemma_join_balanced(
                        r0.node.chunk(),
                        r1.node.chunk(),
                        r2.node.chunk(),
                        r3.node.chunk(),
                        at,
                        s,
                        r3.end,
                        frame,
                    );
                    lemma_settle_chain(live, s, i, r3.end, joined.end);
                }
            },
        }
    }
}

/// An update of the whole tree keeps the account.
pub proof fn lemma_update_balanced<C>(
    root: Quad<C>,
    max_depth: u32,
    sight: Sight,
    s: History<C>,
    i: nat,
    frame: Multiset<Held<C>>,
)
    requires
        update(root, max_depth, sight, s, i).ok,
    ensures
        settle(
            holdings(root, Cell::root(max_depth)).add(frame),
            s,
            i,
            update(root, max_depth, sight, s, i).end,
        ) == Some(holdings(update(root, max_depth, sight, s, i).node, Cell::root(max_depth)).add(frame)),
{
    let at = Cell::root(max_depth);
    let pass = visit(root, at, sight, s, i);
    let live = holdings(root, at).add(frame);
    lemma_visit_balanced(root, at, sight, s, i, frame);
    lemma_visit_span(root, at, sight, s, i);
    if pass.node == Quad::<C>::Leaf(None) {
        let settled = holdings(pass.node, at).add(frame);
        lemma_settle_make(at, settled, s, pass.end);
        lemma_settle_chain(live, s, i, pass.end, pass.end + 1);
        assert(settled.add(holding(made_at(s, pass.end), at)) =~= holding(made_at(s, pass.end), at).add(
            frame,
        ));
    }
}

/// Taking a tree down keeps the account and leaves none of its chunks
/// live.
pub proof fn lemma_teardown_balanced<C>(
    node: Quad<C>,
    at: Cell,
    s: History<C>,
    i: nat,
    frame: Multiset<Held<C>>,
)
    requires
        holds_at(s, i, teardown(node, at)),
    ensures
        settle(holdings(node, at).add(frame), s, i, i + teardown(node, at).len()) == Some(frame),
    decreases node,
{
    let live = holdings(node, at).add(frame);
    match node {
        Quad::Leaf(chunk) => {
            lemma_settle_retire(chunk, at, frame, s, i);
        },
        Quad::Branch(a, b, c, d) => {
            let t0 = teardown(*a, at.child(0));
            let t1 = teardown(*b, at.child(1));
            let t2 = teardown(*c, at.child(2));
            let t3 = teardown(*d, at.child(3));
            let hb = holdings(*b, at.child(1));
            let hc = holdings(*c, at.child(2));
            let hd = holdings(*d, at.child(3));
            let e0 = i + t0.len();
            let e1 = e0 + t1.len();
            let e2 = e1 + t2.len();
            let e3 = e2 + t3.len();
            lemma_holds_at_parts(s, i, t0 + t1 + t2, t3);
            lemma_holds_at_parts(s, i, t0 + t1, t2);
            lemma_holds_at_parts(s, i, t0, t1);
            let f0 = hb.add(hc).add(hd).add(frame);
            let f1 = hc.add(hd).add(frame);
            let f2 = hd.add(frame);
            lemma_teardown_balanced(*a, at.child(0), s, i, f0);
            lemma_teardown_balanced(*b, at.child(1), s, e0, f1);
            lemma_teardown_balanced(*c, at.child(2), s, e1, f2);
            lemma_teardown_balanced(*d, at.child(3), s, e2, frame);
            assert(live =~= holdings(*a, at.child(0)).add(f0));
            assert(f0 =~= hb.add(f1));
            assert(f1 =~= hc.add(f2));
            lemma_settle_chain(live, s, i, e0, e1);
            lemma_settle_chain(live, s, i, e1, e2);
            lemma_settle_chain(live, s, i, e2, e3);
        },
    }
}

} // verus!

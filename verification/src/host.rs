//! The chunk lifecycle: what the tree asks of its host, and the record of
//! what it asked.

use vstd::prelude::*;
use crate::grid::Cell;
use crate::proximity::VerticalBounds;

verus! {

/// The three operations through which the tree drives the chunks of its
/// host. `C` is the host's handle for one chunk; the tree passes handles
/// on and never looks inside them.
///
/// A host keeps account of what it is asked: each call adds one request to
/// `requests`, with its arguments and its answer. Of the answers themselves
/// a host promises only what it says in `answers`; the tree is verified for
/// whatever comes back.
pub trait ChunkHost<C>: Sized {
    /// Every request made of this host, in the order of the calls. A
    /// host that is verified says here what its record is; the body below
    /// stands for a host that is not, and says nothing of it.
    open spec fn requests(&self) -> History<C> {
        arbitrary()
    }

    /// The answers that a host of this kind may give. A host may answer
    /// anything unless it says otherwise.
    open spec fn answers(request: Request<C>) -> bool {
        true
    }

    /// Creates the chunk of `cell`. `None` means that there is still no
    /// chunk.
    fn make(&mut self, cell: Cell) -> (made: Option<C>)
        ensures
            final(self).requests() == old(self).requests().push(Request::Make { cell, made }),
            Self::answers(Request::Make { cell, made }),
    ;

    /// Takes back a chunk that was made for `cell`.
    fn recycle(&mut self, chunk: C, cell: Cell)
        ensures
            final(self).requests() == old(self).requests().push(Request::Recycle { cell, chunk }),
    ;

    /// The heights of the terrain over `cell`.
    fn vertical_bounds(&mut self, cell: Cell) -> (answer: VerticalBounds)
        ensures
            final(self).requests() == old(self).requests().push(Request::Bounds { cell, answer }),
            Self::answers(Request::Bounds { cell, answer }),
    ;
}

/// What a request is answered with where there are no callbacks: no chunk
/// is made, and the terrain counts as flat. A chunk handed back is dropped.
pub open spec fn no_answer<C>(request: Request<C>) -> bool {
    match request {
        Request::Bounds { answer, .. } => answer == VerticalBounds::Flat,
        Request::Make { made, .. } => made is None,
        Request::Recycle { .. } => true,
    }
}

/// Each request of `s` from `from` on was answered as a host of kind `H`
/// may answer.
pub open spec fn answered<C, H: ChunkHost<C>>(s: History<C>, from: nat) -> bool {
    forall|j: int| from <= j < s.len() ==> #[trigger] s[j] is Recycle || H::answers(s[j])
}

/// Each request of `s` from `from` on was answered as where there are no
/// callbacks.
pub open spec fn unanswered<C>(s: History<C>, from: nat) -> bool {
    forall|j: int| from <= j < s.len() ==> no_answer(#[trigger] s[j])
}

/// The requests that `later` holds behind those of `earlier`.
pub open spec fn added<C>(later: History<C>, earlier: History<C>) -> History<C> {
    later.subrange(earlier.len() as int, later.len() as int)
}

/// One request behind a history is what was added to it.
pub proof fn lemma_added_one<C>(log: History<C>, request: Request<C>)
    ensures
        continues(log.push(request), log),
        added(log.push(request), log) == seq![request],
{
    assert(added(log.push(request), log) =~= seq![request]);
}

/// What is added in two steps is added in one: where `later` continues
/// `mid` and `mid` continues `log`, the requests added to `log` are those
/// added up to `mid` and then those added up to `later`, and they are
/// answered as a host of kind `H` may answer if those of each step are.
pub proof fn lemma_added_chain<C, H: ChunkHost<C>>(log: History<C>, mid: History<C>, later: History<C>)
    requires
        continues(mid, log),
        continues(later, mid),
    ensures
        continues(later, log),
        added(later, log) == added(mid, log) + added(later, mid),
        answered::<C, H>(mid, log.len()) && answered::<C, H>(later, mid.len()) ==> answered::<C, H>(
            later,
            log.len(),
        ),
{
    assert(added(later, log) =~= added(mid, log) + added(later, mid));
    if answered::<C, H>(mid, log.len()) && answered::<C, H>(later, mid.len()) {
        assert forall|j: int| log.len() <= j < later.len() implies #[trigger] later[j] is Recycle
            || H::answers(later[j]) by {
            if j < mid.len() {
                assert(later[j] == mid[j]);
            }
        }
    }
}

/// The host of an engine without callbacks: it makes no chunks, drops what
/// it is handed, and keeps no heights.
pub struct NoCallbacks<C> {
    requests: Ghost<History<C>>,
}

impl<C> NoCallbacks<C> {
    /// A host that has not been asked anything yet.
    pub fn new() -> (host: Self)
        ensures
            host.requests() == History::<C>::empty(),
    {
        NoCallbacks { requests: Ghost(Seq::empty()) }
    }
}

impl<C> ChunkHost<C> for NoCallbacks<C> {
    closed spec fn requests(&self) -> History<C> {
        self.requests@
    }

    open spec fn answers(request: Request<C>) -> bool {
        no_answer(request)
    }

    /// Makes nothing: there is still no chunk.
    fn make(&mut self, cell: Cell) -> (made: Option<C>)
        ensures
            made is None,
    {
        self.requests = Ghost(self.requests@.push(Request::Make { cell, made: None }));
        None
    }

    /// Drops the chunk.
    fn recycle(&mut self, chunk: C, cell: Cell) {
        self.requests = Ghost(self.requests@.push(Request::Recycle { cell, chunk }));
    }

    /// Keeps no heights: the terrain counts as flat.
    fn vertical_bounds(&mut self, cell: Cell) -> (bounds: VerticalBounds)
        ensures
            bounds == VerticalBounds::Flat,
    {
        self.requests = Ghost(
            self.requests@.push(Request::Bounds { cell, answer: VerticalBounds::Flat }),
        );
        VerticalBounds::Flat
    }
}

/// One request made of the host, with the answer where there is one.
pub enum Request<C> {
    /// The heights over `cell` were asked for, and `answer` came back.
    Bounds { cell: Cell, answer: VerticalBounds },
    /// A chunk was asked for `cell`, and `made` came back.
    Make { cell: Cell, made: Option<C> },
    /// `chunk`, held for `cell`, was handed back.
    Recycle { cell: Cell, chunk: C },
}

/// A history of requests.
pub type History<C> = Seq<Request<C>>;

/// `later` continues `earlier`: it begins with the same requests.
pub open spec fn continues<C>(later: History<C>, earlier: History<C>) -> bool {
    &&& earlier.len() <= later.len()
    &&& forall|j: int| 0 <= j < earlier.len() ==> later[j] == earlier[j]
}

/// `a` and `b` hold the same requests from `from` up to `to`.
pub open spec fn agree<C>(a: History<C>, b: History<C>, from: nat, to: nat) -> bool {
    &&& to <= a.len()
    &&& to <= b.len()
    &&& forall|j: int| from <= j < to ==> a[j] == b[j]
}

/// Request `i` of `s` asks for the heights over `cell`.
pub open spec fn is_bounds_at<C>(s: History<C>, i: nat, cell: Cell) -> bool {
    i < s.len() && match s[i as int] {
        Request::Bounds { cell: c, .. } => c == cell,
        _ => false,
    }
}

/// The heights that request `i` of `s` was answered with.
pub open spec fn answer_at<C>(s: History<C>, i: nat) -> VerticalBounds {
    match s[i as int] {
        Request::Bounds { answer, .. } => answer,
        _ => VerticalBounds::Invalid,
    }
}

/// Request `i` of `s` asks for the chunk of `cell`.
pub open spec fn is_make_at<C>(s: History<C>, i: nat, cell: Cell) -> bool {
    i < s.len() && match s[i as int] {
        Request::Make { cell: c, .. } => c == cell,
        _ => false,
    }
}

/// The chunk that request `i` of `s` was answered with.
pub open spec fn made_at<C>(s: History<C>, i: nat) -> Option<C> {
    match s[i as int] {
        Request::Make { made, .. } => made,
        _ => None,
    }
}

/// The requests that retire what a leaf of `cell` holds: one `Recycle` for
/// a chunk, none where the leaf is empty.
pub open spec fn retire<C>(chunk: Option<C>, cell: Cell) -> History<C> {
    match chunk {
        Some(c) => seq![Request::Recycle { cell, chunk: c }],
        None => Seq::empty(),
    }
}

/// The requests of `s` from `i` on begin with `expected`.
pub open spec fn holds_at<C>(s: History<C>, i: nat, expected: History<C>) -> bool {
    &&& i + expected.len() <= s.len()
    &&& forall|j: int| 0 <= j < expected.len() ==> s[i + j] == expected[j]
}

} // verus!

//! The engine: a tree with its configuration, and the operations a host
//! drives it with.

use vstd::prelude::*;
use vstd::multiset::Multiset;
use vstd::arithmetic::power2::pow2;
use crate::grid::{Cell, MAX_LEVEL, compute_lod_count, lod_count, lod_size, chunk_size, lemma_lod_count, lemma_root_in_grid};
use crate::proximity::{Sight, ViewPosition, MIN_SPLIT_SCALE, MAX_SPLIT_SCALE, MAX_CHUNK_SIZE};
use crate::host::{ChunkHost, NoCallbacks, History, continues, holds_at, added, answered, unanswered};
use crate::quad::Quad;
use crate::replay::{Outcome, teardown};
use crate::ledger::{holdings, balances, lemma_settle_chain, lemma_settle_reads, lemma_update_balanced, lemma_teardown_balanced};
use crate::pass::{update_tree, join_all_recursively};
use crate::debug::{DebugRect, outline, debug_draw_tree_recursive};

verus! {

broadcast use vstd::multiset::group_multiset_axioms;

/// What an operation of the engine can fail with.
#[derive(Clone, Copy, Debug, PartialEq, Eq, Structural)]
pub enum LodError {
    /// The tree is held by a pass that has not ended.
    ReentrancyViolation,
}

/// The split scale that `value` is taken for: `value` brought into the
/// range from `MIN_SPLIT_SCALE` to `MAX_SPLIT_SCALE`.
pub open spec fn clamped_split_scale(value: u32) -> u32 {
    if value < MIN_SPLIT_SCALE {
        MIN_SPLIT_SCALE
    } else if value > MAX_SPLIT_SCALE {
        MAX_SPLIT_SCALE
    } else {
        value
    }
}

/// A tree taken out of its engine for a pass, with the sizes it was made
/// for. While a pass holds the tree, the engine refuses every operation
/// that would touch it.
pub struct Pass<C> {
    tree: Quad<C>,
    max_depth: u32,
    base_size: u32,
    split_scale: u32,
    history: Ghost<History<C>>,
}

impl<C> Pass<C> {
    pub closed spec fn tree(&self) -> Quad<C> {
        self.tree
    }

    pub closed spec fn max_depth(&self) -> u32 {
        self.max_depth
    }

    pub closed spec fn base_size(&self) -> u32 {
        self.base_size
    }

    pub closed spec fn split_scale(&self) -> u32 {
        self.split_scale
    }

    /// Every request made of a host for this tree so far.
    pub closed spec fn history(&self) -> History<C> {
        self.history@
    }

    /// What the distance rule goes by in a pass for `view`.
    pub open spec fn sight(&self, view: ViewPosition) -> Sight {
        Sight { base_size: self.base_size(), split_scale: self.split_scale(), view }
    }

    /// The tree fits its depth, the sizes can be measured, and the history
    /// accounts for exactly the chunks that the leaves hold.
    pub closed spec fn inv(&self) -> bool {
        &&& self.max_depth <= MAX_LEVEL
        &&& chunk_size(self.base_size, self.max_depth) <= MAX_CHUNK_SIZE
        &&& MIN_SPLIT_SCALE <= self.split_scale <= MAX_SPLIT_SCALE
        &&& self.tree.fits(self.max_depth)
        &&& balances(self.history@, holdings(self.tree, Cell::root(self.max_depth)))
    }

    /// The history of a pass accounts for the chunks of its tree.
    pub proof fn lemma_balanced(&self)
        requires
            self.inv(),
        ensures
            self.max_depth() <= MAX_LEVEL,
            self.tree().fits(self.max_depth()),
            balances(self.history(), holdings(self.tree(), Cell::root(self.max_depth()))),
    {
    }

    /// Runs one update of the tree for a viewer at `view`.
    pub fn update<H: ChunkHost<C>>(&mut self, host: &mut H, view: ViewPosition)
        requires
            old(self).inv(),
        ensures
            final(self).inv(),
            final(self).max_depth() == old(self).max_depth(),
            final(self).base_size() == old(self).base_size(),
            final(self).split_scale() == old(self).split_scale(),
            continues(final(self).history(), old(self).history()),
            crate::replay::update(
                old(self).tree(),
                old(self).max_depth(),
                old(self).sight(view),
                final(self).history(),
                old(self).history().len(),
            ) == (Outcome { node: final(self).tree(), end: final(self).history().len(), ok: true }),
            final(host).requests() == old(host).requests() + added(
                final(self).history(),
                old(self).history(),
            ),
            answered::<C, H>(final(self).history(), old(self).history().len()),
    {
        let sight = Sight { base_size: self.base_size, split_scale: self.split_scale, view };
        let mut tree = Quad::new();
        core::mem::swap(&mut self.tree, &mut tree);
        let ghost before = self.history@;
        let ghost root = tree;
        let (node, Ghost(after)) = update_tree(tree, self.max_depth, &sight, host, Ghost(before));
        proof {
            let at = Cell::root(self.max_depth);
            lemma_settle_reads(Multiset::empty(), before, after, 0, before.len());
            lemma_update_balanced(root, self.max_depth, sight, after, before.len(), Multiset::empty());
            assert(holdings(root, at).add(Multiset::empty()) =~= holdings(root, at));
            assert(holdings(node, at).add(Multiset::empty()) =~= holdings(node, at));
            lemma_settle_chain(Multiset::empty(), after, 0, before.len(), after.len());
        }
        self.tree = node;
        self.history = Ghost(after);
    }

    /// Takes the tree down to a single empty leaf and sets the sizes to
    /// zero. Every chunk that a leaf holds goes back to the host.
    pub fn clear<H: ChunkHost<C>>(&mut self, host: &mut H)
        requires
            old(self).inv(),
        ensures
            final(self).inv(),
            final(self).tree() == Quad::<C>::Leaf(None),
            final(self).max_depth() == 0,
            final(self).base_size() == 0,
            final(self).split_scale() == old(self).split_scale(),
            final(self).history() == old(self).history() + teardown(
                old(self).tree(),
                Cell::root(old(self).max_depth()),
            ),
            final(host).requests() == old(host).requests() + teardown(
                old(self).tree(),
                Cell::root(old(self).max_depth()),
            ),
    {
        let at = Cell { level: self.max_depth, x: 0, y: 0 };
        let mut tree = Quad::new();
        core::mem::swap(&mut self.tree, &mut tree);
        let ghost before = self.history@;
        let ghost root = tree;
        proof {
            lemma_root_in_grid(self.max_depth);
        }
        let Ghost(after) = join_all_recursively(tree, at, host, Ghost(before));
        proof {
            lemma_settle_reads(Multiset::empty(), before, after, 0, before.len());
            assert(holds_at(after, before.len(), teardown(root, at)));
            lemma_teardown_balanced(root, at, after, before.len(), Multiset::empty());
            assert(holdings(root, at).add(Multiset::empty()) =~= holdings(root, at));
            lemma_settle_chain(Multiset::empty(), after, 0, before.len(), after.len());
            vstd::arithmetic::power2::lemma2_to64();
            assert(0 * pow2(0) == 0);
        }
        self.max_depth = 0;
        self.base_size = 0;
        self.history = Ghost(after);
    }
}

/// The level-of-detail engine. `C` is the host's handle for a chunk, `H`
/// the callbacks that the engine drives the chunks through.
pub struct QuadTreeLod<C, H> {
    /// `None` while a pass holds the tree.
    tree: Option<Quad<C>>,
    max_depth: u32,
    base_size: u32,
    split_scale: u32,
    callbacks: Option<H>,
    history: Ghost<History<C>>,
}

impl<C, H: ChunkHost<C>> QuadTreeLod<C, H> {
    /// The tree, or `None` while a pass holds it.
    pub closed spec fn tree(&self) -> Option<Quad<C>> {
        self.tree
    }

    pub closed spec fn max_depth(&self) -> u32 {
        self.max_depth
    }

    pub closed spec fn base_size(&self) -> u32 {
        self.base_size
    }

    pub closed spec fn split_scale(&self) -> u32 {
        self.split_scale
    }

    /// The callbacks installed.
    pub closed spec fn callbacks(&self) -> Option<H> {
        self.callbacks
    }

    /// Callbacks are installed.
    pub open spec fn has_callbacks(&self) -> bool {
        self.callbacks() is Some
    }

    /// Every request made for the tree, of the callbacks installed or of
    /// the host a pass was given, up to the last time the engine had the
    /// tree.
    pub closed spec fn history(&self) -> History<C> {
        self.history@
    }

    /// A pass holds the tree.
    pub open spec fn is_held(&self) -> bool {
        self.tree() is None
    }

    /// What the distance rule goes by in an update for `view`.
    pub open spec fn sight(&self, view: ViewPosition) -> Sight {
        Sight { base_size: self.base_size(), split_scale: self.split_scale(), view }
    }

    /// The sizes can be measured and, where the engine has its tree, the
    /// tree fits its depth and the history accounts for exactly the chunks
    /// that the leaves hold.
    pub closed spec fn inv(&self) -> bool {
        &&& self.max_depth <= MAX_LEVEL
        &&& chunk_size(self.base_size, self.max_depth) <= MAX_CHUNK_SIZE
        &&& MIN_SPLIT_SCALE <= self.split_scale <= MAX_SPLIT_SCALE
        &&& match self.tree {
            Some(tree) => {
                &&& tree.fits(self.max_depth)
                &&& balances(self.history@, holdings(tree, Cell::root(self.max_depth)))
            },
            None => true,
        }
    }

    /// The history of an engine accounts for the chunks of its tree.
    pub proof fn lemma_balanced(&self)
        requires
            self.inv(),
            !self.is_held(),
        ensures
            self.max_depth() <= MAX_LEVEL,
            self.tree()->0.fits(self.max_depth()),
            balances(self.history(), holdings(self.tree()->0, Cell::root(self.max_depth()))),
            MIN_SPLIT_SCALE <= self.split_scale() <= MAX_SPLIT_SCALE,
    {
    }

    /// An engine with a single empty leaf, finest chunks 16 wide, no level
    /// above level 0, the smallest split scale, and no callbacks.
    pub fn new() -> (engine: Self)
        ensures
            engine.inv(),
            engine.tree() == Some(Quad::<C>::Leaf(None)),
            engine.max_depth() == 0,
            engine.base_size() == 16,
            engine.split_scale() == MIN_SPLIT_SCALE,
            !engine.has_callbacks(),
            engine.history() == History::<C>::empty(),
    {
        proof {
            vstd::arithmetic::power2::lemma2_to64();
            assert(16 * pow2(0) == 16);
        }
        QuadTreeLod {
            tree: Some(Quad::new()),
            max_depth: 0,
            base_size: 16,
            split_scale: MIN_SPLIT_SCALE,
            callbacks: None,
            history: Ghost(Seq::empty()),
        }
    }

    /// Installs the callbacks in place of those installed before. The tree
    /// is not touched: the chunks it holds stay live and go to the new
    /// callbacks when they are retired.
    pub fn set_callbacks(&mut self, callbacks: H)
        ensures
            final(self).callbacks() == Some(callbacks),
            final(self).tree() == old(self).tree(),
            final(self).max_depth() == old(self).max_depth(),
            final(self).base_size() == old(self).base_size(),
            final(self).split_scale() == old(self).split_scale(),
            final(self).history() == old(self).history(),
            final(self).inv() == old(self).inv(),
    {
        self.callbacks = Some(callbacks);
    }

    /// Takes the tree out for a pass, unless a pass holds it already.
    pub fn begin_pass(&mut self) -> (result: Result<Pass<C>, LodError>)
        requires
            old(self).inv(),
        ensures
            final(self).inv(),
            final(self).is_held(),
            final(self).max_depth() == old(self).max_depth(),
            final(self).base_size() == old(self).base_size(),
            final(self).split_scale() == old(self).split_scale(),
            final(self).callbacks() == old(self).callbacks(),
            final(self).history() == old(self).history(),
            match result {
                Ok(pass) => {
                    &&& old(self).tree() == Some(pass.tree())
                    &&& pass.inv()
                    &&& pass.max_depth() == old(self).max_depth()
                    &&& pass.base_size() == old(self).base_size()
                    &&& pass.split_scale() == old(self).split_scale()
                    &&& pass.history() == old(self).history()
                },
                Err(error) => old(self).is_held() && error == LodError::ReentrancyViolation,
            },
    {
        match self.tree.take() {
            Some(tree) => Ok(
                Pass {
                    tree,
                    max_depth: self.max_depth,
                    base_size: self.base_size,
                    split_scale: self.split_scale,
                    history: self.history,
                },
            ),
            None => Err(LodError::ReentrancyViolation),
        }
    }

    /// Puts the tree of a pass back, with its sizes and its history. An
    /// engine that has its tree takes no other: it hands the pass back.
    pub fn end_pass(&mut self, pass: Pass<C>) -> (result: Result<(), Pass<C>>)
        requires
            old(self).inv(),
            pass.inv(),
        ensures
            final(self).inv(),
            final(self).split_scale() == old(self).split_scale(),
            final(self).callbacks() == old(self).callbacks(),
            match result {
                Ok(_) => {
                    &&& old(self).is_held()
                    &&& final(self).tree() == Some(pass.tree())
                    &&& final(self).max_depth() == pass.max_depth()
                    &&& final(self).base_size() == pass.base_size()
                    &&& final(self).history() == pass.history()
                },
                Err(back) => {
                    &&& !old(self).is_held()
                    &&& back == pass
                    &&& final(self).tree() == old(self).tree()
                    &&& final(self).max_depth() == old(self).max_depth()
                    &&& final(self).base_size() == old(self).base_size()
                    &&& final(self).history() == old(self).history()
                },
            },
    {
        if self.tree.is_some() {
            Err(pass)
        } else {
            self.max_depth = pass.max_depth;
            self.base_size = pass.base_size;
            self.history = pass.history;
            self.tree = Some(pass.tree);
            Ok(())
        }
    }

    /// Runs one update of the tree for a viewer at `view`, through the
    /// callbacks installed. Refused while a pass holds the tree.
    pub fn update(&mut self, view: ViewPosition) -> (result: Result<(), LodError>)
        requires
            old(self).inv(),
        ensures
            final(self).inv(),
            final(self).max_depth() == old(self).max_depth(),
            final(self).base_size() == old(self).base_size(),
            final(self).split_scale() == old(self).split_scale(),
            final(self).has_callbacks() == old(self).has_callbacks(),
            match result {
                Ok(_) => {
                    &&& old(self).tree() is Some
                    &&& final(self).tree() is Some
                    &&& continues(final(self).history(), old(self).history())
                    &&& crate::replay::update(
                        old(self).tree()->0,
                        old(self).max_depth(),
                        old(self).sight(view),
                        final(self).history(),
                        old(self).history().len(),
                    ) == (Outcome {
                        node: final(self).tree()->0,
                        end: final(self).history().len(),
                        ok: true,
                    })
                    &&& match old(self).callbacks() {
                        Some(callbacks) => {
                            &&& final(self).callbacks() is Some
                            &&& final(self).callbacks()->0.requests() == callbacks.requests() + added(
                                final(self).history(),
                                old(self).history(),
                            )
                            &&& answered::<C, H>(final(self).history(), old(self).history().len())
                        },
                        None => unanswered(final(self).history(), old(self).history().len()),
                    }
                },
                Err(error) => {
                    &&& old(self).is_held()
                    &&& error == LodError::ReentrancyViolation
                    &&& final(self).is_held()
                    &&& final(self).history() == old(self).history()
                    &&& final(self).callbacks() == old(self).callbacks()
                },
            },
    {
        match self.tree.take() {
            None => Err(LodError::ReentrancyViolation),
            Some(tree) => {
                let mut pass = Pass {
                    tree,
                    max_depth: self.max_depth,
                    base_size: self.base_size,
                    split_scale: self.split_scale,
                    history: self.history,
                };
                match &mut self.callbacks {
                    Some(callbacks) => pass.update(callbacks, view),
                    None => {
                        let mut absent = NoCallbacks::new();
                        pass.update(&mut absent, view)
                    },
                }
                self.history = pass.history;
                self.tree = Some(pass.tree);
                Ok(())
            },
        }
    }

    /// Takes the tree down to a single empty leaf and sets the sizes to
    /// zero; every chunk that a leaf holds goes back through the callbacks
    /// installed. Refused while a pass holds the tree.
    pub fn clear(&mut self) -> (result: Result<(), LodError>)
        requires
            old(self).inv(),
        ensures
            final(self).inv(),
            final(self).split_scale() == old(self).split_scale(),
            final(self).has_callbacks() == old(self).has_callbacks(),
            match result {
                Ok(_) => {
                    &&& old(self).tree() is Some
                    &&& final(self).tree() == Some(Quad::<C>::Leaf(None))
                    &&& final(self).max_depth() == 0
                    &&& final(self).base_size() == 0
                    &&& final(self).history() == old(self).history() + teardown(
                        old(self).tree()->0,
                        Cell::root(old(self).max_depth()),
                    )
                    &&& match old(self).callbacks() {
                        Some(callbacks) => {
                            &&& final(self).callbacks() is Some
                            &&& final(self).callbacks()->0.requests() == callbacks.requests()
                                + teardown(old(self).tree()->0, Cell::root(old(self).max_depth()))
                        },
                        None => final(self).callbacks() is None,
                    }
                },
                Err(error) => {
                    &&& old(self).is_held()
                    &&& error == LodError::ReentrancyViolation
                    &&& final(self).is_held()
                    &&& final(self).max_depth() == old(self).max_depth()
                    &&& final(self).base_size() == old(self).base_size()
                    &&& final(self).history() == old(self).history()
                    &&& final(self).callbacks() == old(self).callbacks()
                },
            },
    {
        match self.tree.take() {
            None => Err(LodError::ReentrancyViolation),
            Some(tree) => {
                let mut pass = Pass {
                    tree,
                    max_depth: self.max_depth,
                    base_size: self.base_size,
                    split_scale: self.split_scale,
                    history: self.history,
                };
                match &mut self.callbacks {
                    Some(callbacks) => pass.clear(callbacks),
                    None => {
                        let mut absent = NoCallbacks::new();
                        pass.clear(&mut absent)
                    },
                }
                self.max_depth = pass.max_depth;
                self.base_size = pass.base_size;
                self.history = pass.history;
                self.tree = Some(pass.tree);
                Ok(())
            },
        }
    }

    /// Clears the tree and configures it for finest chunks `base_size`
    /// wide on a terrain `full_size` wide. Refused, with nothing changed,
    /// while a pass holds the tree.
    pub fn create_from_sizes(&mut self, base_size: u32, full_size: u32) -> (result: Result<(), LodError>)
        requires
            old(self).inv(),
        ensures
            final(self).inv(),
            final(self).split_scale() == old(self).split_scale(),
            final(self).has_callbacks() == old(self).has_callbacks(),
            match result {
                Ok(_) => {
                    &&& old(self).tree() is Some
                    &&& final(self).tree() == Some(Quad::<C>::Leaf(None))
                    &&& final(self).base_size() == base_size
                    &&& final(self).max_depth() == lod_count(base_size as nat, full_size as nat)
                    &&& final(self).history() == old(self).history() + teardown(
                        old(self).tree()->0,
                        Cell::root(old(self).max_depth()),
                    )
                    &&& match old(self).callbacks() {
                        Some(callbacks) => {
                            &&& final(self).callbacks() is Some
                            &&& final(self).callbacks()->0.requests() == callbacks.requests()
                                + teardown(old(self).tree()->0, Cell::root(old(self).max_depth()))
                        },
                        None => final(self).callbacks() is None,
                    }
                },
                Err(error) => {
                    &&& old(self).is_held()
                    &&& error == LodError::ReentrancyViolation
                    &&& final(self).is_held()
                    &&& final(self).max_depth() == old(self).max_depth()
                    &&& final(self).base_size() == old(self).base_size()
                    &&& final(self).history() == old(self).history()
                    &&& final(self).callbacks() == old(self).callbacks()
                },
            },
    {
        match self.clear() {
            Err(error) => Err(error),
            Ok(_) => {
                let depth: u32 = compute_lod_count(base_size, full_size);
                proof {
                    lemma_lod_count(base_size as nat, full_size as nat);
                    vstd::arithmetic::power2::lemma2_to64();
                    if depth == 0 {
                        assert(base_size * pow2(0) == base_size);
                    }
                }
                self.base_size = base_size;
                self.max_depth = depth;
                Ok(())
            },
        }
    }

    /// The number of levels of detail: the levels above level 0, and
    /// level 0.
    pub fn get_lod_count(&self) -> (count: u32)
        requires
            self.inv(),
        ensures
            count == self.max_depth() + 1,
    {
        self.max_depth + 1
    }

    /// Sets the split scale to `split_scale`, in parts of `SCALE_UNIT`,
    /// brought into the range from 2 to 5.
    pub fn set_split_scale(&mut self, split_scale: u32)
        ensures
            final(self).split_scale() == clamped_split_scale(split_scale),
            final(self).tree() == old(self).tree(),
            final(self).max_depth() == old(self).max_depth(),
            final(self).base_size() == old(self).base_size(),
            final(self).callbacks() == old(self).callbacks(),
            final(self).history() == old(self).history(),
            old(self).inv() ==> final(self).inv(),
    {
        self.split_scale = if split_scale < MIN_SPLIT_SCALE {
            MIN_SPLIT_SCALE
        } else if split_scale > MAX_SPLIT_SCALE {
            MAX_SPLIT_SCALE
        } else {
            split_scale
        };
    }

    /// The split scale, in parts of `SCALE_UNIT`.
    pub fn get_split_scale(&self) -> (split_scale: u32)
        ensures
            split_scale == self.split_scale(),
    {
        self.split_scale
    }

    /// Edge of a cell of level `lod`, in finest cells: `2^lod`.
    pub fn get_lod_size(&self, lod: u32) -> (size: u32)
        requires
            lod < 32,
        ensures
            size == pow2(lod as nat),
    {
        proof {
            vstd::arithmetic::power2::lemma2_to64();
            crate::grid::lemma_pow2_at_most(lod as nat, 31);
        }
        let size: u64 = lod_size(lod);
        size as u32
    }

    /// The rectangles that picture the tree: one for each leaf, quadrant
    /// by quadrant. Refused while a pass holds the tree.
    pub fn debug_draw_tree(&self) -> (result: Result<Vec<DebugRect>, LodError>)
        requires
            self.inv(),
        ensures
            match result {
                Ok(rects) => self.tree() is Some && rects@ == outline(
                    self.tree()->0,
                    Cell::root(self.max_depth()),
                    0,
                ),
                Err(error) => self.is_held() && error == LodError::ReentrancyViolation,
            },
    {
        match &self.tree {
            None => Err(LodError::ReentrancyViolation),
            Some(tree) => {
                let at = Cell { level: self.max_depth, x: 0, y: 0 };
                proof {
                    lemma_root_in_grid(self.max_depth);
                }
                let mut rects: Vec<DebugRect> = Vec::new();
                debug_draw_tree_recursive(tree, at, 0, &mut rects);
                assert(rects@ =~= outline(*tree, at, 0));
                Ok(rects)
            },
        }
    }
}

} // verus!

//! Adaptive quad-tree level-of-detail manager for tiled terrain.
//!
//! The tree refines itself around a view position and coarsens away from it.
//! Chunks of terrain are created and retired through a [`host::ChunkHost`].
//! A host keeps account of the requests made of it, and the engine keeps a
//! ghost history of the requests it has made; each operation adds the same
//! requests to both, and says over the history what the tree becomes.

pub mod grid;
pub mod proximity;
pub mod host;
pub mod quad;
pub mod replay;
pub mod pass;
pub mod ledger;
pub mod debug;
pub mod engine;
pub mod laws;

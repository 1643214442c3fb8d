//! State database maintenance: canonicalization and pruning of block state.
//!
//! The input is a [`ChangeSet`] per block: the key-value pairs (state nodes)
//! that the block added or deleted.
//!
//! # Canonicalization
//! The canonicalization window tracks a tree of blocks identified by hash.
//! The in-memory overlay answers lookups for any node inserted by any block
//! in the window. The tree is journaled through the commit sets handed back
//! to the caller and can be rebuilt from the journal. Canonicalizing selects
//! one root at the front of the tree and discards all other roots with their
//! subtrees.
//!
//! # Pruning
//! The pruning window keeps, per canonical block, the keys whose deletion is
//! deferred. The coordinator prunes on each canonicalization until the
//! constraints are met.

pub mod branch;
pub mod codec;
pub mod discard_lemmas;
pub mod laws;
pub mod noncanonical;
pub mod overlay;
pub mod overlay_lemmas;
pub mod pruning;
pub mod sync;
pub mod types;
pub mod window;

pub use noncanonical::NonCanonicalOverlay;
pub use pruning::RefWindow;
pub use sync::StateDbSync;
pub use types::{
    BlockHash, BranchRanges, ChangeSet, CommitSet, Constraints, DBValue, Error, Key, KvDb, KvKey,
    MetaDb, NodeDb, PinError, PruningMode,
};

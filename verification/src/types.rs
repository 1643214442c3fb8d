//! Plain data shared by the overlay, the pruning window and the coordinator.

use vstd::prelude::*;

verus! {

/// Database value type.
pub type DBValue = Vec<u8>;

/// Key of the key-value column.
pub type KvKey = Vec<u8>;

/// Identifier of a block.
pub type BlockHash = u64;

/// Content address of a state node.
pub type Key = u64;

/// The query state among multiple branches. The overlay keeps no branch
/// ranges of its own, so there is nothing to carry.
pub type BranchRanges = ();

/// Backend database: the metadata column. Read-only.
pub trait MetaDb {
    type Error;

    /// Get a meta value, such as a journal record.
    fn get_meta(&self, key: &[u8]) -> Result<Option<DBValue>, Self::Error>;
}

/// Backend database: the state node column. Read-only.
pub trait NodeDb {
    type Error;

    /// Get a state node.
    fn get(&self, key: &Key) -> Result<Option<DBValue>, Self::Error>;
}

/// Backend database: the key-value column. Read-only.
///
/// Every query names the state at which it reads.
pub trait KvDb<State> {
    type Error;

    /// Get the value of a key at the given state.
    fn get_kv(&self, key: &[u8], state: &State) -> Result<Option<DBValue>, Self::Error>;

    /// Get all pairs of keys and values at the given state.
    fn get_kv_pairs(&self, state: &State) -> Vec<(KvKey, DBValue)>;
}

/// Error type.
#[derive(Debug)]
pub enum Error<E> {
    /// Database backend error.
    Db(E),
    /// A journal record could not be decoded.
    Decoding,
    /// Trying to canonicalize an invalid block.
    InvalidBlock,
    /// Trying to insert a block with an invalid number.
    InvalidBlockNumber,
    /// Trying to insert a block with an unknown parent.
    InvalidParent,
    /// Invalid pruning mode specified. Contains the expected mode.
    InvalidPruningMode(String),
}

/// Pinning error type.
#[derive(Debug, PartialEq, Eq, Structural)]
pub enum PinError {
    /// Trying to pin an invalid block.
    InvalidBlock,
}

/// A set of state node changes.
#[derive(Debug, Clone)]
pub struct ChangeSet<H> {
    /// Inserted nodes.
    pub inserted: Vec<(H, DBValue)>,
    /// Deleted nodes.
    pub deleted: Vec<H>,
}

/// What a [`ChangeSet`] holds.
pub struct ChangeSetView<K> {
    pub inserted: Seq<(K, Seq<u8>)>,
    pub deleted: Seq<K>,
}

impl<K> ChangeSetView<K> {
    /// The change set without any change.
    pub open spec fn empty() -> Self {
        ChangeSetView { inserted: Seq::empty(), deleted: Seq::empty() }
    }
}

/// What a list of nodes holds: each key with the bytes of its value.
pub open spec fn nodes_view(nodes: Seq<(Key, DBValue)>) -> Seq<(u64, Seq<u8>)> {
    Seq::new(nodes.len(), |i: int| (nodes[i].0, nodes[i].1@))
}

/// What a list of meta entries holds: the bytes of each key with the bytes
/// of its value.
pub open spec fn entries_view(entries: Seq<(Vec<u8>, DBValue)>) -> Seq<(Seq<u8>, Seq<u8>)> {
    Seq::new(entries.len(), |i: int| (entries[i].0@, entries[i].1@))
}

/// What a list of meta keys holds: the bytes of each key.
pub open spec fn names_view(names: Seq<Vec<u8>>) -> Seq<Seq<u8>> {
    Seq::new(names.len(), |i: int| names[i]@)
}

impl View for ChangeSet<Key> {
    type V = ChangeSetView<u64>;

    open spec fn view(&self) -> ChangeSetView<u64> {
        ChangeSetView { inserted: nodes_view(self.inserted@), deleted: self.deleted@ }
    }
}

impl View for ChangeSet<Vec<u8>> {
    type V = ChangeSetView<Seq<u8>>;

    open spec fn view(&self) -> ChangeSetView<Seq<u8>> {
        ChangeSetView { inserted: entries_view(self.inserted@), deleted: names_view(self.deleted@) }
    }
}

impl<H> Default for ChangeSet<H> {
    fn default() -> (r: Self)
        ensures
            r.inserted@ == Seq::<(H, DBValue)>::empty(),
            r.deleted@ == Seq::<H>::empty(),
    {
        ChangeSet { inserted: Vec::new(), deleted: Vec::new() }
    }
}

/// A set of changes to the backing database.
#[derive(Debug, Clone)]
pub struct CommitSet<H> {
    /// State node changes.
    pub data: ChangeSet<H>,
    /// Metadata changes.
    pub meta: ChangeSet<Vec<u8>>,
}

/// What a [`CommitSet`] holds.
pub struct CommitSetView {
    pub data: ChangeSetView<u64>,
    pub meta: ChangeSetView<Seq<u8>>,
}

impl CommitSetView {
    /// The commit set that writes nothing.
    pub open spec fn empty() -> Self {
        CommitSetView { data: ChangeSetView::empty(), meta: ChangeSetView::empty() }
    }
}

impl View for CommitSet<Key> {
    type V = CommitSetView;

    open spec fn view(&self) -> CommitSetView {
        CommitSetView { data: self.data@, meta: self.meta@ }
    }
}

impl<H> Default for CommitSet<H> {
    fn default() -> (r: Self)
        ensures
            r.data.inserted@ == Seq::<(H, DBValue)>::empty(),
            r.data.deleted@ == Seq::<H>::empty(),
            r.meta.inserted@ == Seq::<(Vec<u8>, DBValue)>::empty(),
            r.meta.deleted@ == Seq::<Vec<u8>>::empty(),
    {
        CommitSet { data: ChangeSet::default(), meta: ChangeSet::default() }
    }
}

/// A commit set that writes nothing.
pub fn empty_commit() -> (r: CommitSet<Key>)
    ensures
        r@ == CommitSetView::empty(),
{
    let r = CommitSet { data: ChangeSet::default(), meta: ChangeSet::default() };
    assert(nodes_view(r.data.inserted@) =~= Seq::empty());
    assert(entries_view(r.meta.inserted@) =~= Seq::empty());
    assert(names_view(r.meta.deleted@) =~= Seq::empty());
    r
}

/// Pruning constraints. With none given, only non-canonical states are kept.
#[derive(Debug, Clone, Copy, PartialEq, Eq, Structural)]
pub struct Constraints {
    /// Maximum blocks. Counts as 0 when unspecified.
    pub max_blocks: Option<u32>,
    /// Maximum memory in the pruning overlay.
    pub max_mem: Option<usize>,
}

impl Default for Constraints {
    fn default() -> (r: Self)
        ensures
            r == (Constraints { max_blocks: None, max_mem: None }),
    {
        Constraints { max_blocks: None, max_mem: None }
    }
}

/// Pruning mode.
#[derive(Debug, Clone, Copy, PartialEq, Eq, Structural)]
pub enum PruningMode {
    /// Maintain a pruning window.
    Constrained(Constraints),
    /// No pruning. Canonicalization is a no-op.
    ArchiveAll,
    /// Canonicalization discards non-canonical nodes. All the canonical nodes
    /// are kept in the database.
    ArchiveCanonical,
}

/// The meta key under which the pruning mode is stored: `mode`.
pub const PRUNING_MODE: [u8; 4] = [109, 111, 100, 101];

/// Stored mode of [`PruningMode::ArchiveAll`]: `archive`.
pub const PRUNING_MODE_ARCHIVE: [u8; 7] = [97, 114, 99, 104, 105, 118, 101];

/// Stored mode of [`PruningMode::ArchiveCanonical`]: `archive_canonical`.
pub const PRUNING_MODE_ARCHIVE_CANON: [u8; 17] = [
    97, 114, 99, 104, 105, 118, 101, 95, 99, 97, 110, 111, 110, 105, 99, 97, 108,
];

/// Stored mode of [`PruningMode::Constrained`]: `constrained`.
pub const PRUNING_MODE_CONSTRAINED: [u8; 11] = [
    99, 111, 110, 115, 116, 114, 97, 105, 110, 101, 100,
];

impl PruningMode {
    /// The bytes that identify this mode in the database.
    pub open spec fn spec_id(self) -> Seq<u8> {
        match self {
            PruningMode::ArchiveAll => PRUNING_MODE_ARCHIVE@,
            PruningMode::ArchiveCanonical => PRUNING_MODE_ARCHIVE_CANON@,
            PruningMode::Constrained(_) => PRUNING_MODE_CONSTRAINED@,
        }
    }

    /// Create a mode that keeps the given number of blocks.
    pub fn keep_blocks(n: u32) -> (r: PruningMode)
        ensures
            r == PruningMode::Constrained(Constraints { max_blocks: Some(n), max_mem: None }),
    {
        PruningMode::Constrained(Constraints { max_blocks: Some(n), max_mem: None })
    }

    /// Is this an archive (either `ArchiveAll` or `ArchiveCanonical`) pruning mode?
    pub fn is_archive(&self) -> (r: bool)
        ensures
            r == (*self == PruningMode::ArchiveAll || *self == PruningMode::ArchiveCanonical),
    {
        match *self {
            PruningMode::ArchiveAll | PruningMode::ArchiveCanonical => true,
            PruningMode::Constrained(_) => false,
        }
    }

    /// The identifier of this mode as it is stored in the database.
    pub fn id(&self) -> (r: &'static [u8])
        ensures
            r@ == self.spec_id(),
    {
        match self {
            PruningMode::ArchiveAll => PRUNING_MODE_ARCHIVE.as_slice(),
            PruningMode::ArchiveCanonical => PRUNING_MODE_ARCHIVE_CANON.as_slice(),
            PruningMode::Constrained(_) => PRUNING_MODE_CONSTRAINED.as_slice(),
        }
    }
}

impl Default for PruningMode {
    fn default() -> (r: Self)
        ensures
            r == PruningMode::Constrained(Constraints { max_blocks: Some(256), max_mem: None }),
    {
        PruningMode::keep_blocks(256)
    }
}

/// Whether two byte strings hold the same bytes.
pub fn bytes_eq(a: &[u8], b: &[u8]) -> (r: bool)
    ensures
        r == (a@ == b@),
{
    if a.len() != b.len() {
        return false;
    }
    let mut i: usize = 0;
    while i < a.len()
        invariant
            a@.len() == b@.len(),
            i <= a@.len(),
            forall|j: int| 0 <= j < i ==> a@[j] == b@[j],
        decreases a@.len() - i,
    {
        if a[i] != b[i] {
            return false;
        }
        i += 1;
    }
    assert(a@ =~= b@);
    true
}

} // verus!

//! The coordinator: it owns the canonicalization window and, where the
//! mode asks for pruning, the pruning window, and sequences them.

use vstd::prelude::*;
use std::collections::HashMap;
use crate::codec::{encodable_len, encodable_nodes, meta_key, to_meta_key};
use crate::noncanonical::NonCanonicalOverlay;
use crate::overlay::{node_keys, OverlayView, Snapshot};
use crate::overlay_lemmas::has_room;
use crate::pruning::RefWindow;
use crate::types::{
    bytes_eq, empty_commit, entries_view, names_view, BlockHash, BranchRanges,
    ChangeSet, ChangeSetView, CommitSet, CommitSetView, Constraints, DBValue, Error, Key, KvDb,
    KvKey, MetaDb, NodeDb, PinError, PruningMode, PRUNING_MODE,
};
use crate::window::{
    lemma_pruned_commit_more, lemma_pruned_commit_none, note_commit, prune_count, pruned_commit,
    WindowView,
};

verus! {

broadcast use vstd::std_specs::hash::group_hash_axioms;

/// The meta key under which the pruning mode is stored.
pub open spec fn mode_key() -> Seq<u8> {
    meta_key(PRUNING_MODE@, Seq::empty())
}

/// What the coordinator holds.
pub struct SyncView {
    /// The pruning mode.
    pub mode: PruningMode,
    /// The canonicalization window.
    pub non_canonical: OverlayView,
    /// The pruning window, where the mode asks for one.
    pub pruning: Option<WindowView>,
    /// The number of holds on each pinned block.
    pub pinned: Map<u64, u32>,
}

impl SyncView {
    /// The invariant of the coordinator.
    pub open spec fn wf(self) -> bool {
        &&& self.non_canonical.wf()
        &&& (self.mode is Constrained <==> self.pruning is Some)
        &&& match self.pruning {
            Some(window) => window.wf(),
            None => true,
        }
        &&& forall|h: u64| self.pinned.contains_key(h) ==> #[trigger] self.pinned[h] > 0
    }

    /// The most blocks that the pruning window keeps.
    pub open spec fn max_blocks(self) -> u64 {
        match self.mode {
            PruningMode::Constrained(constraints) => match constraints.max_blocks {
                Some(n) => n as u64,
                None => 0,
            },
            _ => 0,
        }
    }

    /// The meta entries that an insertion of block `number` adds for the
    /// mode: the first block stores the mode.
    pub open spec fn mode_entries(self, number: u64) -> Seq<(Seq<u8>, Seq<u8>)> {
        if number == 0 {
            seq![(mode_key(), self.mode.spec_id())]
        } else {
            Seq::empty()
        }
    }

    /// Whether the block counts as pruned away.
    pub open spec fn is_pruned(self, hash: u64, number: u64) -> bool {
        if self.mode is ArchiveAll {
            false
        } else {
            let above = match self.non_canonical.last_canonicalized_block_number() {
                Some(c) => number > c,
                None => true,
            };
            if above {
                !self.non_canonical.have_block(hash)
            } else {
                match self.pruning {
                    Some(window) => number < window.pending() || !window.have_block(hash),
                    None => false,
                }
            }
        }
    }

    /// Whether the block can be pinned: it is in one of the windows.
    pub open spec fn pinnable(self, hash: u64) -> bool {
        self.non_canonical.have_block(hash) || match self.pruning {
            Some(window) => window.have_block(hash),
            None => false,
        }
    }

    /// The number of holds on a block.
    pub open spec fn holds(self, hash: u64) -> nat {
        if self.pinned.contains_key(hash) {
            self.pinned[hash] as nat
        } else {
            0
        }
    }

    /// The coordinator after one more hold on a block that can be pinned.
    /// The first hold pins the block in the canonicalization window.
    pub open spec fn pinned_one(self, hash: u64) -> SyncView {
        SyncView {
            non_canonical: if self.holds(hash) == 0 {
                self.non_canonical.pin(hash)
            } else {
                self.non_canonical
            },
            pinned: self.pinned.insert(hash, (self.holds(hash) + 1) as u32),
            ..self
        }
    }

    /// The coordinator after one hold on a block is given up. The last
    /// hold unpins the block in the canonicalization window.
    pub open spec fn unpinned_one(self, hash: u64) -> SyncView {
        if !self.pinned.contains_key(hash) {
            self
        } else if self.pinned[hash] <= 1 {
            SyncView {
                non_canonical: self.non_canonical.unpin(hash),
                pinned: self.pinned.remove(hash),
                ..self
            }
        } else {
            SyncView { pinned: self.pinned.insert(hash, (self.pinned[hash] - 1) as u32), ..self }
        }
    }

    /// The coordinator as it is opened: in the given mode, with the two
    /// windows as they were read, and nothing pinned.
    pub open spec fn opened(
        mode: PruningMode,
        non_canonical: OverlayView,
        pruning: Option<WindowView>,
    ) -> SyncView {
        SyncView { mode, non_canonical, pruning, pinned: Map::empty() }
    }

    /// The coordinator after all pending changes are applied.
    pub open spec fn pending_applied(self) -> SyncView {
        SyncView {
            non_canonical: self.non_canonical.pending_applied(),
            pruning: match self.pruning {
                Some(window) => Some(window.applied()),
                None => None,
            },
            ..self
        }
    }

    /// The coordinator after all pending changes are reverted.
    pub open spec fn pending_reverted(self) -> SyncView {
        SyncView {
            non_canonical: self.non_canonical.pending_reverted(),
            pruning: match self.pruning {
                Some(window) => Some(window.reverted()),
                None => None,
            },
            ..self
        }
    }

    /// The keys that a commit set inserts.
    pub open spec fn commit_keys(commit: CommitSetView) -> Seq<u64> {
        Seq::new(commit.data.inserted.len(), |i: int| commit.data.inserted[i].0)
    }

    /// What canonicalizing `hash` hands to the pruning window: the changes
    /// of the block as the canonicalization window gives them.
    pub open spec fn canonical_commit(self, hash: u64) -> CommitSetView {
        self.non_canonical.canonicalize_commit(CommitSetView::empty(), hash)
    }

    /// The pruning window after `hash` is canonicalized and noted, before
    /// the prune loop runs.
    pub open spec fn noted_window(self, hash: u64) -> WindowView {
        let commit = self.canonical_commit(hash);
        self.pruning->Some_0.noted(hash, Self::commit_keys(commit), commit.data.deleted)
    }

    /// The number of rows that the prune loop prunes once `hash` is
    /// canonicalized.
    pub open spec fn pruned_rows(self, hash: u64) -> nat {
        prune_count(self.noted_window(hash), self.max_blocks(), self.pinned)
    }
}

/// The invariant of the coordinator is kept where only the
/// canonicalization window changes and keeps its own invariant.
pub proof fn lemma_wf_kept(before: SyncView, after: SyncView)
    requires
        before.wf(),
        after.non_canonical.wf(),
        after.mode == before.mode,
        after.pruning == before.pruning,
        after.pinned == before.pinned,
    ensures
        after.wf(),
{
}

/// Calls `String::from_utf8_lossy` and turns what it returns into a
/// `String`. Nothing is claimed of the text.
#[verifier::external_body]
fn lossy_text(bytes: &[u8]) -> String {
    String::from_utf8_lossy(bytes).into()
}

/// Checks a stored pruning mode against the mode asked for: a database
/// that has no mode stored takes any mode, one that has a mode stored takes
/// only that mode.
pub fn check_mode<E>(mode: &PruningMode, stored: &Option<DBValue>) -> (r: Result<(), Error<E>>)
    ensures
        r is Ok <==> (stored matches Some(v) ==> v@ == mode.spec_id()),
        r matches Err(e) ==> e is InvalidPruningMode,
{
    match stored {
        Some(v) => {
            if bytes_eq(v.as_slice(), mode.id()) {
                Ok(())
            } else {
                Err(Error::InvalidPruningMode(lossy_text(v.as_slice())))
            }
        },
        None => Ok(()),
    }
}

/// The coordinator of the two windows under one pruning mode.
pub struct StateDbSync {
    mode: PruningMode,
    non_canonical: NonCanonicalOverlay,
    pruning: Option<RefWindow>,
    pinned: HashMap<BlockHash, u32>,
}

/// What an optional pruning window holds.
pub open spec fn window_view(window: Option<RefWindow>) -> Option<WindowView> {
    match window {
        Some(w) => Some(w@),
        None => None,
    }
}

impl View for StateDbSync {
    type V = SyncView;

    closed spec fn view(&self) -> SyncView {
        SyncView {
            mode: self.mode,
            non_canonical: self.non_canonical@,
            pruning: window_view(self.pruning),
            pinned: self.pinned@,
        }
    }
}

impl StateDbSync {
    /// The invariant of the coordinator.
    pub open spec fn wf(&self) -> bool {
        self@.wf()
    }

    /// Opens the state database in the given mode, from the journal in the
    /// database. A database that was written in another mode is refused.
    /// A limit on memory is not supported.
    ///
    /// What the database answers decides the outcome: an error of the
    /// database is handed on; a stored mode other than the one asked for
    /// is refused; a journal that cannot be taken in is reported as
    /// undecodable; and else the state database has the mode asked for,
    /// the two windows as their journals give them, with a pruning window
    /// exactly under constraints, and nothing pinned.
    pub fn new<D: MetaDb>(mode: PruningMode, db: &D) -> (r: Result<StateDbSync, Error<D::Error>>)
        requires
            mode matches PruningMode::Constrained(constraints) ==> constraints.max_mem is None,
        ensures
            match r {
                Ok(state_db) => {
                    &&& state_db.wf()
                    &&& state_db@ == SyncView::opened(
                        mode,
                        state_db@.non_canonical,
                        state_db@.pruning,
                    )
                    &&& state_db@.non_canonical.journaled()
                    &&& state_db@.non_canonical.pending_canonicalizations.len() == 0
                    &&& state_db@.non_canonical.pending_insertions.len() == 0
                    &&& state_db@.non_canonical.pinned == Map::<u64, Snapshot>::empty()
                    &&& state_db@.pruning matches Some(window) ==> window.journaled()
                        && window.pending_canonicalizations == 0 && window.pending_prunings == 0
                },
                Err(e) => e is Db || e is Decoding || e is InvalidPruningMode,
            },
    {
        // Check that settings match
        match Self::check_meta(&mode, db) {
            Ok(()) => {},
            Err(e) => {
                return Err(e);
            },
        }
        let non_canonical = match NonCanonicalOverlay::new(db) {
            Ok(overlay) => overlay,
            Err(e) => {
                return Err(e);
            },
        };
        let pruning: Option<RefWindow> = match mode {
            PruningMode::Constrained(_) => match RefWindow::new(db) {
                Ok(window) => Some(window),
                Err(e) => {
                    return Err(e);
                },
            },
            PruningMode::ArchiveAll | PruningMode::ArchiveCanonical => None,
        };
        let state_db = StateDbSync { mode, non_canonical, pruning, pinned: HashMap::new() };
        assert(state_db@.pinned =~= Map::empty());
        Ok(state_db)
    }

    /// Reads the stored pruning mode and checks it against the mode asked
    /// for. What the database answers decides the outcome: its error is
    /// handed on, and a stored mode is judged as `check_mode` says; no
    /// other error comes.
    fn check_meta<D: MetaDb>(mode: &PruningMode, db: &D) -> (r: Result<(), Error<D::Error>>)
        ensures
            r matches Err(e) ==> e is Db || e is InvalidPruningMode,
    {
        let key = to_meta_key(PRUNING_MODE.as_slice(), Vec::new());
        let db_mode = match db.get_meta(key.as_slice()) {
            Ok(db_mode) => db_mode,
            Err(e) => {
                return Err(Error::Db(e));
            },
        };
        check_mode(mode, &db_mode)
    }

    /// Whether `insert_block` may be called for the block with these
    /// changes: in the archive that keeps everything always; else the block
    /// must not be in the canonicalization window yet, the reference
    /// counters must have room for the nodes, and the changes must fit into
    /// a journal record.
    pub fn accepts_block(&self, hash: &BlockHash, changeset: &ChangeSet<Key>) -> (r: bool)
        ensures
            r == (!(self@.mode is ArchiveAll) ==> {
                &&& !self@.non_canonical.parents.contains_key(*hash)
                &&& has_room(self@.non_canonical.values, node_keys(changeset@.inserted))
                &&& encodable_nodes(changeset@.inserted)
                &&& encodable_len(changeset@.deleted.len())
            }),
    {
        match self.mode {
            PruningMode::ArchiveAll => true,
            _ => self.non_canonical.accepts(hash, changeset),
        }
    }

    /// Whether `canonicalize_block` may be called: the pruning window, if
    /// there is one, has a block number left for one more row.
    pub fn can_canonicalize(&self) -> (r: bool)
        requires
            self.wf(),
        ensures
            r == (self@.pruning matches Some(window) ==> window.next_block() < u64::MAX),
    {
        match &self.pruning {
            Some(pruning) => pruning.has_room(),
            None => true,
        }
    }

    /// Whether `pin` may be called for the block: the counter of its holds
    /// has room for one more.
    pub fn can_pin(&self, hash: &BlockHash) -> (r: bool)
        ensures
            r == (self@.holds(*hash) < u32::MAX),
    {
        match self.pinned.get(hash) {
            Some(refs) => *refs < u32::MAX,
            None => true,
        }
    }

    /// Add a new non-canonical block.
    ///
    /// In the archive mode that keeps everything the changes are final at
    /// once: the deletions are dropped and the insertions handed back. In
    /// the other modes the block goes into the canonicalization window; it
    /// must not be there already, and the limits of the machine hold as for
    /// the window.
    pub fn insert_block<E>(
        &mut self,
        hash: &BlockHash,
        number: u64,
        parent_hash: &BlockHash,
        changeset: ChangeSet<Key>,
    ) -> (r: Result<CommitSet<Key>, Error<E>>)
        requires
            old(self).wf(),
            !(old(self)@.mode is ArchiveAll) ==> {
                &&& !old(self)@.non_canonical.parents.contains_key(*hash)
                &&& has_room(old(self)@.non_canonical.values, node_keys(changeset@.inserted))
                &&& encodable_nodes(changeset@.inserted)
                &&& encodable_len(changeset@.deleted.len())
            },
        ensures
            final(self).wf(),
            final(self)@.mode == old(self)@.mode,
            final(self)@.pruning == old(self)@.pruning,
            final(self)@.pinned == old(self)@.pinned,
            old(self)@.mode is ArchiveAll ==> final(self)@ == old(self)@ && r is Ok && r->Ok_0@
                == (CommitSetView {
                data: ChangeSetView { inserted: changeset@.inserted, deleted: Seq::empty() },
                meta: ChangeSetView {
                    inserted: old(self)@.mode_entries(number),
                    deleted: Seq::empty(),
                },
            }),
            !(old(self)@.mode is ArchiveAll) ==> {
                let overlay = old(self)@.non_canonical;
                &&& overlay.number_refused(number) ==> r == Err::<CommitSet<Key>, Error<E>>(
                    Error::InvalidBlockNumber,
                ) && final(self)@ == old(self)@
                &&& !overlay.number_refused(number) && overlay.parent_refused(number, *parent_hash)
                    ==> r == Err::<CommitSet<Key>, Error<E>>(Error::InvalidParent) && final(self)@
                    == old(self)@
                &&& !overlay.number_refused(number) && !overlay.parent_refused(
                    number,
                    *parent_hash,
                ) ==> {
                    let written = overlay.insert_commit(
                        *hash,
                        number,
                        *parent_hash,
                        changeset@.inserted,
                        changeset@.deleted,
                    );
                    &&& r is Ok
                    &&& final(self)@.non_canonical == overlay.inserted(
                        *hash,
                        number,
                        *parent_hash,
                        changeset@.inserted,
                        changeset@.deleted,
                    )
                    &&& r->Ok_0@ == (CommitSetView {
                        data: written.data,
                        meta: ChangeSetView {
                            inserted: written.meta.inserted + old(self)@.mode_entries(number),
                            deleted: written.meta.deleted,
                        },
                    })
                }
            },
    {
        let mut changeset = changeset;
        let mut meta: Vec<(Vec<u8>, DBValue)> = Vec::new();
        if number == 0 {
            // Save pruning mode when writing first block.
            let key = to_meta_key(PRUNING_MODE.as_slice(), Vec::new());
            let id = self.mode.id();
            let mut value: Vec<u8> = Vec::new();
            value.extend_from_slice(id);
            assert(value@ =~= self@.mode.spec_id());
            meta.push((key, value));
        }
        assert(entries_view(meta@) =~= self@.mode_entries(number));
        match self.mode {
            PruningMode::ArchiveAll => {
                changeset.deleted.clear();
                // write changes immediately
                let commit = CommitSet {
                    data: changeset,
                    meta: ChangeSet { inserted: meta, deleted: Vec::new() },
                };
                assert(names_view(commit.meta.deleted@) =~= Seq::empty());
                Ok(commit)
            },
            PruningMode::Constrained(_) | PruningMode::ArchiveCanonical => {
                let inserted = self.non_canonical.insert(hash, number, parent_hash, changeset);
                proof {
                    lemma_wf_kept(old(self)@, self@);
                }
                match inserted {
                    Ok(commit) => {
                        let mut commit = commit;
                        let ghost entries = commit.meta.inserted@;
                        commit.meta.inserted.append(&mut meta);
                        assert(entries_view(commit.meta.inserted@) =~= entries_view(entries)
                            + old(self)@.mode_entries(number));
                        Ok(commit)
                    },
                    Err(e) => Err(e),
                }
            },
        }
    }

    /// Returns the number of the last canonicalized block, pending
    /// canonicalizations included.
    pub fn best_canonical(&self) -> (r: Option<u64>)
        requires
            self.wf(),
        ensures
            match r {
                Some(n) => self@.non_canonical.last_canonicalized_block_number() == Some(n as int),
                None => self@.non_canonical.last_canonicalized_block_number() is None,
            },
    {
        self.non_canonical.last_canonicalized_block_number()
    }

    /// Check if the block is pruned away.
    pub fn is_pruned(&self, hash: &BlockHash, number: u64) -> (r: bool)
        requires
            self.wf(),
        ensures
            r == self@.is_pruned(*hash, number),
    {
        match self.mode {
            PruningMode::ArchiveAll => false,
            PruningMode::ArchiveCanonical | PruningMode::Constrained(_) => {
                let above = match self.best_canonical() {
                    Some(c) => number > c,
                    None => true,
                };
                if above {
                    !self.non_canonical.have_block(hash)
                } else {
                    match &self.pruning {
                        Some(pruning) => number < pruning.pending() || !pruning.have_block(hash),
                        None => false,
                    }
                }
            },
        }
    }

    /// Revert all non-canonical blocks with the best block number.
    /// Returns a database commit or `None` if not possible. For the
    /// archive that keeps everything an empty commit set is returned.
    pub fn revert_one(&mut self) -> (r: Option<CommitSet<Key>>)
        requires
            old(self).wf(),
        ensures
            final(self).wf(),
            final(self)@.mode == old(self)@.mode,
            final(self)@.pruning == old(self)@.pruning,
            final(self)@.pinned == old(self)@.pinned,
            old(self)@.mode is ArchiveAll ==> final(self)@ == old(self)@ && r is Some && r->Some_0@
                == CommitSetView::empty(),
            !(old(self)@.mode is ArchiveAll) && old(self)@.non_canonical.revert_refused() ==> r
                is None && final(self)@ == old(self)@,
            !(old(self)@.mode is ArchiveAll) && !old(self)@.non_canonical.revert_refused() ==> r
                is Some && final(self)@.non_canonical == old(self)@.non_canonical.reverted_one()
                && r->Some_0@ == old(self)@.non_canonical.revert_commit(),
    {
        match self.mode {
            PruningMode::ArchiveAll => {
                return Some(empty_commit());
            },
            PruningMode::ArchiveCanonical | PruningMode::Constrained(_) => {},
        }
        let r = self.non_canonical.revert_one();
        proof {
            lemma_wf_kept(old(self)@, self@);
        }
        r
    }

    /// For a given block return its path in the block tree. The
    /// coordinator keeps no such paths.
    pub fn get_branch_range(&self, _hash: &BlockHash, _number: u64) -> (r: Option<BranchRanges>)
        ensures
            r is None,
    {
        None
    }

    /// Prevents pruning of the specified block. Each call is one hold on
    /// the block; the holds are counted in 32 bits.
    pub fn pin(&mut self, hash: &BlockHash) -> (r: Result<(), PinError>)
        requires
            old(self).wf(),
            old(self)@.holds(*hash) < u32::MAX,
        ensures
            final(self).wf(),
            old(self)@.mode is ArchiveAll ==> r is Ok && final(self)@ == old(self)@,
            !(old(self)@.mode is ArchiveAll) && old(self)@.pinnable(*hash) ==> {
                &&& r is Ok
                &&& final(self)@ == old(self)@.pinned_one(*hash)
            },
            !(old(self)@.mode is ArchiveAll) && !old(self)@.pinnable(*hash) ==> r == Err::<
                (),
                PinError,
            >(PinError::InvalidBlock) && final(self)@ == old(self)@,
    {
        match self.mode {
            PruningMode::ArchiveAll => Ok(()),
            PruningMode::ArchiveCanonical | PruningMode::Constrained(_) => {
                let in_window = match &self.pruning {
                    Some(pruning) => pruning.have_block(hash),
                    None => false,
                };
                if self.non_canonical.have_block(hash) || in_window {
                    let refs: u32 = match self.pinned.get(hash) {
                        Some(refs) => *refs,
                        None => 0,
                    };
                    if refs == 0 {
                        self.non_canonical.pin(hash);
                    }
                    self.pinned.insert(*hash, refs + 1);
                    Ok(())
                } else {
                    Err(PinError::InvalidBlock)
                }
            },
        }
    }

    /// Allows pruning of the specified block: one hold on it is given up.
    pub fn unpin(&mut self, hash: &BlockHash)
        requires
            old(self).wf(),
        ensures
            final(self).wf(),
            final(self)@ == old(self)@.unpinned_one(*hash),
    {
        let refs: u32 = match self.pinned.get(hash) {
            Some(refs) => *refs,
            None => {
                return ;
            },
        };
        if refs <= 1 {
            self.pinned.remove(hash);
            self.non_canonical.unpin(hash);
        } else {
            self.pinned.insert(*hash, refs - 1);
        }
    }

    /// Get a value from the non-canonical overlay or the backing database.
    /// The database is asked only if the overlay has no answer, and its
    /// answer is handed on as it is.
    pub fn get<D: NodeDb>(&self, key: &Key, db: &D) -> (r: Result<Option<DBValue>, Error<D::Error>>)
        ensures
            !self@.non_canonical.answers(*key, None) ==> (r matches Ok(Some(v))
                && self@.non_canonical.answers(*key, Some(v@))),
            match r {
                Ok(Some(v)) => self@.non_canonical.answers(*key, Some(v@))
                    || self@.non_canonical.answers(*key, None),
                Ok(None) => self@.non_canonical.answers(*key, None),
                Err(e) => e is Db && self@.non_canonical.answers(*key, None),
            },
    {
        match self.non_canonical.get(key) {
            Some(value) => {
                return Ok(Some(value));
            },
            None => {},
        }
        match db.get(key) {
            Ok(value) => Ok(value),
            Err(e) => Err(Error::Db(e)),
        }
    }

    /// Get a value of the key-value column. The coordinator keeps no such
    /// values, and the database is not asked.
    pub fn get_kv<D: KvDb<u64>>(&self, _key: &[u8], _state: &(BranchRanges, u64), _db: &D) -> (r:
        Result<Option<DBValue>, Error<D::Error>>)
        ensures
            r matches Ok(None),
    {
        Ok(None)
    }

    /// All pairs of the key-value column at the given state. The
    /// coordinator keeps no such values, and the database is not asked.
    pub fn get_kv_pairs<D: KvDb<u64>>(&self, _state: &(BranchRanges, u64), _db: &D) -> (r: Vec<
        (KvKey, DBValue),
    >)
        ensures
            r@.len() == 0,
    {
        Vec::new()
    }

    /// Apply all pending changes.
    pub fn apply_pending(&mut self)
        requires
            old(self).wf(),
        ensures
            final(self).wf(),
            final(self)@ == old(self)@.pending_applied(),
    {
        self.non_canonical.apply_pending();
        match &mut self.pruning {
            Some(pruning) => {
                pruning.apply_pending();
            },
            None => {},
        }
    }

    /// Revert all pending changes.
    pub fn revert_pending(&mut self)
        requires
            old(self).wf(),
        ensures
            final(self).wf(),
            final(self)@ == old(self)@.pending_reverted(),
    {
        match &mut self.pruning {
            Some(pruning) => {
                pruning.revert_pending();
            },
            None => {},
        }
        self.non_canonical.revert_pending();
    }

    /// Whether the prune loop goes on: the window holds more rows than the
    /// constraints allow, and the next block is not pinned.
    fn should_prune(
        pruning: &RefWindow,
        constraints: &Constraints,
        pinned: &HashMap<BlockHash, u32>,
    ) -> (r: bool)
        requires
            pruning.wf(),
        ensures
            r == (pruning@.window_size() > (match constraints.max_blocks {
                Some(n) => n as u64,
                None => 0,
            }) && pruning@.next_hash() is Some && !pinned@.contains_key(
                pruning@.next_hash()->Some_0,
            )),
    {
        let max_blocks: u64 = match constraints.max_blocks {
            Some(n) => n as u64,
            None => 0,
        };
        if pruning.window_size() <= max_blocks {
            return false;
        }
        let over_memory = match constraints.max_mem {
            Some(m) => pruning.mem_used() > m,
            None => false,
        };
        if over_memory {
            return false;
        }
        match pruning.next_hash() {
            Some(h) => !pinned.contains_key(&h),
            None => false,
        }
    }

    /// Prunes until the constraints are met or a pinned block is in the
    /// way.
    fn prune(&mut self, commit: &mut CommitSet<Key>)
        requires
            old(self).wf(),
        ensures
            final(self).wf(),
            final(self)@.mode == old(self)@.mode,
            final(self)@.non_canonical == old(self)@.non_canonical,
            final(self)@.pinned == old(self)@.pinned,
            match old(self)@.pruning {
                Some(window) => {
                    let n = prune_count(window, old(self)@.max_blocks(), old(self)@.pinned);
                    &&& final(self)@.pruning == Some(window.pruned(n))
                    &&& pruned_commit(
                        old(commit)@,
                        final(commit)@,
                        window.next_rows(n),
                        window.pending(),
                    )
                },
                None => final(self)@ == old(self)@ && final(commit)@ == old(commit)@,
            },
    {
        let ghost start = self@;
        let ghost given = commit@;
        let constraints = match self.mode {
            PruningMode::Constrained(constraints) => constraints,
            _ => {
                return ;
            },
        };
        let mut pruning = match self.pruning.take() {
            Some(pruning) => pruning,
            None => {
                return ;
            },
        };
        let ghost window = pruning@;
        let ghost max_blocks = start.max_blocks();
        let ghost pinned = start.pinned;
        let ghost mut done: nat = 0;
        proof {
            lemma_pruned_commit_none(given, window.pending());
        }
        let mut go = Self::should_prune(&pruning, &constraints, &self.pinned);
        while go
            invariant
                pruning.wf(),
                window.wf(),
                self.pinned@ == pinned,
                max_blocks == (match constraints.max_blocks {
                    Some(n) => n as u64,
                    None => 0,
                }),
                pruning@ == window.pruned(done),
                window.pending_prunings + done <= window.death_rows.len(),
                done + prune_count(pruning@, max_blocks, pinned) == prune_count(
                    window,
                    max_blocks,
                    pinned,
                ),
                go == (pruning@.window_size() > max_blocks && pruning@.next_hash() is Some
                    && !pinned.contains_key(pruning@.next_hash()->Some_0)),
                pruned_commit(given, commit@, window.next_rows(done), window.pending()),
            decreases pruning@.window_size(),
        {
            let ghost before = commit@;
            let ghost current = pruning@;
            pruning.prune_one(commit);
            proof {
                let row = current.death_rows[current.pending_prunings as int];
                lemma_pruned_commit_more(
                    given,
                    before,
                    commit@,
                    window.next_rows(done),
                    row,
                    window.pending(),
                );
                assert(window.next_rows(done + 1) =~= window.next_rows(done).push(row));
                done = done + 1;
            }
            go = Self::should_prune(&pruning, &constraints, &self.pinned);
        }
        self.pruning = Some(pruning);
    }

    /// Finalize a previously inserted block. Returns what is to be written
    /// and the number of the block.
    ///
    /// The archive that keeps everything has nothing to do. The archive of
    /// canonical blocks keeps what the block deleted. Under constraints the
    /// block is noted in the pruning window, which must have room for one
    /// more block number, and the window is pruned.
    pub fn canonicalize_block<E>(&mut self, hash: &BlockHash) -> (r: Result<
        (CommitSet<Key>, u64),
        Error<E>,
    >)
        requires
            old(self).wf(),
            old(self)@.pruning matches Some(window) ==> window.next_block() < u64::MAX,
        ensures
            final(self).wf(),
            final(self)@.mode == old(self)@.mode,
            final(self)@.pinned == old(self)@.pinned,
            old(self)@.mode is ArchiveAll ==> final(self)@ == old(self)@ && r is Ok && r->Ok_0.0@
                == CommitSetView::empty() && r->Ok_0.1 == 0,
            !(old(self)@.mode is ArchiveAll) && old(self)@.non_canonical.canonicalize_refused(*hash)
                ==> {
                &&& r == Err::<(CommitSet<Key>, u64), Error<E>>(Error::InvalidBlock)
                &&& final(self)@ == old(self)@
            },
            !(old(self)@.mode is ArchiveAll) && !old(self)@.non_canonical.canonicalize_refused(
                *hash,
            ) ==> {
                let before = old(self)@;
                let canonical = before.canonical_commit(*hash);
                &&& r is Ok
                &&& r->Ok_0.1 == before.non_canonical.next_canonical_number()
                &&& final(self)@.non_canonical == before.non_canonical.canonicalized(*hash)
                &&& before.mode is ArchiveCanonical ==> final(self)@.pruning is None && r->Ok_0.0@
                    == (CommitSetView {
                    data: ChangeSetView {
                        inserted: canonical.data.inserted,
                        deleted: Seq::empty(),
                    },
                    meta: canonical.meta,
                })
                &&& before.mode is Constrained ==> {
                    let noted = before.noted_window(*hash);
                    let n = before.pruned_rows(*hash);
                    &&& final(self)@.pruning == Some(noted.pruned(n))
                    &&& pruned_commit(
                        note_commit(before.pruning->Some_0, canonical, *hash),
                        r->Ok_0.0@,
                        noted.next_rows(n),
                        noted.pending(),
                    )
                }
            },
    {
        let ghost before = self@;
        let mut commit = empty_commit();
        match self.mode {
            PruningMode::ArchiveAll => {
                return Ok((commit, 0));
            },
            _ => {},
        }
        let canonicalized = self.non_canonical.canonicalize(hash, &mut commit);
        let block_number = match canonicalized {
            Ok(block_number) => block_number,
            Err(e) => {
                return Err(e);
            },
        };
        match self.mode {
            PruningMode::ArchiveCanonical => {
                commit.data.deleted.clear();
            },
            _ => {},
        }
        let ghost canonical = commit@;
        match &mut self.pruning {
            Some(pruning) => {
                proof {
                    assert(canonical.data.inserted.len() <= u32::MAX) by {
                        before.non_canonical.lemma_canonical_commit_sized(*hash);
                    }
                    assert(canonical.data.deleted.len() <= u32::MAX) by {
                        before.non_canonical.lemma_canonical_commit_sized(*hash);
                    }
                }
                pruning.note_canonical(hash, &mut commit);
            },
            None => {},
        }
        let ghost noted = self@;
        proof {
            assert(noted.wf()) by {
                assert forall|h: u64| noted.pinned.contains_key(h) implies #[trigger] noted.pinned[h]
                    > 0 by {
                    assert(before.pinned[h] > 0);
                }
            }
        }
        self.prune(&mut commit);
        Ok((commit, block_number))
    }
}

} // verus!

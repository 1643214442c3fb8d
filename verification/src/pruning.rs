//! Pruning window.
//!
//! For each canonicalized block the window keeps a death row: the keys
//! that the block made obsolete. A global index maps each such key to the
//! number of its block. A key that is inserted again leaves its death row.
//! The changes are journaled through the commit sets handed back to the
//! caller.

use vstd::prelude::*;
use std::collections::{HashMap, HashSet, VecDeque};
use crate::codec::{
    decode_number, decode_window_record, encodable_len, encode_number, encode_window_record,
    number_bytes, number_parsed, to_meta_key, window_record_bytes, window_record_parsed,
};
use crate::types::{entries_view, BlockHash, CommitSet, DBValue, Error, Key, MetaDb};
use crate::window::{
    last_pruned_key, lists, note_commit, row_journal_key, RowView, WindowView, LAST_PRUNED,
    PRUNING_JOURNAL,
};

verus! {

broadcast use vstd::std_specs::hash::group_hash_axioms;

/// The meta key of the journal entry of the death row of block number
/// `block`.
pub fn to_journal_key(block: u64) -> (r: Vec<u8>)
    ensures
        r@ == row_journal_key(block),
{
    to_meta_key(PRUNING_JOURNAL.as_slice(), encode_number(block))
}

/// The keys of a set, each once, in the order in which the set hands them
/// out.
fn set_keys(keys: &HashSet<Key>) -> (r: Vec<Key>)
    ensures
        lists(r@, keys@),
{
    let mut order: Vec<Key> = Vec::new();
    for k in it: keys.iter()
        invariant
            it.seq().no_duplicates(),
            it.seq().unref().to_set() == keys@,
            order@.len() == it.index(),
            forall|i: int| 0 <= i < it.index() ==> order@[i] == *(#[trigger] it.seq()[i]),
            order@.no_duplicates(),
            forall|i: int| 0 <= i < order@.len() ==> keys@.contains(#[trigger] order@[i]),
            forall|x: u64| #[trigger]
                keys@.contains(x) ==> order@.contains(x) || exists|i: int|
                    it.index() <= i < it.seq().len() && *(#[trigger] it.seq()[i]) == x,
    {
        let ghost n = it.index() as int;
        let ghost before = order@;
        proof {
            assert forall|i: int| 0 <= i < before.len() implies before[i] != *k by {
                assert(before[i] == *it.seq()[i]);
                if *it.seq()[i] == *it.seq()[n] {
                    assert(it.seq()[i] == it.seq()[n]);
                }
            }
        }
        order.push(*k);
        proof {
            assert forall|x: u64| #[trigger]
                keys@.contains(x) implies order@.contains(x) || exists|i: int|
                    n + 1 <= i < it.seq().len() && *(#[trigger] it.seq()[i]) == x by {
                if before.contains(x) {
                    let i = choose|i: int| 0 <= i < before.len() && before[i] == x;
                    assert(order@[i] == x);
                } else {
                    let i = choose|i: int| n <= i < it.seq().len() && *(#[trigger] it.seq()[i]) == x;
                    if i == n {
                        assert(order@[n] == x);
                    }
                }
            }
        }
    }
    proof {
        assert(order@.to_set() =~= keys@);
    }
    order
}

/// The keys of the index, each once, in the order in which the index hands
/// them out.
fn index_keys(index: &HashMap<Key, u64>) -> (r: Vec<Key>)
    ensures
        lists(r@, index@.dom()),
{
    let mut order: Vec<Key> = Vec::new();
    for k in it: index.keys()
        invariant
            it.seq().no_duplicates(),
            it.seq().unref().to_set() == index@.dom(),
            order@.len() == it.index(),
            forall|i: int| 0 <= i < it.index() ==> order@[i] == *(#[trigger] it.seq()[i]),
            order@.no_duplicates(),
            forall|i: int| 0 <= i < order@.len() ==> index@.dom().contains(#[trigger] order@[i]),
            forall|x: u64| #[trigger]
                index@.dom().contains(x) ==> order@.contains(x) || exists|i: int|
                    it.index() <= i < it.seq().len() && *(#[trigger] it.seq()[i]) == x,
    {
        let ghost n = it.index() as int;
        let ghost before = order@;
        proof {
            assert forall|i: int| 0 <= i < before.len() implies before[i] != *k by {
                assert(before[i] == *it.seq()[i]);
                if *it.seq()[i] == *it.seq()[n] {
                    assert(it.seq()[i] == it.seq()[n]);
                }
            }
        }
        order.push(*k);
        proof {
            assert forall|x: u64| #[trigger]
                index@.dom().contains(x) implies order@.contains(x) || exists|i: int|
                    n + 1 <= i < it.seq().len() && *(#[trigger] it.seq()[i]) == x by {
                if before.contains(x) {
                    let i = choose|i: int| 0 <= i < before.len() && before[i] == x;
                    assert(order@[i] == x);
                } else {
                    let i = choose|i: int| n <= i < it.seq().len() && *(#[trigger] it.seq()[i]) == x;
                    if i == n {
                        assert(order@[n] == x);
                    }
                }
            }
        }
    }
    proof {
        assert(order@.to_set() =~= index@.dom());
    }
    order
}

/// The set of the keys of a list.
fn key_set(keys: &Vec<Key>) -> (r: HashSet<Key>)
    ensures
        r@ == keys@.to_set(),
{
    let mut set: HashSet<Key> = HashSet::new();
    let mut i: usize = 0;
    while i < keys.len()
        invariant
            i <= keys@.len(),
            set@ == keys@.take(i as int).to_set(),
        decreases keys@.len() - i,
    {
        let k = keys[i];
        let ghost before = set@;
        set.insert(k);
        proof {
            let longer = keys@.take(i + 1);
            let shorter = keys@.take(i as int);
            assert forall|x: u64| longer.to_set().contains(x) <==> before.insert(k).contains(x) by {
                if x == k {
                    assert(longer[i as int] == x);
                }
            }
        }
        i += 1;
    }
    assert(keys@.take(keys@.len() as int) =~= keys@);
    set
}

/// One death row of the window.
pub struct DeathRow {
    hash: BlockHash,
    journal_key: Vec<u8>,
    deleted: HashSet<Key>,
}

impl DeepView for DeathRow {
    type V = RowView;

    closed spec fn deep_view(&self) -> RowView {
        RowView { hash: self.hash, journal_key: self.journal_key@, deleted: self.deleted@ }
    }
}

/// What the rows of the window hold.
pub closed spec fn rows_view(rows: Seq<DeathRow>) -> Seq<RowView> {
    Seq::new(rows.len(), |i: int| rows[i].deep_view())
}

/// The pruning window: for each canonicalized block the keys whose
/// deletion is deferred.
pub struct RefWindow {
    /// A queue of keys that should be deleted for each block in the pruning window.
    death_rows: VecDeque<DeathRow>,
    /// An index that maps each key from `death_rows` to a block number.
    death_index: HashMap<Key, u64>,
    /// Block number that corresponds to the front of `death_rows`.
    pending_number: u64,
    /// Number of calls of `note_canonical` after the last call of
    /// `apply_pending` or `revert_pending`.
    pending_canonicalizations: usize,
    /// Number of calls of `prune_one` after the last call of
    /// `apply_pending` or `revert_pending`.
    pending_prunings: usize,
}

impl View for RefWindow {
    type V = WindowView;

    closed spec fn view(&self) -> WindowView {
        WindowView {
            death_rows: rows_view(self.death_rows@),
            death_index: self.death_index@,
            pending_number: self.pending_number,
            pending_canonicalizations: self.pending_canonicalizations as nat,
            pending_prunings: self.pending_prunings as nat,
        }
    }
}

impl RefWindow {
    /// The invariant of the window.
    pub open spec fn wf(&self) -> bool {
        self@.wf()
    }

    /// A window without any row, starting at block `pending_number`.
    pub fn empty(pending_number: u64) -> (r: RefWindow)
        ensures
            r@ == WindowView::empty(pending_number),
            r.wf(),
    {
        let r = RefWindow {
            death_rows: VecDeque::new(),
            death_index: HashMap::new(),
            pending_number,
            pending_canonicalizations: 0,
            pending_prunings: 0,
        };
        proof {
            assert(rows_view(r.death_rows@) =~= Seq::empty());
        }
        r
    }

    /// Takes the keys that are inserted again out of the index and out of
    /// the rows that the index assigned them to.
    fn reinsert(&mut self, inserted: &Vec<Key>)
        requires
            old(self).wf(),
        ensures
            final(self).wf(),
            final(self)@ == old(self)@.reinserted(inserted@),
    {
        let ghost start = self@;
        let mut j: usize = 0;
        proof {
            let none = inserted@.take(0);
            assert forall|i: int| 0 <= i < start.death_rows.len() implies start.death_rows[i].deleted.difference(
                start.cancelled(none, i),
            ) =~= start.death_rows[i].deleted by {}
            assert(start.reinserted(none).death_rows =~= start.death_rows);
            assert(start.reinserted(none).death_index =~= start.death_index);
        }
        while j < inserted.len()
            invariant
                j <= inserted@.len(),
                start.wf(),
                self.wf(),
                self@ == start.reinserted(inserted@.take(j as int)),
            decreases inserted@.len() - j,
        {
            let k = inserted[j];
            let ghost seen = inserted@.take(j as int);
            let ghost more = inserted@.take(j + 1);
            let ghost current = self@;
            proof {
                assert forall|x: u64| more.contains(x) <==> seen.contains(x) || x == k by {
                    if x == k {
                        assert(more[j as int] == x);
                    }
                }
                assert(current.indexed_at(k));
            }
            match self.death_index.remove(&k) {
                Some(block) => {
                    let rows = self.death_rows.len();
                    let i = (block - self.pending_number) as usize;
                    let mut row = self.death_rows.remove(i).unwrap();
                    row.deleted.remove(&k);
                    self.death_rows.insert(i, row);
                    proof {
                        let target = start.reinserted(more);
                        assert forall|r: int|
                            0 <= r < target.death_rows.len() implies rows_view(
                            self.death_rows@,
                        )[r] == target.death_rows[r] by {
                            assert(current.death_rows[r] == start.reinserted(seen).death_rows[r]);
                            if r == i {
                                assert(rows_view(self.death_rows@)[r].deleted
                                    =~= target.death_rows[r].deleted);
                            } else {
                                assert(start.cancelled(more, r) =~= start.cancelled(seen, r));
                            }
                        }
                        assert(rows_view(self.death_rows@) =~= target.death_rows);
                        assert(self@.death_index =~= target.death_index);
                        assert forall|x: u64| #[trigger] self@.indexed_at(x) by {
                            assert(current.indexed_at(x));
                        }
                    }
                },
                None => {
                    proof {
                        let target = start.reinserted(more);
                        assert forall|r: int|
                            0 <= r < target.death_rows.len() implies current.death_rows[r]
                            == target.death_rows[r] by {
                            assert(current.death_rows[r].deleted =~= target.death_rows[r].deleted);
                        }
                        assert(current.death_rows =~= target.death_rows);
                        assert(self@.death_index =~= target.death_index);
                        assert forall|x: u64| #[trigger] self@.indexed_at(x) by {
                            assert(current.indexed_at(x));
                        }
                    }
                },
            }
            j += 1;
        }
        assert(inserted@.take(inserted@.len() as int) =~= inserted@);
    }

    /// Imports a block into the window: the keys it inserted leave the
    /// rows they were scheduled in, the keys it deleted form a new row.
    fn import(&mut self, hash: &BlockHash, journal_key: Vec<u8>, inserted: &Vec<Key>, deleted: Vec<Key>)
        requires
            old(self).wf(),
            old(self)@.next_block() < u64::MAX,
        ensures
            final(self).wf(),
            final(self)@ == old(self)@.imported(*hash, journal_key@, inserted@, deleted@),
    {
        let ghost start = self@;
        // remove all re-inserted keys from death rows
        self.reinsert(inserted);
        let ghost cleared = self@;
        // add new keys
        let imported_block = self.pending_number + self.death_rows.len() as u64;
        let mut j: usize = 0;
        while j < deleted.len()
            invariant
                j <= deleted@.len(),
                cleared == start.reinserted(inserted@),
                self@.death_rows == cleared.death_rows,
                self@.pending_number == cleared.pending_number,
                self@.pending_canonicalizations == cleared.pending_canonicalizations,
                self@.pending_prunings == cleared.pending_prunings,
                self@.death_index == Map::new(
                    |k: u64|
                        cleared.death_index.contains_key(k) || deleted@.take(j as int).contains(k),
                    |k: u64|
                        if deleted@.take(j as int).contains(k) {
                            imported_block
                        } else {
                            cleared.death_index[k]
                        },
                ),
            decreases deleted@.len() - j,
        {
            let k = deleted[j];
            let ghost seen = deleted@.take(j as int);
            let ghost more = deleted@.take(j + 1);
            self.death_index.insert(k, imported_block);
            proof {
                assert forall|x: u64| more.contains(x) <==> seen.contains(x) || x == k by {
                    if x == k {
                        assert(more[j as int] == x);
                    }
                }
            }
            j += 1;
        }
        assert(deleted@.take(deleted@.len() as int) =~= deleted@);
        let row = DeathRow { hash: *hash, journal_key, deleted: key_set(&deleted) };
        let ghost rows = self.death_rows@;
        self.death_rows.push_back(row);
        proof {
            assert(rows_view(self.death_rows@) =~= rows_view(rows).push(row.deep_view()));
            let after = self@;
            assert forall|x: u64| #[trigger] after.indexed_at(x) by {
                assert(cleared.indexed_at(x));
                if after.death_index.contains_key(x) {
                    if !(deleted@.contains(x)) {
                        let at = cleared.death_index[x] - cleared.pending_number;
                    }
                }
            }
        }
    }

    /// The block number of the first row.
    pub fn pending_number(&self) -> (r: u64)
        ensures
            r == self@.pending_number,
    {
        self.pending_number
    }

    /// The number of rows in the window, pruned ones included.
    pub fn death_rows_len(&self) -> (r: usize)
        ensures
            r == self@.death_rows.len(),
    {
        self.death_rows.len()
    }

    /// The number of keys that await deletion.
    pub fn death_index_len(&self) -> (r: usize)
        ensures
            r == self@.death_index.len(),
    {
        self.death_index.len()
    }

    /// The number of the block whose row holds the key, if the key awaits
    /// deletion.
    pub fn death_block(&self, key: &Key) -> (r: Option<u64>)
        ensures
            r == self@.death_index.get(*key),
    {
        match self.death_index.get(key) {
            Some(block) => Some(*block),
            None => None,
        }
    }

    /// The row at `index`: its block, its journal key and its keys, each
    /// once and in no particular order.
    pub fn death_row(&self, index: usize) -> (r: Option<(BlockHash, Vec<u8>, Vec<Key>)>)
        ensures
            match r {
                Some((hash, journal_key, keys)) => index < self@.death_rows.len() && hash
                    == self@.death_rows[index as int].hash && journal_key@
                    == self@.death_rows[index as int].journal_key && lists(
                    keys@,
                    self@.death_rows[index as int].deleted,
                ),
                None => index >= self@.death_rows.len(),
            },
    {
        if index < self.death_rows.len() {
            let row = &self.death_rows[index];
            Some((row.hash, row.journal_key.clone(), set_keys(&row.deleted)))
        } else {
            None
        }
    }

    /// Whether there is a block number left for one more row, that is,
    /// whether a block can be noted.
    pub fn has_room(&self) -> (r: bool)
        requires
            self.wf(),
        ensures
            r == (self@.next_block() < u64::MAX),
    {
        self.pending_number < u64::MAX - self.death_rows.len() as u64
    }

    /// The number of rows that are not pruned yet.
    pub fn window_size(&self) -> (r: u64)
        requires
            self.wf(),
        ensures
            r == self@.window_size(),
    {
        (self.death_rows.len() - self.pending_prunings) as u64
    }

    /// The block that is pruned next, if there is one.
    pub fn next_hash(&self) -> (r: Option<BlockHash>)
        ensures
            r == self@.next_hash(),
    {
        if self.pending_prunings < self.death_rows.len() {
            let row = &self.death_rows[self.pending_prunings];
            Some(row.hash)
        } else {
            None
        }
    }

    /// The memory that the window uses. It is not measured.
    pub fn mem_used(&self) -> (r: usize)
        ensures
            r == 0,
    {
        0
    }

    /// The number of the first block that is not pruned yet.
    pub fn pending(&self) -> (r: u64)
        requires
            self.wf(),
        ensures
            r == self@.pending(),
    {
        let rows = self.death_rows.len();
        self.pending_number + self.pending_prunings as u64
    }

    /// Whether a row of the block is in the window and not pruned yet.
    pub fn have_block(&self, hash: &BlockHash) -> (r: bool)
        requires
            self.wf(),
        ensures
            r == self@.have_block(*hash),
    {
        let mut i: usize = self.pending_prunings;
        while i < self.death_rows.len()
            invariant
                self.pending_prunings <= i <= self.death_rows@.len(),
                forall|n: int|
                    self.pending_prunings <= n < i ==> (#[trigger] self@.death_rows[n]).hash
                        != *hash,
            decreases self.death_rows@.len() - i,
        {
            let row = &self.death_rows[i];
            assert(self@.death_rows[i as int] == row.deep_view());
            if row.hash == *hash {
                return true;
            }
            i += 1;
        }
        false
    }

    /// Prune the next block: its keys are added to the deletions of
    /// `commit`, in no particular order, the block becomes the last pruned
    /// one, and its journal entry is dropped. Without a block to prune
    /// nothing happens. The block leaves the window when the pruning is
    /// applied.
    pub fn prune_one(&mut self, commit: &mut CommitSet<Key>)
        requires
            old(self).wf(),
        ensures
            final(self).wf(),
            final(self)@ == old(self)@.pruned_one(),
            old(self)@.next_hash() is None ==> final(commit)@ == old(commit)@,
            old(self)@.next_hash() is Some ==> {
                let row = old(self)@.death_rows[old(self)@.pending_prunings as int];
                let before = old(commit)@;
                let after = final(commit)@;
                &&& after.data.inserted == before.data.inserted
                &&& after.data.deleted.len() >= before.data.deleted.len()
                &&& after.data.deleted.take(before.data.deleted.len() as int)
                    == before.data.deleted
                &&& lists(after.data.deleted.skip(before.data.deleted.len() as int), row.deleted)
                &&& after.meta.inserted == before.meta.inserted.push(
                    (last_pruned_key(), number_bytes(old(self)@.pending() as u64)),
                )
                &&& after.meta.deleted == before.meta.deleted.push(row.journal_key)
            },
    {
        let ghost start = self@;
        if self.pending_prunings < self.death_rows.len() {
            let rows = self.death_rows.len();
            let pruned = &self.death_rows[self.pending_prunings];
            let index = self.pending_number + self.pending_prunings as u64;
            let mut keys = set_keys(&pruned.deleted);
            let ghost order = keys@;
            let ghost deleted = commit.data.deleted@;
            commit.data.deleted.append(&mut keys);
            assert(commit.data.deleted@.skip(deleted.len() as int) =~= order);
            let key = to_meta_key(LAST_PRUNED.as_slice(), Vec::new());
            commit.meta.inserted.push((key, encode_number(index)));
            commit.meta.deleted.push(pruned.journal_key.clone());
            self.pending_prunings += 1;
            proof {
                assert forall|x: u64| #[trigger] self@.indexed_at(x) by {
                    assert(start.indexed_at(x));
                }
            }
        }
    }

    /// Add the change set of a canonicalized block to the window: the
    /// deleted keys are taken out of `commit` into a new death row, and the
    /// journal record of the row is added to `commit`.
    ///
    /// The preconditions are limits of the machine: block numbers are 64
    /// bits wide, and a journal record holds collections of up to
    /// `u32::MAX` items.
    pub fn note_canonical(&mut self, hash: &BlockHash, commit: &mut CommitSet<Key>)
        requires
            old(self).wf(),
            old(self)@.next_block() < u64::MAX,
            encodable_len(old(commit)@.data.inserted.len()),
            encodable_len(old(commit)@.data.deleted.len()),
        ensures
            final(self).wf(),
            final(self)@ == old(self)@.noted(
                *hash,
                Seq::new(
                    old(commit)@.data.inserted.len(),
                    |i: int| old(commit)@.data.inserted[i].0,
                ),
                old(commit)@.data.deleted,
            ),
            final(commit)@ == note_commit(old(self)@, old(commit)@, *hash),
            window_record_parsed(
                window_record_bytes(
                    *hash,
                    Seq::new(
                        old(commit)@.data.inserted.len(),
                        |i: int| old(commit)@.data.inserted[i].0,
                    ),
                    old(commit)@.data.deleted,
                ),
            ) == Some(
                (
                    *hash,
                    Seq::new(
                        old(commit)@.data.inserted.len(),
                        |i: int| old(commit)@.data.inserted[i].0,
                    ),
                    old(commit)@.data.deleted,
                ),
            ),
    {
        let ghost given = commit@;
        let ghost given_keys = Seq::new(given.data.inserted.len(), |i: int| given.data.inserted[i].0);
        let mut inserted: Vec<Key> = Vec::new();
        let mut i: usize = 0;
        while i < commit.data.inserted.len()
            invariant
                i <= commit.data.inserted@.len(),
                commit@ == given,
                given_keys == Seq::new(
                    given.data.inserted.len(),
                    |i: int| given.data.inserted[i].0,
                ),
                inserted@ == given_keys.take(i as int),
            decreases commit.data.inserted@.len() - i,
        {
            inserted.push(commit.data.inserted[i].0);
            i += 1;
        }
        assert(inserted@ =~= given_keys);
        let mut deleted: Vec<Key> = Vec::new();
        deleted.append(&mut commit.data.deleted);
        let block = self.pending_number + self.death_rows.len() as u64;
        let journal_key = to_journal_key(block);
        let record = encode_window_record(*hash, &inserted, &deleted);
        let ghost entries = commit.meta.inserted@;
        commit.meta.inserted.push((journal_key.clone(), record));
        assert(entries_view(commit.meta.inserted@) =~= entries_view(entries).push(
            (journal_key@, record@),
        ));
        self.import(hash, journal_key, &inserted, deleted);
        let ghost imported = self@;
        let rows = self.death_rows.len();
        self.pending_canonicalizations += 1;
        proof {
            assert forall|x: u64| #[trigger] self@.indexed_at(x) by {
                assert(imported.indexed_at(x));
            }
        }
    }

    /// Apply all pending changes: the pruned rows leave the window.
    pub fn apply_pending(&mut self)
        requires
            old(self).wf(),
        ensures
            final(self).wf(),
            final(self)@ == old(self)@.applied(),
    {
        let ghost start = self@;
        self.pending_canonicalizations = 0;
        let count = self.pending_prunings;
        let mut n: usize = 0;
        while n < count
            invariant
                n <= count,
                count == start.pending_prunings,
                start.wf(),
                self.pending_canonicalizations == 0,
                self.pending_prunings == count,
                self@.death_rows == start.death_rows.skip(n as int),
                self@.pending_number == start.pending_number + n,
                self@.death_index == Map::new(
                    |k: u64|
                        start.death_index.contains_key(k) && !start.early_row_holds(n as int, k),
                    |k: u64| start.death_index[k],
                ),
            decreases count - n,
        {
            let ghost rows = self.death_rows@;
            assert(rows_view(rows).len() == start.death_rows.len() - n);
            let pruned = self.death_rows.pop_front().unwrap();
            proof {
                assert(pruned.deep_view() == rows_view(rows)[0]);
                assert forall|r: int| 0 <= r < self.death_rows@.len() implies rows_view(
                    self.death_rows@,
                )[r] == start.death_rows.skip(n + 1)[r] by {
                    assert(rows_view(rows)[r + 1] == start.death_rows.skip(n as int)[r + 1]);
                }
            }
            let keys = set_keys(&pruned.deleted);
            let ghost reached = self.death_index@;
            let mut j: usize = 0;
            while j < keys.len()
                invariant
                    j <= keys@.len(),
                    self.death_index@ == reached.remove_keys(keys@.take(j as int).to_set()),
                    rows_view(self.death_rows@) == start.death_rows.skip(n + 1),
                    self.pending_number == start.pending_number + n,
                    self.pending_canonicalizations == 0,
                    self.pending_prunings == count,
                decreases keys@.len() - j,
            {
                let k = keys[j];
                let ghost seen = keys@.take(j as int);
                let ghost more = keys@.take(j + 1);
                self.death_index.remove(&k);
                proof {
                    assert forall|x: u64| more.contains(x) <==> seen.contains(x) || x == k by {
                        if x == k {
                            assert(more[j as int] == x);
                        }
                    }
                }
                j += 1;
            }
            self.pending_number += 1;
            proof {
                assert(keys@.take(keys@.len() as int) =~= keys@);
            }
            n += 1;
        }
        self.pending_prunings = 0;
        proof {
            let after = self@;
            assert forall|x: u64| #[trigger] after.indexed_at(x) by {
                assert(start.indexed_at(x));
                if after.death_index.contains_key(x) {
                    let at = start.death_index[x] - start.pending_number;
                }
            }
        }
    }

    /// Revert all pending changes: the rows added since the last apply
    /// leave the window.
    ///
    /// A pending insertion may have cancelled deletions of earlier rows;
    /// these stay cancelled, so a few keys may end up not being deleted.
    pub fn revert_pending(&mut self)
        requires
            old(self).wf(),
        ensures
            final(self).wf(),
            final(self)@ == old(self)@.reverted(),
    {
        let ghost start = self@;
        let kept = self.death_rows.len() - self.pending_canonicalizations;
        self.death_rows.truncate(kept);
        let new_max_block = self.death_rows.len() as u64 + self.pending_number;
        let keys = index_keys(&self.death_index);
        let ghost index = self.death_index@;
        let mut j: usize = 0;
        while j < keys.len()
            invariant
                j <= keys@.len(),
                lists(keys@, index.dom()),
                rows_view(self.death_rows@) == start.death_rows.take(kept as int),
                self.pending_number == start.pending_number,
                self.death_index@ == Map::new(
                    |k: u64|
                        index.contains_key(k) && !(keys@.take(j as int).contains(k) && index[k]
                            >= new_max_block),
                    |k: u64| index[k],
                ),
            decreases keys@.len() - j,
        {
            let k = keys[j];
            let ghost seen = keys@.take(j as int);
            let ghost more = keys@.take(j + 1);
            proof {
                assert forall|x: u64| more.contains(x) <==> seen.contains(x) || x == k by {
                    if x == k {
                        assert(more[j as int] == x);
                    }
                }
            }
            let block = match self.death_index.get(&k) {
                Some(block) => *block,
                None => 0,
            };
            if block >= new_max_block {
                self.death_index.remove(&k);
            }
            j += 1;
        }
        self.pending_canonicalizations = 0;
        self.pending_prunings = 0;
        proof {
            assert(keys@.take(keys@.len() as int) =~= keys@);
            let after = self@;
            assert(after.death_index =~= start.reverted().death_index);
            assert forall|x: u64| #[trigger] after.indexed_at(x) by {
                assert(start.indexed_at(x));
            }
        }
    }

    /// Takes in one record read from the journal: the row of the next
    /// block. A record that does not decode is refused.
    pub fn restore_row<E>(&mut self, journal_key: Vec<u8>, record: &[u8]) -> (r: Result<(), Error<E>>)
        requires
            old(self).wf(),
            old(self)@.next_block() < u64::MAX,
        ensures
            final(self).wf(),
            match window_record_parsed(record@) {
                Some((hash, inserted, deleted)) => r is Ok && final(self)@ == old(self)@.imported(
                    hash,
                    journal_key@,
                    inserted,
                    deleted,
                ),
                None => r == Err::<(), Error<E>>(Error::Decoding) && final(self)@ == old(self)@,
            },
    {
        match decode_window_record(record) {
            Some((hash, inserted, deleted)) => {
                self.import(&hash, journal_key, &inserted, deleted);
                Ok(())
            },
            None => Err(Error::Decoding),
        }
    }

    /// The window that the stored last pruned block gives, before the
    /// journal is read: an empty window that starts at block 0 if no block
    /// is stored, else at the block after the stored one. A stored block
    /// that does not decode, or that has no block after it, is refused.
    pub fn from_last_pruned<E>(stored: &Option<DBValue>) -> (r: Result<RefWindow, Error<E>>)
        ensures
            match *stored {
                None => r is Ok && r->Ok_0@ == WindowView::empty(0),
                Some(buffer) => match number_parsed(buffer@) {
                    Some(number) => if number < u64::MAX {
                        r is Ok && r->Ok_0@ == WindowView::empty((number + 1) as u64)
                    } else {
                        r is Err && r->Err_0 is Decoding
                    },
                    None => r is Err && r->Err_0 is Decoding,
                },
            },
            r is Ok ==> r->Ok_0.wf(),
    {
        let pending_number: u64 = match stored {
            Some(buffer) => match decode_number(buffer.as_slice()) {
                Some(number) => {
                    if number == u64::MAX {
                        return Err(Error::Decoding);
                    }
                    number + 1
                },
                None => {
                    return Err(Error::Decoding);
                },
            },
            None => 0,
        };
        Ok(RefWindow::empty(pending_number))
    }

    /// Creates the window from the journal in the database.
    ///
    /// The journal is read in ascending order of block number, from the
    /// block after the last pruned one, until an entry is missing. What
    /// the database answers decides the outcome: an error of the database
    /// is handed on, an entry that does not decode is reported as
    /// undecodable, and else the window holds one row for each entry, each
    /// under the journal key it was read from, with nothing pending.
    pub fn new<D: MetaDb>(db: &D) -> (r: Result<RefWindow, Error<D::Error>>)
        ensures
            match r {
                Ok(window) => {
                    &&& window.wf()
                    &&& window@.journaled()
                    &&& window@.pending_canonicalizations == 0
                    &&& window@.pending_prunings == 0
                },
                Err(e) => e is Db || e is Decoding,
            },
    {
        let key = to_meta_key(LAST_PRUNED.as_slice(), Vec::new());
        let last_pruned = match db.get_meta(key.as_slice()) {
            Ok(last_pruned) => last_pruned,
            Err(e) => {
                return Err(Error::Db(e));
            },
        };
        let mut pruning = match Self::from_last_pruned::<D::Error>(&last_pruned) {
            Ok(pruning) => pruning,
            Err(e) => {
                return Err(e);
            },
        };
        // read the journal
        let mut block = pruning.pending_number;
        let mut more = block < u64::MAX;
        while more
            invariant
                pruning.wf(),
                pruning@.journaled(),
                pruning@.pending_canonicalizations == 0,
                pruning@.pending_prunings == 0,
                block == pruning@.next_block(),
                more ==> block < u64::MAX,
            decreases
                    2 * (u64::MAX - block) + if more {
                        1int
                    } else {
                        0int
                    },
        {
            let journal_key = to_journal_key(block);
            match db.get_meta(journal_key.as_slice()) {
                Ok(Some(record)) => {
                    match pruning.restore_row::<D::Error>(journal_key, record.as_slice()) {
                        Ok(()) => {},
                        Err(e) => {
                            return Err(e);
                        },
                    }
                    proof {
                        let after = pruning@;
                        assert forall|i: int| 0 <= i < after.death_rows.len() implies (
                        #[trigger] after.death_rows[i]).journal_key == row_journal_key(
                            (after.pending_number + i) as u64,
                        ) by {}
                    }
                    block += 1;
                    if block == u64::MAX {
                        more = false;
                    }
                },
                Ok(None) => {
                    more = false;
                },
                Err(e) => {
                    return Err(Error::Db(e));
                },
            }
        }
        Ok(pruning)
    }
}

} // verus!

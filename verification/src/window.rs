//! The mathematical model of the pruning window: what the window holds and
//! what each operation makes of it.

use vstd::prelude::*;
use crate::codec::{meta_key, number_bytes, window_record_bytes};
use crate::types::{ChangeSetView, CommitSetView};

verus! {

/// Name of the entry that holds the last pruned block: `last_pruned`.
pub const LAST_PRUNED: [u8; 11] = [108, 97, 115, 116, 95, 112, 114, 117, 110, 101, 100];

/// Name of the journal entries of the pruning window: `pruning_journal`.
pub const PRUNING_JOURNAL: [u8; 15] = [
    112, 114, 117, 110, 105, 110, 103, 95, 106, 111, 117, 114, 110, 97, 108,
];

/// The meta key of the journal entry of the death row of block number
/// `block`.
pub open spec fn row_journal_key(block: u64) -> Seq<u8> {
    meta_key(PRUNING_JOURNAL@, number_bytes(block))
}

/// The meta key of the last pruned block.
pub open spec fn last_pruned_key() -> Seq<u8> {
    meta_key(LAST_PRUNED@, Seq::empty())
}

/// One death row: the keys that a canonicalized block made obsolete and
/// that no later block has inserted again.
pub struct RowView {
    pub hash: u64,
    pub journal_key: Seq<u8>,
    pub deleted: Set<u64>,
}

/// Whether `order` lists the keys of `keys`, each once.
pub open spec fn lists(order: Seq<u64>, keys: Set<u64>) -> bool {
    order.no_duplicates() && order.to_set() == keys
}

/// What the pruning window holds.
pub struct WindowView {
    /// The death rows, one per canonicalized block, the oldest first.
    pub death_rows: Seq<RowView>,
    /// For each key awaiting deletion the number of the block whose death
    /// row holds it.
    pub death_index: Map<u64, u64>,
    /// The block number of the first death row.
    pub pending_number: u64,
    /// The number of rows added since the last apply or revert.
    pub pending_canonicalizations: nat,
    /// The number of rows pruned since the last apply or revert.
    pub pending_prunings: nat,
}

impl WindowView {
    /// The window without any row, starting at block `pending_number`.
    pub open spec fn empty(pending_number: u64) -> WindowView {
        WindowView {
            death_rows: Seq::empty(),
            death_index: Map::empty(),
            pending_number,
            pending_canonicalizations: 0,
            pending_prunings: 0,
        }
    }

    /// The number of the block that the next row belongs to.
    pub open spec fn next_block(self) -> int {
        self.pending_number + self.death_rows.len()
    }

    /// The index entry of `k` points into the window, at a row that holds
    /// `k`.
    pub open spec fn indexed_at(self, k: u64) -> bool {
        self.death_index.contains_key(k) ==> self.pending_number <= self.death_index[k]
            < self.next_block() && self.death_rows[self.death_index[k]
            - self.pending_number].deleted.contains(k)
    }

    /// Every row is stored under the journal key of its block number.
    pub open spec fn journaled(self) -> bool {
        forall|i: int|
            0 <= i < self.death_rows.len() ==> (#[trigger] self.death_rows[i]).journal_key
                == row_journal_key((self.pending_number + i) as u64)
    }

    /// The invariant of the window.
    pub open spec fn wf(self) -> bool {
        &&& self.pending_prunings <= self.death_rows.len()
        &&& self.pending_canonicalizations <= self.death_rows.len()
        &&& self.next_block() <= u64::MAX
        &&& forall|k: u64| #[trigger] self.indexed_at(k)
    }

    /// The number of rows that are not pruned yet.
    pub open spec fn window_size(self) -> int {
        self.death_rows.len() - self.pending_prunings
    }

    /// The number of the first block that is not pruned yet.
    pub open spec fn pending(self) -> int {
        self.pending_number + self.pending_prunings
    }

    /// The block that is pruned next, if there is one.
    pub open spec fn next_hash(self) -> Option<u64> {
        if self.pending_prunings < self.death_rows.len() {
            Some(self.death_rows[self.pending_prunings as int].hash)
        } else {
            None
        }
    }

    /// Whether a row of the block is in the window and not pruned yet.
    pub open spec fn have_block(self, hash: u64) -> bool {
        exists|i: int|
            self.pending_prunings <= i < self.death_rows.len() && (
            #[trigger] self.death_rows[i]).hash == hash
    }

    /// The keys of row `i` whose deletion the insertion of `inserted`
    /// cancels: those that the index assigns to the row.
    pub open spec fn cancelled(self, inserted: Seq<u64>, i: int) -> Set<u64> {
        Set::new(
            |k: u64|
                inserted.contains(k) && self.death_index.contains_key(k) && self.death_index[k]
                    == self.pending_number + i,
        )
    }

    /// The window after the reinsertion rule: a key that is inserted again
    /// leaves the index and the row that the index assigned it to.
    pub open spec fn reinserted(self, inserted: Seq<u64>) -> WindowView {
        WindowView {
            death_rows: Seq::new(
                self.death_rows.len(),
                |i: int|
                    RowView {
                        deleted: self.death_rows[i].deleted.difference(self.cancelled(inserted, i)),
                        ..self.death_rows[i]
                    },
            ),
            death_index: self.death_index.remove_keys(inserted.to_set()),
            ..self
        }
    }

    /// The window after a block is imported: the reinsertion rule is
    /// applied to the keys it inserted, and the keys it deleted form a new
    /// row, to which the index assigns them.
    pub open spec fn imported(
        self,
        hash: u64,
        journal_key: Seq<u8>,
        inserted: Seq<u64>,
        deleted: Seq<u64>,
    ) -> WindowView {
        let cleared = self.reinserted(inserted);
        let block = self.next_block() as u64;
        WindowView {
            death_rows: cleared.death_rows.push(
                RowView { hash, journal_key, deleted: deleted.to_set() },
            ),
            death_index: Map::new(
                |k: u64| cleared.death_index.contains_key(k) || deleted.contains(k),
                |k: u64|
                    if deleted.contains(k) {
                        block
                    } else {
                        cleared.death_index[k]
                    },
            ),
            ..self
        }
    }

    /// The window after a canonicalized block is noted.
    pub open spec fn noted(self, hash: u64, inserted: Seq<u64>, deleted: Seq<u64>) -> WindowView {
        WindowView {
            pending_canonicalizations: self.pending_canonicalizations + 1,
            ..self.imported(hash, row_journal_key(self.next_block() as u64), inserted, deleted)
        }
    }

    /// The window after the next row is pruned; without such a row nothing
    /// changes.
    pub open spec fn pruned_one(self) -> WindowView {
        if self.pending_prunings < self.death_rows.len() {
            WindowView { pending_prunings: self.pending_prunings + 1, ..self }
        } else {
            self
        }
    }

    /// The window after `n` more rows are pruned.
    pub open spec fn pruned(self, n: nat) -> WindowView {
        WindowView { pending_prunings: self.pending_prunings + n, ..self }
    }

    /// The `n` rows that are pruned next.
    pub open spec fn next_rows(self, n: nat) -> Seq<RowView> {
        self.death_rows.subrange(self.pending_prunings as int, (self.pending_prunings + n) as int)
    }

    /// Whether one of the first `n` rows holds `k`.
    pub open spec fn early_row_holds(self, n: int, k: u64) -> bool {
        exists|i: int| 0 <= i < n && i < self.death_rows.len() && (
        #[trigger] self.death_rows[i]).deleted.contains(k)
    }

    /// The window after all pending changes are applied: the pruned rows
    /// leave the window, and their keys leave the index.
    pub open spec fn applied(self) -> WindowView {
        let n = self.pending_prunings as int;
        WindowView {
            death_rows: self.death_rows.skip(n),
            death_index: Map::new(
                |k: u64| self.death_index.contains_key(k) && !self.early_row_holds(n, k),
                |k: u64| self.death_index[k],
            ),
            pending_number: (self.pending_number + n) as u64,
            pending_canonicalizations: 0,
            pending_prunings: 0,
        }
    }

    /// The window after all pending changes are reverted: the rows added
    /// since the last apply leave the window, and with them the index
    /// entries that point to them. A deletion that a pending insertion
    /// cancelled stays cancelled.
    pub open spec fn reverted(self) -> WindowView {
        let kept = self.death_rows.len() - self.pending_canonicalizations;
        WindowView {
            death_rows: self.death_rows.take(kept),
            death_index: Map::new(
                |k: u64|
                    self.death_index.contains_key(k) && self.death_index[k] < self.pending_number
                        + kept,
                |k: u64| self.death_index[k],
            ),
            pending_number: self.pending_number,
            pending_canonicalizations: 0,
            pending_prunings: 0,
        }
    }
}

/// What noting a canonicalized block makes of its commit set: the deleted
/// keys are held back for the window, and the journal entry of the new row
/// is added.
pub open spec fn note_commit(window: WindowView, commit: CommitSetView, hash: u64) -> CommitSetView {
    let inserted = Seq::new(commit.data.inserted.len(), |i: int| commit.data.inserted[i].0);
    CommitSetView {
        data: ChangeSetView { inserted: commit.data.inserted, deleted: Seq::empty() },
        meta: ChangeSetView {
            inserted: commit.meta.inserted.push(
                (
                    row_journal_key(window.next_block() as u64),
                    window_record_bytes(hash, inserted, commit.data.deleted),
                ),
            ),
            deleted: commit.meta.deleted,
        },
    }
}

/// Whether `keys` lists the keys of the rows, row after row, each row in
/// some order and each of its keys once.
pub open spec fn lists_rows(keys: Seq<u64>, rows: Seq<RowView>) -> bool
    decreases rows.len(),
{
    if rows.len() == 0 {
        keys.len() == 0
    } else {
        let n = rows.last().deleted.len();
        &&& n <= keys.len()
        &&& lists(keys.skip(keys.len() - n), rows.last().deleted)
        &&& lists_rows(keys.take(keys.len() - n), rows.drop_last())
    }
}

/// Whether `after` is `before` with what pruning the rows adds, the first
/// of them being the row of block `number`: the keys of the rows are to be
/// deleted, each block in turn becomes the last pruned one, and the
/// journal entries of the rows are dropped.
pub open spec fn pruned_commit(
    before: CommitSetView,
    after: CommitSetView,
    rows: Seq<RowView>,
    number: int,
) -> bool {
    &&& after.data.inserted == before.data.inserted
    &&& after.data.deleted.len() >= before.data.deleted.len()
    &&& after.data.deleted.take(before.data.deleted.len() as int) == before.data.deleted
    &&& lists_rows(after.data.deleted.skip(before.data.deleted.len() as int), rows)
    &&& after.meta.inserted == before.meta.inserted + Seq::new(
        rows.len(),
        |i: int| (last_pruned_key(), number_bytes((number + i) as u64)),
    )
    &&& after.meta.deleted == before.meta.deleted + Seq::new(
        rows.len(),
        |i: int| rows[i].journal_key,
    )
}

/// Pruning no row leaves a commit set as it is.
pub proof fn lemma_pruned_commit_none(commit: CommitSetView, number: int)
    ensures
        pruned_commit(commit, commit, Seq::empty(), number),
{
    assert(commit.data.deleted.take(commit.data.deleted.len() as int) =~= commit.data.deleted);
}

/// Pruning one more row adds to what pruning the rows before it added.
pub proof fn lemma_pruned_commit_more(
    before: CommitSetView,
    middle: CommitSetView,
    after: CommitSetView,
    rows: Seq<RowView>,
    row: RowView,
    number: int,
)
    requires
        pruned_commit(before, middle, rows, number),
        after.data.inserted == middle.data.inserted,
        after.data.deleted.len() >= middle.data.deleted.len(),
        after.data.deleted.take(middle.data.deleted.len() as int) == middle.data.deleted,
        lists(after.data.deleted.skip(middle.data.deleted.len() as int), row.deleted),
        after.meta.inserted == middle.meta.inserted.push(
            (last_pruned_key(), number_bytes((number + rows.len()) as u64)),
        ),
        after.meta.deleted == middle.meta.deleted.push(row.journal_key),
    ensures
        pruned_commit(before, after, rows.push(row), number),
{
    let more = rows.push(row);
    let a = before.data.deleted.len() as int;
    let b = middle.data.deleted.len() as int;
    let added = after.data.deleted.skip(a);
    let last = after.data.deleted.skip(b);
    last.unique_seq_to_set();
    assert(more.drop_last() =~= rows);
    assert(added.skip(added.len() - row.deleted.len()) =~= last);
    assert(added.take(added.len() - row.deleted.len()) =~= middle.data.deleted.skip(a)) by {
        let x = added.take(added.len() - row.deleted.len());
        let y = middle.data.deleted.skip(a);
        assert forall|i: int| 0 <= i < x.len() implies x[i] == y[i] by {
        }
    }
    assert(after.data.deleted.take(a) =~= before.data.deleted) by {
        assert forall|i: int| 0 <= i < a implies after.data.deleted.take(a)[i]
            == before.data.deleted[i] by {
        }
    }
    assert(after.meta.inserted =~= before.meta.inserted + Seq::new(
        more.len(),
        |i: int| (last_pruned_key(), number_bytes((number + i) as u64)),
    ));
    assert(after.meta.deleted =~= before.meta.deleted + Seq::new(
        more.len(),
        |i: int| more[i].journal_key,
    ));
}

/// How many rows the prune loop prunes: it goes on while the window holds
/// more than `max_blocks` rows and the next block is not pinned.
pub open spec fn prune_count(window: WindowView, max_blocks: u64, pinned: Map<u64, u32>) -> nat
    decreases window.window_size(),
{
    if window.window_size() > max_blocks && window.next_hash() is Some && !pinned.contains_key(
        window.next_hash()->Some_0,
    ) {
        1 + prune_count(window.pruned_one(), max_blocks, pinned)
    } else {
        0
    }
}

} // verus!

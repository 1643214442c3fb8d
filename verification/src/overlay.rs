//! The mathematical model of the canonicalization window: what the overlay
//! holds and what each operation makes of it.

use vstd::prelude::*;
use crate::codec::{encodable_len, meta_key, overlay_record_bytes, pair_bytes};
use crate::types::{ChangeSetView, CommitSetView};

verus! {

/// Name of the journal entries of the canonicalization window:
/// `noncanonical_journal`.
pub const NON_CANONICAL_JOURNAL: [u8; 20] = [
    110, 111, 110, 99, 97, 110, 111, 110, 105, 99, 97, 108, 95, 106, 111, 117, 114, 110, 97, 108,
];

/// Name of the entry that holds the last canonicalized block:
/// `last_canonical`.
pub const LAST_CANONICAL: [u8; 14] = [
    108, 97, 115, 116, 95, 99, 97, 110, 111, 110, 105, 99, 97, 108,
];

/// The meta key of the journal entry of the block at `index` in the level
/// of block number `block`.
pub open spec fn journal_key(block: u64, index: u64) -> Seq<u8> {
    meta_key(NON_CANONICAL_JOURNAL@, pair_bytes(block, index))
}

/// The meta key of the last canonicalized block.
pub open spec fn last_canonical_key() -> Seq<u8> {
    meta_key(LAST_CANONICAL@, Seq::empty())
}

/// One tracked block: its hash, the key of its journal entry, and the keys
/// it inserted and deleted. The values live in the shared value map.
pub struct BlockView {
    pub hash: u64,
    pub journal_key: Seq<u8>,
    pub inserted: Seq<u64>,
    pub deleted: Seq<u64>,
}

/// The shared value map: for each key the number of references to it and
/// its value.
pub type Values = Map<u64, (nat, Seq<u8>)>;

/// The values retained for one pinned block.
pub type Snapshot = Map<u64, Seq<u8>>;

/// How often `k` occurs among `keys`.
pub open spec fn key_count(keys: Seq<u64>, k: u64) -> nat
    decreases keys.len(),
{
    if keys.len() == 0 {
        0
    } else {
        key_count(keys.drop_last(), k) + if keys.last() == k {
            1nat
        } else {
            0nat
        }
    }
}

/// The keys of a list of nodes, in order.
pub open spec fn node_keys(nodes: Seq<(u64, Seq<u8>)>) -> Seq<u64> {
    Seq::new(nodes.len(), |i: int| nodes[i].0)
}

/// Whether a block with hash `h` is in the level.
pub open spec fn level_has(level: Seq<BlockView>, h: u64) -> bool {
    exists|j: int| 0 <= j < level.len() && (#[trigger] level[j]).hash == h
}

/// The index of the first block with hash `h` in the level, or the length
/// of the level if there is none.
pub open spec fn first_index(level: Seq<BlockView>, h: u64) -> int
    decreases level.len(),
{
    if level.len() == 0 {
        0
    } else {
        let before = first_index(level.drop_last(), h);
        if before < level.len() - 1 {
            before
        } else if level.last().hash == h {
            level.len() - 1
        } else {
            level.len() as int
        }
    }
}

/// The hashes of the blocks of a level, in order.
pub open spec fn block_hashes(level: Seq<BlockView>) -> Seq<u64> {
    Seq::new(level.len(), |j: int| level[j].hash)
}

/// The journal keys of the blocks of a level, in order.
pub open spec fn block_journals(level: Seq<BlockView>) -> Seq<Seq<u8>> {
    Seq::new(level.len(), |j: int| level[j].journal_key)
}

/// The set of hashes of the blocks of a level.
pub open spec fn hash_set(level: Seq<BlockView>) -> Set<u64> {
    Set::new(|h: u64| level_has(level, h))
}

/// The keys inserted by the blocks of a level, block after block.
pub open spec fn inserted_keys(level: Seq<BlockView>) -> Seq<u64>
    decreases level.len(),
{
    if level.len() == 0 {
        Seq::empty()
    } else {
        inserted_keys(level.drop_last()) + level.last().inserted
    }
}

/// The number of references to `k` from the blocks of a level.
pub open spec fn level_refs(level: Seq<BlockView>, k: u64) -> nat
    decreases level.len(),
{
    if level.len() == 0 {
        0
    } else {
        level_refs(level.drop_last(), k) + key_count(level.last().inserted, k)
    }
}

/// The number of references to `k` from all tracked blocks.
pub open spec fn refs(levels: Seq<Seq<BlockView>>, k: u64) -> nat
    decreases levels.len(),
{
    if levels.len() == 0 {
        0
    } else {
        refs(levels.drop_last(), k) + level_refs(levels.last(), k)
    }
}

/// Whether the parent map records `parent` as the parent of `h`.
pub open spec fn is_child(parents: Map<u64, u64>, h: u64, parent: u64) -> bool {
    parents.contains_key(h) && parents[h] == parent
}

/// The blocks of a level whose parent is `parent`, in order.
pub open spec fn children_of(level: Seq<BlockView>, parents: Map<u64, u64>, parent: u64) -> Seq<
    BlockView,
>
    decreases level.len(),
{
    if level.len() == 0 {
        Seq::empty()
    } else {
        let before = children_of(level.drop_last(), parents, parent);
        if is_child(parents, level.last().hash, parent) {
            before.push(level.last())
        } else {
            before
        }
    }
}

/// The blocks of a level whose parent is not `parent`, in order.
pub open spec fn others_of(level: Seq<BlockView>, parents: Map<u64, u64>, parent: u64) -> Seq<
    BlockView,
>
    decreases level.len(),
{
    if level.len() == 0 {
        Seq::empty()
    } else {
        let before = others_of(level.drop_last(), parents, parent);
        if is_child(parents, level.last().hash, parent) {
            before
        } else {
            before.push(level.last())
        }
    }
}

/// The value map after one more reference to `k`. A key that is already
/// there keeps its value.
pub open spec fn value_inserted(values: Values, k: u64, v: Seq<u8>) -> Values {
    if values.contains_key(k) {
        values.insert(k, (values[k].0 + 1, values[k].1))
    } else {
        values.insert(k, (1, v))
    }
}

/// The value map after a reference to each of the nodes, in order.
pub open spec fn values_inserted(values: Values, nodes: Seq<(u64, Seq<u8>)>) -> Values
    decreases nodes.len(),
{
    if nodes.len() == 0 {
        values
    } else {
        value_inserted(values_inserted(values, nodes.drop_last()), nodes.last().0, nodes.last().1)
    }
}

/// The value map and a snapshot after one reference to `k` is released.
/// The last reference removes the key; where a snapshot is given, the value
/// moves into it.
pub open spec fn value_released(values: Values, snapshot: Option<Snapshot>, k: u64) -> (
    Values,
    Option<Snapshot>,
) {
    if values.contains_key(k) {
        if values[k].0 <= 1 {
            (
                values.remove(k),
                match snapshot {
                    Some(s) => Some(s.insert(k, values[k].1)),
                    None => None,
                },
            )
        } else {
            (values.insert(k, ((values[k].0 - 1) as nat, values[k].1)), snapshot)
        }
    } else {
        (values, snapshot)
    }
}

/// The value map and a snapshot after one reference to each of the keys is
/// released, in order.
pub open spec fn values_released(values: Values, snapshot: Option<Snapshot>, keys: Seq<u64>) -> (
    Values,
    Option<Snapshot>,
)
    decreases keys.len(),
{
    if keys.len() == 0 {
        (values, snapshot)
    } else {
        let before = values_released(values, snapshot, keys.drop_last());
        value_released(before.0, before.1, keys.last())
    }
}

/// The nodes of a canonicalized block as they are written to the database:
/// each inserted key with its value from the value map.
pub open spec fn materialized(values: Values, keys: Seq<u64>) -> Seq<(u64, Seq<u8>)> {
    Seq::new(keys.len(), |i: int| (keys[i], values[keys[i]].1))
}

/// The journal keys of the blocks below `parent`: those among the first
/// `upto` blocks of level `li` whose parent is `parent`, each followed by
/// the journal keys below it.
pub open spec fn journals_below(
    levels: Seq<Seq<BlockView>>,
    parents: Map<u64, u64>,
    li: int,
    parent: u64,
    upto: int,
) -> Seq<Seq<u8>>
    decreases levels.len() - li, upto,
{
    if li < 0 || li >= levels.len() || upto <= 0 || upto > levels[li].len() {
        Seq::empty()
    } else {
        let o = levels[li][upto - 1];
        let before = journals_below(levels, parents, li, parent, upto - 1);
        if is_child(parents, o.hash, parent) {
            before.push(o.journal_key) + journals_below(
                levels,
                parents,
                li + 1,
                o.hash,
                level_len(levels, li + 1),
            )
        } else {
            before
        }
    }
}

/// The number of blocks in level `li`, or 0 if there is no such level.
pub open spec fn level_len(levels: Seq<Seq<BlockView>>, li: int) -> int {
    if 0 <= li < levels.len() {
        levels[li].len() as int
    } else {
        0
    }
}

/// The journal keys that canonicalizing the block at `index` of level `li`
/// discards, as far as the first `upto` blocks of the level give them: for
/// each block the journal keys below it, unless it is the canonicalized
/// one, and then its own.
pub open spec fn journals_discarded(
    levels: Seq<Seq<BlockView>>,
    parents: Map<u64, u64>,
    li: int,
    index: int,
    upto: int,
) -> Seq<Seq<u8>>
    decreases upto,
{
    if li < 0 || li >= levels.len() || upto <= 0 || upto > levels[li].len() {
        Seq::empty()
    } else {
        let o = levels[li][upto - 1];
        let before = journals_discarded(levels, parents, li, index, upto - 1);
        let below = if upto - 1 != index {
            journals_below(levels, parents, li + 1, o.hash, level_len(levels, li + 1))
        } else {
            Seq::empty()
        };
        (before + below).push(o.journal_key)
    }
}

/// The index of the first level whose last block has hash `h`, or the
/// number of levels if there is none.
pub open spec fn tail_level(levels: Seq<Seq<BlockView>>, h: u64) -> int
    decreases levels.len(),
{
    if levels.len() == 0 {
        0
    } else {
        let before = tail_level(levels.drop_last(), h);
        if before < levels.len() - 1 {
            before
        } else if levels.last().len() > 0 && levels.last().last().hash == h {
            levels.len() - 1
        } else {
            levels.len() as int
        }
    }
}

/// A block is small enough for a journal record: it inserted and deleted
/// no more keys than a record can hold.
pub open spec fn block_sized(block: BlockView) -> bool {
    encodable_len(block.inserted.len()) && encodable_len(block.deleted.len())
}

/// Every block of the level is small enough for a journal record.
pub open spec fn level_sized(level: Seq<BlockView>) -> bool {
    forall|j: int| 0 <= j < level.len() ==> block_sized(#[trigger] level[j])
}

/// Every block of the window is small enough for a journal record.
pub open spec fn levels_sized(levels: Seq<Seq<BlockView>>) -> bool {
    forall|i: int| 0 <= i < levels.len() ==> level_sized(#[trigger] levels[i])
}

/// Whether a block with hash `h` is in some level.
pub open spec fn levels_track(levels: Seq<Seq<BlockView>>, h: u64) -> bool {
    exists|i: int| 0 <= i < levels.len() && level_has(#[trigger] levels[i], h)
}

/// What the canonicalization window holds.
pub struct OverlayView {
    /// The last canonicalized block and its number.
    pub last_canonicalized: Option<(u64, u64)>,
    /// The tracked blocks, one level per block number, the oldest first.
    pub levels: Seq<Seq<BlockView>>,
    /// The parent of each tracked block.
    pub parents: Map<u64, u64>,
    /// The blocks canonicalized since the last apply or revert.
    pub pending_canonicalizations: Seq<u64>,
    /// The blocks inserted since the last apply or revert.
    pub pending_insertions: Seq<u64>,
    /// The values of all tracked blocks, with their reference counts.
    pub values: Values,
    /// The values retained for each pinned block.
    pub pinned: Map<u64, Snapshot>,
}

impl OverlayView {
    /// The overlay that tracks nothing.
    pub open spec fn empty() -> OverlayView {
        OverlayView {
            last_canonicalized: None,
            levels: Seq::empty(),
            parents: Map::empty(),
            pending_canonicalizations: Seq::empty(),
            pending_insertions: Seq::empty(),
            values: Map::empty(),
            pinned: Map::empty(),
        }
    }

    /// The block number of the first level.
    pub open spec fn front_block_number(self) -> int {
        match self.last_canonicalized {
            Some((_, n)) => n + 1,
            None => 0,
        }
    }

    /// Whether a block with hash `h` is in some level.
    pub open spec fn tracks(self, h: u64) -> bool {
        levels_track(self.levels, h)
    }

    /// A block belongs to exactly one level, and is there once.
    pub open spec fn unique_blocks(self) -> bool {
        forall|i: int, j: int, i2: int, j2: int|
            0 <= i < self.levels.len() && 0 <= j < self.levels[i].len() && 0 <= i2
                < self.levels.len() && 0 <= j2 < self.levels[i2].len() && (
            #[trigger] self.levels[i][j]).hash == (#[trigger] self.levels[i2][j2]).hash ==> i == i2
                && j == j2
    }

    /// The parent map has an entry for each tracked block and no other.
    pub open spec fn parents_match(self) -> bool {
        forall|h: u64| self.parents.contains_key(h) <==> self.tracks(h)
    }

    /// The reference count of each key is the number of references to it
    /// from tracked blocks, and a key without references is not in the
    /// value map.
    pub open spec fn counted(self) -> bool {
        forall|k: u64| #[trigger] self.counted_at(k)
    }

    /// The reference count of `k` is the number of references to it from
    /// tracked blocks, and without references `k` is not in the value map.
    pub open spec fn counted_at(self, k: u64) -> bool {
        if self.values.contains_key(k) {
            self.values[k].0 == refs(self.levels, k) && refs(self.levels, k) > 0
        } else {
            refs(self.levels, k) == 0
        }
    }

    /// Every level has a block number: the numbers do not run past `u64`.
    pub open spec fn numbered(self) -> bool {
        match self.last_canonicalized {
            Some((_, n)) => n + self.levels.len() <= u64::MAX,
            None => self.levels.len() <= u64::MAX + 1,
        }
    }

    /// Every block is small enough for a journal record.
    pub open spec fn sized(self) -> bool {
        levels_sized(self.levels)
    }

    /// The overlay is as the journal gives it: no level is empty, and
    /// every block is stored under the journal key of its place, that is,
    /// of the number of its level and of its index in the level. An overlay
    /// that has no last canonicalized block has no level. This holds of an
    /// overlay that was read from the journal; once blocks are discarded,
    /// the blocks that stay keep the keys they were written under.
    pub open spec fn journaled(self) -> bool {
        match self.last_canonicalized {
            Some((_, n)) => {
                &&& forall|i: int|
                    0 <= i < self.levels.len() ==> (#[trigger] self.levels[i]).len() > 0
                &&& forall|i: int, j: int|
                    0 <= i < self.levels.len() && 0 <= j < self.levels[i].len() ==> (
                    #[trigger] self.levels[i][j]).journal_key == journal_key(
                        (n + 1 + i) as u64,
                        j as u64,
                    )
            },
            None => self.levels.len() == 0,
        }
    }

    /// The overlay before the journal is read: it knows the last
    /// canonicalized block, if one is stored, and nothing else.
    pub open spec fn opened(last_canonicalized: Option<(u64, u64)>) -> OverlayView {
        OverlayView { last_canonicalized, ..OverlayView::empty() }
    }

    /// The invariant of the overlay.
    pub open spec fn wf(self) -> bool {
        &&& self.unique_blocks()
        &&& self.sized()
        &&& self.parents_match()
        &&& self.counted()
        &&& self.numbered()
        &&& self.pending_canonicalizations.len() <= self.levels.len()
    }

    /// The number of references to `k` that the value map records.
    pub open spec fn ref_count(self, k: u64) -> nat {
        if self.values.contains_key(k) {
            self.values[k].0
        } else {
            0
        }
    }

    /// The number of the last canonicalized block, pending
    /// canonicalizations included.
    pub open spec fn last_canonicalized_block_number(self) -> Option<int> {
        match self.last_canonicalized {
            Some((_, n)) => Some(n + self.pending_canonicalizations.len()),
            None => if self.pending_canonicalizations.len() > 0 {
                Some(self.pending_canonicalizations.len() as int)
            } else {
                None
            },
        }
    }

    /// Whether the block is in the canonicalization queue.
    pub open spec fn have_block(self, h: u64) -> bool {
        (self.parents.contains_key(h) || self.pending_insertions.contains(h))
            && !self.pending_canonicalizations.contains(h)
    }

    /// Whether some pinned snapshot holds `key` with value `v`.
    pub open spec fn pinned_holds(self, key: u64, v: Seq<u8>) -> bool {
        exists|h: u64|
            self.pinned.contains_key(h) && (#[trigger] self.pinned[h]).contains_key(key)
                && self.pinned[h][key] == v
    }

    /// Whether some pinned snapshot holds `key`.
    pub open spec fn pinned_has(self, key: u64) -> bool {
        exists|h: u64| self.pinned.contains_key(h) && (#[trigger] self.pinned[h]).contains_key(key)
    }

    /// Whether a lookup of `key` may answer `r`: the value map decides
    /// where it has the key; else any pinned snapshot that has the key may
    /// answer; else there is no answer.
    pub open spec fn answers(self, key: u64, r: Option<Seq<u8>>) -> bool {
        if self.values.contains_key(key) {
            r == Some(self.values[key].1)
        } else {
            match r {
                Some(v) => self.pinned_holds(key, v),
                None => !self.pinned_has(key),
            }
        }
    }

    /// The overlay after the references to `keys` held by a block are
    /// released; values that lose their last reference move into the
    /// snapshot of `owner`, if it is pinned.
    pub open spec fn released(self, owner: u64, keys: Seq<u64>) -> OverlayView {
        let r = values_released(self.values, self.pinned.get(owner), keys);
        OverlayView {
            values: r.0,
            pinned: match r.1 {
                Some(s) => self.pinned.insert(owner, s),
                None => self.pinned,
            },
            ..self
        }
    }

    /// Whether an insertion adopts the parent as the last canonicalized
    /// block: that is the case for the first block, unless it is block 0.
    pub open spec fn adopts_parent(self, number: u64) -> bool {
        self.levels.len() == 0 && self.last_canonicalized is None && number > 0
    }

    /// Whether an insertion is refused for its block number.
    pub open spec fn number_refused(self, number: u64) -> bool {
        !self.adopts_parent(number) && match self.last_canonicalized {
            Some(_) => number < self.front_block_number() || number > self.front_block_number()
                + self.levels.len(),
            None => number > self.levels.len(),
        }
    }

    /// Whether an insertion is refused for its parent: at the front level
    /// the parent has to be the last canonicalized block, above it a
    /// tracked block.
    pub open spec fn parent_refused(self, number: u64, parent: u64) -> bool {
        !self.adopts_parent(number) && match self.last_canonicalized {
            Some((h, n)) => if number == self.front_block_number() {
                h != parent
            } else {
                !self.parents.contains_key(parent)
            },
            None => false,
        }
    }

    /// The index of the level that takes a block with the given number.
    pub open spec fn level_of(self, number: u64) -> int {
        if self.levels.len() == 0 {
            0
        } else {
            number - self.front_block_number()
        }
    }

    /// The overlay with one more block at the end of level `li`, which is
    /// a new level if `li` is the number of levels.
    pub open spec fn with_block(
        self,
        li: int,
        block: BlockView,
        parent: u64,
        nodes: Seq<(u64, Seq<u8>)>,
    ) -> OverlayView {
        OverlayView {
            levels: if li == self.levels.len() {
                self.levels.push(seq![block])
            } else {
                self.levels.update(li, self.levels[li].push(block))
            },
            parents: self.parents.insert(block.hash, parent),
            values: values_inserted(self.values, nodes),
            ..self
        }
    }

    /// Whether a record read from the journal can be taken in: it decoded,
    /// its block is not in the window yet and is small enough to be written
    /// again, and the reference counters have room for the nodes it
    /// inserted.
    pub open spec fn restorable(
        self,
        record: Option<(u64, u64, Seq<(u64, Seq<u8>)>, Seq<u64>)>,
    ) -> bool {
        match record {
            Some((hash, _, nodes, deleted)) => !self.parents.contains_key(hash) && encodable_len(
                nodes.len(),
            ) && encodable_len(deleted.len()) && forall|k: u64|
                self.ref_count(k) + key_count(node_keys(nodes), k) <= u32::MAX,
            None => false,
        }
    }

    /// The overlay with the block of a journal record at the end of level
    /// `li`.
    pub open spec fn restored(
        self,
        li: int,
        journal_key: Seq<u8>,
        record: (u64, u64, Seq<(u64, Seq<u8>)>, Seq<u64>),
    ) -> OverlayView {
        self.with_block(
            li,
            BlockView {
                hash: record.0,
                journal_key,
                inserted: node_keys(record.2),
                deleted: record.3,
            },
            record.1,
            record.2,
        )
    }

    /// The block that an accepted insertion adds.
    pub open spec fn inserted_block(
        self,
        hash: u64,
        number: u64,
        nodes: Seq<(u64, Seq<u8>)>,
        deleted: Seq<u64>,
    ) -> BlockView {
        let li = self.level_of(number);
        BlockView {
            hash,
            journal_key: journal_key(number, level_len(self.levels, li) as u64),
            inserted: node_keys(nodes),
            deleted,
        }
    }

    /// The overlay after an accepted insertion.
    pub open spec fn inserted(
        self,
        hash: u64,
        number: u64,
        parent: u64,
        nodes: Seq<(u64, Seq<u8>)>,
        deleted: Seq<u64>,
    ) -> OverlayView {
        let adopted = OverlayView {
            last_canonicalized: if self.adopts_parent(number) {
                Some((parent, (number - 1) as u64))
            } else {
                self.last_canonicalized
            },
            pending_insertions: self.pending_insertions.push(hash),
            ..self
        };
        adopted.with_block(
            self.level_of(number),
            self.inserted_block(hash, number, nodes, deleted),
            parent,
            nodes,
        )
    }

    /// What an accepted insertion hands back to be written: the journal
    /// entry of the block, after the last canonicalized block if the
    /// insertion adopted one.
    pub open spec fn insert_commit(
        self,
        hash: u64,
        number: u64,
        parent: u64,
        nodes: Seq<(u64, Seq<u8>)>,
        deleted: Seq<u64>,
    ) -> CommitSetView {
        let record = (
            self.inserted_block(hash, number, nodes, deleted).journal_key,
            overlay_record_bytes(hash, parent, nodes, deleted),
        );
        CommitSetView {
            data: ChangeSetView::empty(),
            meta: ChangeSetView {
                inserted: if self.adopts_parent(number) {
                    seq![(last_canonical_key(), pair_bytes(parent, (number - 1) as u64)), record]
                } else {
                    seq![record]
                },
                deleted: Seq::empty(),
            },
        }
    }

    /// Whether canonicalizing `hash` is refused: there is no level left to
    /// canonicalize, or the block is not in it.
    pub open spec fn canonicalize_refused(self, hash: u64) -> bool {
        self.pending_canonicalizations.len() >= self.levels.len() || !level_has(
            self.levels[self.pending_canonicalizations.len() as int],
            hash,
        )
    }

    /// The number that the next canonicalized block gets.
    pub open spec fn next_canonical_number(self) -> int {
        self.front_block_number() + self.pending_canonicalizations.len()
    }

    /// The overlay after `hash` is canonicalized: the block is noted, the
    /// tree stays as it is until the canonicalization is applied.
    pub open spec fn canonicalized(self, hash: u64) -> OverlayView {
        OverlayView {
            pending_canonicalizations: self.pending_canonicalizations.push(hash),
            ..self
        }
    }

    /// What canonicalizing `hash` adds to a commit set: the nodes that the
    /// block inserted, with their values; the keys it deleted; the journal
    /// entries of its level and of all that is built on the other blocks
    /// of the level, to be deleted; and the block as the last canonicalized
    /// one.
    pub open spec fn canonicalize_commit(self, commit: CommitSetView, hash: u64) -> CommitSetView {
        let p = self.pending_canonicalizations.len() as int;
        let level = self.levels[p];
        let index = first_index(level, hash);
        let o = level[index];
        CommitSetView {
            data: ChangeSetView {
                inserted: commit.data.inserted + materialized(self.values, o.inserted),
                deleted: commit.data.deleted + o.deleted,
            },
            meta: ChangeSetView {
                inserted: commit.meta.inserted.push(
                    (last_canonical_key(), pair_bytes(hash, self.next_canonical_number() as u64)),
                ),
                deleted: commit.meta.deleted + journals_discarded(
                    self.levels,
                    self.parents,
                    p,
                    index,
                    level.len() as int,
                ),
            },
        }
    }

    /// The overlay after the children of `parent` have left level `li`:
    /// they leave the level and the parent map, and their references are
    /// released into the snapshot of `parent`.
    pub open spec fn level_filtered(self, li: int, parent: u64) -> OverlayView {
        let level = self.levels[li];
        let children = children_of(level, self.parents, parent);
        OverlayView {
            levels: self.levels.update(li, others_of(level, self.parents, parent)),
            parents: self.parents.remove_keys(hash_set(children)),
            ..self
        }.released(parent, inserted_keys(children))
    }

    /// The overlay after the blocks below `parent` are discarded from level
    /// `li` on, `depth` levels deep: the children of `parent` leave level
    /// `li`, and then the blocks below each child are discarded in turn.
    pub open spec fn discard_descendants(self, li: int, parent: u64, depth: nat) -> OverlayView
        decreases depth, 0nat, 0nat,
    {
        if depth == 0 || li < 0 || li >= self.levels.len() {
            self
        } else {
            let children = children_of(self.levels[li], self.parents, parent);
            self.level_filtered(li, parent).discard_each(
                li + 1,
                block_hashes(children),
                children.len(),
                (depth - 1) as nat,
            )
        }
    }

    /// The overlay after the blocks below each of the first `upto` of
    /// `hashes` are discarded from level `li` on.
    pub open spec fn discard_each(self, li: int, hashes: Seq<u64>, upto: nat, depth: nat) -> OverlayView
        decreases depth, 1nat, upto,
    {
        if upto == 0 || upto > hashes.len() {
            self
        } else {
            self.discard_each(li, hashes, (upto - 1) as nat, depth).discard_descendants(
                li,
                hashes[upto - 1],
                depth,
            )
        }
    }

    /// The overlay after the first `upto` blocks of a level that has left
    /// the window are dealt with: each block leaves the parent map; the
    /// blocks below it are discarded, unless it is the canonicalized one at
    /// `index`; and its references are released into its own snapshot.
    pub open spec fn front_processed(self, level: Seq<BlockView>, index: int, upto: nat) -> OverlayView
        decreases upto,
    {
        if upto == 0 || upto > level.len() {
            self
        } else {
            let before = self.front_processed(level, index, (upto - 1) as nat);
            let o = level[upto - 1];
            let unparented = OverlayView { parents: before.parents.remove(o.hash), ..before };
            let discarded = if upto - 1 != index {
                unparented.discard_descendants(0, o.hash, unparented.levels.len())
            } else {
                unparented
            };
            discarded.released(o.hash, o.inserted)
        }
    }

    /// The overlay after the canonicalization of `hash` is applied: the
    /// front level leaves the window, and with it all that was built on its
    /// other blocks.
    pub open spec fn applied_one(self, hash: u64) -> OverlayView {
        if self.levels.len() == 0 {
            self
        } else {
            let level = self.levels[0];
            OverlayView { levels: self.levels.drop_first(), ..self }.front_processed(
                level,
                first_index(level, hash),
                level.len(),
            )
        }
    }

    /// The overlay after the canonicalizations of `hashes` are applied, in
    /// order.
    pub open spec fn applied_each(self, hashes: Seq<u64>) -> OverlayView
        decreases hashes.len(),
    {
        if hashes.len() == 0 {
            self
        } else {
            self.applied_each(hashes.drop_last()).applied_one(hashes.last())
        }
    }

    /// The last canonicalized block once the pending canonicalizations are
    /// applied.
    pub open spec fn canonical_after_apply(self) -> Option<(u64, u64)> {
        let count = self.pending_canonicalizations.len();
        if count == 0 {
            self.last_canonicalized
        } else {
            Some(
                (
                    self.pending_canonicalizations.last(),
                    match self.last_canonicalized {
                        Some((_, n)) => (n + count) as u64,
                        None => (count - 1) as u64,
                    },
                ),
            )
        }
    }

    /// The overlay after the pending canonicalizations are applied.
    pub open spec fn canonicalizations_applied(self) -> OverlayView {
        OverlayView {
            last_canonicalized: self.canonical_after_apply(),
            pending_canonicalizations: Seq::empty(),
            ..self.applied_each(self.pending_canonicalizations)
        }
    }

    /// The overlay after all pending changes are applied.
    pub open spec fn pending_applied(self) -> OverlayView {
        OverlayView { pending_insertions: Seq::empty(), ..self.canonicalizations_applied() }
    }

    /// Whether the last level cannot be reverted: there is none, or it
    /// holds a pending canonicalization.
    pub open spec fn revert_refused(self) -> bool {
        self.levels.len() <= self.pending_canonicalizations.len()
    }

    /// The overlay after the last level is reverted.
    pub open spec fn reverted_one(self) -> OverlayView {
        let level = self.levels.last();
        OverlayView {
            levels: self.levels.drop_last(),
            parents: self.parents.remove_keys(hash_set(level)),
            values: values_released(self.values, None, inserted_keys(level)).0,
            ..self
        }
    }

    /// What reverting the last level hands back to be written: the journal
    /// entries of its blocks, to be deleted.
    pub open spec fn revert_commit(self) -> CommitSetView {
        CommitSetView {
            data: ChangeSetView::empty(),
            meta: ChangeSetView {
                inserted: Seq::empty(),
                deleted: block_journals(self.levels.last()),
            },
        }
    }

    /// The overlay after the insertion of `hash` is taken back. The block
    /// has to be the last of its level; if it is not, nothing changes. A
    /// last level that becomes empty leaves the window.
    pub open spec fn insertion_reverted(self, hash: u64) -> OverlayView {
        let li = tail_level(self.levels, hash);
        if li >= self.levels.len() {
            self
        } else {
            let o = self.levels[li].last();
            let popped = self.levels.update(li, self.levels[li].drop_last());
            OverlayView {
                levels: if popped[li].len() == 0 && li == popped.len() - 1 {
                    popped.drop_last()
                } else {
                    popped
                },
                parents: self.parents.remove(hash),
                values: values_released(self.values, None, o.inserted).0,
                ..self
            }
        }
    }

    /// The overlay after the insertions of `hashes` are taken back, the
    /// last first.
    pub open spec fn insertions_reverted(self, hashes: Seq<u64>) -> OverlayView
        decreases hashes.len(),
    {
        if hashes.len() == 0 {
            self
        } else {
            self.insertion_reverted(hashes.last()).insertions_reverted(hashes.drop_last())
        }
    }

    /// The overlay after all pending changes are reverted.
    pub open spec fn pending_reverted(self) -> OverlayView {
        OverlayView {
            pending_insertions: Seq::empty(),
            ..(OverlayView { pending_canonicalizations: Seq::empty(), ..self }).insertions_reverted(
                self.pending_insertions,
            )
        }
    }

    /// The blocks that can be canonicalized next, each with the number of
    /// the last canonicalized block.
    pub open spec fn top_level(self) -> Seq<(u64, u64)> {
        let p = self.pending_canonicalizations.len() as int;
        let start = match self.last_canonicalized_block_number() {
            Some(n) => n as u64,
            None => 0,
        };
        if p < self.levels.len() {
            Seq::new(self.levels[p].len(), |j: int| (self.levels[p][j].hash, start))
        } else {
            Seq::empty()
        }
    }

    /// The overlay after `hash` is pinned: a tracked block gets an empty
    /// snapshot, for any other block nothing changes.
    pub open spec fn pin(self, hash: u64) -> OverlayView {
        if self.parents.contains_key(hash) {
            OverlayView { pinned: self.pinned.insert(hash, Map::empty()), ..self }
        } else {
            self
        }
    }

    /// The overlay after the snapshot of `hash` is dropped.
    pub open spec fn unpin(self, hash: u64) -> OverlayView {
        OverlayView { pinned: self.pinned.remove(hash), ..self }
    }
}

} // verus!

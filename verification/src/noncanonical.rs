//! Canonicalization window.
//!
//! Maintains trees of block overlays and allows discarding trees and roots.
//! The overlays are added in `insert` and removed in `canonicalize`. All
//! pending changes are kept in memory until the next call to
//! `apply_pending` or `revert_pending`.

use vstd::prelude::*;
use std::collections::{HashMap, VecDeque};
use crate::codec::{
    decode_overlay_record, decode_pair, encodable_len, encodable_nodes, encode_overlay_record,
    encode_pair, overlay_record_bytes, overlay_record_parsed, pair_bytes, pair_parsed,
    to_meta_key,
};
use crate::overlay::{
    block_hashes, block_journals, children_of, hash_set, inserted_keys, is_child, others_of,
    first_index, journal_key, journals_below, journals_discarded, key_count, last_canonical_key,
    level_has, level_len, materialized, node_keys, values_inserted, values_released, BlockView,
    OverlayView, Snapshot, Values, LAST_CANONICAL, NON_CANONICAL_JOURNAL,
};
use crate::overlay_lemmas::{
    counted_refs, distinct, has_room, lemma_children_others, lemma_first_index,
    lemma_first_index_is, lemma_front_popped_ok, lemma_insertion_reverted_ok,
    lemma_reverted_one_wf, lemma_tail_level_is, lemma_values_released_concat, lemma_wf_same,
    lemma_front_released_ok, lemma_front_unparented_ok, lemma_inserted_key_has_value,
    lemma_inserted_wf, lemma_counted_key_occurs, lemma_key_count_prefix, lemma_level_filtered_ok,
    lemma_released_twice, lemma_remove_child, lemma_tree_ok_plain, lemma_tree_ok_same,
    lemma_values_released_none, lemma_values_released_some, lemma_wf_from_tree,
    lemma_with_block_wf, tree_ok,
};
use crate::types::{
    empty_commit, entries_view, names_view, nodes_view, BlockHash, BranchRanges, ChangeSet,
    ChangeSetView, CommitSet, DBValue, Error, Key, MetaDb,
};

verus! {

broadcast use vstd::std_specs::hash::group_hash_axioms;

/// The meta key of the journal entry of the block at `index` in the level
/// of block number `block`.
pub fn to_journal_key(block: u64, index: u64) -> (r: Vec<u8>)
    ensures
        r@ == journal_key(block, index),
{
    to_meta_key(NON_CANONICAL_JOURNAL.as_slice(), encode_pair(block, index))
}

/// One block of the window. Only the keys are kept per block; the values
/// live in the shared value map.
pub struct BlockOverlay {
    hash: BlockHash,
    journal_key: Vec<u8>,
    inserted: Vec<Key>,
    deleted: Vec<Key>,
}

impl DeepView for BlockOverlay {
    type V = BlockView;

    closed spec fn deep_view(&self) -> BlockView {
        BlockView {
            hash: self.hash,
            journal_key: self.journal_key@,
            inserted: self.inserted@,
            deleted: self.deleted@,
        }
    }
}

/// What a value map holds: for each key the number of references to it and
/// its value.
pub open spec fn values_view(m: Map<Key, (u32, DBValue)>) -> Values {
    Map::new(|k: u64| m.contains_key(k), |k: u64| (m[k].0 as nat, m[k].1@))
}

/// What the snapshot of a pinned block holds.
pub open spec fn snapshot_view(m: Map<Key, DBValue>) -> Snapshot {
    Map::new(|k: u64| m.contains_key(k), |k: u64| m[k]@)
}

/// What an optional snapshot holds.
pub open spec fn snapshot_option_view(s: Option<HashMap<Key, DBValue>>) -> Option<Snapshot> {
    match s {
        Some(m) => Some(snapshot_view(m@)),
        None => None,
    }
}

/// What the snapshots of the pinned blocks hold.
pub open spec fn pinned_view(m: Map<BlockHash, HashMap<Key, DBValue>>) -> Map<u64, Snapshot> {
    Map::new(|h: u64| m.contains_key(h), |h: u64| snapshot_view(m[h]@))
}

/// Adds a reference to each of the nodes to the value map. A key that is
/// already there keeps its value.
fn insert_values(values: &mut HashMap<Key, (u32, DBValue)>, inserted: Vec<(Key, DBValue)>)
    requires
        has_room(values_view(old(values)@), node_keys(nodes_view(inserted@))),
    ensures
        values_view(final(values)@) == values_inserted(
            values_view(old(values)@),
            nodes_view(inserted@),
        ),
{
    let ghost nodes = nodes_view(inserted@);
    let ghost start = values_view(values@);
    for node in it: inserted
        invariant
            it.seq() == inserted@,
            nodes == nodes_view(inserted@),
            has_room(start, node_keys(nodes)),
            values_view(values@) == values_inserted(start, nodes.take(it.index() as int)),
            forall|k: u64|
                counted_refs(values_view(values@), k) == counted_refs(start, k) + key_count(
                    node_keys(nodes.take(it.index() as int)),
                    k,
                ),
    {
        let ghost i = it.index() as int;
        let ghost before = values_view(values@);
        let (k, v) = node;
        proof {
            assert(nodes.take(i + 1).drop_last() =~= nodes.take(i));
            assert(node_keys(nodes.take(i + 1)).drop_last() =~= node_keys(nodes.take(i)));
            lemma_key_count_prefix(node_keys(nodes), i + 1, k);
            assert(node_keys(nodes).take(i + 1) =~= node_keys(nodes.take(i + 1)));
            assert(counted_refs(before, k) < u32::MAX);
        }
        match values.remove(&k) {
            Some((counter, value)) => {
                values.insert(k, (counter + 1, value));
            },
            None => {
                values.insert(k, (1, v));
            },
        }
        assert forall|k2: u64|
            counted_refs(values_view(values@), k2) == counted_refs(start, k2) + key_count(
                node_keys(nodes.take(i + 1)),
                k2,
            ) by {
            assert(counted_refs(before, k2) == counted_refs(start, k2) + key_count(
                node_keys(nodes.take(i)),
                k2,
            ));
        }
    }
    assert(nodes.take(nodes.len() as int) =~= nodes);
}

/// Releases one reference to each of the keys. A value that loses its last
/// reference leaves the value map and moves into the snapshot, if there is
/// one. A key that the value map does not have is passed over.
fn discard_values(
    values: &mut HashMap<Key, (u32, DBValue)>,
    inserted: &Vec<Key>,
    into: &mut Option<HashMap<Key, DBValue>>,
)
    ensures
        (values_view(final(values)@), snapshot_option_view(*final(into))) == values_released(
            values_view(old(values)@),
            snapshot_option_view(*old(into)),
            inserted@,
        ),
{
    let ghost start = values_view(values@);
    let ghost start_into = snapshot_option_view(*into);
    let mut i: usize = 0;
    while i < inserted.len()
        invariant
            i <= inserted@.len(),
            (values_view(values@), snapshot_option_view(*into)) == values_released(
                start,
                start_into,
                inserted@.take(i as int),
            ),
        decreases inserted@.len() - i,
    {
        let k = inserted[i];
        proof {
            assert(inserted@.take(i + 1).drop_last() =~= inserted@.take(i as int));
        }
        match values.remove(&k) {
            Some((counter, value)) => {
                if counter <= 1 {
                    match into {
                        Some(snapshot) => {
                            snapshot.insert(k, value);
                        },
                        None => {},
                    }
                } else {
                    values.insert(k, (counter - 1, value));
                }
            },
            None => {},
        }
        i += 1;
    }
    assert(inserted@.take(inserted@.len() as int) =~= inserted@);
}

/// The keys of a list of nodes, in order.
fn keys_of(nodes: &Vec<(Key, DBValue)>) -> (r: Vec<Key>)
    ensures
        r@ == node_keys(nodes_view(nodes@)),
{
    let mut keys: Vec<Key> = Vec::new();
    let mut i: usize = 0;
    while i < nodes.len()
        invariant
            i <= nodes@.len(),
            keys@ == node_keys(nodes_view(nodes@)).take(i as int),
        decreases nodes@.len() - i,
    {
        keys.push(nodes[i].0);
        i += 1;
    }
    keys
}

/// What the levels of the window hold.
pub closed spec fn levels_view(levels: Seq<Vec<BlockOverlay>>) -> Seq<Seq<BlockView>> {
    Seq::new(levels.len(), |i: int| level_view(levels[i]@))
}

/// What one level of the window holds.
pub closed spec fn level_view(level: Seq<BlockOverlay>) -> Seq<BlockView> {
    Seq::new(level.len(), |j: int| level[j].deep_view())
}

/// Puts a block at the end of level `li`, which becomes a new level if
/// `li` is the number of levels.
fn push_block(levels: &mut VecDeque<Vec<BlockOverlay>>, li: usize, block: BlockOverlay)
    requires
        li <= old(levels)@.len(),
    ensures
        levels_view(final(levels)@) == (if li == old(levels)@.len() {
            levels_view(old(levels)@).push(seq![block.deep_view()])
        } else {
            levels_view(old(levels)@).update(
                li as int,
                levels_view(old(levels)@)[li as int].push(block.deep_view()),
            )
        }),
{
    if li == levels.len() {
        let mut level: Vec<BlockOverlay> = Vec::new();
        level.push(block);
        assert(level_view(level@) =~= seq![block.deep_view()]);
        levels.push_back(level);
    } else {
        let mut level = levels.remove(li).unwrap();
        let ghost shorter = level@;
        level.push(block);
        assert(level_view(level@) =~= level_view(shorter).push(block.deep_view()));
        levels.insert(li, level);
    }
}

/// The canonicalization window: the tree of blocks that are not canonical
/// yet, with the values they inserted.
pub struct NonCanonicalOverlay {
    last_canonicalized: Option<(BlockHash, u64)>,
    levels: VecDeque<Vec<BlockOverlay>>,
    parents: HashMap<BlockHash, BlockHash>,
    pending_canonicalizations: Vec<BlockHash>,
    pending_insertions: Vec<BlockHash>,
    values: HashMap<Key, (u32, DBValue)>,
    pinned: HashMap<BlockHash, HashMap<Key, DBValue>>,
}

impl View for NonCanonicalOverlay {
    type V = OverlayView;

    closed spec fn view(&self) -> OverlayView {
        OverlayView {
            last_canonicalized: self.last_canonicalized,
            levels: levels_view(self.levels@),
            parents: self.parents@,
            pending_canonicalizations: self.pending_canonicalizations@,
            pending_insertions: self.pending_insertions@,
            values: values_view(self.values@),
            pinned: pinned_view(self.pinned@),
        }
    }
}

impl NonCanonicalOverlay {
    /// The invariant of the overlay.
    pub open spec fn wf(&self) -> bool {
        self@.wf()
    }

    /// An overlay that tracks nothing and knows no canonical block.
    pub fn empty() -> (r: NonCanonicalOverlay)
        ensures
            r@ == OverlayView::empty(),
            r.wf(),
    {
        let r = NonCanonicalOverlay {
            last_canonicalized: None,
            levels: VecDeque::new(),
            parents: HashMap::new(),
            pending_canonicalizations: Vec::new(),
            pending_insertions: Vec::new(),
            values: HashMap::new(),
            pinned: HashMap::new(),
        };
        proof {
            assert(levels_view(r.levels@) =~= Seq::empty());
            assert(values_view(r.values@) =~= Map::empty());
            assert(pinned_view(r.pinned@) =~= Map::empty());
        }
        r
    }

    /// Whether the value map has room for one more reference to each of
    /// the keys of the nodes, as often as the key occurs among them.
    fn has_room_for(&self, nodes: &Vec<(Key, DBValue)>) -> (r: bool)
        requires
            nodes@.len() <= u32::MAX,
        ensures
            r == has_room(self@.values, node_keys(nodes_view(nodes@))),
    {
        let ghost keys = node_keys(nodes_view(nodes@));
        let ghost values = self@.values;
        let mut seen: HashMap<Key, u64> = HashMap::new();
        let mut i: usize = 0;
        while i < nodes.len()
            invariant
                i <= nodes@.len() <= u32::MAX,
                keys == node_keys(nodes_view(nodes@)),
                forall|k: u64| seen@.contains_key(k) <==> key_count(keys.take(i as int), k) > 0,
                forall|k: u64|
                    seen@.contains_key(k) ==> #[trigger] seen@[k] == key_count(
                        keys.take(i as int),
                        k,
                    ),
                forall|k: u64| key_count(keys.take(i as int), k) <= i,
            decreases nodes@.len() - i,
        {
            let k = nodes[i].0;
            proof {
                assert(keys.take(i + 1).drop_last() =~= keys.take(i as int));
            }
            let count: u64 = match seen.get(&k) {
                Some(count) => *count,
                None => 0,
            };
            let ghost fewer = keys.take(i as int);
            let ghost more = keys.take(i + 1);
            seen.insert(k, count + 1);
            assert forall|k2: u64| key_count(more, k2) <= i + 1 by {
                assert(key_count(fewer, k2) <= i);
            }
            i += 1;
        }
        assert(keys.take(nodes@.len() as int) =~= keys);
        let mut j: usize = 0;
        while j < nodes.len()
            invariant
                j <= nodes@.len(),
                keys == node_keys(nodes_view(nodes@)),
                values == self@.values,
                forall|k: u64| seen@.contains_key(k) <==> key_count(keys, k) > 0,
                forall|k: u64| seen@.contains_key(k) ==> #[trigger] seen@[k] == key_count(keys, k),
                forall|k: u64| key_count(keys, k) <= u32::MAX,
                forall|n: int|
                    0 <= n < j ==> counted_refs(values, #[trigger] keys[n]) + key_count(
                        keys,
                        keys[n],
                    ) <= u32::MAX,
            decreases nodes@.len() - j,
        {
            let k = nodes[j].0;
            let added: u64 = match seen.get(&k) {
                Some(count) => *count,
                None => 0,
            };
            let counted: u64 = match self.values.get(&k) {
                Some(entry) => entry.0 as u64,
                None => 0,
            };
            if counted + added > u32::MAX as u64 {
                return false;
            }
            j += 1;
        }
        proof {
            assert forall|k: u64| counted_refs(values, k) + key_count(keys, k) <= u32::MAX by {
                if key_count(keys, k) > 0 {
                    lemma_counted_key_occurs(keys, k);
                }
            }
        }
        true
    }

    /// Whether the nodes can be stored in a journal record: neither the
    /// list nor any value in it is too long.
    fn encodable(nodes: &Vec<(Key, DBValue)>) -> (r: bool)
        ensures
            r == encodable_nodes(nodes_view(nodes@)),
    {
        if nodes.len() > u32::MAX as usize {
            return false;
        }
        let mut i: usize = 0;
        while i < nodes.len()
            invariant
                i <= nodes@.len() <= u32::MAX,
                forall|n: int|
                    0 <= n < i ==> encodable_len((#[trigger] nodes_view(nodes@)[n]).1.len()),
            decreases nodes@.len() - i,
        {
            if nodes[i].1.len() > u32::MAX as usize {
                assert(!encodable_len(nodes_view(nodes@)[i as int].1.len()));
                return false;
            }
            i += 1;
        }
        true
    }

    /// Whether the overlay takes the block with these changes, that is,
    /// whether `insert` may be called: the block is not in the window yet,
    /// the reference counters have room for the nodes, and the changes fit
    /// into a journal record.
    pub fn accepts(&self, hash: &BlockHash, changeset: &ChangeSet<Key>) -> (r: bool)
        ensures
            r == (!self@.parents.contains_key(*hash) && has_room(
                self@.values,
                node_keys(changeset@.inserted),
            ) && encodable_nodes(changeset@.inserted) && encodable_len(changeset@.deleted.len())),
    {
        if self.parents.contains_key(hash) {
            return false;
        }
        if changeset.deleted.len() > u32::MAX as usize {
            return false;
        }
        if !Self::encodable(&changeset.inserted) {
            return false;
        }
        self.has_room_for(&changeset.inserted)
    }

    /// Insert a new block into the overlay. Above the front level the
    /// parent has to be in the window.
    ///
    /// The block must not be in the window already: a block belongs to
    /// exactly one level. The other preconditions are limits of the
    /// machine: the reference counters are 32 bits wide, and a journal
    /// record holds collections of up to `u32::MAX` items.
    pub fn insert<E>(
        &mut self,
        hash: &BlockHash,
        number: u64,
        parent_hash: &BlockHash,
        changeset: ChangeSet<Key>,
    ) -> (r: Result<CommitSet<Key>, Error<E>>)
        requires
            old(self).wf(),
            !old(self)@.parents.contains_key(*hash),
            has_room(old(self)@.values, node_keys(changeset@.inserted)),
            encodable_nodes(changeset@.inserted),
            encodable_len(changeset@.deleted.len()),
        ensures
            final(self).wf(),
            old(self)@.number_refused(number) ==> r == Err::<CommitSet<Key>, Error<E>>(
                Error::InvalidBlockNumber,
            ) && final(self)@ == old(self)@,
            !old(self)@.number_refused(number) && old(self)@.parent_refused(number, *parent_hash)
                ==> r == Err::<CommitSet<Key>, Error<E>>(Error::InvalidParent) && final(self)@
                == old(self)@,
            !old(self)@.number_refused(number) && !old(self)@.parent_refused(number, *parent_hash)
                ==> r is Ok && final(self)@ == old(self)@.inserted(
                *hash,
                number,
                *parent_hash,
                changeset@.inserted,
                changeset@.deleted,
            ) && r->Ok_0@ == old(self)@.insert_commit(
                *hash,
                number,
                *parent_hash,
                changeset@.inserted,
                changeset@.deleted,
            ),
            r is Ok ==> overlay_record_parsed(
                overlay_record_bytes(*hash, *parent_hash, changeset@.inserted, changeset@.deleted),
            ) == Some((*hash, *parent_hash, changeset@.inserted, changeset@.deleted)),
    {
        let ghost before = self@;
        let mut commit = empty_commit();
        let level_count = self.levels.len();
        let mut li: usize = 0;
        match self.last_canonicalized {
            None => {
                if level_count == 0 {
                    if number > 0 {
                        // assume that the parent was canonicalized
                        let last_canonicalized = (*parent_hash, number - 1);
                        let key = to_meta_key(LAST_CANONICAL.as_slice(), Vec::new());
                        let encoded = encode_pair(*parent_hash, number - 1);
                        commit.meta.inserted.push((key, encoded));
                        self.last_canonicalized = Some(last_canonicalized);
                    }
                } else {
                    if number > level_count as u64 {
                        return Err(Error::InvalidBlockNumber);
                    }
                    li = number as usize;
                }
            },
            Some((canonical, n)) => {
                if n == u64::MAX || number <= n || number - n - 1 > level_count as u64 {
                    return Err(Error::InvalidBlockNumber);
                }
                // check for a valid parent if inserting on the second level or higher
                if number == n + 1 {
                    if canonical != *parent_hash {
                        return Err(Error::InvalidParent);
                    }
                } else if !self.parents.contains_key(parent_hash) {
                    return Err(Error::InvalidParent);
                }
                if level_count > 0 {
                    li = (number - n - 1) as usize;
                }
            },
        }
        assert(entries_view(commit.meta.inserted@) =~= (if before.adopts_parent(number) {
            seq![(last_canonical_key(), pair_bytes(*parent_hash, (number - 1) as u64))]
        } else {
            Seq::empty()
        }));
        let index: u64 = if li == level_count {
            0
        } else {
            self.levels[li].len() as u64
        };
        let journal_key = to_journal_key(number, index);
        let inserted = keys_of(&changeset.inserted);
        let overlay = BlockOverlay {
            hash: *hash,
            journal_key: journal_key.clone(),
            inserted,
            deleted: changeset.deleted.clone(),
        };
        push_block(&mut self.levels, li, overlay);
        self.parents.insert(*hash, *parent_hash);
        let record = encode_overlay_record(
            *hash,
            *parent_hash,
            &changeset.inserted,
            &changeset.deleted,
        );
        commit.meta.inserted.push((journal_key, record));
        insert_values(&mut self.values, changeset.inserted);
        self.pending_insertions.push(*hash);
        proof {
            lemma_inserted_wf(
                before,
                *hash,
                number,
                *parent_hash,
                changeset@.inserted,
                changeset@.deleted,
            );
            assert(entries_view(commit.meta.inserted@) =~= before.insert_commit(
                *hash,
                number,
                *parent_hash,
                changeset@.inserted,
                changeset@.deleted,
            ).meta.inserted);
        }
        Ok(commit)
    }

    /// Collects the journal keys of the blocks below `hash`, from level
    /// `level_index` on.
    fn discard_journals(
        &self,
        level_index: usize,
        discarded_journals: &mut Vec<Vec<u8>>,
        hash: &BlockHash,
    )
        ensures
            names_view(final(discarded_journals)@) == names_view(old(discarded_journals)@)
                + journals_below(
                self@.levels,
                self@.parents,
                level_index as int,
                *hash,
                level_len(self@.levels, level_index as int),
            ),
        decreases self.levels@.len() - level_index,
    {
        let ghost start = names_view(discarded_journals@);
        let ghost levels = self@.levels;
        let ghost parents = self@.parents;
        if level_index < self.levels.len() {
            let level = &self.levels[level_index];
            let mut j: usize = 0;
            while j < level.len()
                invariant
                    level_index < self.levels@.len() <= usize::MAX,
                    level == self.levels@[level_index as int],
                    levels == self@.levels,
                    parents == self@.parents,
                    j <= level@.len(),
                    names_view(discarded_journals@) == start + journals_below(
                        levels,
                        parents,
                        level_index as int,
                        *hash,
                        j as int,
                    ),
                decreases level@.len() - j,
            {
                let overlay = &level[j];
                let is_child = match self.parents.get(&overlay.hash) {
                    Some(parent) => *parent == *hash,
                    None => false,
                };
                if is_child {
                    let ghost collected = discarded_journals@;
                    discarded_journals.push(overlay.journal_key.clone());
                    assert(names_view(discarded_journals@) =~= names_view(collected).push(
                        overlay.journal_key@,
                    ));
                    self.discard_journals(level_index + 1, discarded_journals, &overlay.hash);
                }
                j += 1;
            }
        }
    }

    /// The index of the first block with the given hash in a level.
    fn position(level: &Vec<BlockOverlay>, hash: &BlockHash) -> (r: Option<usize>)
        ensures
            match r {
                Some(i) => i < level@.len() && i == first_index(level_view(level@), *hash),
                None => !level_has(level_view(level@), *hash),
            },
    {
        let mut i: usize = 0;
        while i < level.len()
            invariant
                i <= level@.len(),
                forall|j: int| 0 <= j < i ==> (#[trigger] level_view(level@)[j]).hash != *hash,
            decreases level@.len() - i,
        {
            if level[i].hash == *hash {
                proof {
                    lemma_first_index_is(level_view(level@), *hash, i as int);
                }
                return Some(i);
            }
            i += 1;
        }
        None
    }

    /// Select a block of the front level and canonicalize it: its changes
    /// go into `commit`, together with the journal entries to drop. The
    /// tree itself changes when the canonicalization is applied. Returns
    /// the number of the block.
    pub fn canonicalize<E>(&mut self, hash: &BlockHash, commit: &mut CommitSet<Key>) -> (r: Result<
        u64,
        Error<E>,
    >)
        requires
            old(self).wf(),
        ensures
            final(self).wf(),
            old(self)@.canonicalize_refused(*hash) ==> r == Err::<u64, Error<E>>(
                Error::InvalidBlock,
            ) && final(self)@ == old(self)@ && final(commit)@ == old(commit)@,
            !old(self)@.canonicalize_refused(*hash) ==> {
                &&& r is Ok
                &&& r->Ok_0 == old(self)@.next_canonical_number()
                &&& final(self)@ == old(self)@.canonicalized(*hash)
                &&& final(commit)@ == old(self)@.canonicalize_commit(old(commit)@, *hash)
            },
    {
        let ghost before = self@;
        let ghost given = commit@;
        let p = self.pending_canonicalizations.len();
        if p >= self.levels.len() {
            return Err(Error::InvalidBlock);
        }
        let level = &self.levels[p];
        let index = match Self::position(level, hash) {
            Some(index) => index,
            None => {
                return Err(Error::InvalidBlock);
            },
        };
        proof {
            lemma_first_index(level_view(level@), *hash);
        }
        let mut discarded_journals: Vec<Vec<u8>> = Vec::new();
        let mut i: usize = 0;
        while i < level.len()
            invariant
                p < self.levels@.len() <= usize::MAX,
                level == self.levels@[p as int],
                before == self@,
                before.wf(),
                i <= level@.len(),
                names_view(discarded_journals@) == journals_discarded(
                    before.levels,
                    before.parents,
                    p as int,
                    index as int,
                    i as int,
                ),
            decreases level@.len() - i,
        {
            let overlay = &level[i];
            if i != index {
                self.discard_journals(p + 1, &mut discarded_journals, &overlay.hash);
            }
            discarded_journals.push(overlay.journal_key.clone());
            i += 1;
        }
        // get the one we need to canonicalize
        let overlay = &level[index];
        let mut n: usize = 0;
        while n < overlay.inserted.len()
            invariant
                before == self@,
                before.wf(),
                p < before.levels.len(),
                index < before.levels[p as int].len(),
                before.levels[p as int][index as int] == overlay.deep_view(),
                n <= overlay.inserted@.len(),
                nodes_view(commit.data.inserted@) == given.data.inserted + materialized(
                    before.values,
                    overlay.inserted@,
                ).take(n as int),
                commit.data.deleted@ == given.data.deleted,
                commit.meta@ == given.meta,
            decreases overlay.inserted@.len() - n,
        {
            let k = overlay.inserted[n];
            proof {
                lemma_inserted_key_has_value(before, p as int, index as int, n as int);
            }
            let ghost entries = commit.data.inserted@;
            match self.values.get(&k) {
                Some(entry) => {
                    let value = entry.1.clone();
                    commit.data.inserted.push((k, value));
                    assert(nodes_view(commit.data.inserted@) =~= nodes_view(entries).push(
                        (k, before.values[k].1),
                    ));
                },
                None => {
                },
            }
            n += 1;
        }
        assert(materialized(before.values, overlay.inserted@).take(n as int) =~= materialized(
            before.values,
            overlay.inserted@,
        ));
        let mut deleted = overlay.deleted.clone();
        commit.data.deleted.append(&mut deleted);
        commit.meta.deleted.append(&mut discarded_journals);
        assert(names_view(commit.meta.deleted@) =~= given.meta.deleted + journals_discarded(
            before.levels,
            before.parents,
            p as int,
            index as int,
            before.levels[p as int].len() as int,
        ));
        let number = self.front_block_number() + p as u64;
        let key = to_meta_key(LAST_CANONICAL.as_slice(), Vec::new());
        let ghost entries = commit.meta.inserted@;
        commit.meta.inserted.push((key, encode_pair(*hash, number)));
        assert(entries_view(commit.meta.inserted@) =~= entries_view(entries).push(
            (last_canonical_key(), pair_bytes(*hash, number)),
        ));
        self.pending_canonicalizations.push(*hash);
        proof {
            let after = self@;
            assert forall|h: u64| after.tracks(h) == before.tracks(h) by {
            }
            assert forall|k: u64| #[trigger] after.counted_at(k) by {
                assert(before.counted_at(k));
            }
        }
        Ok(number)
    }

    /// Releases the references that a block holds to `keys`. Values that
    /// lose their last reference move into the snapshot of `owner`, if it
    /// is pinned.
    fn release(&mut self, owner: &BlockHash, keys: &Vec<Key>)
        ensures
            final(self)@ == old(self)@.released(*owner, keys@),
    {
        let ghost before = self@;
        let mut snapshot = self.pinned.remove(owner);
        discard_values(&mut self.values, keys, &mut snapshot);
        proof {
            match before.pinned.get(*owner) {
                Some(s) => {
                    lemma_values_released_some(before.values, s, keys@);
                },
                None => {
                },
            }
        }
        match snapshot {
            Some(s) => {
                self.pinned.insert(*owner, s);
                assert(pinned_view(self.pinned@) =~= before.pinned.insert(*owner, snapshot_view(s@)));
            },
            None => {
                assert(pinned_view(self.pinned@) =~= before.pinned);
            },
        }
    }

    /// Discards the blocks below `hash` from level `index` on: the
    /// children of `hash` leave their level, and so does all that is built
    /// on them.
    fn discard_descendants(
        &mut self,
        index: usize,
        hash: &BlockHash,
        Ghost(unparented): Ghost<Seq<BlockView>>,
        Ghost(unreleased): Ghost<Seq<BlockView>>,
    )
        requires
            tree_ok(old(self)@, unparented, unreleased),
        ensures
            final(self)@ == old(self)@.discard_descendants(
                index as int,
                *hash,
                (old(self)@.levels.len() - index) as nat,
            ),
            tree_ok(final(self)@, unparented, unreleased),
            final(self)@.levels.len() == old(self)@.levels.len(),
            final(self)@.last_canonicalized == old(self)@.last_canonicalized,
            final(self)@.pending_canonicalizations == old(self)@.pending_canonicalizations,
            final(self)@.pending_insertions == old(self)@.pending_insertions,
        decreases old(self)@.levels.len() - index,
    {
        if index >= self.levels.len() {
            return ;
        }
        let ghost start = self@;
        let ghost level0 = start.levels[index as int];
        let ghost depth = (start.levels.len() - index) as nat;
        let level = self.levels.remove(index).unwrap();
        let ghost raw_level = level@;
        let ghost raw_levels = self.levels@;
        let mut kept: Vec<BlockOverlay> = Vec::new();
        let mut discarded: Vec<BlockHash> = Vec::new();
        for overlay in it: level
            invariant
                it.seq() == raw_level,
                level0 == level_view(raw_level),
                distinct(level0),
                self@.levels == levels_view(raw_levels),
                self@.last_canonicalized == start.last_canonicalized,
                self@.pending_canonicalizations == start.pending_canonicalizations,
                self@.pending_insertions == start.pending_insertions,
                level_view(kept@) == others_of(
                    level0.take(it.index() as int),
                    start.parents,
                    *hash,
                ),
                discarded@ == block_hashes(
                    children_of(level0.take(it.index() as int), start.parents, *hash),
                ),
                self.parents@ == start.parents.remove_keys(
                    hash_set(children_of(level0.take(it.index() as int), start.parents, *hash)),
                ),
                values_view(self.values@) == start.released(
                    *hash,
                    inserted_keys(children_of(level0.take(it.index() as int), start.parents, *hash)),
                ).values,
                pinned_view(self.pinned@) == start.released(
                    *hash,
                    inserted_keys(children_of(level0.take(it.index() as int), start.parents, *hash)),
                ).pinned,
        {
            let ghost j = it.index() as int;
            let ghost seen = level0.take(j);
            let ghost children = children_of(seen, start.parents, *hash);
            let ghost o = overlay.deep_view();
            proof {
                assert(level0.take(j + 1).drop_last() =~= seen);
                lemma_children_others(seen, start.parents, *hash);
            }
            let child = match self.parents.get(&overlay.hash) {
                Some(parent) => *parent == *hash,
                None => false,
            };
            if child {
                self.parents.remove(&overlay.hash);
                discarded.push(overlay.hash);
                self.release(hash, &overlay.inserted);
                proof {
                    lemma_released_twice(start, *hash, inserted_keys(children), o.inserted);
                    assert(children.push(o).drop_last() =~= children);
                    let once = start.released(*hash, inserted_keys(children));
                }
            } else {
                kept.push(overlay);
            }
        }
        proof {
            assert(level0.take(raw_level.len() as int) =~= level0);
        }
        let ghost removed = self.levels@;
        self.levels.insert(index, kept);
        proof {
            assert(levels_view(self.levels@) =~= levels_view(removed).insert(
                index as int,
                level_view(kept@),
            ));
            assert(levels_view(self.levels@) =~= start.levels.update(
                index as int,
                others_of(level0, start.parents, *hash),
            ));
            lemma_level_filtered_ok(start, unparented, unreleased, index as int, *hash);
        }
        let ghost filtered = self@;
        let mut m: usize = 0;
        while m < discarded.len()
            invariant
                m <= discarded@.len(),
                index < start.levels.len() <= usize::MAX,
                start.levels.len() == old(self)@.levels.len(),
                depth == start.levels.len() - index,
                self@ == filtered.discard_each(
                    index + 1,
                    discarded@,
                    m as nat,
                    (depth - 1) as nat,
                ),
                tree_ok(self@, unparented, unreleased),
                self@.levels.len() == start.levels.len(),
                self@.last_canonicalized == start.last_canonicalized,
                self@.pending_canonicalizations == start.pending_canonicalizations,
                self@.pending_insertions == start.pending_insertions,
            decreases discarded@.len() - m,
        {
            let child = discarded[m];
            self.discard_descendants(index + 1, &child, Ghost(unparented), Ghost(unreleased));
            m += 1;
        }
    }

    /// Applies the canonicalization of `hash`: the front level leaves the
    /// window, and with it all that was built on its other blocks.
    fn apply_one(&mut self, hash: BlockHash)
        requires
            old(self)@.unique_blocks(),
            old(self)@.sized(),
            old(self)@.parents_match(),
            old(self)@.counted(),
            old(self)@.levels.len() > 0,
        ensures
            final(self)@ == old(self)@.applied_one(hash),
            final(self)@.unique_blocks(),
            final(self)@.sized(),
            final(self)@.parents_match(),
            final(self)@.counted(),
            final(self)@.levels.len() == old(self)@.levels.len() - 1,
            final(self)@.last_canonicalized == old(self)@.last_canonicalized,
            final(self)@.pending_canonicalizations == old(self)@.pending_canonicalizations,
            final(self)@.pending_insertions == old(self)@.pending_insertions,
    {
        let ghost start = self@;
        let level = self.levels.pop_front().unwrap();
        let ghost raw_level = level@;
        let level_len = level.len();
        let ghost level0 = level_view(raw_level);
        let ghost popped = OverlayView { levels: start.levels.drop_first(), ..start };
        let index = Self::position(&level, &hash);
        let ghost winner = first_index(level0, hash);
        proof {
            assert(levels_view(self.levels@) =~= start.levels.drop_first());
            lemma_front_popped_ok(start);
            lemma_first_index(level0, hash);
            assert(level0.skip(0) =~= level0);
        }
        let mut j: usize = 0;
        for overlay in it: level
            invariant
                it.seq() == raw_level,
                raw_level.len() <= usize::MAX,
                level0 == level_view(raw_level),
                j == it.index(),
                winner == first_index(level0, hash),
                match index {
                    Some(i) => i == winner,
                    None => winner == level0.len(),
                },
                self@ == popped.front_processed(level0, winner, j as nat),
                tree_ok(self@, level0.skip(j as int), level0.skip(j as int)),
                self@.levels.len() == start.levels.len() - 1,
                self@.last_canonicalized == start.last_canonicalized,
                self@.pending_canonicalizations == start.pending_canonicalizations,
                self@.pending_insertions == start.pending_insertions,
        {
            let ghost rest = level0.skip(j as int);
            let ghost before = self@;
            proof {
                assert(rest.drop_first() =~= level0.skip(j + 1));
                lemma_front_unparented_ok(before, rest);
            }
            self.parents.remove(&overlay.hash);
            let is_winner = match index {
                Some(i) => i == j,
                None => false,
            };
            if !is_winner {
                self.discard_descendants(
                    0,
                    &overlay.hash,
                    Ghost(rest.drop_first()),
                    Ghost(rest),
                );
            }
            proof {
                lemma_front_released_ok(self@, rest);
            }
            self.release(&overlay.hash, &overlay.inserted);
            j += 1;
        }
        proof {
            assert(level0.skip(level0.len() as int) =~= Seq::empty());
            lemma_tree_ok_plain(self@);
        }
    }

    /// Applies the pending canonicalizations, in order.
    fn apply_canonicalizations(&mut self)
        requires
            old(self).wf(),
        ensures
            final(self)@ == old(self)@.canonicalizations_applied(),
            final(self).wf(),
    {
        let ghost start = self@;
        let count = self.pending_canonicalizations.len();
        let level_count = self.levels.len();
        let mut i: usize = 0;
        while i < count
            invariant
                i <= count,
                count == start.pending_canonicalizations.len(),
                count <= start.levels.len() == level_count,
                self@ == start.applied_each(start.pending_canonicalizations.take(i as int)),
                self@.unique_blocks(),
                self@.sized(),
                self@.parents_match(),
                self@.counted(),
                self@.levels.len() == start.levels.len() - i,
                self@.last_canonicalized == start.last_canonicalized,
                self@.pending_canonicalizations == start.pending_canonicalizations,
                self@.pending_insertions == start.pending_insertions,
            decreases count - i,
        {
            let hash = self.pending_canonicalizations[i];
            proof {
                assert(start.pending_canonicalizations.take(i + 1).drop_last()
                    =~= start.pending_canonicalizations.take(i as int));
            }
            self.apply_one(hash);
            i += 1;
        }
        assert(start.pending_canonicalizations.take(count as int)
            =~= start.pending_canonicalizations);
        if count > 0 {
            let last = self.pending_canonicalizations[count - 1];
            let number = match self.last_canonicalized {
                Some((_, n)) => n + count as u64,
                None => count as u64 - 1,
            };
            self.last_canonicalized = Some((last, number));
        }
        let ghost applied = start.applied_each(start.pending_canonicalizations);
        self.pending_canonicalizations.clear();
        proof {
            lemma_tree_ok_plain(applied);
            lemma_tree_ok_same(applied, self@, Seq::empty(), Seq::empty());
            lemma_wf_from_tree(self@);
        }
    }

    /// Apply all pending changes.
    pub fn apply_pending(&mut self)
        requires
            old(self).wf(),
        ensures
            final(self)@ == old(self)@.pending_applied(),
            final(self).wf(),
    {
        self.apply_canonicalizations();
        let ghost applied = self@;
        self.pending_insertions.clear();
        proof {
            lemma_tree_ok_plain(applied);
            lemma_tree_ok_same(applied, self@, Seq::empty(), Seq::empty());
            lemma_wf_from_tree(self@);
        }
    }

    /// Revert the last level. Returns the commit set that deletes its
    /// journal entries, or `None` if there is no level to revert: only a
    /// level that holds no pending canonicalization can be reverted.
    pub fn revert_one(&mut self) -> (r: Option<CommitSet<Key>>)
        requires
            old(self).wf(),
        ensures
            final(self).wf(),
            old(self)@.revert_refused() ==> r is None && final(self)@ == old(self)@,
            !old(self)@.revert_refused() ==> r is Some && final(self)@ == old(self)@.reverted_one()
                && r->Some_0@ == old(self)@.revert_commit(),
    {
        if self.levels.len() <= self.pending_canonicalizations.len() {
            return None;
        }
        let ghost start = self@;
        let level = self.levels.pop_back().unwrap();
        let ghost raw_level = level@;
        let ghost level0 = level_view(raw_level);
        let mut commit = empty_commit();
        let mut nothing: Option<HashMap<Key, DBValue>> = None;
        for overlay in it: level
            invariant
                it.seq() == raw_level,
                level0 == level_view(raw_level),
                nothing is None,
                self@.levels == start.levels.drop_last(),
                self@.last_canonicalized == start.last_canonicalized,
                self@.pending_canonicalizations == start.pending_canonicalizations,
                self@.pending_insertions == start.pending_insertions,
                self@.pinned == start.pinned,
                self@.parents == start.parents.remove_keys(hash_set(level0.take(it.index() as int))),
                self@.values == values_released(
                    start.values,
                    None,
                    inserted_keys(level0.take(it.index() as int)),
                ).0,
                commit@.data == ChangeSetView::<u64>::empty(),
                commit@.meta.inserted == Seq::<(Seq<u8>, Seq<u8>)>::empty(),
                commit@.meta.deleted == block_journals(level0).take(it.index() as int),
        {
            let ghost j = it.index() as int;
            let ghost seen = level0.take(j);
            let ghost o = overlay.deep_view();
            let ghost names = commit.meta.deleted@;
            proof {
                assert(level0.take(j + 1) =~= seen.push(o));
                assert(seen.push(o).drop_last() =~= seen);
                lemma_remove_child(start.parents, seen, o);
                lemma_values_released_concat(start.values, None, inserted_keys(seen), o.inserted);
                lemma_values_released_none(start.values, inserted_keys(seen));
            }
            commit.meta.deleted.push(overlay.journal_key.clone());
            self.parents.remove(&overlay.hash);
            proof {
                lemma_values_released_none(self@.values, o.inserted);
            }
            discard_values(&mut self.values, &overlay.inserted, &mut nothing);
            proof {
                assert(names_view(commit.meta.deleted@) =~= names_view(names).push(o.journal_key));
            }
        }
        proof {
            assert(level0.take(raw_level.len() as int) =~= level0);
            assert(block_journals(level0).take(raw_level.len() as int) =~= block_journals(level0));
            lemma_reverted_one_wf(start);
        }
        Some(commit)
    }

    /// Takes back the insertion of `hash`, which has to be the last block
    /// of its level; if it is not, nothing changes.
    fn revert_insertion(&mut self, hash: BlockHash)
        requires
            old(self)@.unique_blocks(),
            old(self)@.sized(),
            old(self)@.parents_match(),
            old(self)@.counted(),
        ensures
            final(self)@ == old(self)@.insertion_reverted(hash),
            final(self)@.unique_blocks(),
            final(self)@.sized(),
            final(self)@.parents_match(),
            final(self)@.counted(),
            final(self)@.levels.len() <= old(self)@.levels.len(),
            final(self)@.last_canonicalized == old(self)@.last_canonicalized,
            final(self)@.pending_canonicalizations == old(self)@.pending_canonicalizations,
            final(self)@.pending_insertions == old(self)@.pending_insertions,
    {
        let ghost start = self@;
        // find a level: when iterating insertions backwards the hash is always last in the level
        let mut li: usize = 0;
        let mut found = false;
        while li < self.levels.len() && !found
            invariant
                li <= self.levels@.len(),
                start == self@,
                forall|i: int|
                    0 <= i < li ==> !((#[trigger] start.levels[i]).len() > 0
                        && start.levels[i].last().hash == hash),
                found ==> li < self.levels@.len() && start.levels[li as int].len() > 0
                    && start.levels[li as int].last().hash == hash,
            decreases
                    2 * (self.levels@.len() - li) + if found {
                        0int
                    } else {
                        1int
                    },
        {
            let level = &self.levels[li];
            if level.len() > 0 && level[level.len() - 1].hash == hash {
                found = true;
            } else {
                li += 1;
            }
        }
        proof {
            lemma_tail_level_is(start.levels, hash, li as int);
            lemma_insertion_reverted_ok(start, hash);
        }
        if li == self.levels.len() {
            return ;
        }
        let mut level = self.levels.remove(li).unwrap();
        let overlay = level.pop().unwrap();
        self.parents.remove(&hash);
        let mut nothing: Option<HashMap<Key, DBValue>> = None;
        discard_values(&mut self.values, &overlay.inserted, &mut nothing);
        proof {
            assert(level_view(level@) =~= start.levels[li as int].drop_last());
        }
        if level.len() == 0 && li == self.levels.len() {
            proof {
                assert(levels_view(self.levels@) =~= start.levels.update(
                    li as int,
                    start.levels[li as int].drop_last(),
                ).drop_last());
            }
        } else {
            self.levels.insert(li, level);
            proof {
                assert(levels_view(self.levels@) =~= start.levels.update(
                    li as int,
                    start.levels[li as int].drop_last(),
                ));
            }
        }
    }

    /// Takes back the pending insertions, the last first.
    fn revert_insertions(&mut self)
        requires
            old(self).wf(),
            old(self)@.pending_canonicalizations.len() == 0,
        ensures
            final(self).wf(),
            final(self)@ == (OverlayView {
                pending_insertions: Seq::empty(),
                ..old(self)@.insertions_reverted(old(self)@.pending_insertions)
            }),
    {
        let ghost start = self@;
        let ghost hashes = start.pending_insertions;
        let mut i: usize = self.pending_insertions.len();
        assert(hashes.take(i as int) =~= hashes);
        while i > 0
            invariant
                i <= hashes.len(),
                hashes == start.pending_insertions,
                self@.pending_insertions == hashes,
                self@.insertions_reverted(hashes.take(i as int)) == start.insertions_reverted(hashes),
                self@.unique_blocks(),
                self@.sized(),
                self@.parents_match(),
                self@.counted(),
                self@.levels.len() <= start.levels.len(),
                self@.last_canonicalized == start.last_canonicalized,
                self@.pending_canonicalizations == start.pending_canonicalizations,
            decreases i,
        {
            i -= 1;
            let hash = self.pending_insertions[i];
            proof {
                assert(hashes.take(i + 1).drop_last() =~= hashes.take(i as int));
            }
            self.revert_insertion(hash);
        }
        let ghost reverted = self@;
        self.pending_insertions.clear();
        proof {
            lemma_tree_ok_plain(reverted);
            lemma_tree_ok_same(reverted, self@, Seq::empty(), Seq::empty());
            lemma_wf_from_tree(self@);
        }
    }

    /// Revert all pending changes.
    pub fn revert_pending(&mut self)
        requires
            old(self).wf(),
        ensures
            final(self).wf(),
            final(self)@ == old(self)@.pending_reverted(),
    {
        let ghost start = self@;
        self.pending_canonicalizations.clear();
        proof {
            lemma_wf_same(start, self@);
        }
        self.revert_insertions();
    }

    /// Pin the state values of a block in memory: values that would leave
    /// the overlay with the block are kept until it is unpinned. A block
    /// that is not in the window gets no snapshot.
    pub fn pin(&mut self, hash: &BlockHash) -> (r: Option<BranchRanges>)
        requires
            old(self).wf(),
        ensures
            final(self).wf(),
            final(self)@ == old(self)@.pin(*hash),
            r is Some <==> old(self)@.parents.contains_key(*hash),
    {
        let ghost start = self@;
        if self.parents.contains_key(hash) {
            let snapshot: HashMap<Key, DBValue> = HashMap::new();
            assert(snapshot_view(snapshot@) =~= Map::empty());
            self.pinned.insert(*hash, snapshot);
            proof {
                assert(pinned_view(self.pinned@) =~= start.pinned.insert(*hash, Map::empty()));
                lemma_wf_same(start, self@);
            }
            Some(())
        } else {
            None
        }
    }

    /// The state to query a block at: there is one for each block in the
    /// window.
    pub fn get_branch_range(&self, hash: &BlockHash) -> (r: Option<BranchRanges>)
        ensures
            r is Some <==> self@.parents.contains_key(*hash),
    {
        if self.parents.contains_key(hash) {
            Some(())
        } else {
            None
        }
    }

    /// Discard the pinned state of a block.
    pub fn unpin(&mut self, hash: &BlockHash)
        requires
            old(self).wf(),
        ensures
            final(self).wf(),
            final(self)@ == old(self)@.unpin(*hash),
    {
        let ghost start = self@;
        self.pinned.remove(hash);
        proof {
            assert(pinned_view(self.pinned@) =~= start.pinned.remove(*hash));
            lemma_wf_same(start, self@);
        }
    }

    /// The block number of the first level. The last canonicalized block
    /// must leave room for it.
    fn front_block_number(&self) -> (r: u64)
        requires
            self@.front_block_number() <= u64::MAX,
        ensures
            r == self@.front_block_number(),
    {
        match self.last_canonicalized {
            Some((_, n)) => n + 1,
            None => 0,
        }
    }

    /// The number of the last canonicalized block, pending
    /// canonicalizations included.
    pub fn last_canonicalized_block_number(&self) -> (r: Option<u64>)
        requires
            self.wf(),
        ensures
            match r {
                Some(n) => self@.last_canonicalized_block_number() == Some(n as int),
                None => self@.last_canonicalized_block_number() is None,
            },
    {
        let pending = self.pending_canonicalizations.len();
        let level_count = self.levels.len();
        match self.last_canonicalized {
            Some((_, n)) => Some(n + pending as u64),
            None => if pending > 0 {
                Some(pending as u64)
            } else {
                None
            },
        }
    }

    /// The hash of the last canonicalized block, pending canonicalizations
    /// not included.
    pub fn last_canonicalized_hash(&self) -> (r: Option<BlockHash>)
        ensures
            match r {
                Some(h) => self@.last_canonicalized is Some && self@.last_canonicalized->Some_0.0
                    == h,
                None => self@.last_canonicalized is None,
            },
    {
        match self.last_canonicalized {
            Some((h, _)) => Some(h),
            None => None,
        }
    }

    /// The last canonicalized block with its number, pending
    /// canonicalizations not included.
    pub fn last_canonicalized(&self) -> (r: Option<(BlockHash, u64)>)
        ensures
            r == self@.last_canonicalized,
    {
        self.last_canonicalized
    }

    /// The parent of a block of the window.
    pub fn parent_hash(&self, hash: &BlockHash) -> (r: Option<BlockHash>)
        ensures
            r == self@.parents.get(*hash),
    {
        match self.parents.get(hash) {
            Some(parent) => Some(*parent),
            None => None,
        }
    }

    /// The hashes of the blocks of a level, in order; none for a level
    /// that is not there.
    pub fn level_hashes(&self, level: usize) -> (r: Vec<BlockHash>)
        ensures
            r@ == (if level < self@.levels.len() {
                block_hashes(self@.levels[level as int])
            } else {
                Seq::empty()
            }),
    {
        let mut hashes: Vec<BlockHash> = Vec::new();
        if level < self.levels.len() {
            let blocks = &self.levels[level];
            let mut j: usize = 0;
            while j < blocks.len()
                invariant
                    j <= blocks@.len(),
                    level < self@.levels.len(),
                    self@.levels[level as int] == level_view(blocks@),
                    hashes@ == block_hashes(self@.levels[level as int]).take(j as int),
                decreases blocks@.len() - j,
            {
                hashes.push(blocks[j].hash);
                j += 1;
            }
        }
        hashes
    }

    /// The journal key of the block at `index` of a level, with the keys
    /// that the block inserted and deleted.
    pub fn block(&self, level: usize, index: usize) -> (r: Option<(Vec<u8>, Vec<Key>, Vec<Key>)>)
        ensures
            match r {
                Some((journal_key, inserted, deleted)) => level < self@.levels.len() && index
                    < self@.levels[level as int].len() && journal_key@
                    == self@.levels[level as int][index as int].journal_key && inserted@
                    == self@.levels[level as int][index as int].inserted && deleted@
                    == self@.levels[level as int][index as int].deleted,
                None => !(level < self@.levels.len() && index < self@.levels[level as int].len()),
            },
    {
        if level < self.levels.len() {
            let blocks = &self.levels[level];
            if index < blocks.len() {
                let block = &blocks[index];
                return Some(
                    (block.journal_key.clone(), block.inserted.clone(), block.deleted.clone()),
                );
            }
        }
        None
    }

    /// The number of levels in the window.
    pub fn levels_len(&self) -> (r: usize)
        ensures
            r == self@.levels.len(),
    {
        self.levels.len()
    }

    /// The number of blocks in the window.
    pub fn parents_len(&self) -> (r: usize)
        ensures
            r == self@.parents.len(),
    {
        self.parents.len()
    }

    /// The blocks that can be canonicalized next, each with the number of
    /// the last canonicalized block.
    pub fn top_level(&self) -> (r: Vec<(BlockHash, u64)>)
        requires
            self.wf(),
        ensures
            r@ == self@.top_level(),
    {
        let start = match self.last_canonicalized_block_number() {
            Some(n) => n,
            None => 0,
        };
        let p = self.pending_canonicalizations.len();
        let mut top: Vec<(BlockHash, u64)> = Vec::new();
        if p < self.levels.len() {
            let level = &self.levels[p];
            let mut j: usize = 0;
            while j < level.len()
                invariant
                    j <= level@.len(),
                    p < self@.levels.len(),
                    self@.top_level().len() == level@.len(),
                    start == (match self@.last_canonicalized_block_number() {
                        Some(n) => n as u64,
                        None => 0,
                    }),
                    p == self@.pending_canonicalizations.len(),
                    self@.levels[p as int] == level_view(level@),
                    top@ == self@.top_level().take(j as int),
                decreases level@.len() - j,
            {
                top.push((level[j].hash, start));
                j += 1;
            }
        }
        top
    }

    /// Whether the list holds the hash.
    fn holds(hashes: &Vec<BlockHash>, hash: &BlockHash) -> (r: bool)
        ensures
            r == hashes@.contains(*hash),
    {
        let mut i: usize = 0;
        while i < hashes.len()
            invariant
                i <= hashes@.len(),
                forall|j: int| 0 <= j < i ==> hashes@[j] != *hash,
            decreases hashes@.len() - i,
        {
            if hashes[i] == *hash {
                return true;
            }
            i += 1;
        }
        false
    }

    /// Check if the block is in the canonicalization queue.
    pub fn have_block(&self, hash: &BlockHash) -> (r: bool)
        ensures
            r == self@.have_block(*hash),
    {
        (self.parents.contains_key(hash) || Self::holds(&self.pending_insertions, hash))
            && !Self::holds(&self.pending_canonicalizations, hash)
    }

    /// Get a value from the node overlay. This searches in every existing
    /// changeset, then in the snapshots of the pinned blocks.
    pub fn get(&self, key: &Key) -> (r: Option<DBValue>)
        ensures
            self@.answers(
                *key,
                match r {
                    Some(v) => Some(v@),
                    None => None,
                },
            ),
    {
        match self.values.get(key) {
            Some(entry) => {
                return Some(entry.1.clone());
            },
            None => {},
        }
        let ghost snapshots = self.pinned@;
        for snapshot in it: self.pinned.values()
            invariant
                snapshots == self.pinned@,
                !self@.values.contains_key(*key),
                it.seq().unref().to_set() == snapshots.values(),
                forall|s: HashMap<Key, DBValue>| #[trigger]
                    snapshots.values().contains(s) ==> exists|i: int|
                        0 <= i < it.seq().len() && *(#[trigger] it.seq()[i]) == s,
                forall|i: int| 0 <= i < it.index() ==> !(#[trigger] it.seq()[i])@.contains_key(*key),
        {
            match snapshot.get(key) {
                Some(value) => {
                    proof {
                        assert(it.seq().unref().to_set().contains(*snapshot));
                        let h = choose|h: u64| snapshots.contains_key(h) && snapshots[h] == *snapshot;
                        assert(self@.pinned.contains_key(h) && self@.pinned[h].contains_key(*key)
                            && self@.pinned[h][*key] == value@);
                    }
                    return Some(value.clone());
                },
                None => {},
            }
        }
        proof {
            assert forall|h: u64| self@.pinned.contains_key(h) implies !(
            #[trigger] self@.pinned[h]).contains_key(*key) by {
                assert(snapshots.values().contains(snapshots[h]));
            }
        }
        None
    }

    /// Puts a block read from the journal at the end of level `li`, which
    /// becomes a new level if `li` is the number of levels. The record is
    /// refused as undecodable if it does not decode, if its block is in the
    /// window already or too large to be written again, or if a reference
    /// counter would run past `u32`; the overlay then stays as it is.
    pub fn restore_block<E>(&mut self, li: usize, journal_key: Vec<u8>, record: &[u8]) -> (r: Result<
        (),
        Error<E>,
    >)
        requires
            old(self).wf(),
            li <= old(self)@.levels.len(),
            li == old(self)@.levels.len() ==> old(self)@.last_canonicalized is Some && old(
                self,
            )@.last_canonicalized->Some_0.1 + old(self)@.levels.len() < u64::MAX,
        ensures
            r is Ok <==> old(self)@.restorable(overlay_record_parsed(record@)),
            r is Err ==> r == Err::<(), Error<E>>(Error::Decoding) && final(self)@ == old(self)@,
            r is Ok ==> final(self).wf() && final(self)@ == old(self)@.restored(
                li as int,
                journal_key@,
                overlay_record_parsed(record@)->Some_0,
            ),
    {
        let ghost start = self@;
        let (hash, parent, nodes, deleted) = match decode_overlay_record(record) {
            Some(decoded) => decoded,
            None => {
                return Err(Error::Decoding);
            },
        };
        if self.parents.contains_key(&hash) {
            return Err(Error::Decoding);
        }
        if nodes.len() > u32::MAX as usize || deleted.len() > u32::MAX as usize {
            return Err(Error::Decoding);
        }
        let ghost restored = nodes_view(nodes@);
        proof {
            assert forall|k: u64|
                start.ref_count(k) + key_count(node_keys(restored), k) == counted_refs(
                    start.values,
                    k,
                ) + #[trigger] key_count(node_keys(restored), k) by {}
        }
        if !self.has_room_for(&nodes) {
            return Err(Error::Decoding);
        }
        let inserted = keys_of(&nodes);
        let overlay = BlockOverlay { hash, journal_key, inserted, deleted };
        let ghost block = overlay.deep_view();
        insert_values(&mut self.values, nodes);
        push_block(&mut self.levels, li, overlay);
        self.parents.insert(hash, parent);
        proof {
            lemma_with_block_wf(start, li as int, block, parent, restored);
        }
        Ok(())
    }

    /// The overlay that the stored last canonicalized block gives, before
    /// the journal is read: without a stored block the overlay that tracks
    /// nothing, else the overlay that knows this block. A stored block that
    /// does not decode is refused.
    pub fn from_last_canonical<E>(stored: &Option<DBValue>) -> (r: Result<
        NonCanonicalOverlay,
        Error<E>,
    >)
        ensures
            match *stored {
                None => r is Ok && r->Ok_0@ == OverlayView::empty(),
                Some(buffer) => match pair_parsed(buffer@) {
                    Some(last) => r is Ok && r->Ok_0@ == OverlayView::opened(Some(last)),
                    None => r is Err && r->Err_0 is Decoding,
                },
            },
            r is Ok ==> r->Ok_0.wf() && r->Ok_0@.journaled(),
    {
        let mut overlay = NonCanonicalOverlay::empty();
        match stored {
            None => {},
            Some(buffer) => {
                let last = match decode_pair(buffer.as_slice()) {
                    Some(decoded) => decoded,
                    None => {
                        return Err(Error::Decoding);
                    },
                };
                let ghost fresh = overlay@;
                overlay.last_canonicalized = Some(last);
                proof {
                    assert forall|k: u64| #[trigger] overlay@.counted_at(k) by {
                        assert(fresh.counted_at(k));
                    }
                }
            },
        }
        Ok(overlay)
    }

    /// Creates a new instance from the journal in the database. Does not
    /// expect any metadata to be present.
    ///
    /// The journal is read in ascending order of block number and index,
    /// from the block after the last canonicalized one, until an entry is
    /// missing. What the database answers decides the outcome: an error of
    /// the database is handed on, an entry that cannot be taken in is
    /// reported as undecodable, and else the overlay is as the journal
    /// gives it, with nothing pending and nothing pinned.
    pub fn new<D: MetaDb>(db: &D) -> (r: Result<NonCanonicalOverlay, Error<D::Error>>)
        ensures
            match r {
                Ok(overlay) => {
                    &&& overlay.wf()
                    &&& overlay@.journaled()
                    &&& overlay@.pending_canonicalizations.len() == 0
                    &&& overlay@.pending_insertions.len() == 0
                    &&& overlay@.pinned == Map::<u64, Snapshot>::empty()
                },
                Err(e) => e is Db || e is Decoding,
            },
    {
        let key = to_meta_key(LAST_CANONICAL.as_slice(), Vec::new());
        let stored = match db.get_meta(key.as_slice()) {
            Ok(stored) => stored,
            Err(e) => {
                return Err(Error::Db(e));
            },
        };
        let mut overlay = match Self::from_last_canonical::<D::Error>(&stored) {
            Ok(overlay) => overlay,
            Err(e) => {
                return Err(e);
            },
        };
        let (hash, number) = match overlay.last_canonicalized {
            Some(last) => last,
            None => {
                return Ok(overlay);
            },
        };
        // read the journal
        let mut block = number;
        let mut more_levels = number < u64::MAX;
        while more_levels
            invariant
                overlay.wf(),
                overlay@.journaled(),
                overlay@.pending_canonicalizations.len() == 0,
                overlay@.pending_insertions.len() == 0,
                overlay@.pinned == Map::<u64, Snapshot>::empty(),
                overlay@.last_canonicalized == Some((hash, number)),
                block == number + overlay@.levels.len(),
                more_levels ==> block < u64::MAX,
            decreases
                    2 * (u64::MAX - block) + if more_levels {
                        1int
                    } else {
                        0int
                    },
        {
            block += 1;
            let li = overlay.levels.len();
            let mut index: u64 = 0;
            let mut more_blocks = true;
            while more_blocks
                invariant
                    overlay.wf(),
                    overlay@.journaled(),
                    overlay@.pending_canonicalizations.len() == 0,
                    overlay@.pending_insertions.len() == 0,
                    overlay@.pinned == Map::<u64, Snapshot>::empty(),
                    overlay@.last_canonicalized == Some((hash, number)),
                    block == number + li + 1,
                    li <= usize::MAX,
                    overlay@.levels.len() == (if index == 0 {
                        li as int
                    } else {
                        li + 1
                    }),
                    more_blocks ==> index == level_len(overlay@.levels, li as int),
                decreases
                        2 * (u64::MAX - index) + if more_blocks {
                            1int
                        } else {
                            0int
                        },
            {
                let journal_key = to_journal_key(block, index);
                match db.get_meta(journal_key.as_slice()) {
                    Ok(Some(record)) => {
                        match overlay.restore_block::<D::Error>(li, journal_key, record.as_slice()) {
                            Ok(()) => {},
                            Err(e) => {
                                return Err(e);
                            },
                        }
                        if index == u64::MAX {
                            more_blocks = false;
                        } else {
                            index += 1;
                        }
                    },
                    Ok(None) => {
                        more_blocks = false;
                    },
                    Err(e) => {
                        return Err(Error::Db(e));
                    },
                }
            }
            if overlay.levels.len() == li {
                block -= 1;
                more_levels = false;
            } else if block == u64::MAX {
                more_levels = false;
            }
        }
        Ok(overlay)
    }
}

} // verus!

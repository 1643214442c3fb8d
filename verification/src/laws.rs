//! What holds of the state database whatever it is used for.

use vstd::prelude::*;
use vstd::bytes::{lemma_auto_spec_u64_to_from_le_bytes, spec_u64_to_le_bytes};
use crate::codec::{
    encodable_len, encodable_nodes, number_bytes, number_parsed, overlay_record_bytes,
    overlay_record_parsed, pair_bytes, pair_parsed, window_record_bytes, window_record_parsed,
};
use crate::types::CommitSetView;
use crate::discard_lemmas::{
    block_kept, children_gone, lemma_front_processed, level_kept, no_orphans, not_orphaned,
    shrunk,
};
use crate::overlay::{
    first_index, key_count, level_has, level_refs, node_keys, refs, BlockView, OverlayView,
};
use crate::overlay_lemmas::{
    has_room, lemma_first_index, lemma_front_popped_ok, lemma_tree_ok_plain, parent_at, tree_ok,
};
use crate::sync::SyncView;
use crate::window::{lists, note_commit, prune_count, WindowView};

verus! {

/// Applying the pending changes of the canonicalization window a second
/// time, with no change in between, changes nothing.
pub proof fn law_overlay_apply_is_idempotent(v: OverlayView)
    ensures
        v.pending_applied().pending_applied() == v.pending_applied(),
{
}

/// Applying the pending changes of the pruning window a second time, with
/// no change in between, changes nothing.
pub proof fn law_window_apply_is_idempotent(v: WindowView)
    ensures
        v.applied().applied() == v.applied(),
{
    let once = v.applied();
    assert(once.death_rows.skip(0) =~= once.death_rows);
    assert(once.applied().death_index =~= once.death_index);
}

/// Applying the pending changes of the state database a second time, with
/// no change in between, changes nothing.
pub proof fn law_apply_pending_is_idempotent(v: SyncView)
    ensures
        v.pending_applied().pending_applied() == v.pending_applied(),
{
    match v.pruning {
        Some(window) => {
            law_window_apply_is_idempotent(window);
        },
        None => {},
    }
}

/// Reference counts are conserved: under the invariant of the
/// canonicalization window the stored count of each key is the number of
/// references to the key from the blocks of the window, an inserted key
/// counted as often as it was inserted; and a key without a reference is not
/// in the value map.
pub proof fn law_reference_counts_are_conserved(v: OverlayView, k: u64)
    requires
        v.wf(),
    ensures
        v.ref_count(k) == refs(v.levels, k),
        v.values.contains_key(k) <==> refs(v.levels, k) > 0,
{
    assert(v.counted_at(k));
}

/// A key that is noted as deleted is scheduled in the new row: the index
/// points to the row, and the row holds the key.
pub proof fn law_deleted_key_is_scheduled(
    v: WindowView,
    hash: u64,
    inserted: Seq<u64>,
    deleted: Seq<u64>,
    k: u64,
)
    requires
        v.wf(),
        v.next_block() < u64::MAX,
        deleted.contains(k),
    ensures
        v.noted(hash, inserted, deleted).death_index.contains_key(k),
        v.noted(hash, inserted, deleted).death_index[k] == v.next_block(),
        v.noted(hash, inserted, deleted).death_rows[v.death_rows.len() as int].deleted.contains(k),
{
}

/// Reinsertion survives: a key that is scheduled for deletion in a row of
/// the window leaves that row when a later block inserts it again, so that
/// pruning the row does not delete the key, in whatever order the row
/// hands out its keys.
pub proof fn law_reinsertion_survives(
    v: WindowView,
    hash: u64,
    inserted: Seq<u64>,
    deleted: Seq<u64>,
    k: u64,
    order: Seq<u64>,
)
    requires
        v.wf(),
        v.death_index.contains_key(k),
        inserted.contains(k),
        lists(
            order,
            v.noted(hash, inserted, deleted).death_rows[v.death_index[k]
                - v.pending_number].deleted,
        ),
    ensures
        !v.noted(hash, inserted, deleted).death_rows[v.death_index[k]
            - v.pending_number].deleted.contains(k),
        !order.contains(k),
{
    assert(v.indexed_at(k));
    let i = v.death_index[k] - v.pending_number;
    let row = v.noted(hash, inserted, deleted).death_rows[i];
    assert(row == v.reinserted(inserted).death_rows[i]);
}

/// Deleting a key at one block and inserting it again at the next leaves
/// the row of the first block without the key, and the key out of the
/// index unless the second block deletes it again.
pub proof fn law_delete_then_reinsert(
    v: WindowView,
    first: u64,
    inserted1: Seq<u64>,
    deleted1: Seq<u64>,
    second: u64,
    inserted2: Seq<u64>,
    deleted2: Seq<u64>,
    k: u64,
)
    requires
        v.wf(),
        v.next_block() + 1 < u64::MAX,
        deleted1.contains(k),
        inserted2.contains(k),
    ensures
        ({
            let w = v.noted(first, inserted1, deleted1).noted(second, inserted2, deleted2);
            &&& !w.death_rows[v.death_rows.len() as int].deleted.contains(k)
            &&& !deleted2.contains(k) ==> !w.death_index.contains_key(k)
        }),
{
}

/// Pinning blocks pruning: while the block that is pruned next is pinned,
/// the prune loop prunes nothing, whatever the constraints are.
pub proof fn law_pinned_block_stops_pruning(
    window: WindowView,
    max_blocks: u64,
    pinned: Map<u64, u32>,
)
    requires
        window.next_hash() matches Some(h) && pinned.contains_key(h),
    ensures
        prune_count(window, max_blocks, pinned) == 0,
{
}

/// The prune loop never prunes a pinned block, and it stays within the
/// window.
pub proof fn law_pruned_blocks_are_not_pinned(
    window: WindowView,
    max_blocks: u64,
    pinned: Map<u64, u32>,
    i: int,
)
    requires
        window.pending_prunings <= i < window.pending_prunings + prune_count(
            window,
            max_blocks,
            pinned,
        ),
    ensures
        i < window.death_rows.len(),
        !pinned.contains_key(window.death_rows[i].hash),
    decreases window.window_size(),
{
    if i > window.pending_prunings {
        law_pruned_blocks_are_not_pinned(window.pruned_one(), max_blocks, pinned, i);
    }
}

/// The prune loop leaves at most `max_blocks` rows unpruned, unless a
/// pinned block is in the way.
pub proof fn law_pruning_meets_the_constraint(
    window: WindowView,
    max_blocks: u64,
    pinned: Map<u64, u32>,
)
    requires
        window.pending_prunings <= window.death_rows.len(),
    ensures
        ({
            let pruned = window.pruned(prune_count(window, max_blocks, pinned));
            &&& pruned.pending_prunings <= window.death_rows.len()
            &&& pruned.window_size() <= max_blocks || (pruned.next_hash() matches Some(h)
                && pinned.contains_key(h))
        }),
    decreases window.window_size(),
{
    if window.window_size() > max_blocks && window.next_hash() is Some && !pinned.contains_key(
        window.next_hash()->Some_0,
    ) {
        let next = window.pruned_one();
        law_pruning_meets_the_constraint(next, max_blocks, pinned);
    }
}

/// Whether the block `d` of level `l` descends from the block `b` of the
/// front level: its parent is `b`, or a block of the level before that
/// descends from `b`.
pub open spec fn descends(v: OverlayView, l: int, d: u64, b: u64) -> bool
    decreases l,
{
    if l < 1 || l >= v.levels.len() {
        false
    } else {
        &&& level_has(v.levels[l], d)
        &&& v.parents.contains_key(d)
        &&& if l == 1 {
            v.parents[d] == b
        } else {
            level_has(v.levels[l - 1], v.parents[d]) && descends(v, l - 1, v.parents[d], b)
        }
    }
}

/// The overlay after `a` is canonicalized and the canonicalization is
/// applied, as far as the tree goes: the front level has left, and its
/// blocks are dealt with.
pub open spec fn front_applied(v: OverlayView, a: u64) -> OverlayView {
    OverlayView { levels: v.canonicalized(a).levels.drop_first(), ..v.canonicalized(a) }.front_processed(
        v.levels[0],
        first_index(v.levels[0], a),
        v.levels[0].len(),
    )
}

/// Canonicalizing a block of the front level and applying it keeps the
/// invariant; the tree that is left is the one of [`front_applied`], and
/// nothing is pending any more.
pub proof fn lemma_canonicalized_applied(v: OverlayView, a: u64)
    requires
        v.wf(),
        v.pending_canonicalizations.len() == 0,
        !v.canonicalize_refused(a),
    ensures
        v.canonicalized(a).pending_applied().wf(),
        v.canonicalized(a).pending_applied().levels == front_applied(v, a).levels,
        v.canonicalized(a).pending_applied().parents == front_applied(v, a).parents,
        v.canonicalized(a).pending_applied().values == front_applied(v, a).values,
        v.canonicalized(a).pending_applied().pinned == front_applied(v, a).pinned,
        v.canonicalized(a).pending_applied().pending_insertions.len() == 0,
        v.canonicalized(a).pending_applied().pending_canonicalizations.len() == 0,
        tree_ok(front_applied(v, a), Seq::empty(), Seq::empty()),
        shrunk(
            front_applied(v, a),
            OverlayView { levels: v.canonicalized(a).levels.drop_first(), ..v.canonicalized(a) },
        ),
{
    let c = v.canonicalized(a);
    let popped = OverlayView { levels: c.levels.drop_first(), ..c };
    let level = v.levels[0];
    let t = front_applied(v, a);
    assert(c.pending_canonicalizations.drop_last() =~= Seq::empty());
    assert(c.applied_each(c.pending_canonicalizations) == c.applied_each(Seq::empty()).applied_one(
        a,
    ));
    lemma_tree_ok_plain(v);
    crate::overlay_lemmas::lemma_tree_ok_same(v, c, Seq::empty(), Seq::empty());
    lemma_tree_ok_plain(c);
    lemma_front_popped_ok(c);
    lemma_front_processed(popped, level, first_index(level, a), level.len());
    assert(level.skip(level.len() as int) =~= Seq::empty());
    let w = c.pending_applied();
    crate::overlay_lemmas::lemma_tree_ok_same(t, w, Seq::empty(), Seq::empty());
    match v.last_canonicalized {
        Some((_, n)) => {
        },
        None => {
        },
    }
    crate::overlay_lemmas::lemma_wf_from_tree(w);
}

/// A block that descends from a block of the front level other than the
/// canonicalized one is not in its level any more once the front level is
/// dealt with.
pub proof fn lemma_descendant_is_gone(
    v: OverlayView,
    popped: OverlayView,
    t: OverlayView,
    b: u64,
    l: int,
    d: u64,
)
    requires
        popped.levels == v.levels.drop_first(),
        popped.parents == v.parents,
        shrunk(t, popped),
        children_gone(t, popped, 0, b),
        no_orphans(t, popped, 0),
        descends(v, l, d, b),
    ensures
        !level_has(t.levels[l - 1], d),
    decreases l,
{
    if l > 1 {
        let e = v.parents[d];
        lemma_descendant_is_gone(v, popped, t, b, l - 1, e);
        assert(not_orphaned(t, popped, l - 1, d));
    }
}

/// Fork discard: once a block `a` of the front level is canonicalized and
/// the canonicalization is applied, the overlay has neither another block
/// `b` of the front level nor any block that descends from `b`.
pub proof fn law_fork_is_discarded(v: OverlayView, a: u64, b: u64, l: int, d: u64)
    requires
        v.wf(),
        v.pending_canonicalizations.len() == 0,
        !v.canonicalize_refused(a),
        level_has(v.levels[0], b),
        b != a,
        d == b || descends(v, l, d, b),
    ensures
        v.canonicalized(a).pending_applied().wf(),
        !v.canonicalized(a).pending_applied().have_block(d),
        !v.canonicalized(a).pending_applied().tracks(d),
{
    let c = v.canonicalized(a);
    let popped = OverlayView { levels: c.levels.drop_first(), ..c };
    let level = v.levels[0];
    let index = first_index(level, a);
    let t = front_applied(v, a);
    lemma_canonicalized_applied(v, a);
    lemma_tree_ok_plain(v);
    crate::overlay_lemmas::lemma_tree_ok_same(v, c, Seq::empty(), Seq::empty());
    lemma_tree_ok_plain(c);
    lemma_front_popped_ok(c);
    lemma_front_processed(popped, level, index, level.len());
    lemma_first_index(level, a);
    assert(parent_at(t, Seq::empty(), d));
    if t.tracks(d) {
        let i = choose|i: int| 0 <= i < t.levels.len() && level_has(#[trigger] t.levels[i], d);
        assert(level_kept(t, popped, i, d));
        if !(d == b) {
            lemma_descendant_is_gone(v, popped, t, b, l, d);
        }
    }
}

/// The window refers to a key only through a block that inserted it.
pub proof fn lemma_reference_has_a_block(levels: Seq<Seq<BlockView>>, k: u64)
    requires
        refs(levels, k) > 0,
    ensures
        exists|i: int, j: int|
            0 <= i < levels.len() && 0 <= j < levels[i].len() && key_count(
                (#[trigger] levels[i][j]).inserted,
                k,
            ) > 0,
    decreases levels.len(),
{
    if levels.len() > 0 {
        if level_refs(levels.last(), k) > 0 {
            lemma_level_reference_has_a_block(levels.last(), k);
        } else {
            lemma_reference_has_a_block(levels.drop_last(), k);
        }
    }
}

/// A level refers to a key only through a block that inserted it.
pub proof fn lemma_level_reference_has_a_block(level: Seq<BlockView>, k: u64)
    requires
        level_refs(level, k) > 0,
    ensures
        exists|j: int| 0 <= j < level.len() && key_count((#[trigger] level[j]).inserted, k) > 0,
    decreases level.len(),
{
    if level.len() > 0 {
        if !(key_count(level.last().inserted, k) > 0) {
            lemma_level_reference_has_a_block(level.drop_last(), k);
        }
    }
}

/// Whether canonicalizing `a` takes the block `h` of level `l` out of
/// the window: the block is in the front level, or it descends from a
/// block of the front level other than `a`.
pub open spec fn leaves_with(v: OverlayView, a: u64, l: int, h: u64) -> bool {
    l == 0 || exists|b: u64| #[trigger] level_has(v.levels[0], b) && b != a && descends(v, l, h, b)
}

/// Values that only a discarded fork refers to become unreachable: where
/// nothing is pinned and every block that inserted the key `k` leaves the
/// window when `a` is canonicalized, a lookup of `k` finds nothing once the
/// canonicalization is applied.
pub proof fn law_discarded_values_are_gone(v: OverlayView, a: u64, k: u64)
    requires
        v.wf(),
        v.pending_canonicalizations.len() == 0,
        !v.canonicalize_refused(a),
        forall|h: u64| !v.pinned.contains_key(h),
        forall|l: int, j: int|
            0 <= l < v.levels.len() && 0 <= j < v.levels[l].len() && key_count(
                (#[trigger] v.levels[l][j]).inserted,
                k,
            ) > 0 ==> leaves_with(v, a, l, v.levels[l][j].hash),
    ensures
        v.canonicalized(a).pending_applied().answers(k, None),
        !v.canonicalized(a).pending_applied().values.contains_key(k),
{
    let c = v.canonicalized(a);
    let popped = OverlayView { levels: c.levels.drop_first(), ..c };
    let level = v.levels[0];
    let index = first_index(level, a);
    let t = front_applied(v, a);
    let w = c.pending_applied();
    lemma_canonicalized_applied(v, a);
    lemma_tree_ok_plain(v);
    crate::overlay_lemmas::lemma_tree_ok_same(v, c, Seq::empty(), Seq::empty());
    lemma_tree_ok_plain(c);
    lemma_front_popped_ok(c);
    lemma_front_processed(popped, level, index, level.len());
    lemma_first_index(level, a);
    assert(w.counted_at(k));
    if refs(w.levels, k) > 0 {
        lemma_reference_has_a_block(w.levels, k);
        let (i, j) = choose|i: int, j: int|
            0 <= i < w.levels.len() && 0 <= j < w.levels[i].len() && key_count(
                (#[trigger] w.levels[i][j]).inserted,
                k,
            ) > 0;
        let x = t.levels[i][j];
        assert(block_kept(t, popped, i, x));
        let b = choose|b: u64|
            #[trigger] level_has(v.levels[0], b) && b != a && descends(v, i + 1, x.hash, b);
        lemma_descendant_is_gone(v, popped, t, b, i + 1, x.hash);
    }
}

/// Replaying an insertion: restoring the journal entry that an accepted
/// insertion wrote, under the key it was written under and as the codec
/// reads it back, puts the same block into the window as the insertion
/// did. The levels, the parents and the values are the same.
pub proof fn law_replayed_block_is_inserted(
    v: OverlayView,
    hash: u64,
    number: u64,
    parent: u64,
    nodes: Seq<(u64, Seq<u8>)>,
    deleted: Seq<u64>,
)
    requires
        v.wf(),
        !v.number_refused(number),
        !v.parent_refused(number, parent),
        !v.parents.contains_key(hash),
        has_room(v.values, node_keys(nodes)),
        encodable_nodes(nodes),
        encodable_len(deleted.len()),
        overlay_record_parsed(overlay_record_bytes(hash, parent, nodes, deleted)) == Some(
            (hash, parent, nodes, deleted),
        ),
    ensures
        ({
            let entry = v.insert_commit(hash, number, parent, nodes, deleted).meta.inserted.last();
            let inserted = v.inserted(hash, number, parent, nodes, deleted);
            let restored = v.restored(
                v.level_of(number),
                entry.0,
                overlay_record_parsed(entry.1)->Some_0,
            );
            &&& v.restorable(overlay_record_parsed(entry.1))
            &&& restored.levels == inserted.levels
            &&& restored.parents == inserted.parents
            &&& restored.values == inserted.values
        }),
{
}

/// Replaying a canonicalization: importing the journal entry that noting
/// a canonicalized block wrote, under the key it was written under and as
/// the codec reads it back, puts the same row into the pruning window as
/// noting did. The rows and the index are the same.
pub proof fn law_replayed_row_is_noted(v: WindowView, commit: CommitSetView, hash: u64)
    requires
        window_record_parsed(
            window_record_bytes(hash, SyncView::commit_keys(commit), commit.data.deleted),
        ) == Some((hash, SyncView::commit_keys(commit), commit.data.deleted)),
    ensures
        ({
            let entry = note_commit(v, commit, hash).meta.inserted.last();
            let record = window_record_parsed(entry.1)->Some_0;
            let noted = v.noted(hash, SyncView::commit_keys(commit), commit.data.deleted);
            let imported = v.imported(record.0, entry.0, record.1, record.2);
            &&& imported.death_rows == noted.death_rows
            &&& imported.death_index == noted.death_index
            &&& imported.pending_number == noted.pending_number
        }),
{
}

/// The last canonicalized block and the last pruned block read back as
/// they were stored.
pub proof fn law_stored_numbers_read_back(hash: u64, number: u64)
    ensures
        pair_parsed(pair_bytes(hash, number)) == Some((hash, number)),
        number_parsed(number_bytes(number)) == Some(number),
{
    lemma_auto_spec_u64_to_from_le_bytes();
    assert(number_bytes(number).subrange(0, 8) =~= spec_u64_to_le_bytes(number));
    assert(pair_bytes(hash, number).subrange(0, 8) =~= spec_u64_to_le_bytes(hash));
    assert(pair_bytes(hash, number).subrange(8, 16) =~= spec_u64_to_le_bytes(number));
}

} // verus!

//! Facts about the model of the canonicalization window: each operation
//! keeps the invariant.

use vstd::prelude::*;
use crate::codec::encodable_len;
use crate::types::CommitSetView;
use crate::overlay::{
    block_sized, children_of, first_index, hash_set, inserted_keys, is_child, key_count,
    level_has, level_refs, level_sized, levels_sized, node_keys, others_of, refs, tail_level,
    values_inserted, values_released, BlockView, OverlayView, Snapshot, Values,
};

verus! {

/// The number of references to `k` that a value map records.
pub open spec fn counted_refs(values: Values, k: u64) -> nat {
    if values.contains_key(k) {
        values[k].0
    } else {
        0
    }
}

/// Whether a reference to each of `keys` can be added to the value map
/// without a counter running past `u32`.
pub open spec fn has_room(values: Values, keys: Seq<u64>) -> bool {
    forall|k: u64| counted_refs(values, k) + key_count(keys, k) <= u32::MAX
}

/// Counting over two lists of keys adds up.
pub proof fn lemma_key_count_concat(a: Seq<u64>, b: Seq<u64>, k: u64)
    ensures
        key_count(a + b, k) == key_count(a, k) + key_count(b, k),
    decreases b.len(),
{
    if !(b.len() == 0) {
        assert((a + b).drop_last() =~= a + b.drop_last());
        lemma_key_count_concat(a, b.drop_last(), k);
    }
}

/// The number of occurrences of `k` among the first `n` keys is at most the
/// number among all of them.
pub proof fn lemma_key_count_prefix(keys: Seq<u64>, n: int, k: u64)
    requires
        0 <= n <= keys.len(),
    ensures
        key_count(keys.take(n), k) <= key_count(keys, k),
    decreases keys.len(),
{
    if n < keys.len() {
        assert(keys.drop_last().take(n) =~= keys.take(n));
        lemma_key_count_prefix(keys.drop_last(), n, k);
    } else {
        assert(keys.take(n) =~= keys);
    }
}

/// A level refers to a key as often as the key occurs among the keys that
/// its blocks inserted.
pub proof fn lemma_level_refs_keys(level: Seq<BlockView>, k: u64)
    ensures
        level_refs(level, k) == key_count(inserted_keys(level), k),
    decreases level.len(),
{
    if level.len() > 0 {
        lemma_level_refs_keys(level.drop_last(), k);
        lemma_key_count_concat(inserted_keys(level.drop_last()), level.last().inserted, k);
    }
}

/// One more block in a level adds its references.
pub proof fn lemma_level_refs_push(level: Seq<BlockView>, b: BlockView, k: u64)
    ensures
        level_refs(level.push(b), k) == level_refs(level, k) + key_count(b.inserted, k),
{
    assert(level.push(b).drop_last() =~= level);
}

/// One more level adds its references.
pub proof fn lemma_refs_push(levels: Seq<Seq<BlockView>>, level: Seq<BlockView>, k: u64)
    ensures
        refs(levels.push(level), k) == refs(levels, k) + level_refs(level, k),
{
    assert(levels.push(level).drop_last() =~= levels);
}

/// Replacing a level exchanges its references.
pub proof fn lemma_refs_update(
    levels: Seq<Seq<BlockView>>,
    li: int,
    level: Seq<BlockView>,
    k: u64,
)
    requires
        0 <= li < levels.len(),
    ensures
        refs(levels.update(li, level), k) + level_refs(levels[li], k) == refs(levels, k)
            + level_refs(level, k),
    decreases levels.len(),
{
    if li == levels.len() - 1 {
        assert(levels.update(li, level).drop_last() =~= levels.drop_last());
    } else {
        assert(levels.update(li, level).drop_last() =~= levels.drop_last().update(li, level));
        lemma_refs_update(levels.drop_last(), li, level, k);
    }
}

/// Without the first level its references are gone.
pub proof fn lemma_refs_drop_first(levels: Seq<Seq<BlockView>>, k: u64)
    requires
        levels.len() > 0,
    ensures
        refs(levels, k) == level_refs(levels[0], k) + refs(levels.drop_first(), k),
    decreases levels.len(),
{
    if levels.len() == 1 {
        assert(levels.drop_first() =~= Seq::empty());
        assert(levels.drop_last() =~= Seq::empty());
    } else {
        assert(levels.drop_first().drop_last() =~= levels.drop_last().drop_first());
        lemma_refs_drop_first(levels.drop_last(), k);
    }
}

/// The value map after references were added records them: each counter
/// grows by the number of new references, and a key is there if it was
/// there or got a reference.
pub proof fn lemma_values_inserted(values: Values, nodes: Seq<(u64, Seq<u8>)>, k: u64)
    ensures
        counted_refs(values_inserted(values, nodes), k) == counted_refs(values, k) + key_count(
            node_keys(nodes),
            k,
        ),
        values_inserted(values, nodes).contains_key(k) <==> values.contains_key(k) || key_count(
            node_keys(nodes),
            k,
        ) > 0,
    decreases nodes.len(),
{
    if nodes.len() > 0 {
        lemma_values_inserted(values, nodes.drop_last(), k);
        assert(node_keys(nodes).drop_last() =~= node_keys(nodes.drop_last()));
    }
}

/// The value map after references were released records it: each counter
/// shrinks by the number of released references, and a key is there as
/// long as a reference is left.
pub proof fn lemma_values_released(
    values: Values,
    snapshot: Option<Snapshot>,
    keys: Seq<u64>,
    k: u64,
)
    requires
        key_count(keys, k) <= counted_refs(values, k),
        values.contains_key(k) ==> values[k].0 > 0,
    ensures
        counted_refs(values_released(values, snapshot, keys).0, k) == counted_refs(values, k)
            - key_count(keys, k),
        values_released(values, snapshot, keys).0.contains_key(k) <==> counted_refs(values, k)
            > key_count(keys, k),
        values_released(values, snapshot, keys).0.contains_key(k) ==> values.contains_key(k)
            && values_released(values, snapshot, keys).0[k].1 == values[k].1,
    decreases keys.len(),
{
    if keys.len() > 0 {
        lemma_values_released(values, snapshot, keys.drop_last(), k);
    }
}

/// A block with hash `h` is in the level with one more block if it was in
/// the level or is the new block.
pub proof fn lemma_level_has_push(level: Seq<BlockView>, b: BlockView, h: u64)
    ensures
        level_has(level.push(b), h) <==> level_has(level, h) || b.hash == h,
{
    if level_has(level, h) {
        let j = choose|j: int| 0 <= j < level.len() && (#[trigger] level[j]).hash == h;
        assert(level.push(b)[j].hash == h);
    }
    if b.hash == h {
        assert(level.push(b)[level.len() as int].hash == h);
    }
}

/// The overlay with one more block tracks what it tracked and the new
/// block.
pub proof fn lemma_with_block_tracks(
    v: OverlayView,
    li: int,
    block: BlockView,
    parent: u64,
    nodes: Seq<(u64, Seq<u8>)>,
    h: u64,
)
    requires
        0 <= li <= v.levels.len(),
    ensures
        v.with_block(li, block, parent, nodes).tracks(h) <==> v.tracks(h) || block.hash == h,
{
    let w = v.with_block(li, block, parent, nodes);
    if li < v.levels.len() {
        lemma_level_has_push(v.levels[li], block, h);
    } else {
        lemma_level_has_push(Seq::empty(), block, h);
    }
    if v.tracks(h) {
        let i = choose|i: int| 0 <= i < v.levels.len() && level_has(#[trigger] v.levels[i], h);
        assert(level_has(w.levels[i], h));
    }
    if block.hash == h {
        assert(level_has(w.levels[li], h));
    }
}

/// Adding a block that is not tracked yet, whose keys the value map has
/// room for, keeps the invariant as far as blocks, parents and reference
/// counts go.
pub proof fn lemma_with_block_wf(
    v: OverlayView,
    li: int,
    block: BlockView,
    parent: u64,
    nodes: Seq<(u64, Seq<u8>)>,
)
    requires
        v.unique_blocks(),
        v.sized(),
        v.parents_match(),
        v.counted(),
        0 <= li <= v.levels.len(),
        !v.parents.contains_key(block.hash),
        block.inserted == node_keys(nodes),
        block_sized(block),
    ensures
        v.with_block(li, block, parent, nodes).unique_blocks(),
        v.with_block(li, block, parent, nodes).sized(),
        v.with_block(li, block, parent, nodes).parents_match(),
        v.with_block(li, block, parent, nodes).counted(),
{
    let w = v.with_block(li, block, parent, nodes);
    assert forall|h: u64| w.parents.contains_key(h) <==> w.tracks(h) by {
        lemma_with_block_tracks(v, li, block, parent, nodes, h);
    }
    assert forall|k: u64| #[trigger] w.counted_at(k) by {
        assert(v.counted_at(k));
        lemma_values_inserted(v.values, nodes, k);
        if li < v.levels.len() {
            lemma_refs_update(v.levels, li, v.levels[li].push(block), k);
            lemma_level_refs_push(v.levels[li], block, k);
        } else {
            lemma_refs_push(v.levels, seq![block], k);
            lemma_level_refs_push(Seq::empty(), block, k);
        }
    }
    assert forall|i: int, j: int, i2: int, j2: int|
        0 <= i < w.levels.len() && 0 <= j < w.levels[i].len() && 0 <= i2 < w.levels.len() && 0
            <= j2 < w.levels[i2].len() && (#[trigger] w.levels[i][j]).hash == (
        #[trigger] w.levels[i2][j2]).hash implies i == i2 && j == j2 by {
        let old_a = i < v.levels.len() && j < v.levels[i].len();
        let old_b = i2 < v.levels.len() && j2 < v.levels[i2].len();
        if old_a {
            assert(v.tracks(v.levels[i][j].hash));
        }
        if old_b {
            assert(v.tracks(v.levels[i2][j2].hash));
        }
    }
}

/// An accepted insertion of a block that is not tracked yet keeps the
/// invariant.
pub proof fn lemma_inserted_wf(
    v: OverlayView,
    hash: u64,
    number: u64,
    parent: u64,
    nodes: Seq<(u64, Seq<u8>)>,
    deleted: Seq<u64>,
)
    requires
        v.wf(),
        !v.number_refused(number),
        !v.parents.contains_key(hash),
        encodable_len(nodes.len()),
        encodable_len(deleted.len()),
    ensures
        v.inserted(hash, number, parent, nodes, deleted).wf(),
{
    let adopted = OverlayView {
        last_canonicalized: if v.adopts_parent(number) {
            Some((parent, (number - 1) as u64))
        } else {
            v.last_canonicalized
        },
        pending_insertions: v.pending_insertions.push(hash),
        ..v
    };
    assert forall|h: u64| adopted.tracks(h) == v.tracks(h) by {}
    assert forall|k: u64| #[trigger] adopted.counted_at(k) by {
        assert(v.counted_at(k));
    }
    lemma_with_block_wf(
        adopted,
        v.level_of(number),
        v.inserted_block(hash, number, nodes, deleted),
        parent,
        nodes,
    );
}

/// What `first_index` finds: the first block with the hash, if the level
/// has one.
pub proof fn lemma_first_index(level: Seq<BlockView>, h: u64)
    ensures
        0 <= first_index(level, h) <= level.len(),
        first_index(level, h) < level.len() <==> level_has(level, h),
        first_index(level, h) < level.len() ==> level[first_index(level, h)].hash == h,
        forall|j: int| 0 <= j < first_index(level, h) ==> (#[trigger] level[j]).hash != h,
    decreases level.len(),
{
    if level.len() > 0 {
        let shorter = level.drop_last();
        lemma_first_index(shorter, h);
        assert forall|j: int| 0 <= j < first_index(level, h) implies (#[trigger] level[j]).hash
            != h by {
            if j < shorter.len() {
                assert(level[j] == shorter[j]);
            }
        }
    }
}

/// The first block with the hash is what `first_index` finds.
pub proof fn lemma_first_index_is(level: Seq<BlockView>, h: u64, i: int)
    requires
        0 <= i < level.len(),
        level[i].hash == h,
        forall|j: int| 0 <= j < i ==> (#[trigger] level[j]).hash != h,
    ensures
        first_index(level, h) == i,
{
    lemma_first_index(level, h);
}

/// A key that occurs among the keys has a positive count.
pub proof fn lemma_key_count_positive(keys: Seq<u64>, i: int)
    requires
        0 <= i < keys.len(),
    ensures
        key_count(keys, keys[i]) > 0,
    decreases keys.len(),
{
    if i < keys.len() - 1 {
        lemma_key_count_positive(keys.drop_last(), i);
    }
}

/// A key with a positive count occurs among the keys.
pub proof fn lemma_counted_key_occurs(keys: Seq<u64>, k: u64)
    requires
        key_count(keys, k) > 0,
    ensures
        exists|n: int| 0 <= n < keys.len() && keys[n] == k,
    decreases keys.len(),
{
    if keys.len() > 0 {
        if !(keys.last() == k) {
            lemma_counted_key_occurs(keys.drop_last(), k);
        }
    }
}

/// A level refers to a key at least as often as any of its blocks.
pub proof fn lemma_level_refs_block(level: Seq<BlockView>, j: int, k: u64)
    requires
        0 <= j < level.len(),
    ensures
        key_count(level[j].inserted, k) <= level_refs(level, k),
    decreases level.len(),
{
    if j < level.len() - 1 {
        lemma_level_refs_block(level.drop_last(), j, k);
    }
}

/// The window refers to a key at least as often as any of its levels.
pub proof fn lemma_refs_level(levels: Seq<Seq<BlockView>>, i: int, k: u64)
    requires
        0 <= i < levels.len(),
    ensures
        level_refs(levels[i], k) <= refs(levels, k),
    decreases levels.len(),
{
    if i < levels.len() - 1 {
        lemma_refs_level(levels.drop_last(), i, k);
    }
}

/// Under the invariant the value map has every key that a tracked block
/// inserted.
pub proof fn lemma_inserted_key_has_value(v: OverlayView, i: int, j: int, n: int)
    requires
        v.counted(),
        0 <= i < v.levels.len(),
        0 <= j < v.levels[i].len(),
        0 <= n < v.levels[i][j].inserted.len(),
    ensures
        v.values.contains_key(v.levels[i][j].inserted[n]),
{
    let k = v.levels[i][j].inserted[n];
    lemma_key_count_positive(v.levels[i][j].inserted, n);
    lemma_level_refs_block(v.levels[i], j, k);
    lemma_refs_level(v.levels, i, k);
    assert(v.counted_at(k));
}

/// No two blocks of the level have the same hash.
pub open spec fn distinct(level: Seq<BlockView>) -> bool {
    forall|a: int, b: int|
        0 <= a < level.len() && 0 <= b < level.len() && (#[trigger] level[a]).hash == (
        #[trigger] level[b]).hash ==> a == b
}

/// No block is in two levels.
pub open spec fn disjoint_levels(levels: Seq<Seq<BlockView>>) -> bool {
    forall|i: int, i2: int, h: u64|
        0 <= i < levels.len() && 0 <= i2 < levels.len() && #[trigger] level_has(levels[i], h)
            && #[trigger] level_has(levels[i2], h) ==> i == i2
}

/// Each level on its own has no block twice.
pub open spec fn distinct_levels(levels: Seq<Seq<BlockView>>) -> bool {
    forall|i: int| 0 <= i < levels.len() ==> distinct(#[trigger] levels[i])
}

/// Blocks are unique in the window if no level has a block twice and no
/// block is in two levels.
pub proof fn lemma_unique_parts(v: OverlayView)
    ensures
        v.unique_blocks() <==> distinct_levels(v.levels) && disjoint_levels(v.levels),
{
    if distinct_levels(v.levels) && disjoint_levels(v.levels) {
        assert forall|i: int, j: int, i2: int, j2: int|
            0 <= i < v.levels.len() && 0 <= j < v.levels[i].len() && 0 <= i2 < v.levels.len() && 0
                <= j2 < v.levels[i2].len() && (#[trigger] v.levels[i][j]).hash == (
            #[trigger] v.levels[i2][j2]).hash implies i == i2 && j == j2 by {
            let h = v.levels[i][j].hash;
            assert(level_has(v.levels[i], h));
            assert(level_has(v.levels[i2], h));
        }
    }
}

/// How a level splits into the children of `parent` and the other blocks.
pub proof fn lemma_children_others(level: Seq<BlockView>, parents: Map<u64, u64>, parent: u64)
    ensures
        forall|h: u64| #[trigger]
            level_has(children_of(level, parents, parent), h) <==> level_has(level, h) && is_child(
                parents,
                h,
                parent,
            ),
        forall|h: u64| #[trigger]
            level_has(others_of(level, parents, parent), h) <==> level_has(level, h) && !is_child(
                parents,
                h,
                parent,
            ),
        distinct(level) ==> distinct(children_of(level, parents, parent)) && distinct(
            others_of(level, parents, parent),
        ),
        forall|k: u64|
            level_refs(children_of(level, parents, parent), k) + level_refs(
                others_of(level, parents, parent),
                k,
            ) == #[trigger] level_refs(level, k),
        children_of(level, parents, parent).len() <= level.len(),
    decreases level.len(),
{
    let children = children_of(level, parents, parent);
    let others = others_of(level, parents, parent);
    if level.len() == 0 {
    } else {
        let shorter = level.drop_last();
        let last = level.last();
        lemma_children_others(shorter, parents, parent);
        let c0 = children_of(shorter, parents, parent);
        let o0 = others_of(shorter, parents, parent);
        assert forall|h: u64| level_has(level, h) <==> level_has(shorter, h) || last.hash == h by {
            assert(shorter.push(last) =~= level);
            lemma_level_has_push(shorter, last, h);
        }
        assert forall|h: u64| #[trigger]
            level_has(children, h) <==> level_has(level, h) && is_child(parents, h, parent) by {
            if is_child(parents, last.hash, parent) {
                lemma_level_has_push(c0, last, h);
            }
        }
        assert forall|h: u64| #[trigger]
            level_has(others, h) <==> level_has(level, h) && !is_child(parents, h, parent) by {
            if !is_child(parents, last.hash, parent) {
                lemma_level_has_push(o0, last, h);
            }
        }
        if distinct(level) {
            lemma_distinct_push(c0, last);
            lemma_distinct_push(o0, last);
        }
        assert forall|k: u64|
            level_refs(children, k) + level_refs(others, k) == #[trigger] level_refs(level, k) by {
            assert(level_refs(c0, k) + level_refs(o0, k) == level_refs(shorter, k));
            lemma_level_refs_push(c0, last, k);
            lemma_level_refs_push(o0, last, k);
        }
    }
}

/// A level stays without repetition when a block that it does not have is
/// put at its end.
pub proof fn lemma_distinct_push(level: Seq<BlockView>, b: BlockView)
    requires
        distinct(level),
        !level_has(level, b.hash),
    ensures
        distinct(level.push(b)),
{
}

/// Releasing two lists of keys one after the other is releasing them as
/// one list.
pub proof fn lemma_values_released_concat(
    values: Values,
    snapshot: Option<Snapshot>,
    a: Seq<u64>,
    b: Seq<u64>,
)
    ensures
        values_released(values, snapshot, a + b) == values_released(
            values_released(values, snapshot, a).0,
            values_released(values, snapshot, a).1,
            b,
        ),
    decreases b.len(),
{
    if !(b.len() == 0) {
        assert((a + b).drop_last() =~= a + b.drop_last());
        lemma_values_released_concat(values, snapshot, a, b.drop_last());
    }
}

/// A release passes a missing snapshot on as it is.
pub proof fn lemma_values_released_none(values: Values, keys: Seq<u64>)
    ensures
        values_released(values, None, keys).1 is None,
    decreases keys.len(),
{
    if keys.len() > 0 {
        lemma_values_released_none(values, keys.drop_last());
    }
}

/// A release into a snapshot hands a snapshot back.
pub proof fn lemma_values_released_some(values: Values, snapshot: Snapshot, keys: Seq<u64>)
    ensures
        values_released(values, Some(snapshot), keys).1 is Some,
    decreases keys.len(),
{
    if keys.len() > 0 {
        lemma_values_released_some(values, snapshot, keys.drop_last());
    }
}

/// Releasing the references of two blocks into the snapshot of one owner
/// is releasing all their keys at once.
pub proof fn lemma_released_twice(v: OverlayView, owner: u64, a: Seq<u64>, b: Seq<u64>)
    ensures
        v.released(owner, a).released(owner, b) == v.released(owner, a + b),
{
    lemma_values_released_concat(v.values, v.pinned.get(owner), a, b);
    let first = values_released(v.values, v.pinned.get(owner), a);
    match v.pinned.get(owner) {
        Some(s) => {
            lemma_values_released_some(v.values, s, a);
            lemma_values_released_some(first.0, first.1->Some_0, b);
            let second = values_released(first.0, first.1, b);
            assert(v.pinned.insert(owner, first.1->Some_0).insert(owner, second.1->Some_0)
                =~= v.pinned.insert(owner, second.1->Some_0));
        },
        None => {
            lemma_values_released_none(v.values, a);
        },
    }
}

/// The reference count of `k` accounts for the tracked blocks and for the
/// blocks in `extra`, and is positive if `k` is in the value map.
pub open spec fn held_at(v: OverlayView, extra: Seq<BlockView>, k: u64) -> bool {
    counted_refs(v.values, k) == refs(v.levels, k) + level_refs(extra, k) && (
    v.values.contains_key(k) ==> v.values[k].0 > 0)
}

/// The parent map has `h` if and only if `h` is tracked or in `extra`.
pub open spec fn parent_at(v: OverlayView, extra: Seq<BlockView>, h: u64) -> bool {
    v.parents.contains_key(h) <==> (v.tracks(h) || level_has(extra, h))
}

/// The invariant of the tree while some blocks have left the levels:
/// those in `unparented` still have their parent entries, those in
/// `unreleased` still hold their references.
pub open spec fn tree_ok(v: OverlayView, unparented: Seq<BlockView>, unreleased: Seq<BlockView>) -> bool {
    &&& v.unique_blocks()
    &&& v.sized()
    &&& distinct(unparented)
    &&& forall|h: u64| #[trigger] level_has(unparented, h) ==> !v.tracks(h)
    &&& forall|h: u64| #[trigger] parent_at(v, unparented, h)
    &&& forall|k: u64| #[trigger] held_at(v, unreleased, k)
}

/// A level stays small when blocks leave it.
pub proof fn lemma_others_sized(level: Seq<BlockView>, parents: Map<u64, u64>, parent: u64)
    requires
        level_sized(level),
    ensures
        level_sized(others_of(level, parents, parent)),
    decreases level.len(),
{
    if level.len() > 0 {
        let shorter = level.drop_last();
        lemma_others_sized(shorter, parents, parent);
    }
}

/// With no block in between, the invariant of the tree is the one of the
/// overlay.
pub proof fn lemma_tree_ok_plain(v: OverlayView)
    ensures
        tree_ok(v, Seq::empty(), Seq::empty()) <==> v.unique_blocks() && v.sized()
            && v.parents_match() && v.counted(),
{
    let none = Seq::<BlockView>::empty();
    if tree_ok(v, none, none) {
        assert forall|h: u64| v.parents.contains_key(h) <==> v.tracks(h) by {
            assert(parent_at(v, none, h));
        }
        assert forall|k: u64| #[trigger] v.counted_at(k) by {
            assert(held_at(v, none, k));
        }
    }
    if v.unique_blocks() && v.sized() && v.parents_match() && v.counted() {
        assert forall|k: u64| #[trigger] held_at(v, none, k) by {
            assert(v.counted_at(k));
        }
    }
}

/// Taking the children of a block out of a level keeps the invariant of
/// the tree.
pub proof fn lemma_level_filtered_ok(
    v: OverlayView,
    extra: Seq<BlockView>,
    unreleased: Seq<BlockView>,
    li: int,
    parent: u64,
)
    requires
        tree_ok(v, extra, unreleased),
        0 <= li < v.levels.len(),
    ensures
        tree_ok(v.level_filtered(li, parent), extra, unreleased),
        v.level_filtered(li, parent).levels.len() == v.levels.len(),
        v.level_filtered(li, parent).last_canonicalized == v.last_canonicalized,
        v.level_filtered(li, parent).pending_canonicalizations == v.pending_canonicalizations,
        v.level_filtered(li, parent).pending_insertions == v.pending_insertions,
{
    let level = v.levels[li];
    let children = children_of(level, v.parents, parent);
    let others = others_of(level, v.parents, parent);
    let w = v.level_filtered(li, parent);
    lemma_children_others(level, v.parents, parent);
    lemma_unique_parts(w);
    assert(levels_sized(w.levels)) by {
        lemma_others_sized(level, v.parents, parent);
        assert forall|i: int| 0 <= i < w.levels.len() implies level_sized(#[trigger] w.levels[i]) by {
        }
    }
    assert forall|h: u64| w.tracks(h) <==> v.tracks(h) && !level_has(children, h) by {
        if v.tracks(h) && !level_has(children, h) {
            let i = choose|i: int| 0 <= i < v.levels.len() && level_has(#[trigger] v.levels[i], h);
            assert(level_has(w.levels[i], h));
        }
    }
    assert forall|h: u64| #[trigger] parent_at(w, extra, h) by {
        assert(parent_at(v, extra, h));
    }
    assert forall|k: u64| #[trigger] held_at(w, unreleased, k) by {
        assert(held_at(v, unreleased, k));
        lemma_refs_update(v.levels, li, others, k);
        lemma_level_refs_keys(children, k);
        lemma_refs_level(v.levels, li, k);
        lemma_values_released(v.values, v.pinned.get(parent), inserted_keys(children), k);
    }
}

/// Without its first block a list of blocks holds the references of the
/// others.
pub proof fn lemma_level_refs_drop_first(level: Seq<BlockView>, k: u64)
    requires
        level.len() > 0,
    ensures
        level_refs(level, k) == key_count(level[0].inserted, k) + level_refs(level.drop_first(), k),
    decreases level.len(),
{
    if level.len() == 1 {
        assert(level.drop_first() =~= Seq::empty());
        assert(level.drop_last() =~= Seq::empty());
    } else {
        assert(level.drop_first().drop_last() =~= level.drop_last().drop_first());
        lemma_level_refs_drop_first(level.drop_last(), k);
    }
}

/// A level without its first block has the blocks of the level but the
/// first, if no block is there twice.
pub proof fn lemma_level_has_drop_first(level: Seq<BlockView>, h: u64)
    requires
        level.len() > 0,
        distinct(level),
    ensures
        level_has(level.drop_first(), h) <==> level_has(level, h) && h != level[0].hash,
        distinct(level.drop_first()),
{
    let rest = level.drop_first();
    if level_has(level, h) && h != level[0].hash {
        let j = choose|j: int| 0 <= j < level.len() && (#[trigger] level[j]).hash == h;
        assert(rest[j - 1].hash == h);
    }
}

/// When the front level leaves the window, the invariant of the tree
/// holds with its blocks in between.
pub proof fn lemma_front_popped_ok(v: OverlayView)
    requires
        v.unique_blocks(),
        v.sized(),
        v.parents_match(),
        v.counted(),
        v.levels.len() > 0,
    ensures
        tree_ok(OverlayView { levels: v.levels.drop_first(), ..v }, v.levels[0], v.levels[0]),
{
    let w = OverlayView { levels: v.levels.drop_first(), ..v };
    let level = v.levels[0];
    assert forall|h: u64| v.tracks(h) <==> w.tracks(h) || level_has(level, h) by {
        if v.tracks(h) {
            let i = choose|i: int| 0 <= i < v.levels.len() && level_has(#[trigger] v.levels[i], h);
            if i > 0 {
                assert(level_has(w.levels[i - 1], h));
            }
        }
    }
    assert forall|k: u64| #[trigger] held_at(w, level, k) by {
        assert(v.counted_at(k));
        lemma_refs_drop_first(v.levels, k);
    }
}

/// The first of the blocks in between gives up its parent entry.
pub proof fn lemma_front_unparented_ok(v: OverlayView, extra: Seq<BlockView>)
    requires
        tree_ok(v, extra, extra),
        extra.len() > 0,
    ensures
        tree_ok(
            OverlayView { parents: v.parents.remove(extra[0].hash), ..v },
            extra.drop_first(),
            extra,
        ),
{
    let w = OverlayView { parents: v.parents.remove(extra[0].hash), ..v };
    let rest = extra.drop_first();
    assert(level_has(extra, extra[0].hash));
    assert forall|h: u64| #[trigger] level_has(rest, h) implies !w.tracks(h) by {
        lemma_level_has_drop_first(extra, h);
    }
    assert forall|h: u64| #[trigger] parent_at(w, rest, h) by {
        lemma_level_has_drop_first(extra, h);
        assert(parent_at(v, extra, h));
    }
    assert forall|k: u64| #[trigger] held_at(w, extra, k) by {
        assert(held_at(v, extra, k));
    }
}

/// The first of the blocks in between, which has given up its parent
/// entry, releases its references.
pub proof fn lemma_front_released_ok(v: OverlayView, extra: Seq<BlockView>)
    requires
        extra.len() > 0,
        tree_ok(v, extra.drop_first(), extra),
    ensures
        tree_ok(v.released(extra[0].hash, extra[0].inserted), extra.drop_first(), extra.drop_first()),
{
    let w = v.released(extra[0].hash, extra[0].inserted);
    let rest = extra.drop_first();
    assert forall|h: u64| #[trigger] parent_at(w, rest, h) by {
        assert(parent_at(v, rest, h));
    }
    assert forall|k: u64| #[trigger] held_at(w, rest, k) by {
        assert(held_at(v, extra, k));
        lemma_level_refs_drop_first(extra, k);
        lemma_values_released(v.values, v.pinned.get(extra[0].hash), extra[0].inserted, k);
    }
}

/// The invariant of the overlay from the invariant of the tree, where
/// no block is in between.
pub proof fn lemma_wf_from_tree(v: OverlayView)
    requires
        tree_ok(v, Seq::empty(), Seq::empty()),
        v.numbered(),
        v.pending_canonicalizations.len() <= v.levels.len(),
    ensures
        v.wf(),
{
    lemma_tree_ok_plain(v);
}

/// The invariant of the tree does not depend on what is pending or
/// pinned, nor on the last canonicalized block.
pub proof fn lemma_tree_ok_same(
    v: OverlayView,
    w: OverlayView,
    unparented: Seq<BlockView>,
    unreleased: Seq<BlockView>,
)
    requires
        tree_ok(v, unparented, unreleased),
        w.levels == v.levels,
        w.parents == v.parents,
        w.values == v.values,
    ensures
        tree_ok(w, unparented, unreleased),
{
    assert forall|h: u64| #[trigger] parent_at(w, unparented, h) by {
        assert(parent_at(v, unparented, h));
    }
    assert forall|k: u64| #[trigger] held_at(w, unreleased, k) by {
        assert(held_at(v, unreleased, k));
    }
}

/// Taking one more child out of the parent map.
pub proof fn lemma_remove_child(parents: Map<u64, u64>, children: Seq<BlockView>, o: BlockView)
    ensures
        parents.remove_keys(hash_set(children)).remove(o.hash) == parents.remove_keys(
            hash_set(children.push(o)),
        ),
{
    assert forall|h: u64|
        hash_set(children.push(o)).contains(h) <==> hash_set(children).contains(h) || h
            == o.hash by {
        lemma_level_has_push(children, o, h);
    }
}

/// What `tail_level` finds: the first level that ends with the block, if
/// there is one.
pub proof fn lemma_tail_level(levels: Seq<Seq<BlockView>>, h: u64)
    ensures
        0 <= tail_level(levels, h) <= levels.len(),
        tail_level(levels, h) < levels.len() ==> levels[tail_level(levels, h)].len() > 0
            && levels[tail_level(levels, h)].last().hash == h,
        forall|i: int|
            0 <= i < tail_level(levels, h) ==> !((#[trigger] levels[i]).len() > 0
                && levels[i].last().hash == h),
    decreases levels.len(),
{
    if levels.len() > 0 {
        let shorter = levels.drop_last();
        lemma_tail_level(shorter, h);
        assert forall|i: int| 0 <= i < tail_level(levels, h) implies !((
        #[trigger] levels[i]).len() > 0 && levels[i].last().hash == h) by {
            if i < shorter.len() {
                assert(levels[i] == shorter[i]);
            }
        }
    }
}

/// The first level that ends with the block is what `tail_level` finds.
pub proof fn lemma_tail_level_is(levels: Seq<Seq<BlockView>>, h: u64, li: int)
    requires
        0 <= li <= levels.len(),
        li < levels.len() ==> levels[li].len() > 0 && levels[li].last().hash == h,
        forall|i: int|
            0 <= i < li ==> !((#[trigger] levels[i]).len() > 0 && levels[i].last().hash == h),
    ensures
        tail_level(levels, h) == li,
{
    lemma_tail_level(levels, h);
}

/// Reverting the last level keeps the invariant.
pub proof fn lemma_reverted_one_wf(v: OverlayView)
    requires
        v.wf(),
        !v.revert_refused(),
    ensures
        v.reverted_one().wf(),
{
    let w = v.reverted_one();
    let level = v.levels.last();
    assert forall|h: u64| w.tracks(h) <==> v.tracks(h) && !level_has(level, h) by {
        if v.tracks(h) && !level_has(level, h) {
            let i = choose|i: int| 0 <= i < v.levels.len() && level_has(#[trigger] v.levels[i], h);
            assert(level_has(w.levels[i], h));
        }
    }
    assert forall|k: u64| #[trigger] w.counted_at(k) by {
        assert(v.counted_at(k));
        lemma_level_refs_keys(level, k);
        lemma_values_released(v.values, None, inserted_keys(level), k);
    }
}

/// Taking back the insertion of a block keeps the invariant as far as
/// blocks, parents and reference counts go, and adds no level.
pub proof fn lemma_insertion_reverted_ok(v: OverlayView, hash: u64)
    requires
        v.unique_blocks(),
        v.sized(),
        v.parents_match(),
        v.counted(),
    ensures
        v.insertion_reverted(hash).unique_blocks(),
        v.insertion_reverted(hash).sized(),
        v.insertion_reverted(hash).parents_match(),
        v.insertion_reverted(hash).counted(),
        v.insertion_reverted(hash).levels.len() <= v.levels.len(),
        v.insertion_reverted(hash).last_canonicalized == v.last_canonicalized,
        v.insertion_reverted(hash).pending_canonicalizations == v.pending_canonicalizations,
        v.insertion_reverted(hash).pending_insertions == v.pending_insertions,
        v.insertion_reverted(hash).pinned == v.pinned,
{
    let w = v.insertion_reverted(hash);
    let li = tail_level(v.levels, hash);
    lemma_tail_level(v.levels, hash);
    if li < v.levels.len() {
        let level = v.levels[li];
        let o = level.last();
        let shorter = level.drop_last();
        let popped = v.levels.update(li, shorter);
        let u = OverlayView { levels: popped, ..v };
        assert forall|h: u64| level_has(level, h) <==> level_has(shorter, h) || h == hash by {
            assert(shorter.push(o) =~= level);
            lemma_level_has_push(shorter, o, h);
        }
        assert forall|h: u64| u.tracks(h) <==> v.tracks(h) && h != hash by {
            if v.tracks(h) && h != hash {
                let i = choose|i: int|
                    0 <= i < v.levels.len() && level_has(#[trigger] v.levels[i], h);
                assert(level_has(popped[i], h));
            }
        }
        assert forall|k: u64| refs(popped, k) + key_count(o.inserted, k) == refs(v.levels, k) by {
            lemma_refs_update(v.levels, li, shorter, k);
        }
        if shorter.len() == 0 && li == popped.len() - 1 {
            assert forall|h: u64| w.tracks(h) <==> u.tracks(h) by {
                if u.tracks(h) {
                    let i = choose|i: int| 0 <= i < popped.len() && level_has(#[trigger] popped[i], h);
                    assert(level_has(w.levels[i], h));
                }
            }
        } else {
            assert forall|h: u64| w.tracks(h) <==> u.tracks(h) by {}
        }
        assert forall|k: u64| #[trigger] w.counted_at(k) by {
            assert(v.counted_at(k));
            lemma_level_refs_block(level, level.len() - 1, k);
            lemma_refs_level(v.levels, li, k);
            lemma_values_released(v.values, None, o.inserted, k);
        }
    }
}

/// What the overlay tracks, refers to and has canonicalized does not
/// depend on what is pinned or pending.
pub proof fn lemma_wf_same(v: OverlayView, w: OverlayView)
    requires
        v.wf(),
        w.levels == v.levels,
        w.parents == v.parents,
        w.values == v.values,
        w.last_canonicalized == v.last_canonicalized,
        w.pending_canonicalizations.len() <= w.levels.len(),
    ensures
        w.wf(),
{
    lemma_tree_ok_plain(v);
    lemma_tree_ok_same(v, w, Seq::empty(), Seq::empty());
    lemma_tree_ok_plain(w);
}

impl OverlayView {
    /// What canonicalizing a block of an empty commit set hands back is
    /// small enough for a journal record of the pruning window: it holds
    /// as many nodes and keys as the block inserted and deleted.
    pub proof fn lemma_canonical_commit_sized(self, hash: u64)
        requires
            self.wf(),
            !self.canonicalize_refused(hash),
        ensures
            encodable_len(
                self.canonicalize_commit(CommitSetView::empty(), hash).data.inserted.len(),
            ),
            encodable_len(self.canonicalize_commit(CommitSetView::empty(), hash).data.deleted.len()),
    {
        let p = self.pending_canonicalizations.len() as int;
        let level = self.levels[p];
        lemma_first_index(level, hash);
    }
}

} // verus!

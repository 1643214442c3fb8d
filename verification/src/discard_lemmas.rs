//! Facts about discarding: what leaves the canonicalization window when
//! the blocks below a block are discarded.

use vstd::prelude::*;
use crate::overlay::{
    block_hashes, children_of, is_child, level_has, others_of, BlockView, OverlayView,
};
use crate::overlay_lemmas::{
    lemma_children_others, lemma_level_filtered_ok, lemma_values_released_none, parent_at, tree_ok,
};

verus! {

/// In level `i` the overlay `r` has no block that `s` does not have.
pub open spec fn level_kept(r: OverlayView, s: OverlayView, i: int, h: u64) -> bool {
    0 <= i < r.levels.len() && level_has(r.levels[i], h) ==> level_has(s.levels[i], h)
}

/// Level `i` of `r` holds no block that level `i` of `s` does not hold.
pub open spec fn block_kept(r: OverlayView, s: OverlayView, i: int, x: BlockView) -> bool {
    0 <= i < r.levels.len() && r.levels[i].contains(x) ==> s.levels[i].contains(x)
}

/// The parent map of `r` has no entry that the one of `s` does not have.
pub open spec fn parent_kept(r: OverlayView, s: OverlayView, h: u64) -> bool {
    r.parents.contains_key(h) ==> s.parents.contains_key(h) && r.parents[h] == s.parents[h]
}

/// The overlay `r` is what is left of `s`: it has as many levels, no block
/// and no parent entry that `s` does not have, and all the rest as `s`
/// has it, but for the values and what is pinned.
pub open spec fn shrunk(r: OverlayView, s: OverlayView) -> bool {
    &&& r.levels.len() == s.levels.len()
    &&& r.last_canonicalized == s.last_canonicalized
    &&& r.pending_canonicalizations == s.pending_canonicalizations
    &&& r.pending_insertions == s.pending_insertions
    &&& r.pinned.dom() == s.pinned.dom()
    &&& forall|i: int, h: u64| #[trigger] level_kept(r, s, i, h)
    &&& forall|i: int, x: BlockView| #[trigger] block_kept(r, s, i, x)
    &&& forall|h: u64| #[trigger] parent_kept(r, s, h)
}

/// The levels before level `li` are the same in `r` and `s`.
pub open spec fn same_before(r: OverlayView, s: OverlayView, li: int) -> bool {
    forall|i: int| 0 <= i < li && i < s.levels.len() ==> #[trigger] r.levels[i] == s.levels[i]
}

/// The block `d` of level `l` of `r` has not lost its parent: if `s` has
/// the parent of `d` in the level before, so has `r`.
pub open spec fn not_orphaned(r: OverlayView, s: OverlayView, l: int, d: u64) -> bool {
    1 <= l < s.levels.len() && level_has(r.levels[l], d) && s.parents.contains_key(d)
        && level_has(s.levels[l - 1], s.parents[d]) ==> level_has(r.levels[l - 1], s.parents[d])
}

/// No block of a level after level `li` of `r` has lost its parent.
pub open spec fn no_orphans(r: OverlayView, s: OverlayView, li: int) -> bool {
    forall|l: int, d: u64| li < l ==> #[trigger] not_orphaned(r, s, l, d)
}

/// Level `li` of `r` has no block whose parent in `s` is `p`.
pub open spec fn children_gone(r: OverlayView, s: OverlayView, li: int, p: u64) -> bool {
    forall|d: u64|
        0 <= li < r.levels.len() && #[trigger] level_has(r.levels[li], d) ==> !is_child(
            s.parents,
            d,
            p,
        )
}

/// What is left of what is left of an overlay is left of the overlay.
pub proof fn lemma_shrunk_trans(r: OverlayView, t: OverlayView, s: OverlayView)
    requires
        shrunk(r, t),
        shrunk(t, s),
    ensures
        shrunk(r, s),
{
    assert forall|i: int, h: u64| #[trigger] level_kept(r, s, i, h) by {
        assert(level_kept(r, t, i, h));
        assert(level_kept(t, s, i, h));
    }
    assert forall|i: int, x: BlockView| #[trigger] block_kept(r, s, i, x) by {
        assert(block_kept(r, t, i, x));
        assert(block_kept(t, s, i, x));
    }
    assert forall|h: u64| #[trigger] parent_kept(r, s, h) by {
        assert(parent_kept(r, t, h));
        assert(parent_kept(t, s, h));
    }
}

/// A release leaves the blocks and the parents alone, and pins nothing
/// new.
pub proof fn lemma_released_shrunk(s: OverlayView, owner: u64, keys: Seq<u64>)
    ensures
        s.released(owner, keys).levels == s.levels,
        s.released(owner, keys).parents == s.parents,
        shrunk(s.released(owner, keys), s),
{
    let r = s.released(owner, keys);
    match s.pinned.get(owner) {
        Some(snapshot) => {
        },
        None => {
            lemma_values_released_none(s.values, keys);
        },
    }
    assert(r.pinned.dom() =~= s.pinned.dom());
}

/// The blocks that stay in a level are blocks of the level.
pub proof fn lemma_others_blocks(level: Seq<BlockView>, parents: Map<u64, u64>, p: u64, x: BlockView)
    requires
        others_of(level, parents, p).contains(x),
    ensures
        level.contains(x),
    decreases level.len(),
{
    let others = others_of(level, parents, p);
    let n = choose|n: int| 0 <= n < others.len() && others[n] == x;
    if level.len() > 0 {
        let before = others_of(level.drop_last(), parents, p);
        if n < before.len() {
            lemma_others_blocks(level.drop_last(), parents, p, x);
        }
    }
}

/// Taking the children of a block out of a level leaves what is left of
/// the overlay; the other levels stay as they are.
pub proof fn lemma_level_filtered_shrunk(s: OverlayView, li: int, p: u64)
    requires
        0 <= li < s.levels.len(),
    ensures
        shrunk(s.level_filtered(li, p), s),
        forall|i: int|
            0 <= i < s.levels.len() && i != li ==> #[trigger] s.level_filtered(li, p).levels[i]
                == s.levels[i],
        s.level_filtered(li, p).levels[li] == others_of(s.levels[li], s.parents, p),
{
    let r = s.level_filtered(li, p);
    lemma_children_others(s.levels[li], s.parents, p);
    let children = children_of(s.levels[li], s.parents, p);
    let filtered = OverlayView {
        levels: s.levels.update(li, others_of(s.levels[li], s.parents, p)),
        parents: s.parents.remove_keys(crate::overlay::hash_set(children)),
        ..s
    };
    lemma_released_shrunk(filtered, p, crate::overlay::inserted_keys(children));
    assert forall|i: int, x: BlockView| #[trigger] block_kept(r, s, i, x) by {
        if 0 <= i < r.levels.len() && r.levels[i].contains(x) {
            if i == li {
                lemma_others_blocks(s.levels[li], s.parents, p, x);
            }
        }
    }
}

/// A tracked block has its parent entry, the same in what is left of the
/// overlay.
pub proof fn lemma_tracked_parent(
    r: OverlayView,
    s: OverlayView,
    xp: Seq<BlockView>,
    xk: Seq<BlockView>,
    i: int,
    d: u64,
)
    requires
        tree_ok(r, xp, xk),
        shrunk(r, s),
        0 <= i < r.levels.len(),
        level_has(r.levels[i], d),
    ensures
        r.parents.contains_key(d),
        s.parents.contains_key(d),
        r.parents[d] == s.parents[d],
{
    assert(parent_at(r, xp, d));
    assert(parent_kept(r, s, d));
}

/// A child of the parent is among the hashes of the children.
pub proof fn lemma_child_is_listed(level: Seq<BlockView>, parents: Map<u64, u64>, p: u64, e: u64)
    requires
        level_has(level, e),
        is_child(parents, e, p),
    ensures
        exists|m: int|
            0 <= m < children_of(level, parents, p).len() && #[trigger] block_hashes(
                children_of(level, parents, p),
            )[m] == e,
{
    lemma_children_others(level, parents, p);
    let children = children_of(level, parents, p);
    assert(level_has(children, e));
    let m = choose|m: int| 0 <= m < children.len() && (#[trigger] children[m]).hash == e;
    assert(block_hashes(children)[m] == e);
}

/// What discarding the blocks below a block leaves: the invariant of the
/// tree holds; nothing is added; the levels before the level it starts at
/// are untouched; that level has no child of the block any more; and no
/// block of a later level has lost its parent.
pub proof fn lemma_discard_descendants(
    s: OverlayView,
    xp: Seq<BlockView>,
    xk: Seq<BlockView>,
    li: int,
    p: u64,
    depth: nat,
)
    requires
        tree_ok(s, xp, xk),
        0 <= li,
        depth >= s.levels.len() - li,
    ensures
        tree_ok(s.discard_descendants(li, p, depth), xp, xk),
        shrunk(s.discard_descendants(li, p, depth), s),
        same_before(s.discard_descendants(li, p, depth), s, li),
        children_gone(s.discard_descendants(li, p, depth), s, li, p),
        no_orphans(s.discard_descendants(li, p, depth), s, li),
    decreases depth, 0nat, 0nat,
{
    let r = s.discard_descendants(li, p, depth);
    if depth == 0 || li >= s.levels.len() {
    } else {
        let level = s.levels[li];
        let children = children_of(level, s.parents, p);
        let hashes = block_hashes(children);
        let s1 = s.level_filtered(li, p);
        lemma_level_filtered_ok(s, xp, xk, li, p);
        lemma_level_filtered_shrunk(s, li, p);
        lemma_children_others(level, s.parents, p);
        lemma_discard_each(s1, xp, xk, li + 1, hashes, children.len(), (depth - 1) as nat);
        lemma_shrunk_trans(r, s1, s);
        assert forall|l: int, d: u64| li < l implies #[trigger] not_orphaned(r, s, l, d) by {
            if 1 <= l < s.levels.len() && level_has(r.levels[l], d) && s.parents.contains_key(d)
                && level_has(s.levels[l - 1], s.parents[d]) {
                let e = s.parents[d];
                assert(level_kept(r, s1, l, d));
                lemma_tracked_parent(s1, s, xp, xk, l, d);
                if l == li + 1 {
                    if is_child(s.parents, e, p) {
                        lemma_child_is_listed(level, s.parents, p, e);
                    }
                } else {
                    assert(not_orphaned(r, s1, l, d));
                }
            }
        }
    }
}

/// What discarding the blocks below each of some blocks leaves.
pub proof fn lemma_discard_each(
    s: OverlayView,
    xp: Seq<BlockView>,
    xk: Seq<BlockView>,
    li: int,
    hashes: Seq<u64>,
    upto: nat,
    depth: nat,
)
    requires
        tree_ok(s, xp, xk),
        0 <= li,
        upto <= hashes.len(),
        depth >= s.levels.len() - li,
    ensures
        tree_ok(s.discard_each(li, hashes, upto, depth), xp, xk),
        shrunk(s.discard_each(li, hashes, upto, depth), s),
        same_before(s.discard_each(li, hashes, upto, depth), s, li),
        forall|m: int|
            0 <= m < upto ==> children_gone(
                s.discard_each(li, hashes, upto, depth),
                s,
                li,
                #[trigger] hashes[m],
            ),
        no_orphans(s.discard_each(li, hashes, upto, depth), s, li),
    decreases depth, 1nat, upto,
{
    let t = s.discard_each(li, hashes, upto, depth);
    if upto == 0 {
    } else {
        let before = s.discard_each(li, hashes, (upto - 1) as nat, depth);
        let h = hashes[upto - 1];
        lemma_discard_each(s, xp, xk, li, hashes, (upto - 1) as nat, depth);
        lemma_discard_descendants(before, xp, xk, li, h, depth);
        lemma_shrunk_trans(t, before, s);
        assert forall|m: int| 0 <= m < upto implies children_gone(t, s, li, #[trigger] hashes[m]) by {
            assert forall|d: u64|
                0 <= li < t.levels.len() && #[trigger] level_has(t.levels[li], d) implies !is_child(
                s.parents,
                d,
                hashes[m],
            ) by {
                assert(level_kept(t, before, li, d));
                lemma_tracked_parent(before, s, xp, xk, li, d);
            }
        }
        assert forall|l: int, d: u64| li < l implies #[trigger] not_orphaned(t, s, l, d) by {
            if 1 <= l < s.levels.len() && level_has(t.levels[l], d) && s.parents.contains_key(d)
                && level_has(s.levels[l - 1], s.parents[d]) {
                assert(level_kept(t, before, l, d));
                lemma_tracked_parent(before, s, xp, xk, l, d);
                assert(not_orphaned(before, s, l, d));
                assert(not_orphaned(t, before, l, d));
            }
        }
    }
}

/// Level 0 of `r` has no child of a block of `level` other than the one at
/// `index`, as far as the first `upto` blocks of `level` go.
pub open spec fn losers_children_gone(
    r: OverlayView,
    s: OverlayView,
    level: Seq<BlockView>,
    index: int,
    upto: int,
) -> bool {
    forall|m: int|
        0 <= m < upto && m < level.len() && m != index ==> children_gone(
            r,
            s,
            0,
            (#[trigger] level[m]).hash,
        )
}

/// What dealing with the blocks of a level that has left the window
/// leaves: the invariant of the tree holds with the blocks that are still
/// to be dealt with in between; nothing is added; the first level has no
/// child of a block that was dealt with, unless the block is the
/// canonicalized one; and no block of a later level has lost its parent.
pub proof fn lemma_front_processed(s: OverlayView, level: Seq<BlockView>, index: int, upto: nat)
    requires
        tree_ok(s, level, level),
        upto <= level.len(),
    ensures
        tree_ok(
            s.front_processed(level, index, upto),
            level.skip(upto as int),
            level.skip(upto as int),
        ),
        shrunk(s.front_processed(level, index, upto), s),
        losers_children_gone(s.front_processed(level, index, upto), s, level, index, upto as int),
        no_orphans(s.front_processed(level, index, upto), s, 0),
    decreases upto,
{
    let t = s.front_processed(level, index, upto);
    if upto == 0 {
        assert(level.skip(0) =~= level);
    } else {
        let before = s.front_processed(level, index, (upto - 1) as nat);
        lemma_front_processed(s, level, index, (upto - 1) as nat);
        let rest = level.skip(upto - 1);
        let o = level[upto - 1];
        assert(rest.drop_first() =~= level.skip(upto as int));
        let unparented = OverlayView { parents: before.parents.remove(o.hash), ..before };
        crate::overlay_lemmas::lemma_front_unparented_ok(before, rest);
        let discarded = if upto - 1 != index {
            unparented.discard_descendants(0, o.hash, unparented.levels.len())
        } else {
            unparented
        };
        if upto - 1 != index {
            lemma_discard_descendants(
                unparented,
                rest.drop_first(),
                rest,
                0,
                o.hash,
                unparented.levels.len(),
            );
        } else {
        }
        crate::overlay_lemmas::lemma_front_released_ok(discarded, rest);
        lemma_released_shrunk(discarded, o.hash, o.inserted);
        lemma_shrunk_trans(t, discarded, unparented);
        lemma_shrunk_trans(t, unparented, before);
        lemma_shrunk_trans(t, before, s);
        assert forall|m: int|
            0 <= m < upto && m < level.len() && m != index implies children_gone(
            t,
            s,
            0,
            (#[trigger] level[m]).hash,
        ) by {
            assert forall|d: u64|
                0 <= 0 < t.levels.len() && #[trigger] level_has(t.levels[0], d) implies !is_child(
                s.parents,
                d,
                level[m].hash,
            ) by {
                assert(level_kept(discarded, unparented, 0, d));
                lemma_tracked_parent(unparented, before, rest.drop_first(), rest, 0, d);
                assert(parent_kept(before, s, d));
            }
        }
        assert forall|l: int, d: u64| 0 < l implies #[trigger] not_orphaned(t, s, l, d) by {
            if 1 <= l < s.levels.len() && level_has(t.levels[l], d) && s.parents.contains_key(d)
                && level_has(s.levels[l - 1], s.parents[d]) {
                assert(level_kept(discarded, unparented, l, d));
                lemma_tracked_parent(unparented, before, rest.drop_first(), rest, l, d);
                assert(parent_kept(before, s, d));
                assert(not_orphaned(before, s, l, d));
                assert(not_orphaned(discarded, unparented, l, d));
            }
        }
    }
}

} // verus!

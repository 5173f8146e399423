use crate::drag_drop::DropZone;
use crate::node::clamped;
use crate::pane_tree::{lemma_ids, lemma_lowest_tile, lower, PaneTree};
use crate::reshape::{
    after_close, after_insert, after_resize, after_split, can_close, can_insert, can_resize,
    can_split, lemma_family, lemma_resized_shape, lemma_without_absent, lemma_without_shape,
    lemma_wrapped_absent, lemma_wrapped_shape,
};
use crate::types::{NodeId, Percentage, SplitDirection};
use vstd::multiset::Multiset;
use vstd::prelude::*;
use vstd::seq_lib::{to_multiset_insert, to_multiset_remove};

verus! {

/// A sequence with an element put in, followed by another sequence, is the
/// two sequences joined with the element put in at the same place.
proof fn lemma_insert_in_front_part<A>(a: Seq<A>, b: Seq<A>, i: int, x: A)
    requires
        0 <= i <= a.len(),
    ensures
        a.insert(i, x) + b == (a + b).insert(i, x),
{
    assert(a.insert(i, x) + b =~= (a + b).insert(i, x));
}

/// A sequence followed by one with an element put in is the two joined with
/// the element put in further back.
proof fn lemma_insert_in_back_part<A>(a: Seq<A>, b: Seq<A>, i: int, x: A)
    requires
        0 <= i <= b.len(),
    ensures
        a + b.insert(i, x) == (a + b).insert(a.len() + i, x),
{
    assert(a + b.insert(i, x) =~= (a + b).insert(a.len() + i, x));
}

proof fn lemma_remove_in_front_part<A>(a: Seq<A>, b: Seq<A>, i: int)
    requires
        0 <= i < a.len(),
    ensures
        a.remove(i) + b == (a + b).remove(i),
{
    assert(a.remove(i) + b =~= (a + b).remove(i));
}

proof fn lemma_remove_in_back_part<A>(a: Seq<A>, b: Seq<A>, i: int)
    requires
        0 <= i < b.len(),
    ensures
        a + b.remove(i) == (a + b).remove(a.len() + i),
{
    assert(a + b.remove(i) =~= (a + b).remove(a.len() + i));
}

/// A leaf's tile stands in the tile sequence at the place that
/// `leaves_before` counts.
pub proof fn lemma_leaf_position(t: PaneTree, id: NodeId)
    requires
        t.distinct(),
        t.is_leaf(id),
    ensures
        0 <= t.leaves_before(id) < t.tiles().len(),
        t.tiles()[t.leaves_before(id)] == t.find(id).unwrap()->tile,
    decreases t,
{
    lemma_ids(t);
    match t {
        PaneTree::Tile { .. } => {},
        PaneTree::Split { first, second, .. } => {
            lemma_ids(*first);
            lemma_ids(*second);
            if first.ids().contains(id) {
                lemma_leaf_position(*first, id);
            } else {
                lemma_leaf_position(*second, id);
            }
        },
    }
}

/// Wrapping a leaf together with a new leaf puts the new leaf's tile into
/// the tile sequence, right before the old leaf's tile or right after it,
/// and changes nothing else in it.
pub proof fn lemma_wrapped_tiles(
    t: PaneTree,
    target: NodeId,
    split_id: NodeId,
    other: PaneTree,
    direction: SplitDirection,
    other_first: bool,
    percentage: Percentage,
)
    requires
        t.distinct(),
        t.is_leaf(target),
        other is Tile,
    ensures
        t.wrapped(target, split_id, other, direction, other_first, percentage).tiles()
            == t.tiles().insert(
            t.leaves_before(target) + if other_first {
                0int
            } else {
                1int
            },
            other->tile,
        ),
    decreases t,
{
    let w = t.wrapped(target, split_id, other, direction, other_first, percentage);
    let x = other->tile;
    lemma_ids(t);
    lemma_leaf_position(t, target);
    if t.id() == target {
        assert(t.tiles() =~= seq![t->tile]);
        assert(other.tiles() =~= seq![x]);
        if other_first {
            assert(w.tiles() =~= t.tiles().insert(0, x));
        } else {
            assert(w.tiles() =~= t.tiles().insert(1, x));
        }
    } else {
        match t {
            PaneTree::Tile { .. } => {},
            PaneTree::Split { first, second, .. } => {
                lemma_ids(*first);
                lemma_ids(*second);
                let shift = if other_first {
                    0int
                } else {
                    1int
                };
                if first.ids().contains(target) {
                    lemma_leaf_position(*first, target);
                    lemma_wrapped_tiles(
                        *first,
                        target,
                        split_id,
                        other,
                        direction,
                        other_first,
                        percentage,
                    );
                    lemma_wrapped_absent(
                        *second,
                        target,
                        split_id,
                        other,
                        direction,
                        other_first,
                        percentage,
                    );
                    lemma_insert_in_front_part(
                        first.tiles(),
                        second.tiles(),
                        first.leaves_before(target) + shift,
                        x,
                    );
                } else {
                    lemma_leaf_position(*second, target);
                    lemma_wrapped_tiles(
                        *second,
                        target,
                        split_id,
                        other,
                        direction,
                        other_first,
                        percentage,
                    );
                    lemma_wrapped_absent(
                        *first,
                        target,
                        split_id,
                        other,
                        direction,
                        other_first,
                        percentage,
                    );
                    lemma_insert_in_back_part(
                        first.tiles(),
                        second.tiles(),
                        second.leaves_before(target) + shift,
                        x,
                    );
                }
            },
        }
    }
}

/// Taking a leaf out takes its tile out of the tile sequence and changes
/// nothing else in it.
pub proof fn lemma_without_tiles(t: PaneTree, target: NodeId)
    requires
        t.distinct(),
        t.is_leaf(target),
        t.id() != target,
    ensures
        t.without(target).tiles() == t.tiles().remove(t.leaves_before(target)),
    decreases t,
{
    lemma_ids(t);
    lemma_leaf_position(t, target);
    match t {
        PaneTree::Tile { .. } => {},
        PaneTree::Split { first, second, .. } => {
            lemma_ids(*first);
            lemma_ids(*second);
            if first.id() == target {
                assert(first.find(target) == Some(*first));
                assert(first.tiles() =~= seq![first->tile]);
                assert(first.leaves_before(target) == 0);
                assert(second.tiles() =~= t.tiles().remove(0));
            } else if second.id() == target {
                assert(second.find(target) == Some(*second));
                assert(second.tiles() =~= seq![second->tile]);
                assert(second.leaves_before(target) == 0);
                assert(first.tiles() =~= t.tiles().remove(first.tiles().len() as int));
            } else if first.ids().contains(target) {
                lemma_leaf_position(*first, target);
                lemma_without_tiles(*first, target);
                lemma_without_absent(*second, target);
                lemma_remove_in_front_part(
                    first.tiles(),
                    second.tiles(),
                    first.leaves_before(target),
                );
            } else {
                lemma_leaf_position(*second, target);
                lemma_without_tiles(*second, target);
                lemma_without_absent(*first, target);
                lemma_remove_in_back_part(
                    first.tiles(),
                    second.tiles(),
                    second.leaves_before(target),
                );
            }
        },
    }
}

/// `lowest_tile` finds nothing exactly where the tile is not among the
/// tree's tiles.
pub proof fn lemma_lowest_none(t: PaneTree, tile: Seq<char>)
    ensures
        t.lowest_tile(tile) is None <==> !t.tiles().contains(tile),
    decreases t,
{
    match t {
        PaneTree::Tile { tile: own, .. } => {
            assert(t.tiles()[0] == own);
        },
        PaneTree::Split { first, second, .. } => {
            lemma_lowest_none(*first, tile);
            lemma_lowest_none(*second, tile);
            let a = first.tiles();
            let b = second.tiles();
            if a.contains(tile) {
                let i = choose|i: int| 0 <= i < a.len() && a[i] == tile;
                assert((a + b)[i] == tile);
            }
            if b.contains(tile) {
                let i = choose|i: int| 0 <= i < b.len() && b[i] == tile;
                assert((a + b)[a.len() + i] == tile);
            }
            if (a + b).contains(tile) {
                let i = choose|i: int| 0 <= i < (a + b).len() && (a + b)[i] == tile;
                if i < a.len() {
                    assert(a[i] == tile);
                } else {
                    assert(b[i - a.len()] == tile);
                }
            }
        },
    }
}

/// The lowest leaf for a tile in a wrapped tree is the lower of the lowest
/// one before and the new leaf, where that holds the tile.
pub proof fn lemma_wrapped_lowest(
    t: PaneTree,
    target: NodeId,
    split_id: NodeId,
    other: PaneTree,
    direction: SplitDirection,
    other_first: bool,
    percentage: Percentage,
    tile: Seq<char>,
)
    requires
        t.distinct(),
        t.ids().contains(target),
    ensures
        t.wrapped(target, split_id, other, direction, other_first, percentage).lowest_tile(tile)
            == lower(t.lowest_tile(tile), other.lowest_tile(tile)),
    decreases t,
{
    lemma_ids(t);
    if t.id() != target {
        match t {
            PaneTree::Tile { .. } => {},
            PaneTree::Split { first, second, .. } => {
                lemma_ids(*first);
                lemma_ids(*second);
                if first.ids().contains(target) {
                    lemma_wrapped_lowest(
                        *first,
                        target,
                        split_id,
                        other,
                        direction,
                        other_first,
                        percentage,
                        tile,
                    );
                    lemma_wrapped_absent(
                        *second,
                        target,
                        split_id,
                        other,
                        direction,
                        other_first,
                        percentage,
                    );
                } else {
                    lemma_wrapped_lowest(
                        *second,
                        target,
                        split_id,
                        other,
                        direction,
                        other_first,
                        percentage,
                        tile,
                    );
                    lemma_wrapped_absent(
                        *first,
                        target,
                        split_id,
                        other,
                        direction,
                        other_first,
                        percentage,
                    );
                }
            },
        }
    }
}

/// In a wrapped tree the new split and the new subtree are found under
/// their handles, and every other node is found as before, wrapped where it
/// holds the target.
pub proof fn lemma_wrapped_find(
    t: PaneTree,
    target: NodeId,
    split_id: NodeId,
    other: PaneTree,
    direction: SplitDirection,
    other_first: bool,
    percentage: Percentage,
)
    requires
        t.distinct(),
        t.ids().contains(target),
        !t.ids().contains(split_id),
        other is Tile,
        !t.ids().contains(other.id()),
        other.id() != split_id,
    ensures
        ({
            let w = t.wrapped(target, split_id, other, direction, other_first, percentage);
            &&& w.find(other.id()) == Some(other)
            &&& w.find(split_id) matches Some(
                PaneTree::Split { id, direction: d, percentage: p, min, max, locked, first, second },
            )
            &&& id == split_id
            &&& d == direction
            &&& p == percentage
            &&& min == 20
            &&& max == 80
            &&& !locked
            &&& *first == if other_first {
                other
            } else {
                t.find(target).unwrap()
            }
            &&& *second == if other_first {
                t.find(target).unwrap()
            } else {
                other
            }
        }),
    decreases t,
{
    let w = t.wrapped(target, split_id, other, direction, other_first, percentage);
    lemma_ids(t);
    lemma_ids(other);
    assert(other.ids() =~= set![other.id()]);
    assert(other.find(other.id()) == Some(other));
    assert(t.find(t.id()) == Some(t));
    if t.id() != target {
        match t {
            PaneTree::Tile { .. } => {},
            PaneTree::Split { first, second, .. } => {
                lemma_ids(*first);
                lemma_ids(*second);
                if first.ids().contains(target) {
                    lemma_wrapped_find(
                        *first,
                        target,
                        split_id,
                        other,
                        direction,
                        other_first,
                        percentage,
                    );
                    lemma_wrapped_shape(
                        *first,
                        target,
                        split_id,
                        other,
                        direction,
                        other_first,
                        percentage,
                    );
                    lemma_wrapped_absent(
                        *second,
                        target,
                        split_id,
                        other,
                        direction,
                        other_first,
                        percentage,
                    );
                } else {
                    lemma_wrapped_find(
                        *second,
                        target,
                        split_id,
                        other,
                        direction,
                        other_first,
                        percentage,
                    );
                    lemma_wrapped_shape(
                        *second,
                        target,
                        split_id,
                        other,
                        direction,
                        other_first,
                        percentage,
                    );
                    lemma_wrapped_absent(
                        *first,
                        target,
                        split_id,
                        other,
                        direction,
                        other_first,
                        percentage,
                    );
                }
            },
        }
    }
}

/// Taking the new leaf out of a wrapped tree gives the tree back.
pub proof fn lemma_without_wrapped(
    t: PaneTree,
    target: NodeId,
    split_id: NodeId,
    other: PaneTree,
    direction: SplitDirection,
    other_first: bool,
    percentage: Percentage,
)
    requires
        t.distinct(),
        t.ids().contains(target),
        !t.ids().contains(split_id),
        other is Tile,
        !t.ids().contains(other.id()),
        other.id() != split_id,
    ensures
        t.wrapped(target, split_id, other, direction, other_first, percentage).without(
            other.id(),
        ) == t,
    decreases t,
{
    lemma_ids(t);
    if t.id() != target {
        match t {
            PaneTree::Tile { .. } => {},
            PaneTree::Split { first, second, .. } => {
                lemma_ids(*first);
                lemma_ids(*second);
                if first.ids().contains(target) {
                    lemma_without_wrapped(
                        *first,
                        target,
                        split_id,
                        other,
                        direction,
                        other_first,
                        percentage,
                    );
                    lemma_wrapped_absent(
                        *second,
                        target,
                        split_id,
                        other,
                        direction,
                        other_first,
                        percentage,
                    );
                    lemma_without_absent(*second, other.id());
                } else {
                    lemma_without_wrapped(
                        *second,
                        target,
                        split_id,
                        other,
                        direction,
                        other_first,
                        percentage,
                    );
                    lemma_wrapped_absent(
                        *first,
                        target,
                        split_id,
                        other,
                        direction,
                        other_first,
                        percentage,
                    );
                    lemma_without_absent(*first, other.id());
                }
            },
        }
    }
}

/// What every valid layout is: empty, or a tree without repeated handles,
/// with every percentage within its bounds and every handle below the
/// counter.
pub open spec fn sound(layout: Option<PaneTree>, next: NodeId) -> bool {
    match layout {
        Some(t) => {
            &&& t.distinct()
            &&& t.bounded()
            &&& forall|id: NodeId| #[trigger] t.ids().contains(id) ==> id < next
        },
        None => true,
    }
}

/// The tile keys of a layout in traversal order; none where it is empty.
pub open spec fn tiles_of(layout: Option<PaneTree>) -> Seq<Seq<char>> {
    match layout {
        Some(t) => t.tiles(),
        None => Seq::empty(),
    }
}

/// Splitting keeps a layout sound, with two more handles issued.
pub proof fn lemma_split_sound(
    layout: Option<PaneTree>,
    next: NodeId,
    tile: Seq<char>,
    direction: SplitDirection,
    new_tile: Seq<char>,
    percentage: Percentage,
)
    requires
        sound(layout, next),
        can_split(layout, tile),
        next + 2 <= u64::MAX,
    ensures
        sound(
            after_split(layout, next, tile, direction, new_tile, percentage),
            (next + 2) as NodeId,
        ),
{
    let t = layout.unwrap();
    let target = t.lowest_tile(tile).unwrap();
    let leaf = PaneTree::Tile { id: next, tile: new_tile, locked: false };
    lemma_lowest_tile(t, tile);
    lemma_ids(leaf);
    assert(leaf.ids() =~= set![next]);
    lemma_wrapped_shape(
        t,
        target,
        (next + 1) as NodeId,
        leaf,
        direction,
        false,
        clamped(percentage, 20, 80),
    );
}

/// Splitting a tile puts the new tile right after it in the tile sequence
/// and changes nothing else: no tile appears that the caller did not name,
/// and none is repeated or lost.
pub proof fn lemma_split_adds_one_tile(
    layout: Option<PaneTree>,
    next: NodeId,
    tile: Seq<char>,
    direction: SplitDirection,
    new_tile: Seq<char>,
    percentage: Percentage,
)
    requires
        sound(layout, next),
        can_split(layout, tile),
    ensures
        ({
            let t = layout.unwrap();
            let k = t.leaves_before(t.lowest_tile(tile).unwrap());
            &&& 0 <= k < t.tiles().len()
            &&& t.tiles()[k] == tile
            &&& tiles_of(after_split(layout, next, tile, direction, new_tile, percentage))
                == t.tiles().insert(k + 1, new_tile)
            &&& tiles_of(
                after_split(layout, next, tile, direction, new_tile, percentage),
            ).to_multiset() == t.tiles().to_multiset().insert(new_tile)
        }),
{
    let t = layout.unwrap();
    let target = t.lowest_tile(tile).unwrap();
    let leaf = PaneTree::Tile { id: next, tile: new_tile, locked: false };
    lemma_lowest_tile(t, tile);
    lemma_leaf_position(t, target);
    lemma_wrapped_tiles(
        t,
        target,
        (next + 1) as NodeId,
        leaf,
        direction,
        false,
        clamped(percentage, 20, 80),
    );
    to_multiset_insert(t.tiles(), t.leaves_before(target) + 1, new_tile);
}

/// Closing keeps a layout sound.
pub proof fn lemma_close_sound(layout: Option<PaneTree>, next: NodeId, tile: Seq<char>)
    requires
        sound(layout, next),
        can_close(layout, tile),
    ensures
        sound(after_close(layout, tile), next),
{
    let t = layout.unwrap();
    let target = t.lowest_tile(tile).unwrap();
    lemma_lowest_tile(t, tile);
    if t.id() != target {
        lemma_without_shape(t, target);
        assert forall|id: NodeId| #[trigger] t.without(target).ids().contains(id) implies id
            < next by {
            assert(t.ids().contains(id));
        }
    }
}

/// Closing a tile takes that one tile out of the tile sequence and changes
/// nothing else; closing the only tile leaves the layout empty.
pub proof fn lemma_close_removes_one_tile(layout: Option<PaneTree>, next: NodeId, tile: Seq<char>)
    requires
        sound(layout, next),
        can_close(layout, tile),
    ensures
        ({
            let t = layout.unwrap();
            let k = t.leaves_before(t.lowest_tile(tile).unwrap());
            &&& 0 <= k < t.tiles().len()
            &&& t.tiles()[k] == tile
            &&& tiles_of(after_close(layout, tile)) == t.tiles().remove(k)
            &&& tiles_of(after_close(layout, tile)).to_multiset() == t.tiles().to_multiset().remove(
                tile,
            )
        }),
{
    let t = layout.unwrap();
    let target = t.lowest_tile(tile).unwrap();
    lemma_lowest_tile(t, tile);
    lemma_leaf_position(t, target);
    if t.id() != target {
        lemma_without_tiles(t, target);
    } else {
        assert(t.tiles() =~= seq![tile]);
        assert(t.tiles().remove(0) =~= Seq::<Seq<char>>::empty());
    }
    to_multiset_remove(t.tiles(), t.leaves_before(target));
}

/// Split, then close. Where the new tile is not yet in the layout, closing
/// it right after the split gives back the very tree that was split,
/// whatever the percentage was.
pub proof fn lemma_split_then_close_restores(
    layout: Option<PaneTree>,
    next: NodeId,
    tile: Seq<char>,
    direction: SplitDirection,
    new_tile: Seq<char>,
    percentage: Percentage,
)
    requires
        sound(layout, next),
        can_split(layout, tile),
        next + 2 <= u64::MAX,
        !tiles_of(layout).contains(new_tile),
    ensures
        can_close(after_split(layout, next, tile, direction, new_tile, percentage), new_tile),
        after_close(
            after_split(layout, next, tile, direction, new_tile, percentage),
            new_tile,
        ) == layout,
{
    let t = layout.unwrap();
    let target = t.lowest_tile(tile).unwrap();
    let leaf = PaneTree::Tile { id: next, tile: new_tile, locked: false };
    let split_id = (next + 1) as NodeId;
    let pct = clamped(percentage, 20, 80);
    lemma_lowest_tile(t, tile);
    lemma_ids(t);
    lemma_ids(leaf);
    assert(leaf.ids() =~= set![next]);
    lemma_lowest_none(t, new_tile);
    lemma_wrapped_lowest(t, target, split_id, leaf, direction, false, pct, new_tile);
    lemma_wrapped_find(t, target, split_id, leaf, direction, false, pct);
    lemma_wrapped_shape(t, target, split_id, leaf, direction, false, pct);
    lemma_without_wrapped(t, target, split_id, leaf, direction, false, pct);
}

/// Split, then close, in general. Closing the new tile's key after a split
/// leaves the tiles that were there before the split, each as often as
/// before, wherever the close goes through; where it is refused, the key
/// was among the tiles already. Either way the set of tiles is the one from
/// before the split.
pub proof fn lemma_split_then_close_keeps_tiles(
    layout: Option<PaneTree>,
    next: NodeId,
    tile: Seq<char>,
    direction: SplitDirection,
    new_tile: Seq<char>,
    percentage: Percentage,
)
    requires
        sound(layout, next),
        can_split(layout, tile),
        next + 2 <= u64::MAX,
    ensures
        ({
            let split = after_split(layout, next, tile, direction, new_tile, percentage);
            let closed = if can_close(split, new_tile) {
                after_close(split, new_tile)
            } else {
                split
            };
            &&& can_close(split, new_tile) ==> tiles_of(closed).to_multiset() == tiles_of(
                layout,
            ).to_multiset()
            &&& tiles_of(closed).to_set() == tiles_of(layout).to_set()
        }),
{
    let t = layout.unwrap();
    let target = t.lowest_tile(tile).unwrap();
    let leaf = PaneTree::Tile { id: next, tile: new_tile, locked: false };
    let split_id = (next + 1) as NodeId;
    let pct = clamped(percentage, 20, 80);
    let split = after_split(layout, next, tile, direction, new_tile, percentage);
    let w = split.unwrap();
    lemma_split_sound(layout, next, tile, direction, new_tile, percentage);
    lemma_split_adds_one_tile(layout, next, tile, direction, new_tile, percentage);
    lemma_lowest_tile(t, tile);
    lemma_ids(t);
    lemma_ids(leaf);
    assert(leaf.ids() =~= set![next]);
    lemma_wrapped_lowest(t, target, split_id, leaf, direction, false, pct, new_tile);
    lemma_wrapped_find(t, target, split_id, leaf, direction, false, pct);
    let before = t.tiles().to_multiset();
    if can_close(split, new_tile) {
        lemma_close_removes_one_tile(split, (next + 2) as NodeId, new_tile);
        let after = tiles_of(after_close(split, new_tile));
        assert(before.insert(new_tile).remove(new_tile) =~= before);
        assert(after.to_multiset() == before);
        assert(after.to_set() =~= t.tiles().to_set()) by {
            after.to_multiset_ensures();
            t.tiles().to_multiset_ensures();
            assert forall|x: Seq<char>| after.contains(x) <==> t.tiles().contains(x) by {
                assert(after.to_multiset().count(x) == t.tiles().to_multiset().count(x));
            }
        }
    } else {
        let found = w.lowest_tile(new_tile).unwrap();
        assert(found != next);
        lemma_lowest_none(t, new_tile);
        assert(t.tiles().contains(new_tile));
        assert(w.tiles().to_set() =~= t.tiles().to_set()) by {
            w.tiles().to_multiset_ensures();
            t.tiles().to_multiset_ensures();
            assert forall|x: Seq<char>| w.tiles().contains(x) <==> t.tiles().contains(x) by {
                assert(w.tiles().to_multiset().count(x) == if x == new_tile {
                    before.count(x) + 1
                } else {
                    before.count(x)
                });
            }
        }
    }
}

/// Closing the last tile. A layout of one unlocked tile can be closed, and
/// is empty afterwards.
pub proof fn lemma_close_last_tile(id: NodeId, tile: Seq<char>)
    ensures
        can_close(Some(PaneTree::Tile { id, tile, locked: false }), tile),
        after_close(Some(PaneTree::Tile { id, tile, locked: false }), tile) is None,
{
    let t = PaneTree::Tile { id, tile, locked: false };
    assert(t.find(id) == Some(t));
}

/// In a resized tree the split has the percentage nearest to the one asked
/// for that its bounds allow, its bounds are as before, and the tiles are
/// untouched.
pub proof fn lemma_resized_find(t: PaneTree, id: NodeId, percentage: Percentage)
    requires
        t.distinct(),
        t.ids().contains(id),
        t.find(id) is Some,
        t.find(id).unwrap() is Split,
    ensures
        ({
            let before = t.find(id).unwrap();
            let w = t.resized(id, percentage);
            &&& w.find(id) matches Some(
                PaneTree::Split { percentage: p, min, max, direction, locked, .. },
            )
            &&& min == before->min
            &&& max == before->max
            &&& direction == before->direction
            &&& locked == before->Split_locked
            &&& p == clamped(percentage, min, max)
            &&& t.bounded() ==> min <= p <= max
        }),
    decreases t,
{
    lemma_ids(t);
    lemma_resized_shape(t, id, percentage);
    match t {
        PaneTree::Tile { .. } => {},
        PaneTree::Split { id: own, first, second, .. } => {
            lemma_ids(*first);
            lemma_ids(*second);
            lemma_resized_shape(*first, id, percentage);
            lemma_resized_shape(*second, id, percentage);
            if own == id {
                assert(t.resized(id, percentage).find(id) == Some(t.resized(id, percentage)));
            } else if first.ids().contains(id) {
                lemma_resized_find(*first, id, percentage);
            } else {
                lemma_resized_find(*second, id, percentage);
            }
        },
    }
}

/// Resizing clamps. A resize goes through for every percentage asked for,
/// and is refused only for a node that is absent, is no split, or is
/// locked; what it stores lies within the split's own bounds; and the tiles
/// and the soundness of the layout are untouched.
pub proof fn lemma_resize_clamps(
    layout: Option<PaneTree>,
    next: NodeId,
    id: NodeId,
    percentage: Percentage,
)
    requires
        sound(layout, next),
    ensures
        !can_resize(layout, id) <==> (layout is None || !layout.unwrap().ids().contains(id)
            || layout.unwrap().find(id).unwrap() is Tile || layout.unwrap().find(
            id,
        ).unwrap()->Split_locked),
        can_resize(layout, id) ==> ({
            let before = layout.unwrap().find(id).unwrap();
            let after = after_resize(layout, id, percentage);
            &&& sound(after, next)
            &&& tiles_of(after) == tiles_of(layout)
            &&& after.unwrap().find(id) matches Some(PaneTree::Split { percentage: p, min, max, .. })
            &&& min == before->min
            &&& max == before->max
            &&& min <= p <= max
            &&& p == clamped(percentage, min, max)
        }),
{
    if let Some(t) = layout {
        if t.ids().contains(id) {
            lemma_find_inside(t, id);
        }
    }
    if can_resize(layout, id) {
        let t = layout.unwrap();
        lemma_resized_shape(t, id, percentage);
        lemma_resized_find(t, id, percentage);
    }
}

/// Every handle of a tree has a subtree under it.
pub proof fn lemma_find_inside(t: PaneTree, id: NodeId)
    requires
        t.ids().contains(id),
    ensures
        t.find(id) is Some,
        t.find(id).unwrap().id() == id,
    decreases t,
{
    lemma_ids(t);
    if t.id() != id {
        match t {
            PaneTree::Tile { .. } => {},
            PaneTree::Split { first, second, .. } => {
                if first.ids().contains(id) {
                    lemma_find_inside(*first, id);
                } else {
                    lemma_find_inside(*second, id);
                }
            },
        }
    }
}

/// The split that a split of a tile makes is unlocked, bounded by 20 and
/// 80, and holds a percentage within these bounds, whatever was asked for.
pub proof fn lemma_split_percentage_bounded(
    layout: Option<PaneTree>,
    next: NodeId,
    tile: Seq<char>,
    direction: SplitDirection,
    new_tile: Seq<char>,
    percentage: Percentage,
)
    requires
        sound(layout, next),
        can_split(layout, tile),
        next + 2 <= u64::MAX,
    ensures
        after_split(layout, next, tile, direction, new_tile, percentage).unwrap().find(
            (next + 1) as NodeId,
        ) matches Some(PaneTree::Split { percentage: p, min, max, .. }) && min == 20 && max == 80
            && 20 <= p <= 80 && p == clamped(percentage, 20, 80),
{
    let t = layout.unwrap();
    let target = t.lowest_tile(tile).unwrap();
    let leaf = PaneTree::Tile { id: next, tile: new_tile, locked: false };
    lemma_lowest_tile(t, tile);
    lemma_wrapped_find(
        t,
        target,
        (next + 1) as NodeId,
        leaf,
        direction,
        false,
        clamped(percentage, 20, 80),
    );
}

/// What a move needs: the two keys differ, so their leaves differ, the
/// dragged leaf is not the top, and the target is still there once the
/// dragged leaf is taken out.
pub proof fn lemma_insert_ground(layout: Option<PaneTree>, dragged: Seq<char>, target: Seq<char>)
    requires
        layout is Some,
        layout.unwrap().distinct(),
        can_insert(layout, dragged, target),
    ensures
        ({
            let t = layout.unwrap();
            let d = t.lowest_tile(dragged).unwrap();
            let g = t.lowest_tile(target).unwrap();
            &&& t.is_leaf(d)
            &&& t.is_leaf(g)
            &&& d != g
            &&& t.id() != d
            &&& t.without(d).ids().contains(g)
            &&& !t.without(d).ids().contains(d)
            &&& t.without(d).distinct()
            &&& t.find(d).unwrap() is Tile
            &&& t.find(d).unwrap().id() == d
        }),
{
    let t = layout.unwrap();
    let d = t.lowest_tile(dragged).unwrap();
    let g = t.lowest_tile(target).unwrap();
    lemma_lowest_tile(t, dragged);
    lemma_lowest_tile(t, target);
    lemma_ids(t);
    lemma_find_inside(t, d);
    lemma_find_inside(t, g);
    if t.id() == d {
        assert(t.find(d) == Some(t));
    }
    lemma_family(t, None, d);
    lemma_without_shape(t, d);
}

/// Moving keeps a layout sound, with one more handle issued and as many
/// nodes as before, whether the two tiles were siblings or not; and the
/// split it makes is unlocked, bounded by 20 and 80, and stands at 50.
pub proof fn lemma_insert_sound(
    layout: Option<PaneTree>,
    next: NodeId,
    dragged: Seq<char>,
    target: Seq<char>,
    zone: DropZone,
)
    requires
        sound(layout, next),
        can_insert(layout, dragged, target),
        next + 1 <= u64::MAX,
    ensures
        sound(after_insert(layout, next, dragged, target, zone), (next + 1) as NodeId),
        after_insert(layout, next, dragged, target, zone).unwrap().size()
            == layout.unwrap().size(),
        after_insert(layout, next, dragged, target, zone).unwrap().find(next) matches Some(
            PaneTree::Split { percentage, min, max, direction, locked, .. },
        ) && percentage == 50 && min == 20 && max == 80 && direction == zone.direction()
            && !locked,
{
    let t = layout.unwrap();
    let d = t.lowest_tile(dragged).unwrap();
    let g = t.lowest_tile(target).unwrap();
    let leaf = t.find(d).unwrap();
    let rest = t.without(d);
    lemma_insert_ground(layout, dragged, target);
    lemma_without_shape(t, d);
    lemma_ids(leaf);
    assert(leaf.ids() =~= set![d]);
    lemma_wrapped_shape(rest, g, next, leaf, zone.direction(), zone.leads(), 50);
    lemma_wrapped_find(rest, g, next, leaf, zone.direction(), zone.leads(), 50);
    assert forall|id: NodeId| #[trigger]
        rest.wrapped(g, next, leaf, zone.direction(), zone.leads(), 50).ids().contains(
            id,
        ) implies id < next + 1 by {
        if id != next && id != d {
            assert(rest.ids().contains(id));
            assert(t.ids().contains(id));
        }
    }
}

/// Moving a tile keeps the tiles: the dragged tile leaves its place and
/// comes back right before or right after the target, and every tile is
/// there as often as before.
pub proof fn lemma_insert_keeps_tiles(
    layout: Option<PaneTree>,
    next: NodeId,
    dragged: Seq<char>,
    target: Seq<char>,
    zone: DropZone,
)
    requires
        sound(layout, next),
        can_insert(layout, dragged, target),
    ensures
        ({
            let t = layout.unwrap();
            let d = t.lowest_tile(dragged).unwrap();
            let g = t.lowest_tile(target).unwrap();
            let rest = t.without(d);
            &&& rest.tiles() == t.tiles().remove(t.leaves_before(d))
            &&& tiles_of(after_insert(layout, next, dragged, target, zone)) == rest.tiles().insert(
                rest.leaves_before(g) + if zone.leads() {
                    0int
                } else {
                    1int
                },
                dragged,
            )
            &&& tiles_of(after_insert(layout, next, dragged, target, zone)).to_multiset()
                == t.tiles().to_multiset()
        }),
{
    let t = layout.unwrap();
    let d = t.lowest_tile(dragged).unwrap();
    let g = t.lowest_tile(target).unwrap();
    let leaf = t.find(d).unwrap();
    let rest = t.without(d);
    lemma_insert_ground(layout, dragged, target);
    lemma_lowest_tile(t, dragged);
    lemma_lowest_tile(t, target);
    lemma_leaf_position(t, d);
    lemma_without_tiles(t, d);
    lemma_leaf_kept(t, d, g);
    lemma_leaf_position(rest, g);
    lemma_wrapped_tiles(rest, g, next, leaf, zone.direction(), zone.leads(), 50);
    let shift = if zone.leads() {
        0int
    } else {
        1int
    };
    to_multiset_remove(t.tiles(), t.leaves_before(d));
    to_multiset_insert(rest.tiles(), rest.leaves_before(g) + shift, dragged);
    t.tiles().to_multiset_ensures();
    assert(t.tiles().to_multiset().remove(dragged).insert(dragged) =~= t.tiles().to_multiset());
}

/// A leaf other than the one taken out is still a leaf afterwards, with
/// the same tile and lock.
pub proof fn lemma_leaf_kept(t: PaneTree, gone: NodeId, kept: NodeId)
    requires
        t.distinct(),
        t.is_leaf(gone),
        t.is_leaf(kept),
        gone != kept,
    ensures
        t.without(gone).is_leaf(kept),
        t.without(gone).find(kept) == t.find(kept),
    decreases t,
{
    lemma_ids(t);
    match t {
        PaneTree::Tile { .. } => {},
        PaneTree::Split { id, first, second, .. } => {
            lemma_ids(*first);
            lemma_ids(*second);
            assert(t.find(id) == Some(t));
            if first.id() == gone || second.id() == gone {
                if first.id() == gone {
                    assert(first.find(gone) == Some(*first));
                    assert(first.ids() =~= set![gone]);
                } else {
                    assert(second.find(gone) == Some(*second));
                    assert(second.ids() =~= set![gone]);
                }
            } else {
                let inner = if first.ids().contains(gone) {
                    *first
                } else {
                    *second
                };
                let outer = if first.ids().contains(gone) {
                    *second
                } else {
                    *first
                };
                lemma_without_shape(inner, gone);
                lemma_without_absent(outer, gone);
                if inner.ids().contains(kept) {
                    lemma_leaf_kept(inner, gone, kept);
                    lemma_family(inner, Some(id), gone);
                    lemma_find_inside(inner, inner.parent_of(gone).unwrap());
                }
            }
        },
    }
}

/// A tile cannot be moved onto itself.
pub proof fn lemma_insert_onto_itself_refused(layout: Option<PaneTree>, tile: Seq<char>)
    ensures
        !can_insert(layout, tile, tile),
{
}

/// One call on a layout, as a caller may make it.
pub enum Step {
    /// `split_tile`
    Split { tile: Seq<char>, direction: SplitDirection, new_tile: Seq<char>, percentage: Percentage },
    /// `close_tile`
    Close { tile: Seq<char> },
    /// `insert_tile_with_split`
    Move { dragged: Seq<char>, target: Seq<char>, zone: DropZone },
    /// `update_split`
    Resize { id: NodeId, percentage: Percentage },
}

/// The layout and its counter after one call: what the call makes of them
/// where it goes through, and the same as before where it is refused.
pub open spec fn after_step(state: (Option<PaneTree>, NodeId), step: Step) -> (
    Option<PaneTree>,
    NodeId,
) {
    let (layout, next) = state;
    match step {
        Step::Split { tile, direction, new_tile, percentage } => if can_split(layout, tile) {
            (
                after_split(layout, next, tile, direction, new_tile, percentage),
                (next + 2) as NodeId,
            )
        } else {
            state
        },
        Step::Close { tile } => if can_close(layout, tile) {
            (after_close(layout, tile), next)
        } else {
            state
        },
        Step::Move { dragged, target, zone } => if can_insert(layout, dragged, target) {
            (after_insert(layout, next, dragged, target, zone), (next + 1) as NodeId)
        } else {
            state
        },
        Step::Resize { id, percentage } => if can_resize(layout, id) {
            (after_resize(layout, id, percentage), next)
        } else {
            state
        },
    }
}

/// The layout and its counter after a sequence of calls.
pub open spec fn after_steps(state: (Option<PaneTree>, NodeId), steps: Seq<Step>) -> (
    Option<PaneTree>,
    NodeId,
)
    decreases steps.len(),
{
    if steps.len() == 0 {
        state
    } else {
        after_step(after_steps(state, steps.drop_last()), steps.last())
    }
}

/// The tiles that the caller names as new in a sequence of calls, each as
/// often as it is named.
pub open spec fn introduced(steps: Seq<Step>) -> Multiset<Seq<char>>
    decreases steps.len(),
{
    if steps.len() == 0 {
        Multiset::empty()
    } else {
        match steps.last() {
            Step::Split { new_tile, .. } => introduced(steps.drop_last()).insert(new_tile),
            _ => introduced(steps.drop_last()),
        }
    }
}

/// One call keeps a layout sound, issues at most two handles, and leaves no
/// tile in it that was not there or that the call names as new, nor any
/// more often.
pub proof fn lemma_step(layout: Option<PaneTree>, next: NodeId, step: Step)
    requires
        sound(layout, next),
        next + 2 <= u64::MAX,
    ensures
        ({
            let end = after_step((layout, next), step);
            &&& sound(end.0, end.1)
            &&& next <= end.1 <= next + 2
            &&& tiles_of(end.0).to_multiset().subset_of(
                tiles_of(layout).to_multiset().add(introduced(seq![step])),
            )
        }),
{
    let end = after_step((layout, next), step);
    let before = tiles_of(layout).to_multiset();
    let named = introduced(seq![step]);
    assert(seq![step].last() == step);
    assert(seq![step].drop_last() =~= Seq::<Step>::empty());
    assert(introduced(Seq::<Step>::empty()) =~= Multiset::<Seq<char>>::empty());
    match step {
        Step::Split { tile, direction, new_tile, percentage } => {
            assert(named =~= Multiset::<Seq<char>>::empty().insert(new_tile));
            if can_split(layout, tile) {
                lemma_split_sound(layout, next, tile, direction, new_tile, percentage);
                lemma_split_adds_one_tile(layout, next, tile, direction, new_tile, percentage);
                assert(before.insert(new_tile) =~= before.add(named));
            }
        },
        Step::Close { tile } => {
            if can_close(layout, tile) {
                lemma_close_sound(layout, next, tile);
                lemma_close_removes_one_tile(layout, next, tile);
            }
        },
        Step::Move { dragged, target, zone } => {
            if can_insert(layout, dragged, target) {
                lemma_insert_sound(layout, next, dragged, target, zone);
                lemma_insert_keeps_tiles(layout, next, dragged, target, zone);
            }
        },
        Step::Resize { id, percentage } => {
            if can_resize(layout, id) {
                lemma_resize_clamps(layout, next, id, percentage);
            }
        },
    }
}

/// Any sequence of calls keeps a layout sound, and the tiles it ends with
/// are among those it began with and those the calls named as new, none
/// more often than that.
pub proof fn lemma_steps(layout: Option<PaneTree>, next: NodeId, steps: Seq<Step>)
    requires
        sound(layout, next),
        next + 2 * steps.len() <= u64::MAX,
    ensures
        ({
            let end = after_steps((layout, next), steps);
            &&& sound(end.0, end.1)
            &&& next <= end.1 <= next + 2 * steps.len()
            &&& tiles_of(end.0).to_multiset().subset_of(
                tiles_of(layout).to_multiset().add(introduced(steps)),
            )
        }),
    decreases steps.len(),
{
    if steps.len() > 0 {
        let earlier = steps.drop_last();
        let step = steps.last();
        lemma_steps(layout, next, earlier);
        let middle = after_steps((layout, next), earlier);
        lemma_step(middle.0, middle.1, step);
        let end = after_step(middle, step);
        assert(end == after_steps((layout, next), steps));
        let start_tiles = tiles_of(layout).to_multiset();
        assert(seq![step].last() == step);
        assert(seq![step].drop_last() =~= Seq::<Step>::empty());
        assert(introduced(Seq::<Step>::empty()) =~= Multiset::<Seq<char>>::empty());
        assert forall|x: Seq<char>|
            tiles_of(end.0).to_multiset().count(x) <= start_tiles.add(introduced(steps)).count(
                x,
            ) by {
            assert(tiles_of(end.0).to_multiset().count(x) <= tiles_of(
                middle.0,
            ).to_multiset().add(introduced(seq![step])).count(x));
            assert(tiles_of(middle.0).to_multiset().count(x) <= start_tiles.add(
                introduced(earlier),
            ).count(x));
        }
    }
}

/// From one tile on. Whatever calls follow `new`, the layout never holds a
/// tile that is neither the first one nor named as new by a split, and
/// never holds one more often than it was brought in.
pub proof fn lemma_tiles_from_one_tile(first: Seq<char>, steps: Seq<Step>)
    requires
        1 + 2 * steps.len() <= u64::MAX,
    ensures
        tiles_of(
            after_steps((Some(PaneTree::Tile { id: 0, tile: first, locked: false }), 1), steps).0,
        ).to_multiset().subset_of(introduced(steps).insert(first)),
{
    let start = Some(PaneTree::Tile { id: 0, tile: first, locked: false });
    lemma_steps(start, 1, steps);
    let end = after_steps((start, 1), steps);
    assert(seq![first].to_multiset() =~= Multiset::<Seq<char>>::empty().insert(first)) by {
        assert(seq![first] =~= Seq::<Seq<char>>::empty().push(first));
        Seq::<Seq<char>>::empty().to_multiset_ensures();
        assert(Seq::<Seq<char>>::empty().to_multiset().len() == 0);
        assert(Seq::<Seq<char>>::empty().to_multiset() =~= Multiset::<Seq<char>>::empty());
    }
    assert forall|x: Seq<char>|
        tiles_of(end.0).to_multiset().count(x) <= introduced(steps).insert(first).count(x) by {
        assert(tiles_of(end.0).to_multiset().count(x) <= tiles_of(start).to_multiset().add(
            introduced(steps),
        ).count(x));
    }
}

} // verus!

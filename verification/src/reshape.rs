use crate::node::{clamped, Node};
use crate::pane_tree::{
    lemma_ids, lemma_lookup, lemma_represents_frame, lemma_represents_reparent, represents,
    PaneTree,
};
use crate::drag_drop::DropZone;
use crate::types::{NodeId, Percentage, SplitDirection};
use vstd::prelude::*;

verus! {

impl PaneTree {
    /// The tree in which a new split `split_id` stands where the node
    /// `target` stood, and holds that node and `other` as its children:
    /// `other` first if `other_first`, the old node first if not. The new
    /// split is unlocked and bounded by 20 and 80.
    pub open spec fn wrapped(
        self,
        target: NodeId,
        split_id: NodeId,
        other: PaneTree,
        direction: SplitDirection,
        other_first: bool,
        percentage: Percentage,
    ) -> PaneTree
        decreases self,
    {
        if self.id() == target {
            PaneTree::Split {
                id: split_id,
                direction,
                percentage,
                min: 20,
                max: 80,
                locked: false,
                first: Box::new(
                    if other_first {
                        other
                    } else {
                        self
                    },
                ),
                second: Box::new(
                    if other_first {
                        self
                    } else {
                        other
                    },
                ),
            }
        } else {
            match self {
                PaneTree::Tile { .. } => self,
                PaneTree::Split { id, direction: d, percentage: p, min, max, locked, first, second } => {
                    PaneTree::Split {
                        id,
                        direction: d,
                        percentage: p,
                        min,
                        max,
                        locked,
                        first: Box::new(
                            first.wrapped(
                                target,
                                split_id,
                                other,
                                direction,
                                other_first,
                                percentage,
                            ),
                        ),
                        second: Box::new(
                            second.wrapped(
                                target,
                                split_id,
                                other,
                                direction,
                                other_first,
                                percentage,
                            ),
                        ),
                    }
                },
            }
        }
    }

    /// The tree without the node `target` and without the split above it:
    /// the other child of that split stands where the split stood. A tree
    /// whose top is `target`, or that does not hold it, is unchanged.
    pub open spec fn without(self, target: NodeId) -> PaneTree
        decreases self,
    {
        match self {
            PaneTree::Tile { .. } => self,
            PaneTree::Split { id, direction, percentage, min, max, locked, first, second } => {
                if first.id() == target {
                    *second
                } else if second.id() == target {
                    *first
                } else {
                    PaneTree::Split {
                        id,
                        direction,
                        percentage,
                        min,
                        max,
                        locked,
                        first: Box::new(first.without(target)),
                        second: Box::new(second.without(target)),
                    }
                }
            },
        }
    }

    /// The tree in which the split `target` has the percentage nearest to
    /// `percentage` that its own bounds allow.
    pub open spec fn resized(self, target: NodeId, percentage: Percentage) -> PaneTree
        decreases self,
    {
        match self {
            PaneTree::Tile { .. } => self,
            PaneTree::Split { id, direction, percentage: p, min, max, locked, first, second } => {
                PaneTree::Split {
                    id,
                    direction,
                    percentage: if id == target {
                        clamped(percentage, min, max)
                    } else {
                        p
                    },
                    min,
                    max,
                    locked,
                    first: Box::new(first.resized(target, percentage)),
                    second: Box::new(second.resized(target, percentage)),
                }
            },
        }
    }

    /// The tree in which the node `id` says what `node` says of itself: a
    /// leaf takes the tile and lock of a tile node, a split the direction,
    /// percentage, bounds and lock of a split node. The shape of the tree
    /// and its handles stay.
    pub open spec fn redrawn(self, id: NodeId, node: Node) -> PaneTree
        decreases self,
    {
        match self {
            PaneTree::Tile { id: own, .. } => match node {
                Node::Tile { tile_id, locked, .. } if own == id => PaneTree::Tile {
                    id: own,
                    tile: tile_id@,
                    locked,
                },
                _ => self,
            },
            PaneTree::Split { id: own, direction, percentage, min, max, locked, first, second } => {
                let a = Box::new(first.redrawn(id, node));
                let b = Box::new(second.redrawn(id, node));
                match node {
                    Node::Split {
                        direction: d,
                        split_percentage,
                        min_percentage,
                        max_percentage,
                        locked: l,
                        ..
                    } if own == id => PaneTree::Split {
                        id: own,
                        direction: d,
                        percentage: split_percentage,
                        min: min_percentage,
                        max: max_percentage,
                        locked: l,
                        first: a,
                        second: b,
                    },
                    _ => PaneTree::Split {
                        id: own,
                        direction,
                        percentage,
                        min,
                        max,
                        locked,
                        first: a,
                        second: b,
                    },
                }
            },
        }
    }

    /// The other child of the split above the node `id`.
    pub open spec fn sibling_of(self, id: NodeId) -> Option<NodeId> {
        match self.parent_of(id) {
            Some(p) => match self.find(p) {
                Some(PaneTree::Split { first, second, .. }) => if first.id() == id {
                    Some(second.id())
                } else {
                    Some(first.id())
                },
                _ => None,
            },
            None => None,
        }
    }
}

/// Wrapping a node that a tree does not hold changes nothing.
pub proof fn lemma_wrapped_absent(
    t: PaneTree,
    target: NodeId,
    split_id: NodeId,
    other: PaneTree,
    direction: SplitDirection,
    other_first: bool,
    percentage: Percentage,
)
    requires
        !t.ids().contains(target),
    ensures
        t.wrapped(target, split_id, other, direction, other_first, percentage) == t,
    decreases t,
{
    lemma_ids(t);
    match t {
        PaneTree::Tile { .. } => {},
        PaneTree::Split { first, second, .. } => {
            lemma_wrapped_absent(
                *first,
                target,
                split_id,
                other,
                direction,
                other_first,
                percentage,
            );
            lemma_wrapped_absent(
                *second,
                target,
                split_id,
                other,
                direction,
                other_first,
                percentage,
            );
        },
    }
}

/// Removing a node that a tree does not hold changes nothing.
pub proof fn lemma_without_absent(t: PaneTree, target: NodeId)
    requires
        !t.ids().contains(target),
    ensures
        t.without(target) == t,
    decreases t,
{
    lemma_ids(t);
    match t {
        PaneTree::Tile { .. } => {},
        PaneTree::Split { first, second, .. } => {
            lemma_ids(*first);
            lemma_ids(*second);
            lemma_without_absent(*first, target);
            lemma_without_absent(*second, target);
        },
    }
}

/// Resizing a node that a tree does not hold changes nothing.
pub proof fn lemma_resized_absent(t: PaneTree, target: NodeId, percentage: Percentage)
    requires
        !t.ids().contains(target),
    ensures
        t.resized(target, percentage) == t,
    decreases t,
{
    lemma_ids(t);
    match t {
        PaneTree::Tile { .. } => {},
        PaneTree::Split { first, second, .. } => {
            lemma_resized_absent(*first, target, percentage);
            lemma_resized_absent(*second, target, percentage);
        },
    }
}

/// Wrapping adds the new split and the handles of `other` and keeps the
/// tree free of repeated handles and within its bounds.
pub proof fn lemma_wrapped_shape(
    t: PaneTree,
    target: NodeId,
    split_id: NodeId,
    other: PaneTree,
    direction: SplitDirection,
    other_first: bool,
    percentage: Percentage,
)
    requires
        t.distinct(),
        t.ids().contains(target),
        !t.ids().contains(split_id),
        other.distinct(),
        other.ids().disjoint(t.ids()),
        !other.ids().contains(split_id),
    ensures
        ({
            let w = t.wrapped(target, split_id, other, direction, other_first, percentage);
            &&& w.ids() == t.ids().union(other.ids()).insert(split_id)
            &&& w.distinct()
            &&& w.id() == if t.id() == target {
                split_id
            } else {
                t.id()
            }
            &&& t.bounded() && other.bounded() && 20 <= percentage <= 80 ==> w.bounded()
            &&& w.size() == t.size() + other.size() + 1
        }),
    decreases t,
{
    let w = t.wrapped(target, split_id, other, direction, other_first, percentage);
    lemma_ids(t);
    lemma_ids(other);
    if t.id() == target {
        assert(w.ids() =~= t.ids().union(other.ids()).insert(split_id));
    } else {
        match t {
            PaneTree::Tile { .. } => {},
            PaneTree::Split { id, first, second, .. } => {
                lemma_ids(*first);
                lemma_ids(*second);
                let wf = first.wrapped(
                    target,
                    split_id,
                    other,
                    direction,
                    other_first,
                    percentage,
                );
                let ws = second.wrapped(
                    target,
                    split_id,
                    other,
                    direction,
                    other_first,
                    percentage,
                );
                if first.ids().contains(target) {
                    lemma_wrapped_shape(
                        *first,
                        target,
                        split_id,
                        other,
                        direction,
                        other_first,
                        percentage,
                    );
                    lemma_wrapped_absent(
                        *second,
                        target,
                        split_id,
                        other,
                        direction,
                        other_first,
                        percentage,
                    );
                } else {
                    lemma_wrapped_shape(
                        *second,
                        target,
                        split_id,
                        other,
                        direction,
                        other_first,
                        percentage,
                    );
                    lemma_wrapped_absent(
                        *first,
                        target,
                        split_id,
                        other,
                        direction,
                        other_first,
                        percentage,
                    );
                }
                assert(w.ids() =~= t.ids().union(other.ids()).insert(split_id));
                assert(wf.ids().disjoint(ws.ids()));
            },
        }
    }
}

/// Removing a leaf that is not the top takes away the leaf and the split
/// above it and keeps the tree free of repeated handles and within its
/// bounds.
pub proof fn lemma_without_shape(t: PaneTree, target: NodeId)
    requires
        t.distinct(),
        t.ids().contains(target),
        t.id() != target,
        t.is_leaf(target),
    ensures
        ({
            let w = t.without(target);
            &&& t.parent_of(target) is Some
            &&& t.sibling_of(target) is Some
            &&& w.ids() == t.ids().remove(target).remove(t.parent_of(target).unwrap())
            &&& w.distinct()
            &&& w.id() == if t.parent_of(target) == Some(t.id()) {
                t.sibling_of(target).unwrap()
            } else {
                t.id()
            }
            &&& t.bounded() ==> w.bounded()
            &&& w.size() + 2 == t.size()
        }),
    decreases t,
{
    let w = t.without(target);
    lemma_ids(t);
    match t {
        PaneTree::Tile { .. } => {},
        PaneTree::Split { id, first, second, .. } => {
            lemma_ids(*first);
            lemma_ids(*second);
            if first.id() == target {
                assert(first.find(target) == Some(*first));
                assert(*first is Tile);
                assert(w.ids() =~= t.ids().remove(target).remove(id));
            } else if second.id() == target {
                assert(second.find(target) == Some(*second));
                assert(*second is Tile);
                assert(w.ids() =~= t.ids().remove(target).remove(id));
            } else if first.ids().contains(target) {
                lemma_without_shape(*first, target);
                lemma_without_absent(*second, target);
                let p = first.parent_of(target).unwrap();
                lemma_parent_is_inside(*first, target);
                assert(t.find(p) == first.find(p));
                assert(w.ids() =~= t.ids().remove(target).remove(p));
            } else {
                lemma_without_shape(*second, target);
                lemma_without_absent(*first, target);
                let p = second.parent_of(target).unwrap();
                lemma_parent_is_inside(*second, target);
                assert(t.find(p) == second.find(p));
                assert(w.ids() =~= t.ids().remove(target).remove(p));
            }
        },
    }
}

/// The parent of a node of a tree is a node of the tree.
pub proof fn lemma_parent_is_inside(t: PaneTree, id: NodeId)
    ensures
        t.parent_of(id) matches Some(p) ==> t.ids().contains(p) && t.ids().contains(id),
    decreases t,
{
    lemma_ids(t);
    match t {
        PaneTree::Tile { .. } => {},
        PaneTree::Split { first, second, .. } => {
            lemma_ids(*first);
            lemma_ids(*second);
            lemma_parent_is_inside(*first, id);
            lemma_parent_is_inside(*second, id);
        },
    }
}

/// Resizing keeps the handles, the top, and the tree within its bounds.
pub proof fn lemma_resized_shape(t: PaneTree, target: NodeId, percentage: Percentage)
    ensures
        ({
            let w = t.resized(target, percentage);
            &&& w.ids() == t.ids()
            &&& w.id() == t.id()
            &&& t.distinct() ==> w.distinct()
            &&& t.bounded() ==> w.bounded()
            &&& w.tiles() == t.tiles()
        }),
    decreases t,
{
    match t {
        PaneTree::Tile { .. } => {},
        PaneTree::Split { first, second, .. } => {
            lemma_resized_shape(*first, target, percentage);
            lemma_resized_shape(*second, target, percentage);
        },
    }
}

/// The arena after a wrap holds the wrapped tree: the new split is in it and
/// names the old parent of `target`, `other` hangs under the new split,
/// `target` names the new split as parent, the old parent names the new
/// split in place of `target`, and nothing else has changed.
pub proof fn lemma_wrapped_represents(
    nodes: Map<NodeId, Node>,
    after: Map<NodeId, Node>,
    t: PaneTree,
    parent: Option<NodeId>,
    target: NodeId,
    split_id: NodeId,
    other: PaneTree,
    direction: SplitDirection,
    other_first: bool,
    percentage: Percentage,
)
    requires
        represents(nodes, t, parent),
        t.distinct(),
        t.ids().contains(target),
        !t.ids().contains(split_id),
        other.ids().disjoint(t.ids()),
        !other.ids().contains(split_id),
        parent matches Some(q) ==> !t.ids().contains(q),
        represents(after, other, Some(split_id)),
        after.contains_key(split_id),
        after[split_id] == (Node::Split {
            id: split_id,
            direction,
            first: if other_first {
                other.id()
            } else {
                target
            },
            second: if other_first {
                target
            } else {
                other.id()
            },
            split_percentage: percentage,
            parent: t.parent_under(target, parent),
            locked: false,
            min_percentage: 20,
            max_percentage: 80,
        }),
        after.contains_key(target),
        after[target] == nodes[target].with_parent(Some(split_id)),
        t.parent_under(target, parent) matches Some(p) ==> after.contains_key(p) && after[p]
            == nodes[p].with_child(target, split_id),
        forall|id: NodeId| #[trigger]
            t.ids().contains(id) && id != target && t.parent_under(target, parent) != Some(id)
                ==> after.contains_key(id) && after[id] == nodes[id],
    ensures
        represents(
            after,
            t.wrapped(target, split_id, other, direction, other_first, percentage),
            parent,
        ),
    decreases t,
{
    let w = t.wrapped(target, split_id, other, direction, other_first, percentage);
    lemma_ids(t);
    if t.id() == target {
        lemma_represents_reparent(nodes, after, t, parent, Some(split_id));
    } else {
        match t {
            PaneTree::Tile { .. } => {},
            PaneTree::Split { id, first, second, .. } => {
                lemma_ids(*first);
                lemma_ids(*second);
                lemma_parent_is_inside(*first, target);
                lemma_parent_is_inside(*second, target);
                let tp = t.parent_under(target, parent);
                if first.ids().contains(target) {
                    assert(tp == first.parent_under(target, Some(id)));
                    assert forall|i: NodeId| #[trigger]
                        first.ids().contains(i) && i != target && first.parent_under(
                            target,
                            Some(id),
                        ) != Some(i) implies after.contains_key(i) && after[i] == nodes[i] by {
                        assert(t.ids().contains(i));
                    }
                    lemma_wrapped_represents(
                        nodes,
                        after,
                        *first,
                        Some(id),
                        target,
                        split_id,
                        other,
                        direction,
                        other_first,
                        percentage,
                    );
                    lemma_wrapped_absent(
                        *second,
                        target,
                        split_id,
                        other,
                        direction,
                        other_first,
                        percentage,
                    );
                    assert forall|i: NodeId| #[trigger]
                        second.ids().contains(i) implies after.contains_key(i) && after[i]
                        == nodes[i] by {
                        assert(t.ids().contains(i));
                    }
                    lemma_represents_frame(nodes, after, *second, Some(id));
                } else {
                    assert(tp == second.parent_under(target, Some(id)));
                    assert forall|i: NodeId| #[trigger]
                        second.ids().contains(i) && i != target && second.parent_under(
                            target,
                            Some(id),
                        ) != Some(i) implies after.contains_key(i) && after[i] == nodes[i] by {
                        assert(t.ids().contains(i));
                    }
                    lemma_wrapped_represents(
                        nodes,
                        after,
                        *second,
                        Some(id),
                        target,
                        split_id,
                        other,
                        direction,
                        other_first,
                        percentage,
                    );
                    lemma_wrapped_absent(
                        *first,
                        target,
                        split_id,
                        other,
                        direction,
                        other_first,
                        percentage,
                    );
                    assert forall|i: NodeId| #[trigger]
                        first.ids().contains(i) implies after.contains_key(i) && after[i]
                        == nodes[i] by {
                        assert(t.ids().contains(i));
                    }
                    lemma_represents_frame(nodes, after, *first, Some(id));
                }
                assert(t.ids().contains(id));
            },
        }
    }
}

/// The arena after a leaf was taken out holds the tree without it: the
/// sibling names the grandparent as parent, the grandparent names the
/// sibling in place of the split that stood above the leaf, and nothing else
/// of the remaining tree has changed.
pub proof fn lemma_without_represents(
    nodes: Map<NodeId, Node>,
    after: Map<NodeId, Node>,
    t: PaneTree,
    parent: Option<NodeId>,
    target: NodeId,
)
    requires
        represents(nodes, t, parent),
        t.distinct(),
        t.ids().contains(target),
        t.id() != target,
        t.is_leaf(target),
        parent matches Some(q) ==> !t.ids().contains(q),
        ({
            let p = t.parent_of(target).unwrap();
            let s = t.sibling_of(target).unwrap();
            let g = t.parent_under(p, parent);
            &&& after.contains_key(s)
            &&& after[s] == nodes[s].with_parent(g)
            &&& g matches Some(gid) ==> after.contains_key(gid) && after[gid]
                == nodes[gid].with_child(p, s)
            &&& forall|id: NodeId| #[trigger]
                t.ids().contains(id) && id != target && id != p && id != s && g != Some(id)
                    ==> after.contains_key(id) && after[id] == nodes[id]
        }),
    ensures
        represents(after, t.without(target), parent),
    decreases t,
{
    lemma_ids(t);
    lemma_without_shape(t, target);
    match t {
        PaneTree::Tile { .. } => {},
        PaneTree::Split { id, first, second, .. } => {
            lemma_ids(*first);
            lemma_ids(*second);
            lemma_parent_is_inside(*first, target);
            lemma_parent_is_inside(*second, target);
            if first.id() == target || second.id() == target {
                let keep = if first.id() == target {
                    *second
                } else {
                    *first
                };
                assert(t.parent_of(target) == Some(id));
                assert(t.find(id) == Some(t));
                assert(t.sibling_of(target) == Some(keep.id()));
                assert forall|i: NodeId| #[trigger]
                    keep.ids().contains(i) && i != keep.id() implies after.contains_key(i)
                    && after[i] == nodes[i] by {
                    assert(t.ids().contains(i));
                }
                lemma_represents_reparent(nodes, after, keep, Some(id), parent);
            } else {
                let inner = if first.ids().contains(target) {
                    *first
                } else {
                    *second
                };
                let outer = if first.ids().contains(target) {
                    *second
                } else {
                    *first
                };
                let p = inner.parent_of(target).unwrap();
                lemma_without_shape(inner, target);
                lemma_parent_is_inside(inner, p);
                assert(t.parent_of(target) == Some(p));
                assert(t.find(p) == inner.find(p));
                let s = inner.sibling_of(target).unwrap();
                assert(t.sibling_of(target) == Some(s));
                lemma_lookup(nodes, inner, Some(id), target);
                assert(inner.ids().contains(s)) by {
                    lemma_lookup(nodes, inner, Some(id), p);
                    let sub = inner.find(p).unwrap();
                    lemma_ids(sub);
                    match sub {
                        PaneTree::Split { first: a, second: b, .. } => {
                            lemma_ids(*a);
                            lemma_ids(*b);
                        },
                        _ => {},
                    }
                }
                let g = t.parent_under(p, parent);
                assert(g == inner.parent_under(p, Some(id)));
                assert forall|i: NodeId| #[trigger]
                    inner.ids().contains(i) && i != target && i != p && i != s && g != Some(
                        i,
                    ) implies after.contains_key(i) && after[i] == nodes[i] by {
                    assert(t.ids().contains(i));
                }
                lemma_without_represents(nodes, after, inner, Some(id), target);
                lemma_without_absent(outer, target);
                assert forall|i: NodeId| #[trigger]
                    outer.ids().contains(i) implies after.contains_key(i) && after[i]
                    == nodes[i] by {
                    assert(t.ids().contains(i));
                }
                lemma_represents_frame(nodes, after, outer, Some(id));
                assert(t.ids().contains(id));
            }
        },
    }
}

/// The arena after a resize holds the resized tree: the split `target` has
/// the clamped percentage, and nothing else has changed.
pub proof fn lemma_resized_represents(
    nodes: Map<NodeId, Node>,
    after: Map<NodeId, Node>,
    t: PaneTree,
    parent: Option<NodeId>,
    target: NodeId,
    percentage: Percentage,
)
    requires
        represents(nodes, t, parent),
        t.distinct(),
        t.ids().contains(target),
        t.find(target) matches Some(PaneTree::Split { min, max, .. }) && after.contains_key(
            target,
        ) && after[target] == nodes[target].with_percentage(clamped(percentage, min, max)),
        forall|id: NodeId| #[trigger]
            t.ids().contains(id) && id != target ==> after.contains_key(id) && after[id]
                == nodes[id],
    ensures
        represents(after, t.resized(target, percentage), parent),
    decreases t,
{
    lemma_ids(t);
    lemma_resized_shape(t, target, percentage);
    match t {
        PaneTree::Tile { .. } => {},
        PaneTree::Split { id, first, second, .. } => {
            lemma_ids(*first);
            lemma_ids(*second);
            lemma_resized_shape(*first, target, percentage);
            lemma_resized_shape(*second, target, percentage);
            assert forall|i: NodeId| #[trigger] first.ids().contains(i) && i != target implies after.contains_key(
                i,
            ) && after[i] == nodes[i] by {
                assert(t.ids().contains(i));
            }
            assert forall|i: NodeId| #[trigger] second.ids().contains(i) && i != target implies after.contains_key(
                i,
            ) && after[i] == nodes[i] by {
                assert(t.ids().contains(i));
            }
            if first.ids().contains(target) {
                lemma_resized_represents(nodes, after, *first, Some(id), target, percentage);
            } else {
                lemma_resized_absent(*first, target, percentage);
                lemma_represents_frame(nodes, after, *first, Some(id));
            }
            if second.ids().contains(target) {
                lemma_resized_represents(nodes, after, *second, Some(id), target, percentage);
            } else {
                lemma_resized_absent(*second, target, percentage);
                lemma_represents_frame(nodes, after, *second, Some(id));
            }
            assert(t.ids().contains(id));
        },
    }
}

/// Around a node that is not the top stand its parent, a split of the tree,
/// and its sibling, the split's other child; the three differ from each
/// other and from the node above the parent.
pub proof fn lemma_family(t: PaneTree, parent: Option<NodeId>, target: NodeId)
    requires
        t.distinct(),
        t.ids().contains(target),
        t.id() != target,
        parent matches Some(q) ==> !t.ids().contains(q),
    ensures
        ({
            &&& t.parent_of(target) matches Some(p)
            &&& t.sibling_of(target) matches Some(s)
            &&& t.ids().contains(p)
            &&& t.ids().contains(s)
            &&& p != target
            &&& s != target
            &&& s != p
            &&& t.parent_under(p, parent) != Some(p)
            &&& t.parent_under(p, parent) != Some(s)
            &&& t.parent_under(p, parent) != Some(target)
            &&& (t.parent_under(p, parent) matches Some(g) ==> parent == Some(g)
                || t.ids().contains(g))
            &&& t.find(p) matches Some(PaneTree::Split { first, second, .. })
            &&& (first.id() == target && second.id() == s) || (second.id() == target
                && first.id() == s)
        }),
    decreases t,
{
    lemma_ids(t);
    match t {
        PaneTree::Tile { .. } => {},
        PaneTree::Split { id, first, second, .. } => {
            lemma_ids(*first);
            lemma_ids(*second);
            if first.id() == target || second.id() == target {
                assert(t.find(id) == Some(t));
            } else {
                let inner = if first.ids().contains(target) {
                    *first
                } else {
                    *second
                };
                lemma_family(inner, Some(id), target);
                let p = inner.parent_of(target).unwrap();
                assert(t.parent_of(target) == Some(p));
                assert(t.find(p) == inner.find(p));
                lemma_parent_is_inside(*first, p);
                lemma_parent_is_inside(*second, p);
                assert(t.parent_under(p, parent) == inner.parent_under(p, Some(id)));
            }
        },
    }
}

/// A tile can be split where the layout has a leaf that holds it.
pub open spec fn can_split(layout: Option<PaneTree>, tile: Seq<char>) -> bool {
    layout matches Some(t) && t.lowest_tile(tile) is Some
}

/// The layout after the lowest leaf that holds `tile` was split: a new split
/// with the handle after `next` stands in its place, with the leaf first
/// and a new unlocked leaf `next` for `new_tile` second, at `percentage`
/// brought into 20 to 80.
pub open spec fn after_split(
    layout: Option<PaneTree>,
    next: NodeId,
    tile: Seq<char>,
    direction: SplitDirection,
    new_tile: Seq<char>,
    percentage: Percentage,
) -> Option<PaneTree> {
    let t = layout.unwrap();
    Some(
        t.wrapped(
            t.lowest_tile(tile).unwrap(),
            (next + 1) as NodeId,
            PaneTree::Tile { id: next, tile: new_tile, locked: false },
            direction,
            false,
            clamped(percentage, 20, 80),
        ),
    )
}

/// A tile can be closed where the layout has a leaf that holds it and the
/// lowest such leaf is not locked.
pub open spec fn can_close(layout: Option<PaneTree>, tile: Seq<char>) -> bool {
    &&& layout matches Some(t)
    &&& t.lowest_tile(tile) matches Some(id)
    &&& !t.leaf_locked(id)
}

/// The layout after the lowest leaf that holds `tile` was closed: nothing
/// if it was the only node, else the tree without it, its sibling promoted.
pub open spec fn after_close(layout: Option<PaneTree>, tile: Seq<char>) -> Option<PaneTree> {
    let t = layout.unwrap();
    let id = t.lowest_tile(tile).unwrap();
    if t.id() == id {
        None
    } else {
        Some(t.without(id))
    }
}

/// A tile can be moved onto another where the two keys differ, the layout
/// has a leaf for each, and the target's leaf is not locked.
pub open spec fn can_insert(layout: Option<PaneTree>, dragged: Seq<char>, target: Seq<char>) -> bool {
    &&& dragged != target
    &&& layout matches Some(t)
    &&& t.lowest_tile(dragged) is Some
    &&& t.lowest_tile(target) matches Some(id)
    &&& !t.leaf_locked(id)
}

/// The layout after the leaf of `dragged` was moved onto the leaf of
/// `target`: the dragged leaf is taken out, its sibling promoted, and a new
/// split `next` stands where the target stood and holds the two, in the
/// direction and order of the zone, at 50 percent.
pub open spec fn after_insert(
    layout: Option<PaneTree>,
    next: NodeId,
    dragged: Seq<char>,
    target: Seq<char>,
    zone: DropZone,
) -> Option<PaneTree> {
    let t = layout.unwrap();
    let d = t.lowest_tile(dragged).unwrap();
    let g = t.lowest_tile(target).unwrap();
    Some(
        t.without(d).wrapped(
            g,
            next,
            t.find(d).unwrap(),
            zone.direction(),
            zone.leads(),
            50,
        ),
    )
}

/// A node can be resized where it is a split of the layout and not locked.
pub open spec fn can_resize(layout: Option<PaneTree>, id: NodeId) -> bool {
    &&& layout matches Some(t)
    &&& t.ids().contains(id)
    &&& t.find(id) matches Some(PaneTree::Split { locked, .. })
    &&& !locked
}

/// The layout after the split `id` was resized.
pub open spec fn after_resize(layout: Option<PaneTree>, id: NodeId, percentage: Percentage) -> Option<
    PaneTree,
> {
    Some(layout.unwrap().resized(id, percentage))
}

/// Redrawing a node that a tree does not hold changes nothing.
pub proof fn lemma_redrawn_absent(t: PaneTree, id: NodeId, node: Node)
    requires
        !t.ids().contains(id),
    ensures
        t.redrawn(id, node) == t,
    decreases t,
{
    lemma_ids(t);
    match t {
        PaneTree::Tile { .. } => {},
        PaneTree::Split { first, second, .. } => {
            lemma_redrawn_absent(*first, id, node);
            lemma_redrawn_absent(*second, id, node);
        },
    }
}

/// Redrawing keeps the handles and the top, and keeps the tree within its
/// bounds where the node's own percentage lies within the node's bounds.
pub proof fn lemma_redrawn_shape(t: PaneTree, id: NodeId, node: Node)
    ensures
        ({
            let w = t.redrawn(id, node);
            &&& w.ids() == t.ids()
            &&& w.id() == t.id()
            &&& w.size() == t.size()
            &&& t.distinct() ==> w.distinct()
            &&& t.bounded() && (node matches Node::Split {
                split_percentage,
                min_percentage,
                max_percentage,
                ..
            } ==> 0 <= min_percentage <= split_percentage <= max_percentage <= 100)
                ==> w.bounded()
        }),
    decreases t,
{
    match t {
        PaneTree::Tile { .. } => {},
        PaneTree::Split { first, second, .. } => {
            lemma_redrawn_shape(*first, id, node);
            lemma_redrawn_shape(*second, id, node);
        },
    }
}

/// The arena in which one node was rewritten in place holds the redrawn
/// tree.
pub proof fn lemma_redrawn_represents(
    nodes: Map<NodeId, Node>,
    after: Map<NodeId, Node>,
    t: PaneTree,
    parent: Option<NodeId>,
    id: NodeId,
    node: Node,
)
    requires
        represents(nodes, t, parent),
        t.distinct(),
        t.ids().contains(id),
        node.keeps_place(nodes[id]),
        after.contains_key(id),
        after[id] == node,
        forall|i: NodeId| #[trigger]
            t.ids().contains(i) && i != id ==> after.contains_key(i) && after[i] == nodes[i],
    ensures
        represents(after, t.redrawn(id, node), parent),
    decreases t,
{
    lemma_ids(t);
    lemma_redrawn_shape(t, id, node);
    match t {
        PaneTree::Tile { .. } => {},
        PaneTree::Split { id: own, first, second, .. } => {
            lemma_ids(*first);
            lemma_ids(*second);
            lemma_redrawn_shape(*first, id, node);
            lemma_redrawn_shape(*second, id, node);
            assert forall|i: NodeId| #[trigger] first.ids().contains(i) && i != id implies after.contains_key(
                i,
            ) && after[i] == nodes[i] by {
                assert(t.ids().contains(i));
            }
            assert forall|i: NodeId| #[trigger] second.ids().contains(i) && i != id implies after.contains_key(
                i,
            ) && after[i] == nodes[i] by {
                assert(t.ids().contains(i));
            }
            if first.ids().contains(id) {
                lemma_redrawn_represents(nodes, after, *first, Some(own), id, node);
            } else {
                lemma_redrawn_absent(*first, id, node);
                lemma_represents_frame(nodes, after, *first, Some(own));
            }
            if second.ids().contains(id) {
                lemma_redrawn_represents(nodes, after, *second, Some(own), id, node);
            } else {
                lemma_redrawn_absent(*second, id, node);
                lemma_represents_frame(nodes, after, *second, Some(own));
            }
            assert(t.ids().contains(own));
        },
    }
}

} // verus!

use crate::node::Node;
use crate::types::{NodeId, Percentage, SplitDirection};
use vstd::prelude::*;

verus! {

/// The tree that a layout's arena stands for: what the nodes say, with the
/// child handles replaced by the children themselves. It exists in
/// specifications only.
pub enum PaneTree {
    /// A leaf with content.
    Tile { id: NodeId, tile: Seq<char>, locked: bool },
    /// An inner node that divides its space between two subtrees.
    Split {
        id: NodeId,
        direction: SplitDirection,
        percentage: Percentage,
        min: Percentage,
        max: Percentage,
        locked: bool,
        first: Box<PaneTree>,
        second: Box<PaneTree>,
    },
}

/// The lower of two handles, where either may be missing.
pub open spec fn lower(a: Option<NodeId>, b: Option<NodeId>) -> Option<NodeId> {
    match (a, b) {
        (Some(x), Some(y)) => if x <= y {
            Some(x)
        } else {
            Some(y)
        },
        (Some(x), None) => Some(x),
        (None, other) => other,
    }
}

impl PaneTree {
    /// The handle of the tree's top node.
    pub open spec fn id(self) -> NodeId {
        match self {
            PaneTree::Tile { id, .. } => id,
            PaneTree::Split { id, .. } => id,
        }
    }

    /// The handles of all nodes of the tree.
    pub open spec fn ids(self) -> Set<NodeId>
        decreases self,
    {
        match self {
            PaneTree::Tile { id, .. } => set![id],
            PaneTree::Split { id, first, second, .. } => first.ids().union(second.ids()).insert(
                id,
            ),
        }
    }

    /// The number of nodes of the tree.
    pub open spec fn size(self) -> nat
        decreases self,
    {
        match self {
            PaneTree::Tile { .. } => 1,
            PaneTree::Split { first, second, .. } => 1 + first.size() + second.size(),
        }
    }

    /// No handle occurs twice in the tree.
    pub open spec fn distinct(self) -> bool
        decreases self,
    {
        match self {
            PaneTree::Tile { .. } => true,
            PaneTree::Split { id, first, second, .. } => {
                &&& first.distinct()
                &&& second.distinct()
                &&& !first.ids().contains(id)
                &&& !second.ids().contains(id)
                &&& first.ids().disjoint(second.ids())
            },
        }
    }

    /// Every split's percentage lies within its own bounds, and these within
    /// 0 and 100.
    pub open spec fn bounded(self) -> bool
        decreases self,
    {
        match self {
            PaneTree::Tile { .. } => true,
            PaneTree::Split { percentage, min, max, first, second, .. } => {
                &&& 0 <= min <= percentage <= max <= 100
                &&& first.bounded()
                &&& second.bounded()
            },
        }
    }

    /// The tile keys of the leaves, first subtree before second.
    pub open spec fn tiles(self) -> Seq<Seq<char>>
        decreases self,
    {
        match self {
            PaneTree::Tile { tile, .. } => seq![tile],
            PaneTree::Split { first, second, .. } => first.tiles() + second.tiles(),
        }
    }

    /// The subtree whose top node has the handle `id`.
    pub open spec fn find(self, id: NodeId) -> Option<PaneTree>
        decreases self,
    {
        if self.id() == id {
            Some(self)
        } else {
            match self {
                PaneTree::Tile { .. } => None,
                PaneTree::Split { first, second, .. } => if first.ids().contains(id) {
                    first.find(id)
                } else {
                    second.find(id)
                },
            }
        }
    }

    /// The handle of the split that has the node `id` as a child.
    pub open spec fn parent_of(self, id: NodeId) -> Option<NodeId>
        decreases self,
    {
        match self {
            PaneTree::Tile { .. } => None,
            PaneTree::Split { id: own, first, second, .. } => if first.id() == id || second.id()
                == id {
                Some(own)
            } else if first.ids().contains(id) {
                first.parent_of(id)
            } else {
                second.parent_of(id)
            },
        }
    }

    /// The parent of the node `id` where the tree itself hangs under
    /// `outer`.
    pub open spec fn parent_under(self, id: NodeId, outer: Option<NodeId>) -> Option<NodeId> {
        if self.id() == id {
            outer
        } else {
            self.parent_of(id)
        }
    }

    /// The node `id` is a leaf that holds the tile `tile`.
    pub open spec fn holds_tile(self, id: NodeId, tile: Seq<char>) -> bool {
        &&& self.ids().contains(id)
        &&& self.find(id) matches Some(PaneTree::Tile { tile: t, .. })
        &&& t == tile
    }

    /// The node `id` is a leaf.
    pub open spec fn is_leaf(self, id: NodeId) -> bool {
        &&& self.ids().contains(id)
        &&& self.find(id) matches Some(PaneTree::Tile { .. })
    }

    /// The node `id` is a leaf that is locked.
    pub open spec fn leaf_locked(self, id: NodeId) -> bool {
        &&& self.find(id) matches Some(PaneTree::Tile { locked, .. })
        &&& locked
    }

    /// The leaf with the lowest handle among those that hold `tile`.
    pub open spec fn lowest_tile(self, tile: Seq<char>) -> Option<NodeId>
        decreases self,
    {
        match self {
            PaneTree::Tile { id, tile: t, .. } => if t == tile {
                Some(id)
            } else {
                None
            },
            PaneTree::Split { first, second, .. } => lower(
                first.lowest_tile(tile),
                second.lowest_tile(tile),
            ),
        }
    }

    /// How many leaves stand before the node `id` in the order of `tiles`.
    pub open spec fn leaves_before(self, id: NodeId) -> int
        decreases self,
    {
        if self.id() == id {
            0
        } else {
            match self {
                PaneTree::Tile { .. } => 0,
                PaneTree::Split { first, second, .. } => if first.ids().contains(id) {
                    first.leaves_before(id)
                } else {
                    first.tiles().len() + second.leaves_before(id)
                },
            }
        }
    }
}

impl Node {
    /// The leaf that a tile node stands for.
    pub open spec fn leaf(self) -> PaneTree {
        match self {
            Node::Tile { id, tile_id, locked, .. } => PaneTree::Tile { id, tile: tile_id@, locked },
            Node::Split { id, .. } => PaneTree::Tile { id, tile: Seq::empty(), locked: false },
        }
    }

    /// The node says what the top of `t` says, names the tops of its
    /// subtrees as children, and names `parent` as its parent.
    pub open spec fn depicts(self, t: PaneTree, parent: Option<NodeId>) -> bool {
        match (self, t) {
            (
                Node::Tile { id, tile_id, parent: p, locked },
                PaneTree::Tile { id: tid, tile, locked: tlocked },
            ) => id == tid && tile_id@ == tile && p == parent && locked == tlocked,
            (
                Node::Split {
                    id,
                    direction,
                    first,
                    second,
                    split_percentage,
                    parent: p,
                    locked,
                    min_percentage,
                    max_percentage,
                },
                PaneTree::Split {
                    id: tid,
                    direction: tdirection,
                    percentage,
                    min,
                    max,
                    locked: tlocked,
                    first: tfirst,
                    second: tsecond,
                },
            ) => {
                &&& id == tid
                &&& direction == tdirection
                &&& first == tfirst.id()
                &&& second == tsecond.id()
                &&& split_percentage == percentage
                &&& p == parent
                &&& locked == tlocked
                &&& min_percentage == min
                &&& max_percentage == max
            },
            _ => false,
        }
    }
}

/// The arena `nodes` holds the tree `t` hanging under `parent`: each node of
/// the tree is in the arena under its handle, says what the tree says, and
/// names the node above it as its parent.
pub open spec fn represents(nodes: Map<NodeId, Node>, t: PaneTree, parent: Option<NodeId>) -> bool
    decreases t,
{
    &&& nodes.contains_key(t.id())
    &&& nodes[t.id()].depicts(t, parent)
    &&& match t {
        PaneTree::Tile { .. } => true,
        PaneTree::Split { id, first, second, .. } => represents(nodes, *first, Some(id))
            && represents(nodes, *second, Some(id)),
    }
}

/// A tree's top handle is one of its handles, and its handles are finitely
/// many: as many as it has nodes, where none occurs twice.
pub proof fn lemma_ids(t: PaneTree)
    ensures
        t.ids().contains(t.id()),
        t.ids().finite(),
        t.distinct() ==> t.ids().len() == t.size(),
    decreases t,
{
    match t {
        PaneTree::Tile { .. } => {},
        PaneTree::Split { id, first, second, .. } => {
            lemma_ids(*first);
            lemma_ids(*second);
            if t.distinct() {
                vstd::set_lib::lemma_set_disjoint_lens(first.ids(), second.ids());
                assert(!first.ids().union(second.ids()).contains(id));
            }
        },
    }
}

/// An arena that agrees with another on the handles of a tree holds the
/// tree too.
pub proof fn lemma_represents_frame(
    nodes: Map<NodeId, Node>,
    other: Map<NodeId, Node>,
    t: PaneTree,
    parent: Option<NodeId>,
)
    requires
        represents(nodes, t, parent),
        forall|id: NodeId| #[trigger]
            t.ids().contains(id) ==> other.contains_key(id) && other[id] == nodes[id],
    ensures
        represents(other, t, parent),
    decreases t,
{
    lemma_ids(t);
    match t {
        PaneTree::Tile { .. } => {},
        PaneTree::Split { id, first, second, .. } => {
            assert forall|i: NodeId| #[trigger] first.ids().contains(i) implies other.contains_key(
                i,
            ) && other[i] == nodes[i] by {
                assert(t.ids().contains(i));
            }
            assert forall|i: NodeId| #[trigger] second.ids().contains(i) implies other.contains_key(
                i,
            ) && other[i] == nodes[i] by {
                assert(t.ids().contains(i));
            }
            lemma_represents_frame(nodes, other, *first, Some(id));
            lemma_represents_frame(nodes, other, *second, Some(id));
        },
    }
}

/// Where only the top node of a tree changes, and only in naming another
/// parent, the arena holds the tree under that parent.
pub proof fn lemma_represents_reparent(
    nodes: Map<NodeId, Node>,
    other: Map<NodeId, Node>,
    t: PaneTree,
    parent: Option<NodeId>,
    new_parent: Option<NodeId>,
)
    requires
        represents(nodes, t, parent),
        t.distinct(),
        other.contains_key(t.id()),
        other[t.id()] == nodes[t.id()].with_parent(new_parent),
        forall|id: NodeId| #[trigger]
            t.ids().contains(id) && id != t.id() ==> other.contains_key(id) && other[id]
                == nodes[id],
    ensures
        represents(other, t, new_parent),
{
    match t {
        PaneTree::Tile { .. } => {},
        PaneTree::Split { id, first, second, .. } => {
            assert forall|i: NodeId| #[trigger] first.ids().contains(i) implies other.contains_key(
                i,
            ) && other[i] == nodes[i] by {
                assert(t.ids().contains(i));
            }
            assert forall|i: NodeId| #[trigger] second.ids().contains(i) implies other.contains_key(
                i,
            ) && other[i] == nodes[i] by {
                assert(t.ids().contains(i));
            }
            lemma_represents_frame(nodes, other, *first, Some(id));
            lemma_represents_frame(nodes, other, *second, Some(id));
        },
    }
}

/// What the arena says of each node of a tree it holds: the node is there,
/// it depicts the subtree under its handle, and unless it is the top it
/// names as parent a split of the tree that has it as a child.
pub proof fn lemma_lookup(
    nodes: Map<NodeId, Node>,
    t: PaneTree,
    parent: Option<NodeId>,
    id: NodeId,
)
    requires
        represents(nodes, t, parent),
        t.distinct(),
        t.ids().contains(id),
    ensures
        nodes.contains_key(id),
        t.find(id) is Some,
        t.find(id).unwrap().id() == id,
        t.find(id).unwrap().ids().subset_of(t.ids()),
        t.find(id).unwrap().distinct(),
        t.bounded() ==> t.find(id).unwrap().bounded(),
        nodes[id].depicts(t.find(id).unwrap(), t.parent_under(id, parent)),
        represents(nodes, t.find(id).unwrap(), t.parent_under(id, parent)),
        id != t.id() ==> {
            &&& t.parent_of(id) matches Some(p)
            &&& t.ids().contains(p)
            &&& p != id
            &&& t.find(p) matches Some(PaneTree::Split { first, second, .. })
            &&& (first.id() == id || second.id() == id)
        },
    decreases t,
{
    lemma_ids(t);
    if t.id() != id {
        match t {
            PaneTree::Tile { .. } => {},
            PaneTree::Split { id: own, first, second, .. } => {
                lemma_ids(*first);
                lemma_ids(*second);
                if first.ids().contains(id) {
                    lemma_lookup(nodes, *first, Some(own), id);
                    if first.id() != id {
                        let p = first.parent_of(id).unwrap();
                        assert(!second.ids().contains(p));
                        assert(p != second.id());
                        assert(t.find(p) == first.find(p));
                    }
                } else {
                    lemma_lookup(nodes, *second, Some(own), id);
                    if second.id() != id {
                        let p = second.parent_of(id).unwrap();
                        assert(t.find(p) == second.find(p));
                    }
                }
            },
        }
    }
}

/// An arena holds at most one tree under a given handle.
pub proof fn lemma_represents_unique(
    nodes: Map<NodeId, Node>,
    a: PaneTree,
    b: PaneTree,
    parent_a: Option<NodeId>,
    parent_b: Option<NodeId>,
)
    requires
        represents(nodes, a, parent_a),
        represents(nodes, b, parent_b),
        a.id() == b.id(),
    ensures
        a == b,
    decreases a,
{
    match (a, b) {
        (
            PaneTree::Split { id, first, second, .. },
            PaneTree::Split { first: bfirst, second: bsecond, .. },
        ) => {
            lemma_represents_unique(nodes, *first, *bfirst, Some(id), Some(id));
            lemma_represents_unique(nodes, *second, *bsecond, Some(id), Some(id));
        },
        _ => {},
    }
}

/// `lowest_tile` finds a leaf that holds the tile, and no leaf with a lower
/// handle holds it; it finds none only where no leaf holds the tile.
pub proof fn lemma_lowest_tile(t: PaneTree, tile: Seq<char>)
    requires
        t.distinct(),
    ensures
        match t.lowest_tile(tile) {
            Some(id) => t.holds_tile(id, tile) && forall|j: NodeId|
                t.holds_tile(j, tile) ==> id <= j,
            None => forall|j: NodeId| !t.holds_tile(j, tile),
        },
    decreases t,
{
    lemma_ids(t);
    match t {
        PaneTree::Tile { .. } => {},
        PaneTree::Split { id, first, second, .. } => {
            lemma_ids(*first);
            lemma_ids(*second);
            lemma_lowest_tile(*first, tile);
            lemma_lowest_tile(*second, tile);
            assert forall|j: NodeId| t.holds_tile(j, tile) implies first.holds_tile(j, tile)
                || second.holds_tile(j, tile) by {}
            assert forall|j: NodeId| first.holds_tile(j, tile) implies t.holds_tile(j, tile) by {}
            assert forall|j: NodeId| second.holds_tile(j, tile) implies t.holds_tile(j, tile) by {}
        },
    }
}

} // verus!

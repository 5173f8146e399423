use crate::node::clamped;
use crate::pane_tree::PaneTree;
use crate::types::{NodeId, Percentage, SplitDirection, TileId};
use vstd::prelude::*;

verus! {

/// What a declarative tree says: the view of a `MosaicNode`, and what is
/// left of a layout's tree when handles, locks and bounds are set aside.
pub enum TreeShape {
    /// A split containing two subtrees
    Split {
        direction: SplitDirection,
        percentage: Percentage,
        first: Box<TreeShape>,
        second: Box<TreeShape>,
    },
    /// A leaf containing a tile
    Leaf { tile: Seq<char> },
}

impl TreeShape {
    /// The number of nodes, splits and leaves together.
    pub open spec fn size(self) -> nat
        decreases self,
    {
        match self {
            TreeShape::Leaf { .. } => 1,
            TreeShape::Split { first, second, .. } => 1 + first.size() + second.size(),
        }
    }

    /// The tile keys of the leaves, first subtree before second.
    pub open spec fn tiles(self) -> Seq<Seq<char>>
        decreases self,
    {
        match self {
            TreeShape::Leaf { tile } => seq![tile],
            TreeShape::Split { first, second, .. } => first.tiles() + second.tiles(),
        }
    }

    /// The handle that a layout built from this shape gives its top node: a
    /// lone leaf is node 0, the top of a larger tree is node 1.
    pub open spec fn first_handle(self) -> NodeId {
        match self {
            TreeShape::Leaf { .. } => 0,
            TreeShape::Split { .. } => 1,
        }
    }

    /// The same shape with every percentage brought into 20 to 80, the
    /// bounds that a layout gives the splits it builds.
    pub open spec fn settled(self) -> TreeShape
        decreases self,
    {
        match self {
            TreeShape::Leaf { .. } => self,
            TreeShape::Split { direction, percentage, first, second } => TreeShape::Split {
                direction,
                percentage: clamped(percentage, 20, 80),
                first: Box::new(first.settled()),
                second: Box::new(second.settled()),
            },
        }
    }

    /// The tree that a layout builds from this shape when the counter
    /// stands at `start`: each node takes the next handle before its
    /// subtrees take theirs, first subtree before second. Splits are
    /// unlocked and bounded by 20 and 80, leaves are unlocked.
    pub open spec fn materialized(self, start: NodeId) -> PaneTree
        decreases self,
    {
        match self {
            TreeShape::Leaf { tile } => PaneTree::Tile { id: start, tile, locked: false },
            TreeShape::Split { direction, percentage, first, second } => PaneTree::Split {
                id: start,
                direction,
                percentage: clamped(percentage, 20, 80),
                min: 20,
                max: 80,
                locked: false,
                first: Box::new(first.materialized((start + 1) as NodeId)),
                second: Box::new(second.materialized((start + 1 + first.size()) as NodeId)),
            },
        }
    }
}

impl PaneTree {
    /// The shape of the tree: its directions, percentages and tiles.
    pub open spec fn shape(self) -> TreeShape
        decreases self,
    {
        match self {
            PaneTree::Tile { tile, .. } => TreeShape::Leaf { tile },
            PaneTree::Split { direction, percentage, first, second, .. } => TreeShape::Split {
                direction,
                percentage,
                first: Box::new(first.shape()),
                second: Box::new(second.shape()),
            },
        }
    }
}

/// Tree representation for the outside: a simple recursive description of a
/// layout, which a layout is built from and can be turned back into.
#[derive(Debug)]
pub enum MosaicNode {
    /// A split containing two child nodes
    Split {
        direction: SplitDirection,
        first: Box<MosaicNode>,
        second: Box<MosaicNode>,
        split_percentage: Percentage,
    },
    /// A leaf node containing a tile
    Leaf(TileId),
}

impl MosaicNode {
    /// What the description says, subtree by subtree.
    pub open spec fn outline(self) -> TreeShape
        decreases self,
    {
        match self {
            MosaicNode::Leaf(tile_id) => TreeShape::Leaf { tile: tile_id@ },
            MosaicNode::Split { direction, first, second, split_percentage } => TreeShape::Split {
                direction,
                percentage: split_percentage,
                first: Box::new(first.outline()),
                second: Box::new(second.outline()),
            },
        }
    }
}

impl View for MosaicNode {
    type V = TreeShape;

    open spec fn view(&self) -> TreeShape {
        self.outline()
    }
}

impl Clone for MosaicNode {
    fn clone(&self) -> (res: Self)
        ensures
            res@ == self@,
        decreases self,
    {
        match self {
            MosaicNode::Leaf(tile_id) => MosaicNode::Leaf(tile_id.clone()),
            MosaicNode::Split { direction, first, second, split_percentage } => MosaicNode::Split {
                direction: *direction,
                first: Box::new((**first).clone()),
                second: Box::new((**second).clone()),
                split_percentage: *split_percentage,
            },
        }
    }
}

impl MosaicNode {
    /// Create a horizontal split
    pub fn horizontal(first: MosaicNode, second: MosaicNode, split_percentage: Percentage) -> (res:
        Self)
        ensures
            res@ == (TreeShape::Split {
                direction: SplitDirection::Horizontal,
                percentage: split_percentage,
                first: Box::new(first@),
                second: Box::new(second@),
            }),
    {
        MosaicNode::Split {
            direction: SplitDirection::Horizontal,
            first: Box::new(first),
            second: Box::new(second),
            split_percentage,
        }
    }

    /// Create a vertical split
    pub fn vertical(first: MosaicNode, second: MosaicNode, split_percentage: Percentage) -> (res:
        Self)
        ensures
            res@ == (TreeShape::Split {
                direction: SplitDirection::Vertical,
                percentage: split_percentage,
                first: Box::new(first@),
                second: Box::new(second@),
            }),
    {
        MosaicNode::Split {
            direction: SplitDirection::Vertical,
            first: Box::new(first),
            second: Box::new(second),
            split_percentage,
        }
    }

    /// Create a leaf tile
    pub fn tile(tile_id: &str) -> (res: Self)
        ensures
            res@ == (TreeShape::Leaf { tile: tile_id@ }),
    {
        MosaicNode::Leaf(tile_id.to_string())
    }
}

/// Helper function for creating leaf tiles
pub fn tile(tile_id: &str) -> (res: MosaicNode)
    ensures
        res@ == (TreeShape::Leaf { tile: tile_id@ }),
{
    MosaicNode::tile(tile_id)
}

/// The tree built from a shape has the shape's size, takes exactly the
/// handles from `start` on, one for each node, none twice, keeps its
/// percentages within bounds, and has the shape's tiles in the shape's
/// order.
pub proof fn lemma_materialized(s: TreeShape, start: NodeId)
    requires
        start + s.size() <= u64::MAX,
    ensures
        s.materialized(start).id() == start,
        s.materialized(start).size() == s.size(),
        forall|id: NodeId|
            s.materialized(start).ids().contains(id) <==> start <= id < start + s.size(),
        s.materialized(start).distinct(),
        s.materialized(start).bounded(),
        s.materialized(start).tiles() == s.tiles(),
        s.materialized(start).shape() == s.settled(),
    decreases s,
{
    let t = s.materialized(start);
    match s {
        TreeShape::Leaf { .. } => {
            assert forall|id: NodeId| t.ids().contains(id) <==> start <= id < start + s.size() by {}
        },
        TreeShape::Split { first, second, .. } => {
            let a = first.materialized((start + 1) as NodeId);
            let b = second.materialized((start + 1 + first.size()) as NodeId);
            lemma_materialized(*first, (start + 1) as NodeId);
            lemma_materialized(*second, (start + 1 + first.size()) as NodeId);
            assert forall|id: NodeId| t.ids().contains(id) <==> start <= id < start + s.size() by {
                assert(t.ids().contains(id) <==> id == start || a.ids().contains(id)
                    || b.ids().contains(id));
            }
            assert(a.ids().disjoint(b.ids()));
        },
    }
}

/// Bringing the percentages within bounds a second time changes nothing,
/// and never touches the tiles.
pub proof fn lemma_settled(s: TreeShape)
    ensures
        s.settled().settled() == s.settled(),
        s.settled().tiles() == s.tiles(),
        s.settled().size() == s.size(),
    decreases s,
{
    match s {
        TreeShape::Leaf { .. } => {},
        TreeShape::Split { first, second, .. } => {
            lemma_settled(*first);
            lemma_settled(*second);
        },
    }
}

/// Round trip. A tree built from a shape, read back as a shape and built
/// again, has the tiles in the same order, the same directions and the same
/// percentages as the tree built first; only the handles may differ.
pub proof fn lemma_round_trip(s: TreeShape, start: NodeId, again: NodeId)
    requires
        start + s.size() <= u64::MAX,
        again + s.size() <= u64::MAX,
    ensures
        s.materialized(start).shape().materialized(again).shape() == s.materialized(
            start,
        ).shape(),
        s.materialized(start).shape().materialized(again).tiles() == s.materialized(
            start,
        ).tiles(),
{
    lemma_materialized(s, start);
    lemma_settled(s);
    lemma_materialized(s.settled(), again);
}

/// The tiles of a tree are the tiles of its shape.
pub proof fn lemma_shape_tiles(t: PaneTree)
    ensures
        t.shape().tiles() == t.tiles(),
        t.shape().size() == t.size(),
    decreases t,
{
    match t {
        PaneTree::Tile { .. } => {},
        PaneTree::Split { first, second, .. } => {
            lemma_shape_tiles(*first);
            lemma_shape_tiles(*second);
        },
    }
}

} // verus!

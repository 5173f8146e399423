use crate::types::{NodeId, Percentage, SplitDirection, TileId};
use vstd::prelude::*;

verus! {

/// A node in the mosaic layout.
///
/// Each node is either a split, which holds the handles of its two children,
/// or a tile, which is a leaf with content. Both carry their own handle, the
/// handle of their parent (unset for the root) and a lock flag.
#[derive(Debug)]
pub enum Node {
    /// A split node containing two children
    Split {
        /// Unique identifier for this node
        id: NodeId,
        /// Direction of the split (horizontal or vertical)
        direction: SplitDirection,
        /// ID of the first child node
        first: NodeId,
        /// ID of the second child node
        second: NodeId,
        /// Split position as percentage (0 - 100) for the first pane
        split_percentage: Percentage,
        /// Parent node ID (None for root)
        parent: Option<NodeId>,
        /// Whether this split is locked (prevents resizing)
        locked: bool,
        /// Minimum percentage for the first pane
        min_percentage: Percentage,
        /// Maximum percentage for the first pane
        max_percentage: Percentage,
    },
    /// A leaf node containing a tile
    Tile {
        /// Unique identifier for this node
        id: NodeId,
        /// ID of the tile content (used to render)
        tile_id: TileId,
        /// Parent node ID (None for root)
        parent: Option<NodeId>,
        /// Whether this tile is locked (prevents closing)
        locked: bool,
    },
}

/// The value of `value` brought into `[low, high]`.
pub open spec fn clamped(value: Percentage, low: Percentage, high: Percentage) -> Percentage {
    if value < low {
        low
    } else if value > high {
        high
    } else {
        value
    }
}

/// Brings a percentage into `[low, high]`.
pub fn clamp_percentage(value: Percentage, low: Percentage, high: Percentage) -> (res: Percentage)
    ensures
        res == clamped(value, low, high),
{
    if value < low {
        low
    } else if value > high {
        high
    } else {
        value
    }
}

impl Node {
    /// The node's own handle.
    pub open spec fn node_id(self) -> NodeId {
        match self {
            Node::Split { id, .. } => id,
            Node::Tile { id, .. } => id,
        }
    }

    /// The handle of the node's parent.
    pub open spec fn parent_id(self) -> Option<NodeId> {
        match self {
            Node::Split { parent, .. } => parent,
            Node::Tile { parent, .. } => parent,
        }
    }

    /// The same node under another parent.
    pub open spec fn with_parent(self, new_parent: Option<NodeId>) -> Node {
        match self {
            Node::Split {
                id,
                direction,
                first,
                second,
                split_percentage,
                parent,
                locked,
                min_percentage,
                max_percentage,
            } => Node::Split {
                id,
                direction,
                first,
                second,
                split_percentage,
                parent: new_parent,
                locked,
                min_percentage,
                max_percentage,
            },
            Node::Tile { id, tile_id, parent, locked } => Node::Tile {
                id,
                tile_id,
                parent: new_parent,
                locked,
            },
        }
    }

    /// The same node with the child slot that names `old_child` naming
    /// `new_child` instead: the first slot if it matches, else the second if
    /// that one does. A tile, or a split with neither, is unchanged.
    pub open spec fn with_child(self, old_child: NodeId, new_child: NodeId) -> Node {
        match self {
            Node::Split {
                id,
                direction,
                first,
                second,
                split_percentage,
                parent,
                locked,
                min_percentage,
                max_percentage,
            } => Node::Split {
                id,
                direction,
                first: if first == old_child {
                    new_child
                } else {
                    first
                },
                second: if first != old_child && second == old_child {
                    new_child
                } else {
                    second
                },
                split_percentage,
                parent,
                locked,
                min_percentage,
                max_percentage,
            },
            Node::Tile { .. } => self,
        }
    }

    /// The same split at another percentage; a tile is unchanged.
    pub open spec fn with_percentage(self, percentage: Percentage) -> Node {
        match self {
            Node::Split {
                id,
                direction,
                first,
                second,
                split_percentage,
                parent,
                locked,
                min_percentage,
                max_percentage,
            } => Node::Split {
                id,
                direction,
                first,
                second,
                split_percentage: percentage,
                parent,
                locked,
                min_percentage,
                max_percentage,
            },
            Node::Tile { .. } => self,
        }
    }

    /// The node stands where `before` stood: it is of the same kind, has
    /// the same handle and parent and, for a split, the same children, and
    /// a split's percentage lies within its bounds and these within 0 and
    /// 100. Its tile, direction, lock, percentage and bounds are free.
    pub open spec fn keeps_place(self, before: Node) -> bool {
        match (self, before) {
            (Node::Tile { id, parent, .. }, Node::Tile { id: bid, parent: bparent, .. }) => id
                == bid && parent == bparent,
            (
                Node::Split {
                    id,
                    first,
                    second,
                    parent,
                    split_percentage,
                    min_percentage,
                    max_percentage,
                    ..
                },
                Node::Split { id: bid, first: bfirst, second: bsecond, parent: bparent, .. },
            ) => {
                &&& id == bid
                &&& first == bfirst
                &&& second == bsecond
                &&& parent == bparent
                &&& 0 <= min_percentage <= split_percentage <= max_percentage <= 100
            },
            _ => false,
        }
    }

    /// Get the node's ID
    pub fn id(&self) -> (res: &NodeId)
        ensures
            *res == self.node_id(),
    {
        match self {
            Node::Split { id, .. } => id,
            Node::Tile { id, .. } => id,
        }
    }

    /// Get the node's parent ID
    pub fn parent(&self) -> (res: Option<&NodeId>)
        ensures
            match res {
                Some(p) => self.parent_id() == Some(*p),
                None => self.parent_id() is None,
            },
    {
        match self {
            Node::Split { parent, .. } => parent.as_ref(),
            Node::Tile { parent, .. } => parent.as_ref(),
        }
    }

    /// Set the node's parent ID
    pub fn set_parent(&mut self, new_parent: Option<NodeId>)
        ensures
            *final(self) == old(self).with_parent(new_parent),
    {
        match self {
            Node::Split { parent, .. } => *parent = new_parent,
            Node::Tile { parent, .. } => *parent = new_parent,
        }
    }

    /// Check if this is a split node
    pub fn is_split(&self) -> (res: bool)
        ensures
            res == (self is Split),
    {
        matches!(self, Node::Split { .. })
    }

    /// Check if this is a tile node
    pub fn is_tile(&self) -> (res: bool)
        ensures
            res == (self is Tile),
    {
        matches!(self, Node::Tile { .. })
    }

    /// Get child node IDs (for Split nodes only)
    pub fn children(&self) -> (res: Option<(&NodeId, &NodeId)>)
        ensures
            match res {
                Some((a, b)) => self matches Node::Split { first, second, .. } && *a == first
                    && *b == second,
                None => self is Tile,
            },
    {
        match self {
            Node::Split { first, second, .. } => Some((first, second)),
            Node::Tile { .. } => None,
        }
    }
}

impl Clone for Node {
    fn clone(&self) -> (res: Self)
        ensures
            res == *self,
    {
        match self {
            Node::Split {
                id,
                direction,
                first,
                second,
                split_percentage,
                parent,
                locked,
                min_percentage,
                max_percentage,
            } => Node::Split {
                id: *id,
                direction: *direction,
                first: *first,
                second: *second,
                split_percentage: *split_percentage,
                parent: *parent,
                locked: *locked,
                min_percentage: *min_percentage,
                max_percentage: *max_percentage,
            },
            Node::Tile { id, tile_id, parent, locked } => Node::Tile {
                id: *id,
                tile_id: tile_id.clone(),
                parent: *parent,
                locked: *locked,
            },
        }
    }
}

} // verus!

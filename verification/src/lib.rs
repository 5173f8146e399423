//! A tiling-layout engine: a binary tree of resizable splits and content
//! tiles, kept in an arena of nodes, with split, close, resize and relocate
//! operations, a declarative tree description, and drop-zone geometry.

pub mod builder;
pub mod drag_drop;
pub mod laws;
pub mod layout;
pub mod node;
pub mod pane_tree;
pub mod reshape;
pub mod snapshot;
pub mod tree_api;
pub mod types;

pub use builder::{tile, MosaicBuilder};
pub use drag_drop::{calculate_drop_zone, get_drop_zone_style, DragState, DropZone};
pub use layout::MosaicLayout;
pub use node::Node;
pub use pane_tree::PaneTree;
pub use tree_api::{MosaicNode, TreeShape};
pub use types::{NodeId, Percentage, SplitDirection, TileId};

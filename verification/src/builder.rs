use crate::layout::MosaicLayout;
use crate::node::{clamp_percentage, clamped};
use crate::tree_api::{MosaicNode, TreeShape};
use crate::types::{Percentage, SplitDirection};
use vstd::prelude::*;

verus! {

/// Builder for creating mosaic layouts with a fluent API: it gathers a
/// direction, two children and a percentage, and makes a split of them.
#[derive(Debug)]
pub struct MosaicBuilder {
    direction: SplitDirection,
    first: Option<MosaicNode>,
    second: Option<MosaicNode>,
    split_percentage: Percentage,
}

impl MosaicBuilder {
    /// The direction of the split under construction.
    pub closed spec fn direction(&self) -> SplitDirection {
        self.direction
    }

    /// The first child, once it is set.
    pub closed spec fn first_child(&self) -> Option<TreeShape> {
        match self.first {
            Some(node) => Some(node@),
            None => None,
        }
    }

    /// The second child, once it is set.
    pub closed spec fn second_child(&self) -> Option<TreeShape> {
        match self.second {
            Some(node) => Some(node@),
            None => None,
        }
    }

    /// The percentage of the split under construction.
    pub closed spec fn percentage(&self) -> Percentage {
        self.split_percentage
    }

    /// Both children are set.
    pub open spec fn is_complete(&self) -> bool {
        self.first_child() is Some && self.second_child() is Some
    }

    /// The split that a complete builder describes.
    pub open spec fn shape(&self) -> TreeShape {
        TreeShape::Split {
            direction: self.direction(),
            percentage: self.percentage(),
            first: Box::new(self.first_child().unwrap()),
            second: Box::new(self.second_child().unwrap()),
        }
    }

    /// Create a horizontal split builder (left | right)
    pub fn horizontal() -> (res: Self)
        ensures
            res.direction() == SplitDirection::Horizontal,
            res.first_child() is None,
            res.second_child() is None,
            res.percentage() == 50,
    {
        MosaicBuilder {
            direction: SplitDirection::Horizontal,
            first: None,
            second: None,
            split_percentage: 50,
        }
    }

    /// Create a vertical split builder (top | bottom)
    pub fn vertical() -> (res: Self)
        ensures
            res.direction() == SplitDirection::Vertical,
            res.first_child() is None,
            res.second_child() is None,
            res.percentage() == 50,
    {
        MosaicBuilder {
            direction: SplitDirection::Vertical,
            first: None,
            second: None,
            split_percentage: 50,
        }
    }

    /// Set the first child (left for horizontal, top for vertical)
    pub fn first(self, node: MosaicNode) -> (res: Self)
        ensures
            res.first_child() == Some(node@),
            res.second_child() == self.second_child(),
            res.direction() == self.direction(),
            res.percentage() == self.percentage(),
    {
        let mut builder = self;
        builder.first = Some(node);
        builder
    }

    /// Set the second child (right for horizontal, bottom for vertical)
    pub fn second(self, node: MosaicNode) -> (res: Self)
        ensures
            res.second_child() == Some(node@),
            res.first_child() == self.first_child(),
            res.direction() == self.direction(),
            res.percentage() == self.percentage(),
    {
        let mut builder = self;
        builder.second = Some(node);
        builder
    }

    /// Set the left child (alias for first in horizontal splits)
    pub fn left(self, node: MosaicNode) -> (res: Self)
        ensures
            res.first_child() == Some(node@),
            res.second_child() == self.second_child(),
            res.direction() == self.direction(),
            res.percentage() == self.percentage(),
    {
        self.first(node)
    }

    /// Set the right child (alias for second in horizontal splits)
    pub fn right(self, node: MosaicNode) -> (res: Self)
        ensures
            res.second_child() == Some(node@),
            res.first_child() == self.first_child(),
            res.direction() == self.direction(),
            res.percentage() == self.percentage(),
    {
        self.second(node)
    }

    /// Set the top child (alias for first in vertical splits)
    pub fn top(self, node: MosaicNode) -> (res: Self)
        ensures
            res.first_child() == Some(node@),
            res.second_child() == self.second_child(),
            res.direction() == self.direction(),
            res.percentage() == self.percentage(),
    {
        self.first(node)
    }

    /// Set the bottom child (alias for second in vertical splits)
    pub fn bottom(self, node: MosaicNode) -> (res: Self)
        ensures
            res.second_child() == Some(node@),
            res.first_child() == self.first_child(),
            res.direction() == self.direction(),
            res.percentage() == self.percentage(),
    {
        self.second(node)
    }

    /// Set the split percentage, brought into 0 to 100
    pub fn split(self, percentage: Percentage) -> (res: Self)
        ensures
            res.percentage() == clamped(percentage, 0, 100),
            res.first_child() == self.first_child(),
            res.second_child() == self.second_child(),
            res.direction() == self.direction(),
    {
        let mut builder = self;
        builder.split_percentage = clamp_percentage(percentage, 0, 100);
        builder
    }

    /// Build the MosaicNode tree. Both children must have been set.
    pub fn build_tree(self) -> (res: MosaicNode)
        requires
            self.is_complete(),
        ensures
            res@ == self.shape(),
    {
        let direction = self.direction;
        let split_percentage = self.split_percentage;
        let first = self.first.unwrap();
        let second = self.second.unwrap();
        MosaicNode::Split {
            direction,
            first: Box::new(first),
            second: Box::new(second),
            split_percentage,
        }
    }

    /// Build the MosaicLayout directly. Both children must have been set.
    pub fn build(self) -> (res: MosaicLayout)
        requires
            self.is_complete(),
            self.shape().size() < u64::MAX,
        ensures
            res.wf(),
            res@ == Some(self.shape().materialized(1)),
            res.next_node_id() == 1 + self.shape().size(),
    {
        let tree = self.build_tree();
        MosaicLayout::from_tree(tree)
    }
}

/// Create a tile node (helper function)
pub fn tile(tile_id: &str) -> (res: MosaicNode)
    ensures
        res@ == (TreeShape::Leaf { tile: tile_id@ }),
{
    MosaicNode::Leaf(tile_id.to_string())
}

} // verus!

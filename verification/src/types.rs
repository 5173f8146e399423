use vstd::prelude::*;

verus! {

/// Handle of a node in the layout arena. Handles are issued by a counter that
/// only grows, so a handle is never reused.
pub type NodeId = u64;

/// Caller-chosen key of a tile's content.
pub type TileId = String;

/// A split position, in whole percent of the space given to the first pane.
pub type Percentage = i64;

/// Direction of a split.
#[derive(Debug, Clone, Copy, PartialEq, Eq, Structural)]
pub enum SplitDirection {
    /// Left | Right split
    Horizontal,
    /// Top | Bottom split
    Vertical,
}

impl SplitDirection {
    /// The other direction.
    pub open spec fn flipped(self) -> SplitDirection {
        match self {
            SplitDirection::Horizontal => SplitDirection::Vertical,
            SplitDirection::Vertical => SplitDirection::Horizontal,
        }
    }

    /// Returns the opposite direction.
    pub fn opposite(&self) -> (res: SplitDirection)
        ensures
            res == self.flipped(),
    {
        match self {
            SplitDirection::Horizontal => SplitDirection::Vertical,
            SplitDirection::Vertical => SplitDirection::Horizontal,
        }
    }
}

/// Flipping a direction twice gives it back, and never gives the same one.
pub proof fn lemma_opposite_involution(d: SplitDirection)
    ensures
        d.flipped().flipped() == d,
        d.flipped() != d,
{
}

} // verus!

use crate::types::{SplitDirection, TileId};
use vstd::prelude::*;
use vstd::string::StringExecFns;

verus! {

/// The edge region of a target tile that a dragged tile is released over.
#[derive(Debug, Clone, Copy, PartialEq, Eq, Structural)]
pub enum DropZone {
    /// Upper margin: a vertical split with the dragged tile on top.
    Top,
    /// Lower margin: a vertical split with the dragged tile below.
    Bottom,
    /// Left margin: a horizontal split with the dragged tile on the left.
    Left,
    /// Right margin: a horizontal split with the dragged tile on the right.
    Right,
}

impl DropZone {
    /// The direction of the split that a drop in this zone creates.
    pub open spec fn direction(self) -> SplitDirection {
        match self {
            DropZone::Top | DropZone::Bottom => SplitDirection::Vertical,
            DropZone::Left | DropZone::Right => SplitDirection::Horizontal,
        }
    }

    /// Whether the dragged tile becomes the first child of the new split.
    pub open spec fn leads(self) -> bool {
        match self {
            DropZone::Top | DropZone::Left => true,
            DropZone::Bottom | DropZone::Right => false,
        }
    }

    /// Get the split direction for this drop zone.
    pub fn split_direction(&self) -> (res: SplitDirection)
        ensures
            res == self.direction(),
    {
        match self {
            DropZone::Top | DropZone::Bottom => SplitDirection::Vertical,
            DropZone::Left | DropZone::Right => SplitDirection::Horizontal,
        }
    }

    /// Whether the dragged tile should be the first child in the split.
    pub fn dragged_is_first(&self) -> (res: bool)
        ensures
            res == self.leads(),
    {
        match self {
            DropZone::Top | DropZone::Left => true,
            DropZone::Bottom | DropZone::Right => false,
        }
    }
}

/// The pointer lies in the leading margin of an axis: its offset from the
/// rectangle's origin, divided by the extent and clamped to the unit
/// interval, is strictly below three tenths. An axis without extent has the
/// pointer in the leading margin exactly when it lies before the origin; a
/// negative extent mirrors the axis.
pub open spec fn in_leading_margin(offset: int, extent: int) -> bool {
    if extent > 0 {
        10 * offset < 3 * extent
    } else if extent < 0 {
        10 * offset > 3 * extent
    } else {
        offset < 0
    }
}

/// The pointer lies in the trailing margin of an axis: the clamped ratio is
/// strictly above seven tenths.
pub open spec fn in_trailing_margin(offset: int, extent: int) -> bool {
    if extent > 0 {
        10 * offset > 7 * extent
    } else if extent < 0 {
        10 * offset < 7 * extent
    } else {
        offset > 0
    }
}

/// The zone of a rectangle that a pointer is in. The vertical margins are
/// tested first, so they win at the corners; the middle has no zone.
pub open spec fn drop_zone_at(
    mouse_x: int,
    mouse_y: int,
    rect_x: int,
    rect_y: int,
    rect_width: int,
    rect_height: int,
) -> Option<DropZone> {
    if in_leading_margin(mouse_y - rect_y, rect_height) {
        Some(DropZone::Top)
    } else if in_trailing_margin(mouse_y - rect_y, rect_height) {
        Some(DropZone::Bottom)
    } else if in_leading_margin(mouse_x - rect_x, rect_width) {
        Some(DropZone::Left)
    } else if in_trailing_margin(mouse_x - rect_x, rect_width) {
        Some(DropZone::Right)
    } else {
        None
    }
}

fn leading_margin(offset: i128, extent: i128) -> (res: bool)
    requires
        -0x1_0000_0000_0000_0000 < offset < 0x1_0000_0000_0000_0000,
        -0x1_0000_0000_0000_0000 < extent < 0x1_0000_0000_0000_0000,
    ensures
        res == in_leading_margin(offset as int, extent as int),
{
    if extent > 0 {
        10 * offset < 3 * extent
    } else if extent < 0 {
        10 * offset > 3 * extent
    } else {
        offset < 0
    }
}

fn trailing_margin(offset: i128, extent: i128) -> (res: bool)
    requires
        -0x1_0000_0000_0000_0000 < offset < 0x1_0000_0000_0000_0000,
        -0x1_0000_0000_0000_0000 < extent < 0x1_0000_0000_0000_0000,
    ensures
        res == in_trailing_margin(offset as int, extent as int),
{
    if extent > 0 {
        10 * offset > 7 * extent
    } else if extent < 0 {
        10 * offset < 7 * extent
    } else {
        offset > 0
    }
}

/// Calculate which drop zone the cursor is in, from its position and the
/// target's rectangle, all in the same whole units.
///
/// Returns `None` in the middle, where nothing can be dropped.
pub fn calculate_drop_zone(
    mouse_x: i64,
    mouse_y: i64,
    rect_x: i64,
    rect_y: i64,
    rect_width: i64,
    rect_height: i64,
) -> (res: Option<DropZone>)
    ensures
        res == drop_zone_at(
            mouse_x as int,
            mouse_y as int,
            rect_x as int,
            rect_y as int,
            rect_width as int,
            rect_height as int,
        ),
{
    let dx: i128 = mouse_x as i128 - rect_x as i128;
    let dy: i128 = mouse_y as i128 - rect_y as i128;
    let width: i128 = rect_width as i128;
    let height: i128 = rect_height as i128;
    if leading_margin(dy, height) {
        Some(DropZone::Top)
    } else if trailing_margin(dy, height) {
        Some(DropZone::Bottom)
    } else if leading_margin(dx, width) {
        Some(DropZone::Left)
    } else if trailing_margin(dx, width) {
        Some(DropZone::Right)
    } else {
        None
    }
}

/// The exact middle of a rectangle with positive extent has no zone.
pub proof fn lemma_center_has_no_zone(
    mouse_x: int,
    mouse_y: int,
    rect_x: int,
    rect_y: int,
    rect_width: int,
    rect_height: int,
)
    requires
        rect_width > 0,
        rect_height > 0,
        2 * (mouse_x - rect_x) == rect_width,
        2 * (mouse_y - rect_y) == rect_height,
    ensures
        drop_zone_at(mouse_x, mouse_y, rect_x, rect_y, rect_width, rect_height) is None,
{
}

/// A pointer one tenth of the height below the top edge is in the top zone,
/// wherever it is along the other axis.
pub proof fn lemma_tenth_from_top_is_top(
    mouse_x: int,
    mouse_y: int,
    rect_x: int,
    rect_y: int,
    rect_width: int,
    rect_height: int,
)
    requires
        rect_height > 0,
        10 * (mouse_y - rect_y) == rect_height,
    ensures
        drop_zone_at(mouse_x, mouse_y, rect_x, rect_y, rect_width, rect_height) == Some(
            DropZone::Top,
        ),
{
}

/// A pointer that sits exactly on a margin's boundary on both axes, at three
/// or seven tenths, has no zone: the margins are open at their inner edge.
pub proof fn lemma_margin_boundary_has_no_zone(
    mouse_x: int,
    mouse_y: int,
    rect_x: int,
    rect_y: int,
    rect_width: int,
    rect_height: int,
)
    requires
        rect_width > 0,
        rect_height > 0,
        10 * (mouse_x - rect_x) == 3 * rect_width || 10 * (mouse_x - rect_x) == 7 * rect_width,
        10 * (mouse_y - rect_y) == 3 * rect_height || 10 * (mouse_y - rect_y) == 7
            * rect_height,
    ensures
        drop_zone_at(mouse_x, mouse_y, rect_x, rect_y, rect_width, rect_height) is None,
{
}

/// The vertical margins win at the corners: whenever the pointer is in the
/// top or bottom margin, the zone is that one, whatever the other axis says.
pub proof fn lemma_vertical_zones_take_priority(
    mouse_x: int,
    mouse_y: int,
    rect_x: int,
    rect_y: int,
    rect_width: int,
    rect_height: int,
)
    ensures
        in_leading_margin(mouse_y - rect_y, rect_height) ==> drop_zone_at(
            mouse_x,
            mouse_y,
            rect_x,
            rect_y,
            rect_width,
            rect_height,
        ) == Some(DropZone::Top),
        !in_leading_margin(mouse_y - rect_y, rect_height) && in_trailing_margin(
            mouse_y - rect_y,
            rect_height,
        ) ==> drop_zone_at(mouse_x, mouse_y, rect_x, rect_y, rect_width, rect_height) == Some(
            DropZone::Bottom,
        ),
{
}

/// Where the overlay of a zone is pinned inside its tile.
pub open spec fn zone_position(zone: DropZone) -> Seq<char> {
    match zone {
        DropZone::Top => "top: 0; left: 0; right: 0;"@,
        DropZone::Bottom => "bottom: 0; left: 0; right: 0;"@,
        DropZone::Left => "top: 0; bottom: 0; left: 0;"@,
        DropZone::Right => "top: 0; bottom: 0; right: 0;"@,
    }
}

/// How far the overlay of a zone reaches into its tile.
pub open spec fn zone_size(zone: DropZone) -> Seq<char> {
    match zone {
        DropZone::Top | DropZone::Bottom => "height: 30%;"@,
        DropZone::Left | DropZone::Right => "width: 30%;"@,
    }
}

/// The fill of an overlay, stronger while the pointer is in the zone.
pub open spec fn zone_fill(is_active: bool) -> Seq<char> {
    if is_active {
        "rgba(59, 130, 246, 0.3)"@
    } else {
        "rgba(59, 130, 246, 0.15)"@
    }
}

/// The outline of an overlay, stronger while the pointer is in the zone.
pub open spec fn zone_outline(is_active: bool) -> Seq<char> {
    if is_active {
        "rgba(59, 130, 246, 0.8)"@
    } else {
        "rgba(59, 130, 246, 0.4)"@
    }
}

/// The style of the overlay of a zone: its position, size, fill and outline
/// between the fixed parts.
pub open spec fn zone_style(zone: DropZone, is_active: bool) -> Seq<char> {
    "position: absolute; "@ + zone_position(zone) + "; "@ + zone_size(zone)
        + "; background-color: "@ + zone_fill(is_active) + "; border: 2px dashed "@
        + zone_outline(is_active)
        + "; pointer-events: none; transition: all 0.15s ease; z-index: 10; border-radius: 4px;"@
}

/// Get the CSS style for a drop zone overlay
pub fn get_drop_zone_style(zone: DropZone, is_active: bool) -> (res: String)
    ensures
        res@ == zone_style(zone, is_active),
{
    let (position_props, size_props) = match zone {
        DropZone::Top => ("top: 0; left: 0; right: 0;", "height: 30%;"),
        DropZone::Bottom => ("bottom: 0; left: 0; right: 0;", "height: 30%;"),
        DropZone::Left => ("top: 0; bottom: 0; left: 0;", "width: 30%;"),
        DropZone::Right => ("top: 0; bottom: 0; right: 0;", "width: 30%;"),
    };
    let bg_color = if is_active {
        "rgba(59, 130, 246, 0.3)"
    } else {
        "rgba(59, 130, 246, 0.15)"
    };
    let border_color = if is_active {
        "rgba(59, 130, 246, 0.8)"
    } else {
        "rgba(59, 130, 246, 0.4)"
    };
    let mut style = String::from_str("position: absolute; ");
    style.append(position_props);
    style.append("; ");
    style.append(size_props);
    style.append("; background-color: ");
    style.append(bg_color);
    style.append("; border: 2px dashed ");
    style.append(border_color);
    style.append(
        "; pointer-events: none; transition: all 0.15s ease; z-index: 10; border-radius: 4px;",
    );
    style
}

/// The state of a drag in progress. It lives beside the layout and is never
/// part of it: idle while `dragging_tile_id` is unset, dragging otherwise.
#[derive(Debug, PartialEq)]
pub struct DragState {
    /// ID of the tile currently being dragged
    pub dragging_tile_id: Option<TileId>,
    /// Current pointer position during the drag
    pub drag_position: (i64, i64),
    /// Currently hovered target tile and drop zone
    pub hover_target: Option<(TileId, DropZone)>,
}

impl Clone for DragState {
    fn clone(&self) -> (res: Self)
        ensures
            res == *self,
    {
        let dragging_tile_id = match &self.dragging_tile_id {
            Some(tile_id) => Some(tile_id.clone()),
            None => None,
        };
        let hover_target = match &self.hover_target {
            Some((tile_id, zone)) => Some((tile_id.clone(), *zone)),
            None => None,
        };
        DragState { dragging_tile_id, drag_position: self.drag_position, hover_target }
    }
}

impl Default for DragState {
    fn default() -> (res: Self)
        ensures
            res.is_idle(),
    {
        DragState { dragging_tile_id: None, drag_position: (0, 0), hover_target: None }
    }
}

impl DragState {
    /// The resting state: nothing grabbed, nothing hovered, pointer at the
    /// origin.
    pub open spec fn is_idle(self) -> bool {
        &&& self.dragging_tile_id is None
        &&& self.drag_position == (0i64, 0i64)
        &&& self.hover_target is None
    }

    pub fn new() -> (res: Self)
        ensures
            res.is_idle(),
    {
        DragState { dragging_tile_id: None, drag_position: (0, 0), hover_target: None }
    }

    pub fn is_dragging(&self) -> (res: bool)
        ensures
            res == (self.dragging_tile_id is Some),
    {
        self.dragging_tile_id.is_some()
    }

    pub fn start_drag(&mut self, tile_id: TileId, x: i64, y: i64)
        ensures
            final(self).dragging_tile_id == Some(tile_id),
            final(self).drag_position == (x, y),
            final(self).hover_target is None,
    {
        self.dragging_tile_id = Some(tile_id);
        self.drag_position = (x, y);
        self.hover_target = None;
    }

    pub fn update_position(&mut self, x: i64, y: i64)
        ensures
            final(self).drag_position == (x, y),
            final(self).dragging_tile_id == old(self).dragging_tile_id,
            final(self).hover_target == old(self).hover_target,
    {
        self.drag_position = (x, y);
    }

    pub fn update_hover(&mut self, tile_id: TileId, zone: DropZone)
        ensures
            final(self).hover_target == Some((tile_id, zone)),
            final(self).dragging_tile_id == old(self).dragging_tile_id,
            final(self).drag_position == old(self).drag_position,
    {
        self.hover_target = Some((tile_id, zone));
    }

    pub fn clear_hover(&mut self)
        ensures
            final(self).hover_target is None,
            final(self).dragging_tile_id == old(self).dragging_tile_id,
            final(self).drag_position == old(self).drag_position,
    {
        self.hover_target = None;
    }

    pub fn end_drag(&mut self)
        ensures
            final(self).is_idle(),
    {
        self.dragging_tile_id = None;
        self.drag_position = (0, 0);
        self.hover_target = None;
    }
}

} // verus!

use dioxus_mosaic::{calculate_drop_zone, DragState, DropZone, SplitDirection};

#[test]
fn center_has_no_zone() {
    assert_eq!(calculate_drop_zone(50, 50, 0, 0, 100, 100), None);
    assert_eq!(calculate_drop_zone(250, 140, 200, 100, 100, 80), None);
}

#[test]
fn a_tenth_from_the_top_is_top() {
    assert_eq!(calculate_drop_zone(50, 10, 0, 0, 100, 100), Some(DropZone::Top));
    assert_eq!(calculate_drop_zone(0, 10, 0, 0, 100, 100), Some(DropZone::Top));
    assert_eq!(calculate_drop_zone(99, 10, 0, 0, 100, 100), Some(DropZone::Top));
}

#[test]
fn margin_boundaries_have_no_zone() {
    assert_eq!(calculate_drop_zone(30, 30, 0, 0, 100, 100), None);
    assert_eq!(calculate_drop_zone(70, 70, 0, 0, 100, 100), None);
    assert_eq!(calculate_drop_zone(30, 70, 0, 0, 100, 100), None);
    assert_eq!(calculate_drop_zone(70, 30, 0, 0, 100, 100), None);
}

#[test]
fn just_inside_the_margins() {
    assert_eq!(calculate_drop_zone(50, 29, 0, 0, 100, 100), Some(DropZone::Top));
    assert_eq!(calculate_drop_zone(50, 71, 0, 0, 100, 100), Some(DropZone::Bottom));
    assert_eq!(calculate_drop_zone(29, 50, 0, 0, 100, 100), Some(DropZone::Left));
    assert_eq!(calculate_drop_zone(71, 50, 0, 0, 100, 100), Some(DropZone::Right));
}

#[test]
fn vertical_zones_win_at_the_corners() {
    assert_eq!(calculate_drop_zone(5, 5, 0, 0, 100, 100), Some(DropZone::Top));
    assert_eq!(calculate_drop_zone(95, 5, 0, 0, 100, 100), Some(DropZone::Top));
    assert_eq!(calculate_drop_zone(5, 95, 0, 0, 100, 100), Some(DropZone::Bottom));
    assert_eq!(calculate_drop_zone(95, 95, 0, 0, 100, 100), Some(DropZone::Bottom));
}

#[test]
fn pointer_outside_the_rectangle_is_clamped() {
    assert_eq!(calculate_drop_zone(50, -500, 0, 0, 100, 100), Some(DropZone::Top));
    assert_eq!(calculate_drop_zone(50, 900, 0, 0, 100, 100), Some(DropZone::Bottom));
    assert_eq!(calculate_drop_zone(-40, 50, 0, 0, 100, 100), Some(DropZone::Left));
    assert_eq!(calculate_drop_zone(400, 50, 0, 0, 100, 100), Some(DropZone::Right));
}

#[test]
fn rectangle_away_from_the_origin() {
    assert_eq!(
        calculate_drop_zone(1010, 2050, 1000, 2000, 100, 100),
        Some(DropZone::Left)
    );
    assert_eq!(
        calculate_drop_zone(-990, -1950, -1000, -2000, 100, 100),
        Some(DropZone::Left)
    );
    assert_eq!(
        calculate_drop_zone(1003, 2005, 1000, 2000, 10, 10),
        None
    );
    assert_eq!(
        calculate_drop_zone(1002, 2005, 1000, 2000, 10, 10),
        Some(DropZone::Left)
    );
}

#[test]
fn rectangle_without_extent() {
    assert_eq!(calculate_drop_zone(5, 5, 5, 5, 0, 0), None);
    assert_eq!(calculate_drop_zone(5, 4, 5, 5, 0, 0), Some(DropZone::Top));
    assert_eq!(calculate_drop_zone(5, 6, 5, 5, 0, 0), Some(DropZone::Bottom));
    assert_eq!(calculate_drop_zone(4, 5, 5, 5, 0, 0), Some(DropZone::Left));
    assert_eq!(calculate_drop_zone(6, 5, 5, 5, 0, 0), Some(DropZone::Right));
}

#[test]
fn rectangle_with_negative_extent_is_mirrored() {
    assert_eq!(calculate_drop_zone(50, 10, 0, 0, 100, -100), Some(DropZone::Top));
    assert_eq!(calculate_drop_zone(50, -90, 0, 0, 100, -100), Some(DropZone::Bottom));
    assert_eq!(calculate_drop_zone(50, -50, 0, 0, 100, -100), None);
    assert_eq!(calculate_drop_zone(-10, -50, 0, 0, -100, -100), Some(DropZone::Left));
}

#[test]
fn extreme_coordinates_do_not_overflow() {
    assert_eq!(
        calculate_drop_zone(i64::MAX, i64::MAX, i64::MIN, i64::MIN, i64::MAX, i64::MAX),
        Some(DropZone::Bottom)
    );
    assert_eq!(
        calculate_drop_zone(i64::MIN, i64::MIN, i64::MAX, i64::MAX, i64::MAX, i64::MAX),
        Some(DropZone::Top)
    );
    assert_eq!(
        calculate_drop_zone(i64::MIN, 0, i64::MAX, -1, i64::MAX, 2),
        Some(DropZone::Left)
    );
}

#[test]
fn zone_directions() {
    assert_eq!(DropZone::Top.split_direction(), SplitDirection::Vertical);
    assert_eq!(DropZone::Bottom.split_direction(), SplitDirection::Vertical);
    assert_eq!(DropZone::Left.split_direction(), SplitDirection::Horizontal);
    assert_eq!(DropZone::Right.split_direction(), SplitDirection::Horizontal);
}

#[test]
fn zone_order() {
    assert!(DropZone::Top.dragged_is_first());
    assert!(DropZone::Left.dragged_is_first());
    assert!(!DropZone::Bottom.dragged_is_first());
    assert!(!DropZone::Right.dragged_is_first());
}

#[test]
fn opposite_directions() {
    assert_eq!(SplitDirection::Horizontal.opposite(), SplitDirection::Vertical);
    assert_eq!(SplitDirection::Vertical.opposite(), SplitDirection::Horizontal);
    assert_eq!(
        SplitDirection::Horizontal.opposite().opposite(),
        SplitDirection::Horizontal
    );
}

#[test]
fn drag_state_starts_idle() {
    let state = DragState::new();
    assert!(!state.is_dragging());
    assert_eq!(state.dragging_tile_id, None);
    assert_eq!(state.drag_position, (0, 0));
    assert_eq!(state.hover_target, None);
    assert!(state == DragState::default());
}

#[test]
fn drag_state_runs_through_a_drag() {
    let mut state = DragState::new();
    state.update_hover("stale".to_string(), DropZone::Top);
    state.start_drag("files".to_string(), 12, 34);
    assert!(state.is_dragging());
    assert_eq!(state.dragging_tile_id, Some("files".to_string()));
    assert_eq!(state.drag_position, (12, 34));
    assert_eq!(state.hover_target, None);

    state.update_position(56, 78);
    assert_eq!(state.drag_position, (56, 78));
    assert!(state.is_dragging());

    state.update_hover("editor".to_string(), DropZone::Left);
    assert_eq!(
        state.hover_target,
        Some(("editor".to_string(), DropZone::Left))
    );
    assert_eq!(state.drag_position, (56, 78));

    state.clear_hover();
    assert_eq!(state.hover_target, None);
    assert!(state.is_dragging());

    state.update_hover("console".to_string(), DropZone::Bottom);
    let copy = state.clone();
    assert!(copy == state);

    state.end_drag();
    assert!(!state.is_dragging());
    assert_eq!(state.drag_position, (0, 0));
    assert_eq!(state.hover_target, None);
    assert!(state == DragState::new());
    assert!(copy != state);
}

#[test]
fn end_drag_when_idle_stays_idle() {
    let mut state = DragState::new();
    state.end_drag();
    assert!(state == DragState::new());
}

#[test]
fn drop_zone_style_of_an_active_top_zone() {
    assert_eq!(
        dioxus_mosaic::get_drop_zone_style(DropZone::Top, true),
        "position: absolute; top: 0; left: 0; right: 0;; height: 30%;; background-color: rgba(59, 130, 246, 0.3); border: 2px dashed rgba(59, 130, 246, 0.8); pointer-events: none; transition: all 0.15s ease; z-index: 10; border-radius: 4px;"
    );
}

#[test]
fn drop_zone_style_of_an_idle_right_zone() {
    assert_eq!(
        dioxus_mosaic::get_drop_zone_style(DropZone::Right, false),
        "position: absolute; top: 0; bottom: 0; right: 0;; width: 30%;; background-color: rgba(59, 130, 246, 0.15); border: 2px dashed rgba(59, 130, 246, 0.4); pointer-events: none; transition: all 0.15s ease; z-index: 10; border-radius: 4px;"
    );
}

#[test]
fn drop_zone_styles_differ_by_zone_and_activity() {
    let zones = [DropZone::Top, DropZone::Bottom, DropZone::Left, DropZone::Right];
    let mut seen = Vec::new();
    for zone in zones {
        for active in [true, false] {
            let style = dioxus_mosaic::get_drop_zone_style(zone, active);
            assert!(style.starts_with("position: absolute; "));
            assert!(!seen.contains(&style));
            seen.push(style);
        }
    }
    assert!(dioxus_mosaic::get_drop_zone_style(DropZone::Bottom, true).contains("bottom: 0; left: 0; right: 0;; height: 30%;"));
    assert!(dioxus_mosaic::get_drop_zone_style(DropZone::Left, true).contains("top: 0; bottom: 0; left: 0;; width: 30%;"));
}

use dioxus_mosaic::{
    calculate_drop_zone, DropZone, MosaicLayout, MosaicNode, Node, SplitDirection,
};

fn s(text: &str) -> String {
    text.to_string()
}

fn root_split(layout: &MosaicLayout) -> (SplitDirection, u64, u64, i64, i64, i64) {
    let root = *layout.root().expect("layout has a root");
    match layout.get_node(&root) {
        Some(Node::Split {
            direction,
            first,
            second,
            split_percentage,
            min_percentage,
            max_percentage,
            ..
        }) => (
            *direction,
            *first,
            *second,
            *split_percentage,
            *min_percentage,
            *max_percentage,
        ),
        _ => panic!("root should be a split"),
    }
}

#[test]
fn new_layout_holds_its_tile() {
    let layout = MosaicLayout::new(s("root"));
    assert_eq!(layout.get_all_tiles(), vec![s("root")]);
    assert_eq!(layout.root(), Some(&0));
    assert_eq!(layout.next_id(), 1);
    assert!(!layout.is_empty());
}

#[test]
fn split_puts_the_new_tile_second() {
    let mut layout = MosaicLayout::new(s("root"));
    assert!(layout.split_tile(&s("root"), SplitDirection::Horizontal, s("side"), 50));
    assert_eq!(layout.get_all_tiles(), vec![s("root"), s("side")]);
    let (direction, first, second, percentage, min, max) = root_split(&layout);
    assert_eq!(direction, SplitDirection::Horizontal);
    assert_eq!((first, second), (0, 1));
    assert_eq!(percentage, 50);
    assert_eq!((min, max), (20, 80));
    assert_eq!(layout.root(), Some(&2));
    assert_eq!(layout.next_id(), 3);
}

#[test]
fn split_clamps_a_high_percentage_to_80() {
    let mut layout = MosaicLayout::new(s("root"));
    assert!(layout.split_tile(&s("root"), SplitDirection::Horizontal, s("side"), 95));
    assert_eq!(root_split(&layout).3, 80);
}

#[test]
fn split_clamps_a_low_percentage_to_20() {
    let mut layout = MosaicLayout::new(s("root"));
    assert!(layout.split_tile(&s("root"), SplitDirection::Vertical, s("side"), 5));
    assert_eq!(root_split(&layout).3, 20);
    let mut other = MosaicLayout::new(s("root"));
    assert!(other.split_tile(&s("root"), SplitDirection::Vertical, s("side"), -300));
    assert_eq!(root_split(&other).3, 20);
}

#[test]
fn split_keeps_percentages_at_the_bounds() {
    let mut low = MosaicLayout::new(s("root"));
    assert!(low.split_tile(&s("root"), SplitDirection::Vertical, s("side"), 20));
    assert_eq!(root_split(&low).3, 20);
    let mut high = MosaicLayout::new(s("root"));
    assert!(high.split_tile(&s("root"), SplitDirection::Vertical, s("side"), 80));
    assert_eq!(root_split(&high).3, 80);
}

#[test]
fn close_after_split_returns_to_one_node() {
    let mut layout = MosaicLayout::new(s("root"));
    assert!(layout.split_tile(&s("root"), SplitDirection::Horizontal, s("side"), 50));
    assert!(layout.close_tile(&s("side")));
    assert_eq!(layout.get_all_tiles(), vec![s("root")]);
    assert_eq!(layout.node_count(), 1);
    assert_eq!(layout.root(), Some(&0));
    match layout.get_node(&0) {
        Some(Node::Tile { parent, tile_id, .. }) => {
            assert_eq!(*parent, None);
            assert_eq!(tile_id, "root");
        }
        _ => panic!("node 0 should be the tile"),
    }
}

#[test]
fn split_then_close_restores_the_tiles_for_any_percentage() {
    for p in [-10, 0, 19, 20, 33, 50, 80, 81, 100, 1000] {
        let mut layout = MosaicLayout::from_tree(MosaicNode::horizontal(
            MosaicNode::tile("a"),
            MosaicNode::vertical(MosaicNode::tile("b"), MosaicNode::tile("c"), 60),
            40,
        ));
        let before = layout.get_all_tiles();
        assert!(layout.split_tile(&s("b"), SplitDirection::Horizontal, s("fresh"), p));
        assert_eq!(
            layout.get_all_tiles(),
            vec![s("a"), s("b"), s("fresh"), s("c")]
        );
        assert!(layout.close_tile(&s("fresh")));
        assert_eq!(layout.get_all_tiles(), before);
        assert_eq!(layout.node_count(), 5);
    }
}

#[test]
fn closing_the_last_tile_empties_the_layout() {
    let mut layout = MosaicLayout::new(s("only"));
    assert!(layout.close_tile(&s("only")));
    assert!(layout.is_empty());
    assert_eq!(layout.root(), None);
    assert_eq!(layout.node_count(), 0);
    assert!(!layout.close_tile(&s("only")));
}

#[test]
fn relocate_onto_the_left_of_editor() {
    let mut layout = MosaicLayout::from_tree(MosaicNode::horizontal(
        MosaicNode::tile("sidebar"),
        MosaicNode::vertical(MosaicNode::tile("editor"), MosaicNode::tile("console"), 50),
        30,
    ));
    assert!(layout.split_tile(&s("console"), SplitDirection::Horizontal, s("files"), 50));
    assert_eq!(
        layout.get_all_tiles(),
        vec![s("sidebar"), s("editor"), s("console"), s("files")]
    );
    let sidebar_before = layout.find_tile(&s("sidebar")).unwrap();
    let files_node = layout.find_tile(&s("files")).unwrap();
    let editor_node = layout.find_tile(&s("editor")).unwrap();
    let next = layout.next_id();

    assert!(layout.insert_tile_with_split(&s("files"), &s("editor"), DropZone::Left));

    assert_eq!(
        layout.get_all_tiles(),
        vec![s("sidebar"), s("files"), s("editor"), s("console")]
    );
    assert_eq!(layout.find_tile(&s("sidebar")), Some(sidebar_before));
    assert_eq!(layout.find_tile(&s("files")), Some(files_node));
    assert_eq!(layout.next_id(), next + 1);
    match layout.get_node(&next) {
        Some(Node::Split {
            direction,
            first,
            second,
            split_percentage,
            min_percentage,
            max_percentage,
            locked,
            ..
        }) => {
            assert_eq!(*direction, SplitDirection::Horizontal);
            assert_eq!(*first, files_node);
            assert_eq!(*second, editor_node);
            assert_eq!(*split_percentage, 50);
            assert_eq!((*min_percentage, *max_percentage), (20, 80));
            assert!(!*locked);
        }
        _ => panic!("the new split should stand under the next handle"),
    }
    assert_eq!(layout.get_node(&files_node).unwrap().parent(), Some(&next));
    assert_eq!(layout.get_node(&editor_node).unwrap().parent(), Some(&next));
    assert_eq!(layout.node_count(), 7);
}

#[test]
fn relocate_of_a_tile_that_is_not_there_is_refused() {
    let mut layout = MosaicLayout::from_tree(MosaicNode::horizontal(
        MosaicNode::tile("sidebar"),
        MosaicNode::vertical(MosaicNode::tile("editor"), MosaicNode::tile("console"), 50),
        30,
    ));
    assert!(!layout.insert_tile_with_split(&s("files"), &s("editor"), DropZone::Left));
    assert_eq!(
        layout.get_all_tiles(),
        vec![s("sidebar"), s("editor"), s("console")]
    );
    assert_eq!(layout.node_count(), 5);
    assert_eq!(layout.next_id(), 6);
}

#[test]
fn drop_zone_left_at_a_tenth_of_the_width() {
    assert_eq!(
        calculate_drop_zone(10, 50, 0, 0, 100, 100),
        Some(DropZone::Left)
    );
}

use dioxus_mosaic::{
    tile, DropZone, MosaicBuilder, MosaicLayout, MosaicNode, Node, SplitDirection,
};

fn s(text: &str) -> String {
    text.to_string()
}

fn three() -> MosaicLayout {
    // node 1: split(node 2: sidebar, node 3: split(node 4: editor, node 5: console))
    MosaicLayout::from_tree(MosaicNode::horizontal(
        MosaicNode::tile("sidebar"),
        MosaicNode::vertical(MosaicNode::tile("editor"), MosaicNode::tile("console"), 60),
        25,
    ))
}

fn lock(layout: &mut MosaicLayout, id: u64) {
    match layout.get_node_mut(&id) {
        Some(Node::Tile { locked, .. }) => *locked = true,
        Some(Node::Split { locked, .. }) => *locked = true,
        None => panic!("no such node"),
    }
}

fn parent_of(layout: &MosaicLayout, id: u64) -> Option<u64> {
    layout.get_node(&id).expect("node").parent().copied()
}

fn children_of(layout: &MosaicLayout, id: u64) -> Option<(u64, u64)> {
    layout
        .get_node(&id)
        .expect("node")
        .children()
        .map(|(a, b)| (*a, *b))
}

fn is_valid(layout: &MosaicLayout) -> bool {
    let (nodes, root, next) = layout.to_parts();
    MosaicLayout::from_parts(nodes, root, next).is_some()
}

#[test]
fn from_tree_numbers_nodes_top_down() {
    let layout = three();
    assert_eq!(layout.root(), Some(&1));
    assert_eq!(layout.next_id(), 6);
    assert_eq!(layout.node_count(), 5);
    assert_eq!(children_of(&layout, 1), Some((2, 3)));
    assert_eq!(children_of(&layout, 3), Some((4, 5)));
    assert_eq!(children_of(&layout, 2), None);
    assert_eq!(parent_of(&layout, 1), None);
    assert_eq!(parent_of(&layout, 2), Some(1));
    assert_eq!(parent_of(&layout, 3), Some(1));
    assert_eq!(parent_of(&layout, 4), Some(3));
    assert_eq!(parent_of(&layout, 5), Some(3));
    assert!(layout.get_node(&0).is_none());
    assert!(layout.get_node(&6).is_none());
}

#[test]
fn from_tree_of_a_leaf_is_node_zero() {
    let layout = MosaicLayout::from_tree(tile("only"));
    assert_eq!(layout.root(), Some(&0));
    assert_eq!(layout.next_id(), 1);
    assert_eq!(layout.node_count(), 1);
}

#[test]
fn from_tree_brings_percentages_within_bounds() {
    let layout = MosaicLayout::from_tree(MosaicNode::horizontal(
        MosaicNode::tile("a"),
        MosaicNode::vertical(MosaicNode::tile("b"), MosaicNode::tile("c"), 3),
        97,
    ));
    match layout.get_node(&1) {
        Some(Node::Split {
            split_percentage,
            min_percentage,
            max_percentage,
            locked,
            direction,
            ..
        }) => {
            assert_eq!(*split_percentage, 80);
            assert_eq!((*min_percentage, *max_percentage), (20, 80));
            assert!(!*locked);
            assert_eq!(*direction, SplitDirection::Horizontal);
        }
        _ => panic!("node 1 should be a split"),
    }
    match layout.get_node(&3) {
        Some(Node::Split {
            split_percentage,
            direction,
            ..
        }) => {
            assert_eq!(*split_percentage, 20);
            assert_eq!(*direction, SplitDirection::Vertical);
        }
        _ => panic!("node 3 should be a split"),
    }
}

#[test]
fn round_trip_keeps_order_directions_and_percentages() {
    let tree = MosaicNode::horizontal(
        MosaicNode::tile("a"),
        MosaicNode::vertical(
            MosaicNode::horizontal(MosaicNode::tile("b"), MosaicNode::tile("c"), 33),
            MosaicNode::tile("d"),
            95,
        ),
        40,
    );
    let first = MosaicLayout::from_tree(tree);
    let back = first.to_tree().expect("not empty");
    let second = MosaicLayout::from_tree(back.clone());
    assert_eq!(first.get_all_tiles(), second.get_all_tiles());
    let again = second.to_tree().expect("not empty");
    assert_eq!(format!("{:?}", back), format!("{:?}", again));
    match back {
        MosaicNode::Split {
            direction,
            split_percentage,
            second,
            ..
        } => {
            assert_eq!(direction, SplitDirection::Horizontal);
            assert_eq!(split_percentage, 40);
            match *second {
                MosaicNode::Split {
                    direction,
                    split_percentage,
                    ..
                } => {
                    assert_eq!(direction, SplitDirection::Vertical);
                    assert_eq!(split_percentage, 80);
                }
                _ => panic!("second child should be a split"),
            }
        }
        _ => panic!("tree should be a split"),
    }
}

#[test]
fn to_tree_after_mutations() {
    let mut layout = three();
    assert!(layout.split_tile(&s("editor"), SplitDirection::Horizontal, s("preview"), 70));
    assert!(layout.close_tile(&s("sidebar")));
    let tree = layout.to_tree().expect("not empty");
    let rebuilt = MosaicLayout::from_tree(tree);
    assert_eq!(
        rebuilt.get_all_tiles(),
        vec![s("editor"), s("preview"), s("console")]
    );
    assert_eq!(layout.get_all_tiles(), rebuilt.get_all_tiles());
}

#[test]
fn builder_defaults_and_clamp() {
    let tree = MosaicBuilder::horizontal()
        .first(tile("a"))
        .second(tile("b"))
        .build_tree();
    match tree {
        MosaicNode::Split {
            direction,
            split_percentage,
            ..
        } => {
            assert_eq!(direction, SplitDirection::Horizontal);
            assert_eq!(split_percentage, 50);
        }
        _ => panic!("a builder makes a split"),
    }
    let high = MosaicBuilder::vertical()
        .top(tile("a"))
        .bottom(tile("b"))
        .split(150)
        .build_tree();
    match high {
        MosaicNode::Split {
            direction,
            split_percentage,
            ..
        } => {
            assert_eq!(direction, SplitDirection::Vertical);
            assert_eq!(split_percentage, 100);
        }
        _ => panic!("a builder makes a split"),
    }
    let low = MosaicBuilder::vertical()
        .top(tile("a"))
        .bottom(tile("b"))
        .split(-1)
        .build_tree();
    match low {
        MosaicNode::Split { split_percentage, .. } => assert_eq!(split_percentage, 0),
        _ => panic!("a builder makes a split"),
    }
    let kept = MosaicBuilder::vertical()
        .top(tile("a"))
        .bottom(tile("b"))
        .split(10)
        .build_tree();
    match kept {
        MosaicNode::Split { split_percentage, .. } => assert_eq!(split_percentage, 10),
        _ => panic!("a builder makes a split"),
    }
}

#[test]
fn builder_children_keep_their_sides() {
    let layout = MosaicBuilder::horizontal()
        .right(tile("r"))
        .left(tile("l"))
        .build();
    assert_eq!(layout.get_all_tiles(), vec![s("l"), s("r")]);
    let replaced = MosaicBuilder::vertical()
        .top(tile("x"))
        .bottom(tile("b"))
        .top(tile("t"))
        .build();
    assert_eq!(replaced.get_all_tiles(), vec![s("t"), s("b")]);
}

#[test]
fn default_layout_has_the_default_tile() {
    let layout = MosaicLayout::default();
    assert_eq!(layout.get_all_tiles(), vec![s("default")]);
    assert_eq!(layout.node_count(), 1);
}

#[test]
fn find_tile_gives_the_node() {
    let layout = three();
    assert_eq!(layout.find_tile(&s("sidebar")), Some(2));
    assert_eq!(layout.find_tile(&s("editor")), Some(4));
    assert_eq!(layout.find_tile(&s("console")), Some(5));
    assert_eq!(layout.find_tile(&s("nothing")), None);
    assert_eq!(MosaicLayout::empty().find_tile(&s("sidebar")), None);
}

#[test]
fn find_tile_takes_the_lowest_handle_among_duplicates() {
    let layout = MosaicLayout::from_tree(MosaicNode::horizontal(
        MosaicNode::vertical(MosaicNode::tile("x"), MosaicNode::tile("dup"), 50),
        MosaicNode::vertical(MosaicNode::tile("dup"), MosaicNode::tile("dup"), 50),
        50,
    ));
    assert_eq!(layout.find_tile(&s("dup")), Some(4));
    let mut grown = MosaicLayout::new(s("a"));
    assert!(grown.split_tile(&s("a"), SplitDirection::Horizontal, s("a"), 50));
    assert_eq!(grown.find_tile(&s("a")), Some(0));
    assert_eq!(grown.get_all_tiles(), vec![s("a"), s("a")]);
}

#[test]
fn split_fails_only_for_a_missing_tile() {
    let mut layout = three();
    let before = format!("{:?}", layout.to_parts());
    assert!(!layout.split_tile(&s("nothing"), SplitDirection::Horizontal, s("new"), 50));
    assert_eq!(format!("{:?}", layout.to_parts()), before);
    assert_eq!(layout.next_id(), 6);
    let mut empty = MosaicLayout::empty();
    assert!(!empty.split_tile(&s("a"), SplitDirection::Horizontal, s("new"), 50));
    assert!(empty.is_empty());
    lock(&mut layout, 4);
    assert!(layout.split_tile(&s("editor"), SplitDirection::Horizontal, s("new"), 50));
}

#[test]
fn split_rewires_the_parent() {
    let mut layout = three();
    assert!(layout.split_tile(&s("editor"), SplitDirection::Horizontal, s("preview"), 30));
    // new leaf 6, new split 7, standing where node 4 stood
    assert_eq!(children_of(&layout, 3), Some((7, 5)));
    assert_eq!(children_of(&layout, 7), Some((4, 6)));
    assert_eq!(parent_of(&layout, 7), Some(3));
    assert_eq!(parent_of(&layout, 4), Some(7));
    assert_eq!(parent_of(&layout, 6), Some(7));
    assert_eq!(layout.root(), Some(&1));
    assert_eq!(layout.next_id(), 8);
    assert_eq!(
        layout.get_all_tiles(),
        vec![s("sidebar"), s("editor"), s("preview"), s("console")]
    );
    assert!(layout.split_tile(&s("console"), SplitDirection::Vertical, s("log"), 50));
    assert_eq!(children_of(&layout, 3), Some((7, 9)));
    assert_eq!(children_of(&layout, 9), Some((5, 8)));
    assert!(is_valid(&layout));
}

#[test]
fn close_promotes_the_sibling() {
    let mut layout = three();
    assert!(layout.close_tile(&s("editor")));
    assert_eq!(layout.get_all_tiles(), vec![s("sidebar"), s("console")]);
    assert_eq!(children_of(&layout, 1), Some((2, 5)));
    assert_eq!(parent_of(&layout, 5), Some(1));
    assert!(layout.get_node(&3).is_none());
    assert!(layout.get_node(&4).is_none());
    assert_eq!(layout.node_count(), 3);
    assert_eq!(layout.next_id(), 6);
    assert!(is_valid(&layout));
}

#[test]
fn close_promotes_a_subtree_to_the_root() {
    let mut layout = three();
    assert!(layout.close_tile(&s("sidebar")));
    assert_eq!(layout.root(), Some(&3));
    assert_eq!(parent_of(&layout, 3), None);
    assert_eq!(children_of(&layout, 3), Some((4, 5)));
    assert_eq!(layout.get_all_tiles(), vec![s("editor"), s("console")]);
    assert!(layout.get_node(&1).is_none());
    assert!(layout.get_node(&2).is_none());
    assert!(is_valid(&layout));
}

#[test]
fn close_refuses_missing_and_locked_tiles() {
    let mut layout = three();
    let before = format!("{:?}", layout.to_parts());
    assert!(!layout.close_tile(&s("nothing")));
    lock(&mut layout, 4);
    let locked = format!("{:?}", layout.to_parts());
    assert_ne!(before, locked);
    assert!(!layout.close_tile(&s("editor")));
    assert_eq!(format!("{:?}", layout.to_parts()), locked);
    assert!(layout.close_tile(&s("console")));
    assert_eq!(layout.get_all_tiles(), vec![s("sidebar"), s("editor")]);
    let mut single = MosaicLayout::new(s("only"));
    lock(&mut single, 0);
    assert!(!single.close_tile(&s("only")));
    assert!(!single.is_empty());
}

#[test]
fn handles_are_never_reused() {
    let mut layout = MosaicLayout::new(s("a"));
    assert!(layout.split_tile(&s("a"), SplitDirection::Horizontal, s("b"), 50));
    assert_eq!(layout.next_id(), 3);
    assert!(layout.close_tile(&s("b")));
    assert_eq!(layout.next_id(), 3);
    assert!(layout.split_tile(&s("a"), SplitDirection::Horizontal, s("c"), 50));
    assert_eq!(layout.find_tile(&s("c")), Some(3));
    assert_eq!(layout.root(), Some(&4));
    assert_eq!(layout.next_id(), 5);
    assert!(layout.close_tile(&s("a")));
    assert!(layout.close_tile(&s("c")));
    assert!(layout.is_empty());
    assert_eq!(layout.next_id(), 5);
}

#[test]
fn update_split_clamps_into_the_bounds() {
    let mut layout = three();
    assert!(layout.update_split(&1, 95));
    match layout.get_node(&1) {
        Some(Node::Split { split_percentage, .. }) => assert_eq!(*split_percentage, 80),
        _ => panic!("node 1 should be a split"),
    }
    assert!(layout.update_split(&1, -5));
    match layout.get_node(&1) {
        Some(Node::Split { split_percentage, .. }) => assert_eq!(*split_percentage, 20),
        _ => panic!("node 1 should be a split"),
    }
    assert!(layout.update_split(&3, 42));
    match layout.get_node(&3) {
        Some(Node::Split { split_percentage, .. }) => assert_eq!(*split_percentage, 42),
        _ => panic!("node 3 should be a split"),
    }
    assert_eq!(
        layout.get_all_tiles(),
        vec![s("sidebar"), s("editor"), s("console")]
    );
}

#[test]
fn update_split_uses_the_bounds_of_the_node() {
    let mut layout = three();
    match layout.get_node_mut(&1) {
        Some(Node::Split {
            min_percentage,
            max_percentage,
            split_percentage,
            ..
        }) => {
            *min_percentage = 5;
            *max_percentage = 95;
            *split_percentage = 50;
        }
        _ => panic!("node 1 should be a split"),
    }
    assert!(layout.update_split(&1, 90));
    match layout.get_node(&1) {
        Some(Node::Split { split_percentage, .. }) => assert_eq!(*split_percentage, 90),
        _ => panic!("node 1 should be a split"),
    }
    assert!(layout.update_split(&1, 99));
    match layout.get_node(&1) {
        Some(Node::Split { split_percentage, .. }) => assert_eq!(*split_percentage, 95),
        _ => panic!("node 1 should be a split"),
    }
    assert!(layout.update_split(&1, 1));
    match layout.get_node(&1) {
        Some(Node::Split { split_percentage, .. }) => assert_eq!(*split_percentage, 5),
        _ => panic!("node 1 should be a split"),
    }
    assert!(is_valid(&layout));
}

#[test]
fn update_split_refuses_tiles_missing_and_locked_nodes() {
    let mut layout = three();
    let before = format!("{:?}", layout.to_parts());
    assert!(!layout.update_split(&2, 50));
    assert!(!layout.update_split(&77, 50));
    assert_eq!(format!("{:?}", layout.to_parts()), before);
    lock(&mut layout, 1);
    assert!(!layout.update_split(&1, 50));
    match layout.get_node(&1) {
        Some(Node::Split {
            split_percentage,
            locked,
            ..
        }) => {
            assert_eq!(*split_percentage, 25);
            assert!(*locked);
        }
        _ => panic!("node 1 should be a split"),
    }
    assert!(!MosaicLayout::empty().update_split(&0, 50));
}

#[test]
fn get_node_mut_writes_through() {
    let mut layout = three();
    assert!(layout.get_node_mut(&99).is_none());
    match layout.get_node_mut(&4) {
        Some(Node::Tile { tile_id, .. }) => {
            assert_eq!(tile_id, "editor");
            *tile_id = s("renamed");
        }
        _ => panic!("node 4 should be a tile"),
    }
    assert_eq!(
        layout.get_all_tiles(),
        vec![s("sidebar"), s("renamed"), s("console")]
    );
    assert_eq!(layout.find_tile(&s("editor")), None);
    assert_eq!(layout.find_tile(&s("renamed")), Some(4));
    assert_eq!(layout.node_count(), 5);
}

#[test]
fn insert_onto_itself_changes_nothing() {
    let mut layout = three();
    let before = format!("{:?}", layout.to_parts());
    for zone in [DropZone::Top, DropZone::Bottom, DropZone::Left, DropZone::Right] {
        assert!(!layout.insert_tile_with_split(&s("editor"), &s("editor"), zone));
        assert!(!layout.insert_tile_with_split(&s("nothing"), &s("nothing"), zone));
    }
    assert_eq!(format!("{:?}", layout.to_parts()), before);
    assert_eq!(layout.next_id(), 6);
}

#[test]
fn insert_refuses_missing_tiles_and_a_locked_target() {
    let mut layout = three();
    let before = format!("{:?}", layout.to_parts());
    assert!(!layout.insert_tile_with_split(&s("nothing"), &s("editor"), DropZone::Top));
    assert!(!layout.insert_tile_with_split(&s("editor"), &s("nothing"), DropZone::Top));
    assert_eq!(format!("{:?}", layout.to_parts()), before);
    lock(&mut layout, 4);
    let locked = format!("{:?}", layout.to_parts());
    assert!(!layout.insert_tile_with_split(&s("sidebar"), &s("editor"), DropZone::Top));
    assert_eq!(format!("{:?}", layout.to_parts()), locked);
    assert!(!MosaicLayout::empty().insert_tile_with_split(&s("a"), &s("b"), DropZone::Top));
    let mut single = MosaicLayout::new(s("a"));
    assert!(!single.insert_tile_with_split(&s("a"), &s("b"), DropZone::Top));
    assert!(!single.insert_tile_with_split(&s("b"), &s("a"), DropZone::Top));
}

#[test]
fn insert_moves_a_locked_tile_and_keeps_its_lock() {
    let mut layout = three();
    lock(&mut layout, 2);
    assert!(layout.insert_tile_with_split(&s("sidebar"), &s("console"), DropZone::Bottom));
    assert_eq!(
        layout.get_all_tiles(),
        vec![s("editor"), s("console"), s("sidebar")]
    );
    match layout.get_node(&2) {
        Some(Node::Tile {
            id,
            tile_id,
            parent,
            locked,
        }) => {
            assert_eq!(*id, 2);
            assert_eq!(tile_id, "sidebar");
            assert_eq!(*parent, Some(6));
            assert!(*locked);
        }
        _ => panic!("node 2 should still be the sidebar tile"),
    }
    assert_eq!(layout.root(), Some(&3));
    assert_eq!(children_of(&layout, 3), Some((4, 6)));
    assert_eq!(children_of(&layout, 6), Some((5, 2)));
    assert!(layout.get_node(&1).is_none());
    assert_eq!(layout.node_count(), 5);
    assert!(is_valid(&layout));
}

#[test]
fn insert_orders_the_children_by_zone() {
    let expect = [
        (DropZone::Top, SplitDirection::Vertical, (2, 5)),
        (DropZone::Left, SplitDirection::Horizontal, (2, 5)),
        (DropZone::Bottom, SplitDirection::Vertical, (5, 2)),
        (DropZone::Right, SplitDirection::Horizontal, (5, 2)),
    ];
    for (zone, direction, children) in expect {
        let mut layout = three();
        assert!(layout.insert_tile_with_split(&s("sidebar"), &s("console"), zone));
        match layout.get_node(&6) {
            Some(Node::Split {
                direction: d,
                first,
                second,
                split_percentage,
                parent,
                ..
            }) => {
                assert_eq!(*d, direction);
                assert_eq!((*first, *second), children);
                assert_eq!(*split_percentage, 50);
                assert_eq!(*parent, Some(3));
            }
            _ => panic!("node 6 should be the new split"),
        }
        assert!(is_valid(&layout));
    }
}

#[test]
fn insert_onto_the_immediate_sibling() {
    for zone in [DropZone::Top, DropZone::Bottom, DropZone::Left, DropZone::Right] {
        let mut layout = three();
        assert!(layout.insert_tile_with_split(&s("editor"), &s("console"), zone));
        assert_eq!(layout.node_count(), 5);
        assert!(layout.get_node(&3).is_none());
        assert_eq!(children_of(&layout, 1), Some((2, 6)));
        assert_eq!(parent_of(&layout, 6), Some(1));
        assert_eq!(parent_of(&layout, 4), Some(6));
        assert_eq!(parent_of(&layout, 5), Some(6));
        let expected = if zone.dragged_is_first() {
            vec![s("sidebar"), s("editor"), s("console")]
        } else {
            vec![s("sidebar"), s("console"), s("editor")]
        };
        assert_eq!(layout.get_all_tiles(), expected);
        assert!(is_valid(&layout));
    }
}

#[test]
fn insert_between_the_two_tiles_of_a_layout() {
    let mut layout = MosaicLayout::from_tree(MosaicNode::horizontal(
        MosaicNode::tile("a"),
        MosaicNode::tile("b"),
        50,
    ));
    assert!(layout.insert_tile_with_split(&s("a"), &s("b"), DropZone::Right));
    assert_eq!(layout.get_all_tiles(), vec![s("b"), s("a")]);
    assert_eq!(layout.root(), Some(&4));
    assert_eq!(children_of(&layout, 4), Some((3, 2)));
    assert_eq!(parent_of(&layout, 4), None);
    assert_eq!(layout.node_count(), 3);
    assert!(is_valid(&layout));
}

#[test]
fn long_run_of_operations_stays_valid() {
    let mut layout = MosaicLayout::new(s("t0"));
    let mut expected = 1;
    for i in 1..40 {
        let source = format!("t{}", (i * 7) % i);
        let fresh = format!("t{}", i);
        let direction = if i % 2 == 0 {
            SplitDirection::Horizontal
        } else {
            SplitDirection::Vertical
        };
        assert!(layout.split_tile(&source, direction, fresh, (i * 13) as i64));
        expected += 2;
        assert_eq!(layout.node_count(), expected);
    }
    assert!(is_valid(&layout));
    for i in 1..40 {
        if i % 3 == 0 {
            assert!(layout.close_tile(&format!("t{}", i)));
            expected -= 2;
        } else if i % 3 == 1 && i > 1 {
            let moved = layout.insert_tile_with_split(
                &format!("t{}", i),
                &format!("t{}", i - 2),
                DropZone::Top,
            );
            assert_eq!(moved, (i - 2) % 3 != 0);
        }
        assert_eq!(layout.node_count(), expected);
        assert!(is_valid(&layout));
    }
    let tiles = layout.get_all_tiles();
    assert_eq!(tiles.len(), (expected + 1) / 2);
    let mut sorted = tiles.clone();
    sorted.sort();
    sorted.dedup();
    assert_eq!(sorted.len(), tiles.len());
    for tile in tiles {
        assert!(tile.starts_with('t'));
        let n: usize = tile[1..].parse().unwrap();
        assert!(n < 40 && n % 3 != 0 || n == 0);
    }
}

#[test]
fn node_accessors() {
    let mut node = Node::Tile {
        id: 7,
        tile_id: s("x"),
        parent: Some(3),
        locked: false,
    };
    assert_eq!(*node.id(), 7);
    assert_eq!(node.parent(), Some(&3));
    assert!(node.is_tile());
    assert!(!node.is_split());
    assert_eq!(node.children(), None);
    node.set_parent(None);
    assert_eq!(node.parent(), None);
    node.set_parent(Some(9));
    assert_eq!(node.parent(), Some(&9));
    let mut split = Node::Split {
        id: 8,
        direction: SplitDirection::Vertical,
        first: 1,
        second: 2,
        split_percentage: 50,
        parent: None,
        locked: false,
        min_percentage: 20,
        max_percentage: 80,
    };
    assert_eq!(*split.id(), 8);
    assert_eq!(split.parent(), None);
    assert!(split.is_split());
    assert!(!split.is_tile());
    assert_eq!(split.children(), Some((&1, &2)));
    split.set_parent(Some(4));
    assert_eq!(split.parent(), Some(&4));
    assert_eq!(split.children(), Some((&1, &2)));
    let copy = split.clone();
    assert_eq!(format!("{:?}", copy), format!("{:?}", split));
}

#[test]
fn clone_of_a_layout_is_independent() {
    let mut layout = three();
    let copy = layout.clone();
    assert!(layout.close_tile(&s("editor")));
    assert_eq!(
        copy.get_all_tiles(),
        vec![s("sidebar"), s("editor"), s("console")]
    );
    assert_eq!(copy.node_count(), 5);
    assert_eq!(copy.next_id(), 6);
}

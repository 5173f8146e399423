use dioxus_mosaic::{MosaicLayout, MosaicNode};

#[test]
fn test_tree_to_layout_simple() {
    let tree = MosaicNode::tile("tile1");
    let layout = MosaicLayout::from_tree(tree);
    assert_eq!(layout.get_all_tiles(), vec!["tile1".to_string()]);
}

#[test]
fn test_tree_to_layout_split() {
    let tree = MosaicNode::horizontal(MosaicNode::tile("tile1"), MosaicNode::tile("tile2"), 50);
    let layout = MosaicLayout::from_tree(tree);
    assert_eq!(
        layout.get_all_tiles(),
        vec!["tile1".to_string(), "tile2".to_string()]
    );
}

#[test]
fn test_tree_to_layout_nested() {
    let tree = MosaicNode::horizontal(
        MosaicNode::tile("tile1"),
        MosaicNode::vertical(MosaicNode::tile("tile2"), MosaicNode::tile("tile3"), 60),
        40,
    );
    let layout = MosaicLayout::from_tree(tree);
    assert_eq!(
        layout.get_all_tiles(),
        vec![
            "tile1".to_string(),
            "tile2".to_string(),
            "tile3".to_string()
        ]
    );
}

#[test]
fn test_layout_to_tree() {
    let tree = MosaicNode::horizontal(MosaicNode::tile("tile1"), MosaicNode::tile("tile2"), 50);
    let layout = MosaicLayout::from_tree(tree.clone());
    let tree2 = layout.to_tree().expect("Layout should not be empty");

    // Both layouts should have the same tiles
    let layout2 = MosaicLayout::from_tree(tree2);
    assert_eq!(layout.get_all_tiles(), layout2.get_all_tiles());
}

#[test]
fn test_empty_layout_to_tree() {
    let layout = MosaicLayout::empty();
    let tree = layout.to_tree();
    assert!(tree.is_none());
}

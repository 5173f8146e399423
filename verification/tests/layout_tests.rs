use dioxus_mosaic::{MosaicLayout, Node, SplitDirection};

#[test]
fn test_new_layout() {
    let layout = MosaicLayout::new("tile1".to_string());
    assert_eq!(layout.node_count(), 1);
    assert_eq!(layout.get_all_tiles(), vec!["tile1".to_string()]);
}

#[test]
fn test_split_tile() {
    let mut layout = MosaicLayout::new("tile1".to_string());
    let success = layout.split_tile(
        &"tile1".to_string(),
        SplitDirection::Horizontal,
        "tile2".to_string(),
        50,
    );
    assert!(success);
    assert_eq!(layout.node_count(), 3); // first tile + new tile + split
    assert_eq!(
        layout.get_all_tiles(),
        vec!["tile1".to_string(), "tile2".to_string()]
    );
}

#[test]
fn test_close_tile() {
    let mut layout = MosaicLayout::new("tile1".to_string());
    layout.split_tile(
        &"tile1".to_string(),
        SplitDirection::Horizontal,
        "tile2".to_string(),
        50,
    );

    let success = layout.close_tile(&"tile2".to_string());
    assert!(success);
    assert_eq!(layout.node_count(), 1); // only tile1 remains
    assert_eq!(layout.get_all_tiles(), vec!["tile1".to_string()]);
}

#[test]
fn test_can_close_last_tile_creates_empty_layout() {
    let mut layout = MosaicLayout::new("tile1".to_string());
    let success = layout.close_tile(&"tile1".to_string());
    assert!(success);
    assert_eq!(layout.node_count(), 0);
    assert!(layout.is_empty());
    assert_eq!(layout.get_all_tiles(), Vec::<String>::new());
}

#[test]
fn test_empty_layout() {
    let layout = MosaicLayout::empty();
    assert!(layout.is_empty());
    assert_eq!(layout.node_count(), 0);
    assert_eq!(layout.get_all_tiles(), Vec::<String>::new());
}

#[test]
fn test_update_split() {
    let mut layout = MosaicLayout::new("tile1".to_string());
    layout.split_tile(
        &"tile1".to_string(),
        SplitDirection::Horizontal,
        "tile2".to_string(),
        50,
    );

    // Find the split node
    let split_id = layout.root().unwrap().clone();
    let success = layout.update_split(&split_id, 60);
    assert!(success);

    if let Some(Node::Split {
        split_percentage, ..
    }) = layout.get_node(&split_id)
    {
        assert_eq!(*split_percentage, 60);
    } else {
        panic!("Root should be a split node");
    }
}

use dioxus_mosaic::{tile, MosaicBuilder};

#[test]
fn test_builder_horizontal() {
    let layout = MosaicBuilder::horizontal()
        .left(tile("a"))
        .right(tile("b"))
        .split(40)
        .build();

    assert_eq!(layout.get_all_tiles(), vec!["a".to_string(), "b".to_string()]);
}

#[test]
fn test_builder_vertical() {
    let layout = MosaicBuilder::vertical()
        .top(tile("a"))
        .bottom(tile("b"))
        .split(60)
        .build();

    assert_eq!(layout.get_all_tiles(), vec!["a".to_string(), "b".to_string()]);
}

#[test]
fn test_builder_nested() {
    let layout = MosaicBuilder::horizontal()
        .left(tile("sidebar"))
        .right(
            MosaicBuilder::vertical()
                .top(tile("editor"))
                .bottom(tile("terminal"))
                .split(70)
                .build_tree(),
        )
        .split(25)
        .build();

    assert_eq!(
        layout.get_all_tiles(),
        vec![
            "sidebar".to_string(),
            "editor".to_string(),
            "terminal".to_string()
        ]
    );
}

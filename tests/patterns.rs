use auto_palette::blocks::{Blocks, BlocksGenerator};
use auto_palette::item::ColorItem;

#[test]
fn blocks_defaults() {
    let b = Blocks::new();
    assert_eq!((b.width, b.height, b.x_num, b.y_num), (512, 512, 8, 8));
}

#[test]
fn blocks_take_colors_in_row_order() {
    let colors = vec![
        ColorItem::new("a".to_string(), 10, 0, 0),
        ColorItem::new("b".to_string(), 0, 20, 0),
        ColorItem::new("c".to_string(), 0, 0, 30),
    ];
    let gen = BlocksGenerator::new(&colors, 4, 4, 2, 2);
    assert_eq!(gen.get_color(0, 0), (10, 0, 0));
    assert_eq!(gen.get_color(1, 1), (10, 0, 0));
    assert_eq!(gen.get_color(2, 0), (0, 20, 0));
    assert_eq!(gen.get_color(3, 1), (0, 20, 0));
    assert_eq!(gen.get_color(0, 2), (0, 0, 30));
    assert_eq!(gen.get_color(3, 3), (0, 0, 0));
}

use auto_palette::cmp::Priority;
use auto_palette::color::{parse_hex_color, RGB};
use auto_palette::image::{ImageData, Pixel};
use auto_palette::item::{get_copy_name, ColorItem, VecOp};
use auto_palette::kdtree::KDNode;
use auto_palette::number::Clamp;

#[test]
fn rgb_hex_strings() {
    let c = RGB::new(255, 0, 64);
    assert_eq!((c.r(), c.g(), c.b()), (255, 0, 64));
    assert_eq!(c.to_hex_string(), "#ff0040");
    assert_eq!(RGB::new(0, 0, 0).to_hex_string(), "#000000");
    assert_eq!(RGB::min_value(), 0);
    assert_eq!(RGB::max_value(), 255);
}

#[test]
fn color_item_hex_round_trip() {
    let item = ColorItem::new("sky".to_string(), 18, 171, 239);
    assert_eq!(item.get_hex(), "#12abef");
    let parsed = ColorItem::from_hex("#12ABef", "again".to_string()).unwrap();
    assert_eq!((parsed.r, parsed.g, parsed.b), (18, 171, 239));
    assert_eq!(parsed.name, "again");
    assert!(ColorItem::from_hex("12abef", "x".to_string()).is_some());
    assert!(ColorItem::from_hex("##12abef", "x".to_string()).is_some());
}

#[test]
fn color_item_rejects_bad_hex() {
    assert!(ColorItem::from_hex("#12abe", "x".to_string()).is_none());
    assert!(ColorItem::from_hex("#12abeg", "x".to_string()).is_none());
    assert!(ColorItem::from_hex("#12abef0", "x".to_string()).is_none());
    assert!(ColorItem::from_hex("", "x".to_string()).is_none());
    assert_eq!(parse_hex_color("#00ff7F"), Some(RGB::new(0, 255, 127)));
}

#[test]
fn image_data_validates_its_size() {
    assert!(ImageData::new(2, 2, 4, vec![0; 16]).is_some());
    assert!(ImageData::new(2, 2, 4, vec![0; 15]).is_none());
    assert!(ImageData::new(2, 2, 2, vec![0; 8]).is_none());
    let img = ImageData::new(3, 1, 3, vec![1, 2, 3, 4, 5, 6, 7, 8, 9]).unwrap();
    assert_eq!((img.width(), img.height(), img.channels()), (3, 1, 3));
    assert_eq!(img.data().len(), 9);
}

#[test]
fn transparent_pixels_are_dropped() {
    let data = vec![
        255, 0, 0, 255, // red
        0, 255, 0, 0, // transparent green
        0, 0, 255, 255, // blue
        255, 255, 255, 1, // white
    ];
    let img = ImageData::new(2, 2, 4, data).unwrap();
    assert_eq!(
        img.present_pixels(),
        vec![
            Pixel { x: 0, y: 0, color: RGB::new(255, 0, 0) },
            Pixel { x: 0, y: 1, color: RGB::new(0, 0, 255) },
            Pixel { x: 1, y: 1, color: RGB::new(255, 255, 255) },
        ]
    );
    let clear = ImageData::new(2, 2, 4, vec![9, 9, 9, 0].repeat(4)).unwrap();
    assert!(clear.present_pixels().is_empty());
    let rgb = ImageData::new(1, 2, 3, vec![1, 2, 3, 4, 5, 6]).unwrap();
    assert_eq!(rgb.present_pixels().len(), 2);
}

#[test]
fn clamp_limits_to_range() {
    assert_eq!(Clamp::clamp(5u8, 10, 20), 10);
    assert_eq!(Clamp::clamp(25u32, 10, 20), 20);
    assert_eq!(Clamp::clamp(15u64, 10, 20), 15);
}

#[test]
fn small_types() {
    let p = Priority::new("a", 3);
    assert_eq!((p.0, p.1), ("a", 3));
    assert!(Priority::new("x", 3) == Priority::new("y", 3));
    assert!(Priority::new("x", 2) < Priority::new("a", 3));
    assert!(Priority::new("x", 4) > Priority::new("z", 3));
    let leaf = KDNode::new(4, 1, None, None);
    assert!(leaf.is_leaf());
    let node = KDNode::new(2, 0, Some(leaf), None);
    assert!(!node.is_leaf());
    assert!(node.left().is_some());
    assert!(node.right().is_none());
}

#[test]
fn copy_names_count_up() {
    assert_eq!(get_copy_name("Red"), "Red #1");
    assert_eq!(get_copy_name("Red #1"), "Red #2");
    assert_eq!(get_copy_name("Red #009"), "Red #10");
    assert_eq!(get_copy_name("Red#3"), "Red#3 #1");
    assert_eq!(get_copy_name("Red #"), "Red # #1");
    assert_eq!(get_copy_name("Red #99999999999"), "Red #99999999999 #1");
    assert_eq!(get_copy_name("颜色 #7"), "颜色 #8");
    assert_eq!(get_copy_name(""), " #1");
}

#[test]
fn list_operations() {
    let names = |v: &Vec<ColorItem>| v.iter().map(|c| c.name.clone()).collect::<Vec<String>>();
    let mut colors = vec![
        ColorItem::new("a".to_string(), 1, 2, 3),
        ColorItem::new("b".to_string(), 4, 5, 6),
        ColorItem::new("c".to_string(), 7, 8, 9),
    ];
    VecOp::MoveUp.apply(&mut colors, 2);
    assert_eq!(names(&colors), vec!["a", "c", "b"]);
    VecOp::MoveUp.apply(&mut colors, 0);
    assert_eq!(names(&colors), vec!["a", "c", "b"]);
    VecOp::MoveDown.apply(&mut colors, 0);
    assert_eq!(names(&colors), vec!["c", "a", "b"]);
    VecOp::MoveDown.apply(&mut colors, 2);
    assert_eq!(names(&colors), vec!["c", "a", "b"]);
    VecOp::MoveBottom.apply(&mut colors, 0);
    assert_eq!(names(&colors), vec!["a", "b", "c"]);
    VecOp::MoveTop.apply(&mut colors, 2);
    assert_eq!(names(&colors), vec!["c", "a", "b"]);
    VecOp::Duplicate.apply(&mut colors, 1);
    assert_eq!(names(&colors), vec!["c", "a #1", "a", "b"]);
    assert_eq!((colors[1].r, colors[1].g, colors[1].b), (1, 2, 3));
    VecOp::Delete.apply(&mut colors, 0);
    assert_eq!(names(&colors), vec!["a #1", "a", "b"]);
}

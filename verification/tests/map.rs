use little_a_map::banner::Banner;
use little_a_map::map::{Dimension, MapData, MapItem, MapMeta};
use little_a_map::nbt::{DecodeError, Tag};
use little_a_map::tile::Tile;
use little_a_map::time::Timestamp;
use std::cmp::Ordering::{Equal, Greater, Less};

fn map(id: u32, s: u64, x: i32) -> MapItem {
    MapItem {
        id,
        modified: Timestamp::from_secs(s),
        tile: Tile::new(0, x, 0),
    }
}

#[test]
fn map_compare() {
    // Identical
    assert_eq!(map(0, 0, 0), map(0, 0, 0));
    assert_eq!(map(0, 0, 0).cmp(&map(0, 0, 0)), Equal);

    // Ignore tile
    assert_eq!(map(0, 0, 0), map(0, 0, 1));
    assert_eq!(map(0, 0, 0).cmp(&map(0, 0, 1)), Equal);

    // Differ by ID
    assert_ne!(map(0, 0, 0), map(1, 0, 0));
    assert_eq!(map(0, 0, 0).cmp(&map(1, 0, 0)), Less);

    // Differ by modification time
    assert_ne!(map(0, 0, 0), map(0, 1, 0));
    assert_eq!(map(0, 0, 0).cmp(&map(0, 1, 0)), Less);

    // Sort first by modification time, then by ID
    assert_eq!(map(0, 1, 0).cmp(&map(1, 0, 0)), Greater);
    assert_eq!(map(1, 0, 0).cmp(&map(0, 1, 0)), Less);
}

fn text(s: &str) -> Tag {
    Tag::String(s.to_string())
}

fn compound(members: Vec<(&str, Tag)>) -> Tag {
    Tag::Compound(members.into_iter().map(|(k, v)| (k.to_string(), v)).collect())
}

fn map_file(data: Vec<(&str, Tag)>) -> Tag {
    compound(vec![("data", compound(data)), ("DataVersion", Tag::Int(3953))])
}

#[test]
fn dimension_by_number_and_name() {
    assert_eq!(Dimension::from_tag(&Tag::Byte(-1)), Ok(Dimension::Nether));
    assert_eq!(Dimension::from_tag(&Tag::Int(0)), Ok(Dimension::Overworld));
    assert_eq!(Dimension::from_tag(&Tag::Long(1)), Ok(Dimension::End));
    assert_eq!(Dimension::from_tag(&text("minecraft:the_nether")), Ok(Dimension::Nether));
    assert_eq!(Dimension::from_tag(&text("minecraft:overworld")), Ok(Dimension::Overworld));
    assert_eq!(Dimension::from_tag(&text("minecraft:the_end")), Ok(Dimension::End));
    assert_eq!(Dimension::from_tag(&Tag::Int(2)), Err(DecodeError::Range));
    assert_eq!(Dimension::from_tag(&text("minecraft:moon")), Err(DecodeError::Range));
    assert_eq!(Dimension::from_tag(&Tag::Float(0)), Err(DecodeError::Kind));
}

#[test]
fn meta_of_overworld_map() {
    let file = map_file(vec![
        ("dimension", text("minecraft:overworld")),
        ("scale", Tag::Byte(1)),
        ("xCenter", Tag::Int(-20608)),
        ("zCenter", Tag::Int(20096)),
        ("banners", Tag::List(vec![])),
    ]);
    match MapMeta::from_tag(&file) {
        Ok(MapMeta::Normal { banners, tile }) => {
            assert!(banners.is_empty());
            assert_eq!(tile, Tile::new(3, -81, 78));
        }
        _ => panic!("an overworld map"),
    }
}

#[test]
fn meta_without_scale_and_banners() {
    let file = map_file(vec![
        ("dimension", Tag::Int(0)),
        ("xCenter", Tag::Int(0)),
        ("zCenter", Tag::Int(0)),
    ]);
    match MapMeta::from_tag(&file) {
        Ok(MapMeta::Normal { banners, tile }) => {
            assert!(banners.is_empty());
            assert_eq!(tile, Tile::new(4, 0, 0));
        }
        _ => panic!("an overworld map"),
    }
}

#[test]
fn nether_and_end_maps_are_other() {
    for dimension in [Tag::Int(-1), Tag::Int(1), text("minecraft:the_nether"), text("minecraft:the_end")] {
        let file = map_file(vec![
            ("dimension", dimension),
            ("scale", Tag::Byte(0)),
            ("xCenter", Tag::Int(0)),
            ("zCenter", Tag::Int(0)),
        ]);
        assert!(matches!(MapMeta::from_tag(&file), Ok(MapMeta::Other)));
    }
}

#[test]
fn unlimited_tracking_is_other() {
    let file = |flag: i8| {
        map_file(vec![
            ("dimension", Tag::Int(0)),
            ("unlimitedTracking", Tag::Byte(flag)),
            ("xCenter", Tag::Int(0)),
            ("zCenter", Tag::Int(0)),
        ])
    };
    assert!(matches!(MapMeta::from_tag(&file(1)), Ok(MapMeta::Other)));
    assert!(matches!(MapMeta::from_tag(&file(0)), Ok(MapMeta::Normal { .. })));
}

#[test]
fn meta_failures() {
    assert!(matches!(MapMeta::from_tag(&Tag::Int(0)), Err(DecodeError::NotCompound)));
    assert!(matches!(MapMeta::from_tag(&compound(vec![])), Err(DecodeError::Missing)));
    assert!(matches!(
        MapMeta::from_tag(&compound(vec![("data", Tag::Int(0))])),
        Err(DecodeError::NotCompound)
    ));
    let no_dimension = map_file(vec![("xCenter", Tag::Int(0)), ("zCenter", Tag::Int(0))]);
    assert!(matches!(MapMeta::from_tag(&no_dimension), Err(DecodeError::Missing)));
    let wide_scale = map_file(vec![
        ("dimension", Tag::Int(0)),
        ("scale", Tag::Byte(5)),
        ("xCenter", Tag::Int(0)),
        ("zCenter", Tag::Int(0)),
    ]);
    assert!(matches!(MapMeta::from_tag(&wide_scale), Err(DecodeError::Range)));
    let far = map_file(vec![
        ("dimension", Tag::Int(0)),
        ("xCenter", Tag::Long(1 << 40)),
        ("zCenter", Tag::Int(0)),
    ]);
    assert!(matches!(MapMeta::from_tag(&far), Err(DecodeError::Range)));
    let odd = map_file(vec![
        ("dimension", Tag::Int(0)),
        ("xCenter", text("0")),
        ("zCenter", Tag::Int(0)),
    ]);
    assert!(matches!(MapMeta::from_tag(&odd), Err(DecodeError::Kind)));
    let bad_banner = map_file(vec![
        ("dimension", Tag::Int(-1)),
        ("xCenter", Tag::Int(0)),
        ("zCenter", Tag::Int(0)),
        ("banners", Tag::List(vec![compound(vec![])])),
    ]);
    assert!(matches!(MapMeta::from_tag(&bad_banner), Err(DecodeError::Shape)));
}

#[test]
fn meta_with_banner() {
    let banner = compound(vec![
        ("Color", text("red")),
        ("Pos", compound(vec![("X", Tag::Int(5)), ("Y", Tag::Int(64)), ("Z", Tag::Int(-7))])),
    ]);
    let file = map_file(vec![
        ("dimension", Tag::Int(0)),
        ("scale", Tag::Byte(0)),
        ("xCenter", Tag::Int(0)),
        ("zCenter", Tag::Int(0)),
        ("banners", Tag::List(vec![banner])),
    ]);
    match MapMeta::from_tag(&file) {
        Ok(MapMeta::Normal { banners, .. }) => {
            assert_eq!(banners.len(), 1);
            let expected = Banner { label: None, color: "red".to_string(), x: 5, z: -7 };
            assert_eq!(banners[0], expected);
            assert_eq!(banners[0].color, "red");
            assert_eq!(banners[0].label, None);
        }
        _ => panic!("an overworld map"),
    }
}

#[test]
fn pixels_of_map_file() {
    let mut colors = vec![0i8; 16384];
    colors[0] = 4;
    colors[1] = -1;
    colors[16383] = -128;
    let file = map_file(vec![("colors", Tag::ByteArray(colors))]);
    let data = MapData::from_tag(&file).unwrap();
    assert_eq!(data.0[0], 4);
    assert_eq!(data.0[1], 255);
    assert_eq!(data.0[2], 0);
    assert_eq!(data.0[16383], 128);
}

#[test]
fn pixels_failures() {
    let short = map_file(vec![("colors", Tag::ByteArray(vec![0i8; 16383]))]);
    assert!(matches!(MapData::from_tag(&short), Err(DecodeError::Range)));
    let long = map_file(vec![("colors", Tag::ByteArray(vec![0i8; 16385]))]);
    assert!(matches!(MapData::from_tag(&long), Err(DecodeError::Range)));
    let list = map_file(vec![("colors", Tag::List(vec![]))]);
    assert!(matches!(MapData::from_tag(&list), Err(DecodeError::Kind)));
    assert!(matches!(MapData::from_tag(&map_file(vec![])), Err(DecodeError::Missing)));
    assert!(matches!(MapData::from_tag(&Tag::Byte(0)), Err(DecodeError::NotCompound)));
}

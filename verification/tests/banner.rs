use little_a_map::banner::Banner;
use little_a_map::nbt::{DecodeError, Tag};
use little_a_map::sorted::{Keyed, SortedVec};

fn text(s: &str) -> Tag {
    Tag::String(s.to_string())
}

fn compound(members: Vec<(&str, Tag)>) -> Tag {
    Tag::Compound(members.into_iter().map(|(k, v)| (k.to_string(), v)).collect())
}

fn banner(label: Option<&str>, color: &str, x: i32, z: i32) -> Banner {
    Banner { label: label.map(str::to_string), color: color.to_string(), x, z }
}

fn older(name: Option<&str>) -> Tag {
    let mut members = vec![
        ("Color", text("white")),
        ("Pos", compound(vec![("X", Tag::Int(1)), ("Y", Tag::Int(2)), ("Z", Tag::Int(3))])),
    ];
    if let Some(name) = name {
        members.push(("Name", text(name)));
    }
    compound(members)
}

#[test]
fn equality_ignores_label_and_color() {
    assert_eq!(banner(None, "white", 1, 2), banner(Some("Home"), "red", 1, 2));
    assert_ne!(banner(None, "white", 1, 2), banner(None, "white", 1, 3));
    assert_ne!(banner(None, "white", 1, 2), banner(None, "white", 2, 2));
}

#[test]
fn order_ignores_label_and_color() {
    let a = banner(Some("z"), "yellow", 1, 2);
    let b = banner(Some("a"), "black", 1, 3);
    let c = banner(None, "white", 2, -9);
    assert!(a.key_lt(&b));
    assert!(!b.key_lt(&a));
    assert!(b.key_lt(&c));
    assert!(!a.key_lt(&banner(None, "white", 1, 2)));
    assert!(!banner(None, "white", 1, 2).key_lt(&a));
}

#[test]
fn first_banner_at_a_position_stays() {
    let mut set = SortedVec::new();
    assert!(set.insert(banner(Some("first"), "red", 5, -7)));
    assert!(!set.insert(banner(Some("second"), "blue", 5, -7)));
    assert!(set.insert(banner(None, "white", -5, 7)));
    assert_eq!(set.len(), 2);
    assert_eq!(set.get(0).x, -5);
    assert_eq!(set.get(1).label.as_deref(), Some("first"));
    assert_eq!(set.get(1).color, "red");
}

#[test]
fn banner_older_shape() {
    let b = Banner::from_tag(&older(None)).unwrap();
    assert_eq!((b.x, b.z), (1, 3));
    assert_eq!(b.color, "white");
    assert_eq!(b.label, None);
}

#[test]
fn name_as_json_object() {
    let b = Banner::from_tag(&older(Some("{\"text\":\"Example Banner\"}"))).unwrap();
    assert_eq!(b.label.as_deref(), Some("Example Banner"));
}

#[test]
fn name_as_json_object_without_text() {
    let name = "{\"color\":\"gold\",\"translate\":\"block.minecraft.ominous_banner\"}";
    let b = Banner::from_tag(&older(Some(name))).unwrap();
    assert_eq!(b.label, None);
}

#[test]
fn name_as_json_string() {
    let b = Banner::from_tag(&older(Some("\"Example \\\"quoted\\\" Banner\""))).unwrap();
    assert_eq!(b.label.as_deref(), Some("Example \"quoted\" Banner"));
}

#[test]
fn name_as_plain_text() {
    let b = Banner::from_tag(&older(Some("Example Banner"))).unwrap();
    assert_eq!(b.label.as_deref(), Some("Example Banner"));
}

#[test]
fn name_as_compound() {
    let tag = compound(vec![
        ("pos", Tag::IntArray(vec![7, 64, -8])),
        ("name", compound(vec![("text", text("Example Banner"))])),
    ]);
    let b = Banner::from_tag(&tag).unwrap();
    assert_eq!(b.label.as_deref(), Some("Example Banner"));
}

#[test]
fn banner_newer_shape() {
    let tag = compound(vec![
        ("color", text("light_blue")),
        ("name", text("\"Example Banner\"")),
        ("pos", Tag::IntArray(vec![7, 64, -8])),
    ]);
    let b = Banner::from_tag(&tag).unwrap();
    assert_eq!((b.x, b.z), (7, -8));
    assert_eq!(b.color, "light_blue");
    assert_eq!(b.label.as_deref(), Some("Example Banner"));
}

#[test]
fn newer_shape_defaults_to_white() {
    let tag = compound(vec![("pos", Tag::IntArray(vec![7, 64, -8]))]);
    let b = Banner::from_tag(&tag).unwrap();
    assert_eq!(b.color, "white");
    assert_eq!(b.label, None);
}

#[test]
fn no_shape_matches() {
    assert_eq!(Banner::from_tag(&compound(vec![])).err(), Some(DecodeError::Shape));
    assert_eq!(Banner::from_tag(&Tag::Int(0)).err(), Some(DecodeError::Shape));
    let short = compound(vec![("pos", Tag::IntArray(vec![7, 64]))]);
    assert_eq!(Banner::from_tag(&short).err(), Some(DecodeError::Shape));
    let odd_name = compound(vec![
        ("pos", Tag::IntArray(vec![7, 64, -8])),
        ("name", Tag::Int(0)),
    ]);
    assert_eq!(Banner::from_tag(&odd_name).err(), Some(DecodeError::Shape));
    let far = compound(vec![
        ("Color", text("white")),
        ("Pos", compound(vec![("X", Tag::Long(1 << 40)), ("Z", Tag::Int(3))])),
    ]);
    assert_eq!(Banner::from_tag(&far).err(), Some(DecodeError::Shape));
}

#[test]
fn duplicate_keeps_everything() {
    let b = banner(Some("Home"), "red", 1, 2);
    let c = b.duplicate();
    assert_eq!(c.label.as_deref(), Some("Home"));
    assert_eq!(c.color, "red");
    assert_eq!((c.x, c.z), (1, 2));
}

#[test]
fn name_as_json_object_with_null_text() {
    let b = Banner::from_tag(&older(Some("{\"text\":null}"))).unwrap();
    assert_eq!(b.label, None);
}

#[test]
fn name_as_json_object_with_text_that_is_no_string() {
    assert_eq!(
        Banner::from_tag(&older(Some("{\"text\":5}"))).err(),
        Some(DecodeError::Shape)
    );
    assert_eq!(
        Banner::from_tag(&older(Some("{\"bold\":true,\"text\":[\"a\"]}"))).err(),
        Some(DecodeError::Shape)
    );
}

#[test]
fn name_as_json_object_with_other_members() {
    let name = "{\"bold\":true,\"text\":\"Home\",\"extra\":[{\"text\":\"x\"}]}";
    let b = Banner::from_tag(&older(Some(name))).unwrap();
    assert_eq!(b.label.as_deref(), Some("Home"));
}

#[test]
fn name_as_other_json() {
    let b = Banner::from_tag(&older(Some("5"))).unwrap();
    assert_eq!(b.label.as_deref(), Some("5"));
}

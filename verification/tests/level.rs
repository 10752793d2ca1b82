use little_a_map::level::{gate, to_three_part, GateError, Level, COMPATIBLE_VERSIONS};
use little_a_map::nbt::{DecodeError, Tag};

fn text(s: &str) -> Tag {
    Tag::String(s.to_string())
}

fn compound(members: Vec<(&str, Tag)>) -> Tag {
    Tag::Compound(members.into_iter().map(|(k, v)| (k.to_string(), v)).collect())
}

fn older(name: &str) -> Tag {
    compound(vec![(
        "Data",
        compound(vec![
            ("SpawnX", Tag::Int(0)),
            ("SpawnY", Tag::Int(64)),
            ("SpawnZ", Tag::Int(0)),
            ("Version", compound(vec![("Id", Tag::Int(3953)), ("Name", text(name))])),
        ]),
    )])
}

fn world(version: &str) -> Level {
    Level { spawn_x: 0, spawn_z: 0, version: version.to_string() }
}

#[test]
fn spawn() {
    let level = Level::from_tag(&older("1.19.3")).unwrap();
    assert_eq!((level.spawn_x, level.spawn_z), (0, 0));
}

#[test]
fn level_older_shape() {
    let tag = compound(vec![(
        "Data",
        compound(vec![
            ("SpawnX", Tag::Int(-12)),
            ("SpawnZ", Tag::Int(34)),
            ("Version", compound(vec![("Name", text("1.21.1"))])),
        ]),
    )]);
    let level = Level::from_tag(&tag).unwrap();
    assert_eq!((level.spawn_x, level.spawn_z), (-12, 34));
    assert_eq!(level.version, "1.21.1");
}

#[test]
fn level_newer_shape() {
    let tag = compound(vec![(
        "Data",
        compound(vec![
            ("spawn", compound(vec![("pos", Tag::IntArray(vec![-12, 64, 34]))])),
            ("Version", compound(vec![("Name", text("1.21.9"))])),
        ]),
    )]);
    let level = Level::from_tag(&tag).unwrap();
    assert_eq!((level.spawn_x, level.spawn_z), (-12, 34));
}

#[test]
fn versions_get_three_numbers() {
    assert_eq!(to_three_part("1.21"), "1.21.0");
    assert_eq!(to_three_part("1"), "1.0.0");
    assert_eq!(to_three_part("1.21.4"), "1.21.4");
    assert_eq!(to_three_part("1.21.4.5"), "1.21.4.5");
    assert_eq!(to_three_part(""), ".0.0");
    assert_eq!(Level::from_tag(&older("1.21")).unwrap().version, "1.21.0");
}

#[test]
fn level_failures() {
    assert_eq!(Level::from_tag(&older("23w31a")).err(), Some(DecodeError::Version));
    assert_eq!(Level::from_tag(&older("1.21.4.5")).err(), Some(DecodeError::Version));
    assert_eq!(Level::from_tag(&compound(vec![])).err(), Some(DecodeError::Shape));
    assert_eq!(Level::from_tag(&Tag::Int(0)).err(), Some(DecodeError::Shape));
    let no_version = compound(vec![(
        "Data",
        compound(vec![("SpawnX", Tag::Int(0)), ("SpawnZ", Tag::Int(0))]),
    )]);
    assert_eq!(Level::from_tag(&no_version).err(), Some(DecodeError::Shape));
    let short = compound(vec![(
        "Data",
        compound(vec![
            ("spawn", compound(vec![("pos", Tag::IntArray(vec![0, 64]))])),
            ("Version", compound(vec![("Name", text("1.21.9"))])),
        ]),
    )]);
    assert_eq!(Level::from_tag(&short).err(), Some(DecodeError::Shape));
}

#[test]
fn version_requirements() {
    assert_eq!(world("1.21.0").meets(">=1.20.2, <1.22"), Some(true));
    assert_eq!(world("1.20.2").meets(">=1.20.2, <1.22"), Some(true));
    assert_eq!(world("1.20.1").meets(">=1.20.2, <1.22"), Some(false));
    assert_eq!(world("1.22.0").meets(">=1.20.2, <1.22"), Some(false));
    assert_eq!(world("1.19.3").meets("~1.19.0"), Some(true));
    assert_eq!(world("1.19.3").meets("~1.18.0"), Some(false));
    assert_eq!(world("1.19.3").meets("not a requirement"), None);
    assert_eq!(world("nineteen").meets("~1.19.0"), None);
}

#[test]
fn the_gate() {
    assert_eq!(COMPATIBLE_VERSIONS, ">=1.20.2, <1.22");
    assert_eq!(world("1.21.5").check(), Ok(()));
    assert_eq!(world("1.19.3").check(), Err(GateError::Incompatible));
    assert_eq!(world("1.19").check(), Err(GateError::Unreadable));
    assert_eq!(gate(Some(true)), Ok(()));
    assert_eq!(gate(Some(false)), Err(GateError::Incompatible));
    assert_eq!(gate(None), Err(GateError::Unreadable));
}

#[test]
fn with_version_takes_the_answer() {
    let level = Level::with_version(1, 2, "1.21.0".to_string(), true).unwrap();
    assert_eq!((level.spawn_x, level.spawn_z), (1, 2));
    assert_eq!(level.version, "1.21.0");
    assert_eq!(
        Level::with_version(1, 2, "x".to_string(), false).err(),
        Some(DecodeError::Version)
    );
}

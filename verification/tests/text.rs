use little_a_map::level::Level;
use little_a_map::map::MapMeta;
use little_a_map::page::index_page;
use little_a_map::scan::{MapEntry, MapScan};
use little_a_map::text::{parse_number, piece_of, to_hex};
use little_a_map::tile::Tile;
use little_a_map::time::{later, Timestamp};

#[test]
fn pieces() {
    assert_eq!(piece_of(b"a.bc..d", b'.', 0), Some(&b"a"[..]));
    assert_eq!(piece_of(b"a.bc..d", b'.', 1), Some(&b"bc"[..]));
    assert_eq!(piece_of(b"a.bc..d", b'.', 2), Some(&b""[..]));
    assert_eq!(piece_of(b"a.bc..d", b'.', 3), Some(&b"d"[..]));
    assert_eq!(piece_of(b"a.bc..d", b'.', 4), None);
    assert_eq!(piece_of(b"", b'.', 0), Some(&b""[..]));
    assert_eq!(piece_of(b"", b'.', 1), None);
    assert_eq!(piece_of(b"a.", b'.', 1), Some(&b""[..]));
    assert_eq!(piece_of(b"abc", b'/', 0), Some(&b"abc"[..]));
}

#[test]
fn numbers() {
    assert_eq!(parse_number(b"0", true, -10, 10), Some(0));
    assert_eq!(parse_number(b"-10", true, -10, 10), Some(-10));
    assert_eq!(parse_number(b"+10", true, -10, 10), Some(10));
    assert_eq!(parse_number(b"11", true, -10, 10), None);
    assert_eq!(parse_number(b"-11", true, -10, 10), None);
    assert_eq!(parse_number(b"0000000000000000000000007", true, -10, 10), Some(7));
    assert_eq!(parse_number(b"99999999999999999999999999", true, -10, 10), None);
    assert_eq!(parse_number(b"-0", true, -10, 10), Some(0));
    assert_eq!(parse_number(b"-0", false, 0, 10), None);
    assert_eq!(parse_number(b"+0", false, 0, 10), Some(0));
    assert_eq!(parse_number(b"", true, -10, 10), None);
    assert_eq!(parse_number(b"-", true, -10, 10), None);
    assert_eq!(parse_number(b"+", true, -10, 10), None);
    assert_eq!(parse_number(b" 1", true, -10, 10), None);
    assert_eq!(parse_number(b"1 ", true, -10, 10), None);
    assert_eq!(parse_number(b"1-", true, -10, 10), None);
    assert_eq!(parse_number(b"--1", true, -10, 10), None);
    assert_eq!(parse_number(b"0x1", true, -10, 10), None);
    assert_eq!(parse_number(b"4294967295", false, 0, 0xffff_ffff), Some(4294967295));
    assert_eq!(parse_number(b"1099511627775", false, 0, 0xff_ffff_ffff), Some(1099511627775));
}

#[test]
fn hexadecimal() {
    assert_eq!(to_hex(0), "0");
    assert_eq!(to_hex(9), "9");
    assert_eq!(to_hex(10), "a");
    assert_eq!(to_hex(255), "ff");
    assert_eq!(to_hex(256), "100");
    assert_eq!(to_hex(0x65f1_c0de), "65f1c0de");
    assert_eq!(to_hex(u64::MAX), "ffffffffffffffff");
    assert_eq!(to_hex(1_700_000_000), format!("{:x}", 1_700_000_000u64));
}

#[test]
fn later_of_two_times() {
    let t = |s| Some(Timestamp::from_secs(s));
    assert_eq!(later(None, None), None);
    assert_eq!(later(t(1), None), t(1));
    assert_eq!(later(None, t(2)), t(2));
    assert_eq!(later(t(1), t(2)), t(2));
    assert_eq!(later(t(2), t(1)), t(2));
    assert_eq!(later(later(t(3), t(1)), t(2)), later(t(3), later(t(1), t(2))));
}

#[test]
fn timestamps() {
    assert_eq!(Timestamp::from_secs(3).nanos, 3_000_000_000);
    assert_eq!(Timestamp::new(-1, 999_999_999).nanos, -1);
    assert_eq!(Timestamp::new(2, 5).epoch_secs(), Some(2));
    assert_eq!(Timestamp { nanos: 999_999_999 }.epoch_secs(), Some(0));
    assert_eq!(Timestamp { nanos: -1 }.epoch_secs(), None);
    assert!(Timestamp::from_secs(1).before(&Timestamp::new(1, 1)));
    assert!(!Timestamp::from_secs(1).before(&Timestamp::from_secs(1)));
}

fn level() -> Level {
    Level { spawn_x: -12, spawn_z: 34, version: "1.21.0".to_string() }
}

#[test]
fn page_of_an_empty_world() {
    let page = index_page(&level(), &MapScan::new(), 0, "little-a-map", "0.14.0").unwrap();
    assert_eq!(page.center, [34, -12]);
    assert_eq!(page.generator, "little-a-map 0.14.0");
    assert_eq!(page.cache_version, "0");
    assert_eq!(page.maps_stacked, 0);
}

#[test]
fn page_of_a_world_with_maps() {
    let scan = MapScan::run(vec![MapEntry {
        id: 0,
        modified: Timestamp::new(0x65f1_c0de, 999),
        meta: MapMeta::Normal { banners: vec![], tile: Tile::new(4, 0, 0) },
    }]);
    let page = index_page(&level(), &scan, 3, "little-a-map", "0.14.0").unwrap();
    assert_eq!(page.cache_version, "65f1c0de");
    assert_eq!(page.maps_stacked, 3);
}

#[test]
fn no_page_for_maps_from_before_the_epoch() {
    let scan = MapScan::run(vec![MapEntry {
        id: 0,
        modified: Timestamp { nanos: -1 },
        meta: MapMeta::Normal { banners: vec![], tile: Tile::new(4, 0, 0) },
    }]);
    assert!(index_page(&level(), &scan, 1, "little-a-map", "0.14.0").is_none());
}

use little_a_map::banner::Banner;
use little_a_map::geo::features;
use little_a_map::map::{MapItem, MapMeta};
use little_a_map::scan::{MapEntry, MapScan, PlacedMap, Sighting};
use little_a_map::tile::Tile;
use little_a_map::time::Timestamp;

fn banner(label: Option<&str>, color: &str, x: i32, z: i32) -> Banner {
    Banner { label: label.map(str::to_string), color: color.to_string(), x, z }
}

fn entry(id: u32, secs: u64, scale: u8, x: i32, z: i32, banners: Vec<Banner>) -> MapEntry {
    MapEntry {
        id,
        modified: Timestamp::from_secs(secs),
        meta: MapMeta::Normal { banners, tile: Tile::from_position(scale, x, z) },
    }
}

fn other(id: u32, secs: u64) -> MapEntry {
    MapEntry { id, modified: Timestamp::from_secs(secs), meta: MapMeta::Other }
}

fn maps(scan: &MapScan) -> Vec<(Tile, u32)> {
    scan.maps().as_slice().iter().map(|PlacedMap(m)| (m.tile, m.id)).collect()
}

#[test]
fn empty_scan() {
    let scan = MapScan::run(vec![]);
    assert!(scan.banners().is_empty());
    assert!(scan.maps().is_empty());
    assert!(scan.root_tiles().is_empty());
    assert!(scan.sightings().is_empty());
    assert_eq!(scan.banners_modified(), None);
    assert_eq!(scan.maps_modified(), None);
}

#[test]
fn single_map() {
    let scan = MapScan::run(vec![entry(0, 10, 0, 0, 0, vec![])]);
    assert_eq!(maps(&scan), [(Tile::new(4, 0, 0), 0)]);
    assert_eq!(scan.root_tiles().as_slice(), [Tile::new(0, 0, 0)]);
    assert_eq!(scan.maps_modified(), Some(Timestamp::from_secs(10)));
    assert_eq!(scan.banners_modified(), None);
    assert!(scan.banners().is_empty());
}

#[test]
fn other_maps_contribute_nothing() {
    let scan = MapScan::run(vec![other(1, 99), entry(0, 10, 0, 0, 0, vec![]), other(2, 98)]);
    assert_eq!(maps(&scan), [(Tile::new(4, 0, 0), 0)]);
    assert_eq!(scan.maps_modified(), Some(Timestamp::from_secs(10)));
}

#[test]
fn maps_are_grouped_by_tile_and_ordered_by_time_then_id() {
    let scan = MapScan::run(vec![
        entry(5, 30, 0, 0, 0, vec![]),
        entry(4, 30, 0, 0, 0, vec![]),
        entry(9, 10, 0, 0, 0, vec![]),
        entry(1, 20, 1, 0, 0, vec![]),
        entry(2, 5, 0, -1, -1, vec![]),
    ]);
    assert_eq!(
        maps(&scan),
        [
            (Tile::new(3, 0, 0), 1),
            (Tile::new(4, -1, -1), 2),
            (Tile::new(4, 0, 0), 9),
            (Tile::new(4, 0, 0), 4),
            (Tile::new(4, 0, 0), 5),
        ]
    );
    assert_eq!(scan.root_tiles().as_slice(), [Tile::new(0, -1, -1), Tile::new(0, 0, 0)]);
    assert_eq!(scan.maps_modified(), Some(Timestamp::from_secs(30)));
}

#[test]
fn banners_and_their_maps() {
    let scan = MapScan::run(vec![
        entry(0, 10, 0, 0, 0, vec![banner(None, "red", 5, -7)]),
        entry(3, 40, 1, 0, 0, vec![banner(Some("Home"), "blue", 5, -7), banner(None, "white", 1, 1)]),
        entry(2, 50, 0, 300, 300, vec![]),
    ]);
    let banners = scan.banners().as_slice();
    assert_eq!(banners.len(), 2);
    assert_eq!((banners[0].x, banners[0].z), (1, 1));
    assert_eq!((banners[1].x, banners[1].z), (5, -7));
    assert_eq!(banners[1].color, "red");
    assert_eq!(banners[1].label, None);
    assert_eq!(
        scan.sightings().as_slice(),
        [
            Sighting { x: 1, z: 1, id: 3 },
            Sighting { x: 5, z: -7, id: 0 },
            Sighting { x: 5, z: -7, id: 3 },
        ]
    );
    assert_eq!(scan.banners_modified(), Some(Timestamp::from_secs(40)));
    assert_eq!(scan.maps_modified(), Some(Timestamp::from_secs(50)));
}

#[test]
fn merge_is_the_scan_of_both() {
    let first = || vec![entry(0, 10, 0, 0, 0, vec![banner(None, "red", 5, -7)]), entry(1, 20, 1, 0, 0, vec![])];
    let second = || vec![entry(2, 5, 2, 9000, 0, vec![banner(None, "white", 1, 1)]), entry(1, 20, 1, 0, 0, vec![])];
    let merged = MapScan::run(first()).merge(MapScan::run(second()));
    let mut all = first();
    all.extend(second());
    let whole = MapScan::run(all);
    assert_eq!(maps(&merged), maps(&whole));
    assert_eq!(merged.root_tiles().as_slice(), whole.root_tiles().as_slice());
    assert_eq!(merged.sightings().as_slice(), whole.sightings().as_slice());
    assert_eq!(merged.banners().as_slice(), whole.banners().as_slice());
    assert_eq!(merged.maps_modified(), whole.maps_modified());
    assert_eq!(merged.banners_modified(), whole.banners_modified());
    let swapped = MapScan::run(second()).merge(MapScan::run(first()));
    assert_eq!(maps(&swapped), maps(&whole));
    assert_eq!(swapped.root_tiles().as_slice(), whole.root_tiles().as_slice());
    assert_eq!(swapped.maps_modified(), Some(Timestamp::from_secs(20)));
    assert_eq!(swapped.banners_modified(), Some(Timestamp::from_secs(10)));
}

#[test]
fn with_map_adds_one_map() {
    let scan = MapScan::new().with_map(7, Timestamp::new(1, 5), Tile::new(2, -1, 3), vec![]);
    assert_eq!(maps(&scan), [(Tile::new(2, -1, 3), 7)]);
    assert_eq!(scan.root_tiles().as_slice(), [Tile::new(0, -1, 0)]);
    assert_eq!(scan.maps_modified(), Some(Timestamp { nanos: 1_000_000_005 }));
    let same = MapItem { id: 7, modified: Timestamp::new(1, 5), tile: Tile::new(0, 0, 0) };
    assert_eq!(scan.maps().get(0).0, same);
}

#[test]
fn banner_feature() {
    let scan = MapScan::run(vec![entry(0, 10, 0, 0, 0, vec![banner(None, "red", 5, -7)])]);
    let list = features(&scan);
    assert_eq!(list.len(), 1);
    assert_eq!((list[0].x, list[0].z), (5, -7));
    assert_eq!(list[0].color, "red");
    assert_eq!(list[0].name, None);
    assert!(!list[0].unique);
    assert_eq!(list[0].maps, [0]);
}

#[test]
fn unique_names() {
    let scan = MapScan::run(vec![
        entry(4, 10, 0, 0, 0, vec![
            banner(Some("Home"), "red", 1, 0),
            banner(Some("Mine"), "blue", 2, 0),
            banner(None, "white", 3, 0),
        ]),
        entry(2, 10, 1, 0, 0, vec![
            banner(Some("Mine"), "green", 4, 0),
            banner(None, "white", 5, 0),
            banner(Some("Home"), "black", 1, 0),
        ]),
    ]);
    let list = features(&scan);
    let seen: Vec<(i32, Option<&str>, bool, Vec<u32>)> =
        list.iter().map(|f| (f.x, f.name.as_deref(), f.unique, f.maps.clone())).collect();
    assert_eq!(
        seen,
        [
            (1, Some("Home"), true, vec![2, 4]),
            (2, Some("Mine"), false, vec![4]),
            (3, None, false, vec![4]),
            (4, Some("Mine"), false, vec![2]),
            (5, None, false, vec![2]),
        ]
    );
}

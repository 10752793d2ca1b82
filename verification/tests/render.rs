use little_a_map::ids::ascending;
use little_a_map::map::{MapItem, MapMeta};
use little_a_map::render::{plan_leaf, plan_root, LeafPlan};
use little_a_map::report::{banners_outdated, is_current, summary, Report, Summary};
use little_a_map::scan::{MapEntry, MapScan};
use little_a_map::tile::Tile;
use little_a_map::time::Timestamp;

fn entry(id: u32, secs: u64, scale: u8, x: i32, z: i32) -> MapEntry {
    MapEntry {
        id,
        modified: Timestamp::from_secs(secs),
        meta: MapMeta::Normal { banners: vec![], tile: Tile::from_position(scale, x, z) },
    }
}

fn ids(leaf: &LeafPlan) -> Vec<u32> {
    leaf.maps.iter().map(|m| m.id).collect()
}

#[test]
fn plan_of_single_map() {
    let scan = MapScan::run(vec![entry(0, 10, 0, 0, 0)]);
    let plan = plan_root(&scan, &Tile::new(0, 0, 0));
    assert_eq!(plan.leaves.len(), 1);
    assert_eq!(plan.leaves[0].tile, Tile::new(4, 0, 0));
    assert_eq!(ids(&plan.leaves[0]), [0]);
    assert_eq!(plan.leaves[0].modified, Timestamp::from_secs(10));
    assert_eq!(plan.maps.len(), 1);
}

#[test]
fn plan_of_stacked_maps() {
    let scan = MapScan::run(vec![entry(0, 10, 0, 0, 0), entry(1, 20, 1, 0, 0)]);
    let plan = plan_root(&scan, &Tile::new(0, 0, 0));
    let leaves: Vec<(Tile, Vec<u32>)> = plan.leaves.iter().map(|l| (l.tile, ids(l))).collect();
    assert_eq!(
        leaves,
        [
            (Tile::new(4, 0, 0), vec![0, 1]),
            (Tile::new(4, 0, 1), vec![1]),
            (Tile::new(4, 1, 0), vec![1]),
            (Tile::new(4, 1, 1), vec![1]),
        ]
    );
    assert_eq!(plan.leaves[0].modified, Timestamp::from_secs(20));
    let found: Vec<u32> = plan.maps.iter().map(|m| m.id).collect();
    assert_eq!(found, [1, 0]);
}

#[test]
fn newer_maps_are_drawn_first_on_one_level() {
    let scan = MapScan::run(vec![
        entry(3, 10, 0, 0, 0),
        entry(1, 30, 0, 0, 0),
        entry(2, 30, 0, 0, 0),
        entry(9, 99, 4, 0, 0),
        entry(8, 1, 2, 0, 0),
    ]);
    let plan = plan_root(&scan, &Tile::new(0, 0, 0));
    let first = plan.leaves.iter().find(|l| l.tile == Tile::new(4, 0, 0)).unwrap();
    assert_eq!(ids(first), [2, 1, 3, 8, 9]);
    assert_eq!(first.modified, Timestamp::from_secs(99));
    assert_eq!(plan.leaves.len(), 256);
}

#[test]
fn plan_covers_only_the_root_given() {
    let scan = MapScan::run(vec![entry(0, 10, 0, 0, 0), entry(1, 20, 0, -1, -1)]);
    let here = plan_root(&scan, &Tile::new(0, 0, 0));
    assert_eq!(here.leaves.len(), 1);
    assert_eq!(here.leaves[0].tile, Tile::new(4, 0, 0));
    let there = plan_root(&scan, &Tile::new(0, -1, -1));
    assert_eq!(there.leaves.len(), 1);
    assert_eq!(there.leaves[0].tile, Tile::new(4, -1, -1));
    let nowhere = plan_root(&scan, &Tile::new(0, 5, 5));
    assert!(nowhere.leaves.is_empty());
    assert!(nowhere.maps.is_empty());
}

#[test]
fn report_of_plan() {
    let scan = MapScan::run(vec![entry(0, 10, 0, 0, 0), entry(1, 20, 1, 0, 0)]);
    let report = Report::of_plan(&plan_root(&scan, &Tile::new(0, 0, 0)));
    assert_eq!(ascending(&report.maps).as_slice(), [0, 1]);
    assert_eq!(report.maps_stacked, 2);
    assert_eq!(report.maps_rendered, 0);
    assert_eq!(report.tiles_rendered, 0);
    assert_eq!(
        report.tiles.as_slice(),
        [Tile::new(4, 0, 0), Tile::new(4, 0, 1), Tile::new(4, 1, 0), Tile::new(4, 1, 1)]
    );
}

#[test]
fn reports_add_up() {
    let scan = MapScan::run(vec![entry(0, 10, 0, 0, 0), entry(1, 20, 1, 0, 0), entry(2, 30, 0, 5000, 0)]);
    let mut total = Report::new();
    let mut first = Report::of_plan(&plan_root(&scan, &Tile::new(0, 0, 0)));
    first.tile_rendered();
    first.tile_rendered();
    first.map_rendered();
    let mut second = Report::of_plan(&plan_root(&scan, &Tile::new(0, 2, 0)));
    second.tile_rendered();
    total.add_assign(first);
    total.add_assign(second);
    assert_eq!(ascending(&total.maps).as_slice(), [0, 1, 2]);
    assert_eq!(total.maps_rendered, 1);
    assert_eq!(total.tiles_rendered, 3);
    assert_eq!(total.maps_stacked, 2);
    assert_eq!(total.tiles.len(), 5);
}

#[test]
fn stale_pictures() {
    let scan = MapScan::run(vec![entry(7, 10, 0, -1, -1)]);
    let report = Report::of_plan(&plan_root(&scan, &Tile::new(0, -1, -1)));
    assert_eq!(report.is_stale_tile(b"tiles/4/-1/-1.webp"), Some(false));
    assert_eq!(report.is_stale_tile(b"tiles/4/-1/-1.png"), Some(false));
    assert_eq!(report.is_stale_tile(b"tiles/4/-1/0.webp"), Some(true));
    assert_eq!(report.is_stale_tile(b"tiles/3/-1/-1.webp"), Some(true));
    assert_eq!(report.is_stale_tile(b"tiles/4/x/0.webp"), None);
    assert_eq!(report.is_stale_tile(b"tiles/4/0"), None);
    assert_eq!(report.is_stale_tile(b"tiles/256/0/0.webp"), None);
    assert_eq!(report.is_stale_map(b"7.webp"), Some(false));
    assert_eq!(report.is_stale_map(b"8.webp"), Some(true));
    assert_eq!(report.is_stale_map(b"-7.webp"), None);
    assert_eq!(report.is_stale_map(b"seven.webp"), None);
}

#[test]
fn pictures_are_current_when_no_older_than_the_maps() {
    let t = Timestamp::from_secs;
    assert!(is_current(false, Some(t(10)), t(10)));
    assert!(is_current(false, Some(t(11)), t(10)));
    assert!(!is_current(false, Some(t(9)), t(10)));
    assert!(!is_current(false, None, t(10)));
    assert!(!is_current(true, Some(t(11)), t(10)));
}

#[test]
fn banners_are_written_when_outdated() {
    let t = Timestamp::from_secs;
    assert!(!banners_outdated(false, 0, Some(t(10)), t(10)));
    assert!(banners_outdated(false, 0, Some(t(9)), t(10)));
    assert!(banners_outdated(false, 0, None, t(10)));
    assert!(banners_outdated(true, 0, Some(t(10)), t(10)));
    assert!(banners_outdated(false, 1, Some(t(10)), t(10)));
}

#[test]
fn summaries() {
    let mut report = Report::new();
    assert_eq!(summary(&report, 0, 0), Summary::UpToDate);
    assert_eq!(
        summary(&report, 0, 1),
        Summary::Rendered { tiles: 0, maps: 0, tiles_pruned: 0, maps_pruned: 1 }
    );
    report.tile_rendered();
    report.map_rendered();
    report.map_rendered();
    assert_eq!(
        summary(&report, 3, 4),
        Summary::Rendered { tiles: 1, maps: 2, tiles_pruned: 3, maps_pruned: 4 }
    );
}

#[test]
fn maps_in_plan_keep_their_tiles() {
    let scan = MapScan::run(vec![entry(1, 20, 1, 0, 0)]);
    let plan = plan_root(&scan, &Tile::new(0, 0, 0));
    let expected = MapItem { id: 1, modified: Timestamp::from_secs(20), tile: Tile::new(3, 0, 0) };
    assert_eq!(plan.maps[0], expected);
    assert_eq!(plan.maps[0].tile, Tile::new(3, 0, 0));
    assert_eq!(plan.leaves[3].maps[0].tile, Tile::new(3, 0, 0));
}

#[test]
fn plan_of_one_leaf() {
    let scan = MapScan::run(vec![
        entry(3, 10, 0, 0, 0),
        entry(1, 30, 0, 0, 0),
        entry(9, 5, 1, 0, 0),
        entry(7, 99, 0, 128, 0),
    ]);
    let leaf = plan_leaf(&scan, &Tile::new(4, 0, 0)).unwrap();
    assert_eq!(leaf.tile, Tile::new(4, 0, 0));
    assert_eq!(ids(&leaf), [1, 3, 9]);
    assert_eq!(leaf.modified, Timestamp::from_secs(30));
    let beside = plan_leaf(&scan, &Tile::new(4, 1, 0)).unwrap();
    assert_eq!(ids(&beside), [7, 9]);
    assert_eq!(beside.modified, Timestamp::from_secs(99));
    assert_eq!(ids(&plan_leaf(&scan, &Tile::new(4, 1, 1)).unwrap()), [9]);
    assert!(plan_leaf(&scan, &Tile::new(4, 2, 0)).is_none());
    let planned = plan_root(&scan, &Tile::new(0, 0, 0));
    for leaf in &planned.leaves {
        let alone = plan_leaf(&scan, &leaf.tile).unwrap();
        assert_eq!(ids(&alone), ids(leaf));
        assert_eq!(alone.modified, leaf.modified);
    }
}

#[test]
fn two_maps_on_one_leaf() {
    let scan = MapScan::run(vec![entry(5, 10, 0, 0, 0), entry(4, 20, 0, 0, 0)]);
    let leaf = plan_leaf(&scan, &Tile::new(4, 0, 0)).unwrap();
    assert_eq!(ids(&leaf), [4, 5]);
    assert_eq!(leaf.modified, Timestamp::from_secs(20));
    let report = Report::of_plan(&plan_root(&scan, &Tile::new(0, 0, 0)));
    assert_eq!(report.maps_stacked, 2);
    assert_eq!(report.tiles.as_slice(), [Tile::new(4, 0, 0)]);
}

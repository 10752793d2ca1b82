use little_a_map::cache::Cache;
use little_a_map::files::{is_player_file, parse_map_name, parse_region_name, parse_tile_path};
use little_a_map::search::{
    is_within, select_players, select_regions, sort_players, PlayerChoice, RegionFile, Seen,
};
use little_a_map::tile::Tile;
use little_a_map::time::Timestamp;

fn seen(name: &str, secs: u64) -> Seen {
    Seen { name: name.as_bytes().to_vec(), modified: Timestamp::from_secs(secs) }
}

fn cache_written_at(secs: u64) -> Cache {
    let mut cache = Cache::new("0.14.0");
    cache.modified = Some(Timestamp::from_secs(secs));
    cache
}

#[test]
fn region_names() {
    assert_eq!(parse_region_name(b"r.0.0.mca"), Some((0, 0)));
    assert_eq!(parse_region_name(b"r.-1.12.mca"), Some((-1, 12)));
    assert_eq!(parse_region_name(b"r.+3.-004.mca"), Some((3, -4)));
    assert_eq!(
        parse_region_name(b"r.2147483647.-2147483648.mca"),
        Some((i32::MAX, i32::MIN))
    );
    assert_eq!(parse_region_name(b"r.2147483648.0.mca"), None);
    assert_eq!(parse_region_name(b"r.0.mca"), None);
    assert_eq!(parse_region_name(b"r.0.0.0.mca"), None);
    assert_eq!(parse_region_name(b"r.a.0.mca"), None);
    assert_eq!(parse_region_name(b"r..0.mca"), None);
    assert_eq!(parse_region_name(b"r.0.0.mcr"), None);
    assert_eq!(parse_region_name(b"s.0.0.mca"), None);
    assert_eq!(parse_region_name(b""), None);
}

#[test]
fn tile_paths() {
    assert_eq!(parse_tile_path(b"tiles/4/0/0.webp"), Some(Tile::new(4, 0, 0)));
    assert_eq!(parse_tile_path(b"tiles/0/-11/9.png"), Some(Tile::new(0, -11, 9)));
    assert_eq!(parse_tile_path(b"tiles/4/-161/157.meta.json"), Some(Tile::new(4, -161, 157)));
    assert_eq!(parse_tile_path(b"tiles/-4/0/0.webp"), None);
    assert_eq!(parse_tile_path(b"tiles/4/0/.webp"), None);
    assert_eq!(parse_tile_path(b"tiles/4/0"), None);
    assert_eq!(parse_tile_path(b"4/0/0.webp"), None);
}

#[test]
fn map_names() {
    assert_eq!(parse_map_name(b"0.webp"), Some(0));
    assert_eq!(parse_map_name(b"4294967295.webp"), Some(u32::MAX));
    assert_eq!(parse_map_name(b"4294967296.webp"), None);
    assert_eq!(parse_map_name(b"12"), Some(12));
    assert_eq!(parse_map_name(b".webp"), None);
}

#[test]
fn player_file_names() {
    assert!(is_player_file(b"f4d6ad25-8a56-4f2b-a4a4-4d5e1b2a8c3d.dat"));
    assert!(is_player_file(b"F4D6AD25-8A56-4F2B-A4A4-4D5E1B2A8C3D.dat"));
    assert!(!is_player_file(b"f4d6ad25-8a56-4f2b-a4a4-4d5e1b2a8c3d.dat_old"));
    assert!(!is_player_file(b"f4d6ad25-8a56-4f2b-a4a4-4d5e1b2a8c3.dat"));
    assert!(!is_player_file(b"g4d6ad25-8a56-4f2b-a4a4-4d5e1b2a8c3d.dat"));
    assert!(!is_player_file(b"f4d6ad25+8a56-4f2b-a4a4-4d5e1b2a8c3d.dat"));
    assert!(!is_player_file(b"f4d6ad25-8a56-4f2b-a4a4-4d5e1b2a8c3d.nbt"));
    assert!(!is_player_file(b""));
}

#[test]
fn bounds() {
    let bounds = ((-1, -2), (3, 4));
    assert!(is_within(None, 100, 100));
    assert!(is_within(Some(&bounds), -1, -2));
    assert!(is_within(Some(&bounds), 3, 4));
    assert!(is_within(Some(&bounds), 0, 0));
    assert!(!is_within(Some(&bounds), -2, 0));
    assert!(!is_within(Some(&bounds), 4, 0));
    assert!(!is_within(Some(&bounds), 0, -3));
    assert!(!is_within(Some(&bounds), 0, 5));
}

#[test]
fn regions_to_read() {
    let listing = vec![
        seen("r.0.0.mca", 50),
        seen("r.0.1.mca", 150),
        seen("r.5.5.mca", 150),
        seen("r.-1.0.mca", 101),
        seen("r.1.1.mca", 100),
    ];
    let cache = cache_written_at(100);
    assert_eq!(
        select_regions(&listing, None, &cache),
        Ok(vec![
            RegionFile { x: 0, z: 1, at: 1 },
            RegionFile { x: 5, z: 5, at: 2 },
            RegionFile { x: -1, z: 0, at: 3 },
        ])
    );
    let bounds = ((-1, 0), (0, 1));
    assert_eq!(
        select_regions(&listing, Some(&bounds), &cache),
        Ok(vec![RegionFile { x: 0, z: 1, at: 1 }, RegionFile { x: -1, z: 0, at: 3 }])
    );
    let fresh = Cache::new("0.14.0");
    assert_eq!(select_regions(&listing, None, &fresh).unwrap().len(), 5);
}

#[test]
fn a_name_that_names_no_region_fails() {
    let listing = vec![seen("r.0.0.mca", 50), seen("r.zero.0.mca", 50), seen("r.0", 50)];
    assert_eq!(select_regions(&listing, None, &Cache::new("0.14.0")), Err(1));
}

#[test]
fn players_in_the_order_of_their_names() {
    let listing = vec![
        seen("ffffffff-0000-0000-0000-000000000000.dat", 150),
        seen("00000000-0000-0000-0000-000000000001.dat", 50),
        seen("notes.txt", 150),
        seen("00000000-0000-0000-0000-000000000000.dat", 150),
        seen("0fffffff-ffff-ffff-ffff-ffffffffffff.dat", 150),
        seen("00000000-0000-0000-0000-000000000001.dat_old", 150),
    ];
    let at: Vec<usize> = sort_players(&listing).as_slice().iter().map(|p| p.at).collect();
    assert_eq!(at, [3, 1, 4, 0]);
    assert_eq!(
        select_players(&listing, &cache_written_at(100)),
        [
            PlayerChoice { index: 0, at: 3 },
            PlayerChoice { index: 2, at: 4 },
            PlayerChoice { index: 3, at: 0 },
        ]
    );
    assert_eq!(select_players(&listing, &Cache::new("0.14.0")).len(), 4);
    assert!(select_players(&listing, &cache_written_at(150)).is_empty());
}

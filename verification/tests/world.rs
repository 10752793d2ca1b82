use fastnbt::{ByteArray, Value};
use little_a_map::cache::{Cache, PlayerIds, Stored};
use little_a_map::canvas::{Canvas, Layer};
use little_a_map::geo::{features, Feature};
use little_a_map::level::Level;
use little_a_map::page::index_page;
use little_a_map::read::{read_level, read_map_data, read_map_meta, read_player};
use little_a_map::render::plan_root;
use little_a_map::report::{banners_outdated, is_current, summary, Report, Summary};
use little_a_map::scan::{MapEntry, MapScan};
use little_a_map::search::{select_players, Seen};
use little_a_map::ids::{ascending, IdSet};
use little_a_map::tile::Tile;
use little_a_map::time::Timestamp;
use std::collections::HashMap;
use std::io::Write;

const PLAYER: &str = "f4d6ad25-8a56-4f2b-a4a4-4d5e1b2a8c3d.dat";

fn compound(members: Vec<(&str, Value)>) -> Value {
    Value::Compound(members.into_iter().map(|(k, v)| (k.to_string(), v)).collect::<HashMap<_, _>>())
}

fn text(s: &str) -> Value {
    Value::String(s.to_string())
}

fn file(value: &Value) -> Vec<u8> {
    let mut encoder = flate2::write::GzEncoder::new(Vec::new(), flate2::Compression::default());
    encoder.write_all(&fastnbt::to_bytes(value).unwrap()).unwrap();
    encoder.finish().unwrap()
}

fn level_dat() -> Vec<u8> {
    file(&compound(vec![(
        "Data",
        compound(vec![
            ("SpawnX", Value::Int(0)),
            ("SpawnZ", Value::Int(0)),
            ("Version", compound(vec![("Name", text("1.21.0"))])),
        ]),
    )]))
}

fn player_dat(ids: &[i32]) -> Vec<u8> {
    let items = ids
        .iter()
        .map(|&id| {
            compound(vec![
                ("id", text("minecraft:filled_map")),
                ("tag", compound(vec![("map", Value::Int(id))])),
            ])
        })
        .collect();
    file(&compound(vec![
        ("Inventory", Value::List(items)),
        ("EnderItems", Value::List(vec![])),
    ]))
}

fn map_dat(dimension: Value, scale: i8, colour: i8, banners: Vec<Value>) -> Vec<u8> {
    file(&compound(vec![(
        "data",
        compound(vec![
            ("dimension", dimension),
            ("scale", Value::Byte(scale)),
            ("xCenter", Value::Int(0)),
            ("zCenter", Value::Int(0)),
            ("banners", Value::List(banners)),
            ("colors", Value::ByteArray(ByteArray::new(vec![colour; 16384]))),
        ]),
    )]))
}

/// A world held in memory: the files and the times of their last change.
struct World {
    players: Vec<(&'static str, u64, Vec<u8>)>,
    maps: HashMap<u32, (u64, Vec<u8>)>,
}

/// What a run has left behind: the cache, and the pictures with their times.
#[derive(Default)]
struct Output {
    cache: Option<(Cache, u64)>,
    tiles: HashMap<Tile, (Timestamp, Vec<u32>, [u8; 16384])>,
    banners: Option<(Timestamp, Vec<Feature>)>,
    page_version: Option<String>,
}

fn level(bytes: &[u8]) -> Level {
    let level = read_level(bytes).unwrap();
    assert_eq!(level.check(), Ok(()));
    level
}

fn search(world: &World, output: &mut Output, now: u64) -> IdSet {
    let stored = output
        .cache
        .take()
        .map(|(cache, written)| Stored { cache: Some(cache), modified: Timestamp::from_secs(written) });
    let mut cache = Cache::open(false, stored, "0.14.0");
    let listing: Vec<Seen> = world
        .players
        .iter()
        .map(|(name, changed, _)| Seen {
            name: name.as_bytes().to_vec(),
            modified: Timestamp::from_secs(*changed),
        })
        .collect();
    let found = select_players(&listing, &cache)
        .into_iter()
        .map(|p| PlayerIds { index: p.index, ids: read_player(&world.players[p.at].2).unwrap() })
        .collect();
    cache.extend_players(found);
    let ids = cache.all_ids();
    output.cache = Some((cache, now));
    ids
}

fn render(world: &World, output: &mut Output, ids: &IdSet, level: &Level) -> Summary {
    let entries = ascending(ids)
        .as_slice()
        .iter()
        .map(|id| {
            let (changed, bytes) = &world.maps[id];
            MapEntry {
                id: *id,
                modified: Timestamp::from_secs(*changed),
                meta: read_map_meta(bytes).unwrap(),
            }
        })
        .collect();
    let scan = MapScan::run(entries);
    let mut report = Report::new();
    for root in scan.root_tiles().as_slice() {
        let plan = plan_root(&scan, root);
        let mut below = Report::of_plan(&plan);
        for leaf in &plan.leaves {
            let written = output.tiles.get(&leaf.tile).map(|t| t.0);
            if is_current(false, written, leaf.modified) {
                continue;
            }
            let layers: Vec<Layer> = leaf
                .maps
                .iter()
                .map(|m| Layer { map: *m, data: read_map_data(&world.maps[&m.id].1).unwrap() })
                .collect();
            let (canvas, drawn): (Canvas, Vec<u32>) = leaf.tile.render(&layers);
            output.tiles.insert(leaf.tile, (leaf.modified, drawn, canvas.pixels));
            below.tile_rendered();
        }
        report.add_assign(below);
    }
    let before = output.tiles.len();
    output.tiles.retain(|tile, _| {
        let path = format!("tiles/{}/{}/{}.webp", tile.zoom, tile.x, tile.y);
        report.is_stale_tile(path.as_bytes()) == Some(false)
    });
    let pruned = before - output.tiles.len();
    if let Some(modified) = scan.banners_modified() {
        if banners_outdated(false, pruned, output.banners.as_ref().map(|b| b.0), modified) {
            output.banners = Some((modified, features(&scan)));
        }
    }
    let page = index_page(level, &scan, report.maps_stacked, "little-a-map", "0.14.0").unwrap();
    assert_eq!(page.center, [0, 0]);
    output.page_version = Some(page.cache_version);
    summary(&report, pruned, 0)
}

#[test]
fn empty_world() {
    let world = World { players: vec![], maps: HashMap::new() };
    let mut output = Output::default();
    let level = level(&level_dat());
    assert_eq!((level.spawn_x, level.spawn_z), (0, 0));
    assert_eq!(level.version, "1.21.0");
    let ids = search(&world, &mut output, 100);
    assert!(ids.is_empty());
    assert_eq!(render(&world, &mut output, &ids, &level), Summary::UpToDate);
    assert!(output.tiles.is_empty());
    assert!(output.banners.is_none());
    assert_eq!(output.page_version.as_deref(), Some("0"));
}

#[test]
fn single_map_in_player_inventory() {
    let world = World {
        players: vec![(PLAYER, 50, player_dat(&[0]))],
        maps: HashMap::from([(0, (60, map_dat(Value::Int(0), 0, 5, vec![])))]),
    };
    let mut output = Output::default();
    let ids = search(&world, &mut output, 100);
    assert_eq!(ascending(&ids).as_slice(), [0]);
    let cache = &output.cache.as_ref().unwrap().0;
    assert_eq!(cache.map_ids_by_player.len(), 1);
    assert_eq!(ascending(&cache.map_ids_by_player[&0]).as_slice(), [0]);
    let said = render(&world, &mut output, &ids, &level(&level_dat()));
    assert_eq!(said, Summary::Rendered { tiles: 1, maps: 0, tiles_pruned: 0, maps_pruned: 0 });
    assert_eq!(output.tiles.len(), 1);
    let (modified, drawn, pixels) = &output.tiles[&Tile::new(4, 0, 0)];
    assert_eq!(*modified, Timestamp::from_secs(60));
    assert_eq!(drawn, &[0]);
    assert!(pixels.iter().all(|&p| p == 5));
    assert!(output.banners.is_none());
    assert_eq!(output.page_version.as_deref(), Some("3c"));
}

fn stacked_world() -> World {
    let mut fine = vec![0i8; 16384];
    fine[0] = 40;
    let fine = file(&compound(vec![(
        "data",
        compound(vec![
            ("dimension", Value::Int(0)),
            ("scale", Value::Byte(0)),
            ("xCenter", Value::Int(0)),
            ("zCenter", Value::Int(0)),
            ("colors", Value::ByteArray(ByteArray::new(fine))),
        ]),
    )]));
    World {
        players: vec![(PLAYER, 50, player_dat(&[0, 1]))],
        maps: HashMap::from([(0, (60, fine)), (1, (70, map_dat(Value::Int(0), 1, 80, vec![])))]),
    }
}

#[test]
fn stacked_maps() {
    let world = stacked_world();
    let mut output = Output::default();
    let ids = search(&world, &mut output, 100);
    assert_eq!(ascending(&ids).as_slice(), [0, 1]);
    let said = render(&world, &mut output, &ids, &level(&level_dat()));
    assert_eq!(said, Summary::Rendered { tiles: 4, maps: 0, tiles_pruned: 0, maps_pruned: 0 });
    let (modified, drawn, pixels) = &output.tiles[&Tile::new(4, 0, 0)];
    assert_eq!(*modified, Timestamp::from_secs(70));
    assert_eq!(drawn, &[0, 1]);
    assert_eq!(pixels[0], 40);
    assert!(pixels[1..].iter().all(|&p| p == 80));
    assert_eq!(output.tiles[&Tile::new(4, 1, 1)].1, [1]);
}

#[test]
fn banner_on_a_map() {
    let banner = compound(vec![
        ("Color", text("red")),
        ("Pos", compound(vec![("X", Value::Int(5)), ("Y", Value::Int(64)), ("Z", Value::Int(-7))])),
    ]);
    let world = World {
        players: vec![(PLAYER, 50, player_dat(&[0]))],
        maps: HashMap::from([(0, (60, map_dat(Value::Int(0), 0, 5, vec![banner])))]),
    };
    let mut output = Output::default();
    let ids = search(&world, &mut output, 100);
    render(&world, &mut output, &ids, &level(&level_dat()));
    let (modified, list) = output.banners.as_ref().unwrap();
    assert_eq!(*modified, Timestamp::from_secs(60));
    assert_eq!(list.len(), 1);
    assert_eq!((list[0].x, list[0].z), (5, -7));
    assert_eq!(list[0].color, "red");
    assert_eq!(list[0].name, None);
    assert!(!list[0].unique);
    assert_eq!(list[0].maps, [0]);
}

#[test]
fn unsupported_dimension() {
    let world = World {
        players: vec![(PLAYER, 50, player_dat(&[0]))],
        maps: HashMap::from([(0, (60, map_dat(text("minecraft:the_nether"), 0, 5, vec![])))]),
    };
    let mut output = Output::default();
    let ids = search(&world, &mut output, 100);
    assert_eq!(ascending(&ids).as_slice(), [0]);
    assert_eq!(render(&world, &mut output, &ids, &level(&level_dat())), Summary::UpToDate);
    assert!(output.tiles.is_empty());
}

#[test]
fn incremental_rerun() {
    let world = stacked_world();
    let mut output = Output::default();
    let level = level(&level_dat());
    let first = search(&world, &mut output, 100);
    render(&world, &mut output, &first, &level);
    let tiles: HashMap<Tile, Timestamp> = output.tiles.iter().map(|(t, v)| (*t, v.0)).collect();
    let page = output.page_version.clone();

    let second = search(&world, &mut output, 200);
    assert_eq!(second, first);
    assert_eq!(output.cache.as_ref().unwrap().1, 200);
    assert_eq!(render(&world, &mut output, &second, &level), Summary::UpToDate);
    let after: HashMap<Tile, Timestamp> = output.tiles.iter().map(|(t, v)| (*t, v.0)).collect();
    assert_eq!(after, tiles);
    assert_eq!(output.page_version, page);
}

#[test]
fn rerun_after_a_map_has_gone() {
    let mut world = stacked_world();
    let mut output = Output::default();
    let level = level(&level_dat());
    let first = search(&world, &mut output, 100);
    render(&world, &mut output, &first, &level);
    assert_eq!(output.tiles.len(), 4);

    world.players = vec![(PLAYER, 150, player_dat(&[0]))];
    let second = search(&world, &mut output, 200);
    assert_eq!(ascending(&second).as_slice(), [0]);
    let said = render(&world, &mut output, &second, &level);
    assert_eq!(said, Summary::Rendered { tiles: 0, maps: 0, tiles_pruned: 3, maps_pruned: 0 });
    assert_eq!(output.tiles.len(), 1);
}

use fastnbt::{ByteArray, IntArray, Value};
use little_a_map::ids::ascending;
use little_a_map::map::MapMeta;
use little_a_map::nbt::{DecodeError, Tag};
use little_a_map::nesting::is_shallow;
use little_a_map::read::{
    chunks_map_ids, decode, is_well_stored, read_level, read_map_data, read_map_meta, read_player,
    read_region, region_chunks, unpack, ReadError, RegionKind,
};
use little_a_map::tile::Tile;
use std::collections::HashMap;
use std::io::{Cursor, Write};

fn compound(members: Vec<(&str, Value)>) -> Value {
    Value::Compound(members.into_iter().map(|(k, v)| (k.to_string(), v)).collect::<HashMap<_, _>>())
}

fn text(s: &str) -> Value {
    Value::String(s.to_string())
}

fn nbt(value: &Value) -> Vec<u8> {
    fastnbt::to_bytes(value).unwrap()
}

fn gzip(bytes: &[u8]) -> Vec<u8> {
    let mut encoder = flate2::write::GzEncoder::new(Vec::new(), flate2::Compression::default());
    encoder.write_all(bytes).unwrap();
    encoder.finish().unwrap()
}

fn map_item(id: i32) -> Value {
    compound(vec![
        ("id", text("minecraft:filled_map")),
        ("tag", compound(vec![("map", Value::Int(id))])),
    ])
}

fn chest(ids: &[i32]) -> Value {
    compound(vec![
        ("id", text("minecraft:chest")),
        ("Items", Value::List(ids.iter().map(|&id| map_item(id)).collect())),
    ])
}

fn region(chunks: Vec<(usize, usize, Value)>) -> Vec<u8> {
    let mut region = fastanvil::Region::create(Cursor::new(Vec::new())).unwrap();
    for (x, z, chunk) in chunks {
        region.write_chunk(x, z, &nbt(&chunk)).unwrap();
    }
    region.into_inner().unwrap().into_inner()
}

#[test]
fn decode_every_kind() {
    let value = compound(vec![(
        "all",
        Value::List(vec![compound(vec![
            ("byte", Value::Byte(-1)),
            ("short", Value::Short(-2)),
            ("int", Value::Int(-3)),
            ("long", Value::Long(-4)),
            ("float", Value::Float(1.5)),
            ("double", Value::Double(-2.5)),
            ("string", text("five")),
            ("bytes", Value::ByteArray(ByteArray::new(vec![-6, 6]))),
            ("ints", Value::IntArray(IntArray::new(vec![-7, 7]))),
            ("longs", Value::LongArray(fastnbt::LongArray::new(vec![-8, 8]))),
            ("list", Value::List(vec![Value::Short(9), Value::Short(10)])),
            ("none", Value::List(vec![])),
        ])]),
    )]);
    let tag = decode(&nbt(&value)).unwrap();
    let Tag::Compound(root) = tag else { panic!("a compound") };
    assert_eq!(root.len(), 1);
    assert_eq!(root[0].0, "all");
    let Tag::List(items) = &root[0].1 else { panic!("a list") };
    let inner = &items[0];
    assert_eq!(inner.get("byte"), Some(&Tag::Byte(-1)));
    assert_eq!(inner.get("short"), Some(&Tag::Short(-2)));
    assert_eq!(inner.get("int"), Some(&Tag::Int(-3)));
    assert_eq!(inner.get("long"), Some(&Tag::Long(-4)));
    assert_eq!(inner.get("float"), Some(&Tag::Float(1.5f32.to_bits())));
    assert_eq!(inner.get("double"), Some(&Tag::Double((-2.5f64).to_bits())));
    assert_eq!(inner.get("string"), Some(&Tag::String("five".to_string())));
    assert_eq!(inner.get("bytes"), Some(&Tag::ByteArray(vec![-6, 6])));
    assert_eq!(inner.get("ints"), Some(&Tag::IntArray(vec![-7, 7])));
    assert_eq!(inner.get("longs"), Some(&Tag::LongArray(vec![-8, 8])));
    assert_eq!(inner.get("list"), Some(&Tag::List(vec![Tag::Short(9), Tag::Short(10)])));
    assert_eq!(inner.get("none"), Some(&Tag::List(vec![])));
    assert_eq!(inner.get("missing"), None);
    assert_eq!(inner.get("byte").unwrap().integer(), Some(-1));
    assert_eq!(inner.get("string").unwrap().integer(), None);
}

#[test]
fn decode_failures() {
    assert_eq!(decode(b"").err(), Some(ReadError::Nbt));
    assert_eq!(decode(b"not nbt").err(), Some(ReadError::Nbt));
    assert_eq!(decode(&gzip(&nbt(&compound(vec![])))).err(), Some(ReadError::Nbt));
    let mut deep = Value::Int(0);
    for _ in 0..600 {
        deep = Value::List(vec![deep]);
    }
    assert_eq!(decode(&nbt(&compound(vec![("deep", deep)]))).err(), Some(ReadError::Nbt));
}

#[test]
fn unpack_gzip() {
    let value = compound(vec![("DataVersion", Value::Int(3953))]);
    let tag = unpack(&gzip(&nbt(&value))).unwrap();
    assert_eq!(tag.get("DataVersion"), Some(&Tag::Int(3953)));
    assert_eq!(unpack(&nbt(&value)).err(), Some(ReadError::Gzip));
    assert_eq!(unpack(b"").err(), Some(ReadError::Gzip));
    assert_eq!(unpack(&gzip(b"not nbt")).err(), Some(ReadError::Nbt));
}

#[test]
fn player_file() {
    let player = compound(vec![
        ("Inventory", Value::List(vec![map_item(0)])),
        ("EnderItems", Value::List(vec![map_item(13)])),
    ]);
    assert_eq!(ascending(&read_player(&gzip(&nbt(&player))).unwrap()).as_slice(), [0, 13]);
    let broken = compound(vec![("Inventory", Value::List(vec![]))]);
    assert_eq!(
        read_player(&gzip(&nbt(&broken))).err(),
        Some(ReadError::Decode(DecodeError::Missing))
    );
    assert_eq!(read_player(&nbt(&player)).err(), Some(ReadError::Gzip));
}

#[test]
fn map_file() {
    let file = compound(vec![(
        "data",
        compound(vec![
            ("dimension", text("minecraft:overworld")),
            ("scale", Value::Byte(0)),
            ("xCenter", Value::Int(0)),
            ("zCenter", Value::Int(0)),
            ("banners", Value::List(vec![])),
            ("colors", Value::ByteArray(ByteArray::new(vec![5; 16384]))),
        ]),
    )]);
    let bytes = gzip(&nbt(&file));
    match read_map_meta(&bytes) {
        Ok(MapMeta::Normal { banners, tile }) => {
            assert!(banners.is_empty());
            assert_eq!(tile, Tile::new(4, 0, 0));
        }
        _ => panic!("an overworld map"),
    }
    let data = read_map_data(&bytes).unwrap();
    assert!(data.0.iter().all(|&p| p == 5));
    assert_eq!(read_map_meta(b"").err(), Some(ReadError::Gzip));
    assert_eq!(read_map_data(b"junk").err(), Some(ReadError::Gzip));
}

#[test]
fn level_file() {
    let file = compound(vec![(
        "Data",
        compound(vec![
            ("SpawnX", Value::Int(0)),
            ("SpawnZ", Value::Int(0)),
            ("Version", compound(vec![("Name", text("1.21.0"))])),
        ]),
    )]);
    let level = read_level(&gzip(&nbt(&file))).unwrap();
    assert_eq!((level.spawn_x, level.spawn_z), (0, 0));
    assert_eq!(level.version, "1.21.0");
    assert_eq!(
        read_level(&gzip(&nbt(&compound(vec![])))).err(),
        Some(ReadError::Decode(DecodeError::Shape))
    );
}

#[test]
fn block_region() {
    let file = region(vec![
        (0, 0, compound(vec![("block_entities", Value::List(vec![chest(&[3, 4])]))])),
        (31, 31, compound(vec![("block_entities", Value::List(vec![chest(&[9])]))])),
        (5, 7, compound(vec![("block_entities", Value::List(vec![]))])),
    ]);
    assert_eq!(region_chunks(&file).unwrap().len(), 3);
    assert_eq!(ascending(&read_region(&file, RegionKind::Blocks).unwrap()).as_slice(), [3, 4, 9]);
    assert_eq!(
        read_region(&file, RegionKind::Entities).err(),
        Some(ReadError::Decode(DecodeError::Missing))
    );
}

#[test]
fn entity_region() {
    let file = region(vec![(1, 2, compound(vec![("Entities", Value::List(vec![chest(&[5])]))]))]);
    assert_eq!(ascending(&read_region(&file, RegionKind::Entities).unwrap()).as_slice(), [5]);
}

#[test]
fn empty_region_file() {
    assert!(region_chunks(b"").unwrap().is_empty());
    assert!(read_region(b"", RegionKind::Blocks).unwrap().is_empty());
    assert!(read_region(b"", RegionKind::Entities).unwrap().is_empty());
    let blank = region(vec![]);
    assert!(read_region(&blank, RegionKind::Blocks).unwrap().is_empty());
}

#[test]
fn broken_region_file() {
    assert_eq!(region_chunks(b"short").err(), Some(ReadError::Region));
    assert_eq!(read_region(b"short", RegionKind::Blocks).err(), Some(ReadError::Region));
    let file = region(vec![(0, 0, compound(vec![]))]);
    assert_eq!(
        read_region(&file, RegionKind::Blocks).err(),
        Some(ReadError::Decode(DecodeError::Shape))
    );
}

#[test]
fn chunks_of_a_region() {
    let chest = Tag::Compound(vec![]);
    let chunk = Tag::Compound(vec![("block_entities".to_string(), Tag::List(vec![chest]))]);
    assert!(chunks_map_ids(&vec![chunk], RegionKind::Blocks).unwrap().is_empty());
    assert!(chunks_map_ids(&vec![], RegionKind::Entities).unwrap().is_empty());
    assert_eq!(
        chunks_map_ids(&vec![Tag::Int(0)], RegionKind::Entities).err(),
        Some(DecodeError::NotCompound)
    );
}

#[test]
fn chunk_stored_with_no_length() {
    let mut file = vec![0u8; 3 * 4096];
    file[2] = 2;
    file[3] = 1;
    assert!(!is_well_stored(&file));
    assert_eq!(region_chunks(&file).err(), Some(ReadError::Region));
    assert_eq!(read_region(&file, RegionKind::Blocks).err(), Some(ReadError::Region));
    file[2 * 4096 + 3] = 1;
    assert!(is_well_stored(&file));
    assert_eq!(region_chunks(&file).err(), Some(ReadError::Region));
    assert!(is_well_stored(b"short"));
    assert!(is_well_stored(&vec![0u8; 4096]));
    let beyond = {
        let mut file = vec![0u8; 4096];
        file[0] = 255;
        file[3] = 1;
        file
    };
    assert!(is_well_stored(&beyond));
}

/// A compound with one member, a list in a list and so on, `lists` deep,
/// with one byte in the innermost.
fn nested(lists: usize) -> Vec<u8> {
    let mut bytes = vec![10, 0, 0, 9, 0, 1, b'd'];
    for _ in 1..lists {
        bytes.extend([9, 0, 0, 0, 1]);
    }
    bytes.extend([1, 0, 0, 0, 1, 7]);
    bytes.push(0);
    bytes
}

#[test]
fn walk_over_nested_lists() {
    assert!(is_shallow(&nested(1)));
    assert!(is_shallow(&nested(511)));
    assert!(!is_shallow(&nested(512)));
    assert!(!is_shallow(&nested(100_000)));
    assert!(decode(&nested(3)).is_ok());
    assert!(decode(&nested(511)).is_ok());
    assert_eq!(decode(&nested(512)).err(), Some(ReadError::Nbt));
}

#[test]
fn deep_nesting_is_refused_before_it_is_decoded() {
    assert_eq!(decode(&nested(2_000_000)).err(), Some(ReadError::Nbt));
    let mut compounds = vec![10, 0, 0];
    for _ in 0..1_000_000 {
        compounds.extend([10, 0, 0]);
    }
    assert_eq!(decode(&compounds).err(), Some(ReadError::Nbt));
}

#[test]
fn walk_over_bytes_that_end_early() {
    let whole = nbt(&compound(vec![
        ("a", Value::Int(1)),
        ("b", text("two")),
        ("c", Value::List(vec![Value::Long(3), Value::Long(4)])),
        ("d", Value::LongArray(fastnbt::LongArray::new(vec![5, 6]))),
        ("e", compound(vec![("f", Value::List(vec![compound(vec![]), compound(vec![])]))])),
    ]));
    assert!(is_shallow(&whole));
    for end in 0..whole.len() {
        assert!(!is_shallow(&whole[..end]));
    }
    let mut longer = whole.clone();
    longer.extend([1, 2, 3]);
    assert!(is_shallow(&longer));
}

#[test]
fn walk_over_bytes_that_are_no_values() {
    assert!(!is_shallow(b""));
    assert!(!is_shallow(&[9, 0, 0, 1, 0, 0, 0, 0]));
    assert!(!is_shallow(&[10, 0, 0, 13, 0, 0, 0]));
    assert!(!is_shallow(&[10, 0, 0, 7, 0, 0, 255, 255, 255, 255, 0]));
    assert!(!is_shallow(&[10, 0, 0, 9, 0, 0, 0, 0, 0, 0, 1, 0]));
    assert!(is_shallow(&[10, 0, 0, 9, 0, 0, 0, 0, 0, 0, 0, 0]));
    assert!(is_shallow(&[10, 0, 0, 0]));
}

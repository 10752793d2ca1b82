use little_a_map::item::{
    entities_chunk_map_ids, entity_map_ids, item_map_ids, level_chunk_map_ids, player_map_ids,
};
use little_a_map::nbt::{DecodeError, Tag};
use little_a_map::ids::{ascending, IdSet};

fn text(s: &str) -> Tag {
    Tag::String(s.to_string())
}

fn compound(members: Vec<(&str, Tag)>) -> Tag {
    Tag::Compound(members.into_iter().map(|(k, v)| (k.to_string(), v)).collect())
}

fn ids(found: Result<IdSet, DecodeError>) -> Vec<u32> {
    ascending(&found.unwrap()).as_slice().to_vec()
}

fn old_map(id: i32) -> Tag {
    compound(vec![
        ("id", text("minecraft:filled_map")),
        ("Count", Tag::Byte(1)),
        ("tag", compound(vec![("map", Tag::Int(id))])),
    ])
}

fn new_map(id: i32) -> Tag {
    compound(vec![
        ("id", text("minecraft:filled_map")),
        ("count", Tag::Int(1)),
        ("components", compound(vec![("minecraft:map_id", Tag::Int(id))])),
    ])
}

fn old_box(color: &str, items: Vec<Tag>) -> Tag {
    compound(vec![
        ("id", text(&format!("minecraft:{color}shulker_box"))),
        (
            "tag",
            compound(vec![("BlockEntityTag", compound(vec![("Items", Tag::List(items))]))]),
        ),
    ])
}

fn new_box(color: &str, items: Vec<Tag>) -> Tag {
    let slots = items
        .into_iter()
        .enumerate()
        .map(|(slot, item)| compound(vec![("slot", Tag::Int(slot as i32)), ("item", item)]))
        .collect();
    compound(vec![
        ("id", text(&format!("minecraft:{color}shulker_box"))),
        ("components", compound(vec![("minecraft:container", Tag::List(slots))])),
    ])
}

fn bundle(color: &str, items: Vec<Tag>) -> Tag {
    compound(vec![
        ("id", text(&format!("minecraft:{color}bundle"))),
        ("components", compound(vec![("minecraft:bundle_contents", Tag::List(items))])),
    ])
}

fn player(inventory: Vec<Tag>, ender: Vec<Tag>) -> Tag {
    compound(vec![
        ("DataVersion", Tag::Int(3953)),
        ("Inventory", Tag::List(inventory)),
        ("EnderItems", Tag::List(ender)),
    ])
}

#[test]
fn in_player() {
    let ids_expected = [
        0, // Inventory
    ];
    let found = player_map_ids(&player(vec![old_map(0)], vec![]));
    assert_eq!(ids(found), ids_expected);
}

#[test]
fn filled_map_in_either_shape() {
    assert_eq!(ids(item_map_ids(&old_map(7))), [7]);
    assert_eq!(ids(item_map_ids(&new_map(8))), [8]);
}

#[test]
fn map_id_of_any_width() {
    for id in [Tag::Byte(5), Tag::Short(5), Tag::Int(5), Tag::Long(5)] {
        let item = compound(vec![
            ("id", text("minecraft:filled_map")),
            ("tag", compound(vec![("map", id)])),
        ]);
        assert_eq!(ids(item_map_ids(&item)), [5]);
    }
}

#[test]
fn renamed_map_contributes_nothing() {
    let older = compound(vec![
        ("id", text("minecraft:filled_map")),
        (
            "tag",
            compound(vec![
                ("map", Tag::Int(2)),
                ("display", compound(vec![("Name", text("\"Enlarged\""))])),
            ]),
        ),
    ]);
    assert_eq!(ids(item_map_ids(&older)), [0u32; 0]);
    let newer = compound(vec![
        ("id", text("minecraft:filled_map")),
        (
            "components",
            compound(vec![
                ("minecraft:map_id", Tag::Int(2)),
                ("minecraft:item_name", text("\"Enlarged\"")),
            ]),
        ),
    ]);
    assert_eq!(ids(item_map_ids(&newer)), [0u32; 0]);
}

#[test]
fn other_items_contribute_nothing() {
    let stone = compound(vec![("id", text("minecraft:stone")), ("count", Tag::Int(64))]);
    assert_eq!(ids(item_map_ids(&stone)), [0u32; 0]);
    let chest = compound(vec![
        ("id", text("minecraft:chest")),
        ("components", compound(vec![("minecraft:container", Tag::List(vec![]))])),
    ]);
    assert_eq!(ids(item_map_ids(&chest)), [0u32; 0]);
}

#[test]
fn shulker_boxes_of_every_colour() {
    let colours = [
        "", "black_", "blue_", "brown_", "cyan_", "gray_", "green_", "light_blue_",
        "light_gray_", "lime_", "magenta_", "orange_", "pink_", "purple_", "red_", "white_",
        "yellow_",
    ];
    for (n, colour) in colours.iter().enumerate() {
        let id = n as i32;
        assert_eq!(ids(item_map_ids(&old_box(colour, vec![old_map(id)]))), [id as u32]);
        assert_eq!(ids(item_map_ids(&new_box(colour, vec![new_map(id)]))), [id as u32]);
        assert_eq!(ids(item_map_ids(&bundle(colour, vec![new_map(id)]))), [id as u32]);
    }
    assert_eq!(ids(item_map_ids(&new_box("teal_", vec![new_map(1)]))), [0u32; 0]);
}

#[test]
fn containers_nest() {
    let inner = bundle("", vec![new_map(16), new_map(3)]);
    let outer = bundle("red_", vec![inner, new_map(15)]);
    let boxed = new_box("", vec![outer, new_map(16), new_map(40)]);
    assert_eq!(ids(item_map_ids(&boxed)), [3, 15, 16, 40]);
}

#[test]
fn empty_containers() {
    let bare_bundle = compound(vec![("id", text("minecraft:bundle"))]);
    assert_eq!(ids(item_map_ids(&bare_bundle)), [0u32; 0]);
    let bare_box = compound(vec![("id", text("minecraft:shulker_box"))]);
    assert_eq!(ids(item_map_ids(&bare_box)), [0u32; 0]);
    let no_contents = compound(vec![
        ("id", text("minecraft:bundle")),
        ("components", compound(vec![])),
    ]);
    assert_eq!(ids(item_map_ids(&no_contents)), [0u32; 0]);
}

#[test]
fn older_box_with_a_broken_item_falls_back() {
    let broken = compound(vec![("Count", Tag::Byte(1))]);
    assert_eq!(ids(item_map_ids(&old_box("", vec![old_map(1), broken]))), [0u32; 0]);
}

#[test]
fn item_failures() {
    assert_eq!(item_map_ids(&Tag::Int(0)).err(), Some(DecodeError::NotCompound));
    assert_eq!(item_map_ids(&compound(vec![])).err(), Some(DecodeError::Missing));
    assert_eq!(
        item_map_ids(&compound(vec![("id", Tag::Short(358))])).err(),
        Some(DecodeError::Kind)
    );
    let bare_map = compound(vec![("id", text("minecraft:filled_map"))]);
    assert_eq!(item_map_ids(&bare_map).err(), Some(DecodeError::Shape));
    let negative = compound(vec![
        ("id", text("minecraft:filled_map")),
        ("tag", compound(vec![("map", Tag::Int(-1))])),
    ]);
    assert_eq!(item_map_ids(&negative).err(), Some(DecodeError::Shape));
    let odd_bundle = compound(vec![
        ("id", text("minecraft:bundle")),
        ("components", compound(vec![("minecraft:bundle_contents", Tag::Int(0))])),
    ]);
    assert_eq!(item_map_ids(&odd_bundle).err(), Some(DecodeError::Kind));
    let flat_bundle = compound(vec![("id", text("minecraft:bundle")), ("components", Tag::Int(0))]);
    assert_eq!(item_map_ids(&flat_bundle).err(), Some(DecodeError::NotCompound));
    let empty_slot = compound(vec![
        ("id", text("minecraft:shulker_box")),
        (
            "components",
            compound(vec![("minecraft:container", Tag::List(vec![compound(vec![])]))]),
        ),
    ]);
    assert_eq!(item_map_ids(&empty_slot).err(), Some(DecodeError::Missing));
}

#[test]
fn the_first_failure_is_reported() {
    let items = vec![new_map(1), compound(vec![]), Tag::Int(0)];
    assert_eq!(item_map_ids(&bundle("", items)).err(), Some(DecodeError::Missing));
}

#[test]
fn entity_holds_item_and_items() {
    let frame = compound(vec![("id", text("minecraft:item_frame")), ("Item", old_map(1))]);
    assert_eq!(ids(entity_map_ids(&frame)), [1]);
    let chest = compound(vec![
        ("id", text("minecraft:chest")),
        ("Items", Tag::List(vec![old_map(4), old_map(3)])),
    ]);
    assert_eq!(ids(entity_map_ids(&chest)), [3, 4]);
    let both = compound(vec![("Item", new_map(9)), ("Items", Tag::List(vec![new_map(8)]))]);
    assert_eq!(ids(entity_map_ids(&both)), [8, 9]);
    assert_eq!(ids(entity_map_ids(&compound(vec![]))), [0u32; 0]);
    assert_eq!(entity_map_ids(&Tag::Int(0)).err(), Some(DecodeError::NotCompound));
    let odd = compound(vec![("Items", Tag::Int(0))]);
    assert_eq!(entity_map_ids(&odd).err(), Some(DecodeError::Kind));
}

#[test]
fn entities_chunk() {
    let llama = compound(vec![("Items", Tag::List(vec![old_map(8)]))]);
    let minecart = compound(vec![("Items", Tag::List(vec![old_map(5)]))]);
    let chunk = compound(vec![("Entities", Tag::List(vec![llama, minecart]))]);
    assert_eq!(ids(entities_chunk_map_ids(&chunk)), [5, 8]);
    assert_eq!(entities_chunk_map_ids(&compound(vec![])).err(), Some(DecodeError::Missing));
    assert_eq!(entities_chunk_map_ids(&Tag::Int(0)).err(), Some(DecodeError::NotCompound));
}

#[test]
fn level_chunk_in_either_shape() {
    let chest = || compound(vec![("Items", Tag::List(vec![old_map(3)]))]);
    let older = compound(vec![(
        "Level",
        compound(vec![("TileEntities", Tag::List(vec![chest()]))]),
    )]);
    assert_eq!(ids(level_chunk_map_ids(&older)), [3]);
    let newer = compound(vec![("block_entities", Tag::List(vec![chest()]))]);
    assert_eq!(ids(level_chunk_map_ids(&newer)), [3]);
    assert_eq!(level_chunk_map_ids(&compound(vec![])).err(), Some(DecodeError::Shape));
}

#[test]
fn player_holds_inventory_ender_chest_and_offhand() {
    let mut tag = vec![
        ("Inventory", Tag::List(vec![new_map(12), new_box("", vec![new_map(10)])])),
        ("EnderItems", Tag::List(vec![new_map(13), new_box("", vec![new_map(14)])])),
    ];
    tag.push(("equipment", compound(vec![("offhand", new_map(0))])));
    assert_eq!(ids(player_map_ids(&compound(tag))), [0, 10, 12, 13, 14]);
}

#[test]
fn player_failures() {
    assert_eq!(player_map_ids(&Tag::Int(0)).err(), Some(DecodeError::NotCompound));
    let no_ender = compound(vec![("Inventory", Tag::List(vec![]))]);
    assert_eq!(player_map_ids(&no_ender).err(), Some(DecodeError::Missing));
    let no_inventory = compound(vec![("EnderItems", Tag::List(vec![]))]);
    assert_eq!(player_map_ids(&no_inventory).err(), Some(DecodeError::Missing));
    let flat = compound(vec![
        ("EnderItems", Tag::List(vec![])),
        ("equipment", Tag::Int(0)),
        ("Inventory", Tag::List(vec![])),
    ]);
    assert_eq!(player_map_ids(&flat).err(), Some(DecodeError::NotCompound));
}

//! Which map items a stored value refers to: an item, with the containers
//! nested in it, an entity, a chunk of entities or block entities, a player.

use crate::ids::{absorb, holding, IdSet};
use crate::nbt::{
    items_of, lemma_alike, lemma_alike_items, lemma_alike_member, lemma_lookup_member, lemma_trees,
    same_text, tree, trees, DecodeError, Tag,
};
use vstd::prelude::*;

verus! {

/// The map ids found below a value, or the reason why it could not be read.
pub type Found = Result<Set<u32>, DecodeError>;

/// Both findings together: the first failure, or else the union.
pub open spec fn both(a: Found, b: Found) -> Found {
    match a {
        Err(e) => Err(e),
        Ok(x) => match b {
            Err(e) => Err(e),
            Ok(y) => Ok(x.union(y)),
        },
    }
}

/// The findings of a sequence together: the first failure, or else the
/// union of them all.
pub open spec fn gather(findings: Seq<Found>) -> Found
    decreases findings.len(),
{
    if findings.len() == 0 {
        Ok(Set::empty())
    } else {
        both(gather(findings.drop_last()), findings.last())
    }
}

/// A member of a compound is a part of it.
pub proof fn lemma_member_smaller(tag: Tag, name: Seq<char>)
    ensures
        tag.member(name) matches Some(t) ==> decreases_to!(tag => t),
{
    match tag {
        Tag::Compound(members) => {
            lemma_lookup_member(members@, name);
            if tag.member(name) is Some {
                let t = tag.member(name).unwrap();
                let i = choose|i: int| 0 <= i < members@.len() && (#[trigger] members@[i]).1 == t;
                assert(decreases_to!(tag => members));
                assert(decreases_to!(members => members@));
                assert(decreases_to!(members@ => members@[i]));
                assert(decreases_to!(members@[i] => members@[i].1));
            }
        },
        _ => {},
    }
}

pub open spec fn is_bundle(id: Seq<char>) -> bool {
    ||| id == "minecraft:bundle"@
    ||| id == "minecraft:black_bundle"@
    ||| id == "minecraft:blue_bundle"@
    ||| id == "minecraft:brown_bundle"@
    ||| id == "minecraft:cyan_bundle"@
    ||| id == "minecraft:gray_bundle"@
    ||| id == "minecraft:green_bundle"@
    ||| id == "minecraft:light_blue_bundle"@
    ||| id == "minecraft:light_gray_bundle"@
    ||| id == "minecraft:lime_bundle"@
    ||| id == "minecraft:magenta_bundle"@
    ||| id == "minecraft:orange_bundle"@
    ||| id == "minecraft:pink_bundle"@
    ||| id == "minecraft:purple_bundle"@
    ||| id == "minecraft:red_bundle"@
    ||| id == "minecraft:white_bundle"@
    ||| id == "minecraft:yellow_bundle"@
}

pub open spec fn is_shulker_box(id: Seq<char>) -> bool {
    ||| id == "minecraft:shulker_box"@
    ||| id == "minecraft:black_shulker_box"@
    ||| id == "minecraft:blue_shulker_box"@
    ||| id == "minecraft:brown_shulker_box"@
    ||| id == "minecraft:cyan_shulker_box"@
    ||| id == "minecraft:gray_shulker_box"@
    ||| id == "minecraft:green_shulker_box"@
    ||| id == "minecraft:light_blue_shulker_box"@
    ||| id == "minecraft:light_gray_shulker_box"@
    ||| id == "minecraft:lime_shulker_box"@
    ||| id == "minecraft:magenta_shulker_box"@
    ||| id == "minecraft:orange_shulker_box"@
    ||| id == "minecraft:pink_shulker_box"@
    ||| id == "minecraft:purple_shulker_box"@
    ||| id == "minecraft:red_shulker_box"@
    ||| id == "minecraft:white_shulker_box"@
    ||| id == "minecraft:yellow_shulker_box"@
}

pub open spec fn is_filled_map(id: Seq<char>) -> bool {
    id == "minecraft:filled_map"@
}

/// The id that an integer tag gives: the number it holds, where that is no
/// less than zero and fits 32 bits.
pub open spec fn map_id(tag: Tag) -> Result<u32, DecodeError> {
    match tag.number() {
        None => Err(DecodeError::Kind),
        Some(n) => if 0 <= n <= u32::MAX {
            Ok(n as u32)
        } else {
            Err(DecodeError::Range)
        },
    }
}

/// The id of a map item whose data is the compound `data`: member
/// `id_name`, unless the item was given a name, which shows in a member
/// `label_name` and keeps the map out.
pub open spec fn labelled_map(data: Tag, id_name: Seq<char>, label_name: Seq<char>) -> Result<
    Option<u32>,
    DecodeError,
> {
    match data {
        Tag::Compound(_) => match data.member(id_name) {
            None => Err(DecodeError::Missing),
            Some(m) => match map_id(m) {
                Err(e) => Err(e),
                Ok(id) => if data.member(label_name) is Some {
                    Ok(None)
                } else {
                    Ok(Some(id))
                },
            },
        },
        _ => Err(DecodeError::NotCompound),
    }
}

/// A map item in the shape of a member `holder` that holds the data.
pub open spec fn held_map(
    item: Tag,
    holder: Seq<char>,
    id_name: Seq<char>,
    label_name: Seq<char>,
) -> Result<Option<u32>, DecodeError> {
    match item.member(holder) {
        None => Err(DecodeError::Missing),
        Some(data) => labelled_map(data, id_name, label_name),
    }
}

pub open spec fn one_or_none(found: Option<u32>) -> Set<u32> {
    match found {
        Some(id) => set![id],
        None => Set::empty(),
    }
}

/// What a filled map item refers to. The older shape keeps the id in
/// `tag.map` and a given name in `tag.display`; the newer one keeps them in
/// `components`, as `minecraft:map_id` and `minecraft:item_name`. The older
/// shape is tried first. A map with a given name refers to nothing.
pub open spec fn filled_map_ids(item: Tag) -> Found {
    match held_map(item, "tag"@, "map"@, "display"@) {
        Ok(found) => Ok(one_or_none(found)),
        Err(_) => match held_map(
            item,
            "components"@,
            "minecraft:map_id"@,
            "minecraft:item_name"@,
        ) {
            Ok(found) => Ok(one_or_none(found)),
            Err(_) => Err(DecodeError::Shape),
        },
    }
}

/// The name by which an item tells what it is: its member `id`.
pub open spec fn item_name(item: Tag) -> Result<Seq<char>, DecodeError> {
    match item {
        Tag::Compound(_) => match item.member("id"@) {
            None => Err(DecodeError::Missing),
            Some(Tag::String(id)) => Ok(id@),
            Some(_) => Err(DecodeError::Kind),
        },
        _ => Err(DecodeError::NotCompound),
    }
}

/// The map ids that an item refers to, itself or through what it holds.
pub open spec fn item_ids(item: Tag) -> Found
    decreases item, 3int,
{
    match item_name(item) {
        Err(e) => Err(e),
        Ok(id) => if is_bundle(id) {
            bundle_ids(item)
        } else if is_shulker_box(id) {
            shulker_box_ids(item)
        } else if is_filled_map(id) {
            filled_map_ids(item)
        } else {
            Ok(Set::empty())
        },
    }
}

/// The finding for each item of a list.
pub open spec fn item_findings(items: Seq<Tag>) -> Seq<Found>
    decreases items, 0int,
{
    Seq::new(
        items.len(),
        |i: int|
            if 0 <= i < items.len() {
                item_ids(items[i])
            } else {
                Ok(Set::empty())
            },
    )
}

/// The findings for each item of a list, together.
pub open spec fn all_item_ids(items: Seq<Tag>) -> Found
    decreases items, 1int,
{
    gather(item_findings(items))
}

/// The items in a member that may be missing and else holds a list.
pub open spec fn listed_item_ids(holder: Tag, name: Seq<char>) -> Found
    decreases holder, 0int,
{
    match holder.member(name) {
        None => Ok(Set::empty()),
        Some(Tag::List(items)) => {
            proof {
                lemma_member_smaller(holder, name);
            }
            all_item_ids(items@)
        },
        Some(_) => Err(DecodeError::Kind),
    }
}

/// A bundle: the items listed in `components`, under
/// `minecraft:bundle_contents`.
pub open spec fn bundle_ids(item: Tag) -> Found
    decreases item, 1int,
{
    match item.member("components"@) {
        None => Ok(Set::empty()),
        Some(c) => match c {
            Tag::Compound(_) => {
                proof {
                    lemma_member_smaller(item, "components"@);
                }
                listed_item_ids(c, "minecraft:bundle_contents"@)
            },
            _ => Err(DecodeError::NotCompound),
        },
    }
}

/// The finding for each slot of a container.
pub open spec fn slot_findings(slots: Seq<Tag>) -> Seq<Found>
    decreases slots, 0int,
{
    Seq::new(
        slots.len(),
        |i: int|
            if 0 <= i < slots.len() {
                slot_ids(slots[i])
            } else {
                Ok(Set::empty())
            },
    )
}

/// The item in each slot of a container, together.
pub open spec fn all_slot_ids(slots: Seq<Tag>) -> Found
    decreases slots, 1int,
{
    gather(slot_findings(slots))
}

pub open spec fn slot_ids(slot: Tag) -> Found
    decreases slot, 1int,
{
    match slot {
        Tag::Compound(_) => match slot.member("item"@) {
            None => Err(DecodeError::Missing),
            Some(item) => {
                proof {
                    lemma_member_smaller(slot, "item"@);
                }
                item_ids(item)
            },
        },
        _ => Err(DecodeError::NotCompound),
    }
}

/// A shulker box in the newer shape: the slots listed in `components`,
/// under `minecraft:container`.
pub open spec fn container_ids(item: Tag) -> Found
    decreases item, 1int,
{
    match item.member("components"@) {
        None => Ok(Set::empty()),
        Some(c) => match c {
            Tag::Compound(_) => match c.member("minecraft:container"@) {
                None => Ok(Set::empty()),
                Some(Tag::List(slots)) => {
                    proof {
                        lemma_member_smaller(item, "components"@);
                        lemma_member_smaller(c, "minecraft:container"@);
                    }
                    all_slot_ids(slots@)
                },
                Some(_) => Err(DecodeError::Kind),
            },
            _ => Err(DecodeError::NotCompound),
        },
    }
}

/// A shulker box in the older shape: the block entity kept in
/// `tag.BlockEntityTag`.
pub open spec fn boxed_entity_ids(item: Tag) -> Found
    decreases item, 1int,
{
    match item.member("tag"@) {
        None => Err(DecodeError::Missing),
        Some(t) => match t.member("BlockEntityTag"@) {
            None => Err(DecodeError::Missing),
            Some(b) => {
                proof {
                    lemma_member_smaller(item, "tag"@);
                    lemma_member_smaller(t, "BlockEntityTag"@);
                }
                entity_ids(b)
            },
        },
    }
}

/// A shulker box: the older shape where the item has it, else the newer.
pub open spec fn shulker_box_ids(item: Tag) -> Found
    decreases item, 2int,
{
    match boxed_entity_ids(item) {
        Ok(ids) => Ok(ids),
        Err(_) => container_ids(item),
    }
}

/// An entity or block entity: what it holds in `Items` and in `Item`.
pub open spec fn entity_ids(entity: Tag) -> Found
    decreases entity, 1int,
{
    match entity {
        Tag::Compound(_) => both(
            listed_item_ids(entity, "Items"@),
            match entity.member("Item"@) {
                None => Ok(Set::empty()),
                Some(item) => {
                    proof {
                        lemma_member_smaller(entity, "Item"@);
                    }
                    item_ids(item)
                },
            },
        ),
        _ => Err(DecodeError::NotCompound),
    }
}

/// The finding for each entity of a list.
pub open spec fn entity_findings(entities: Seq<Tag>) -> Seq<Found> {
    Seq::new(entities.len(), |i: int| entity_ids(entities[i]))
}

/// The findings for each entity of a list, together.
pub open spec fn all_entity_ids(entities: Seq<Tag>) -> Found {
    gather(entity_findings(entities))
}

/// The entities in a member that must be there and hold a list.
pub open spec fn listed_entity_ids(holder: Tag, name: Seq<char>) -> Found {
    match holder.member(name) {
        None => Err(DecodeError::Missing),
        Some(Tag::List(entities)) => all_entity_ids(entities@),
        Some(_) => Err(DecodeError::Kind),
    }
}

/// A chunk of an entity region: the entities listed in `Entities`.
pub open spec fn entities_chunk_ids(chunk: Tag) -> Found {
    match chunk {
        Tag::Compound(_) => listed_entity_ids(chunk, "Entities"@),
        _ => Err(DecodeError::NotCompound),
    }
}

/// A chunk of a block region. Its block entities are listed in
/// `Level.TileEntities` in the older shape and in `block_entities` in the
/// newer one; the older shape is tried first.
pub open spec fn level_chunk_ids(chunk: Tag) -> Found {
    let older = match chunk.member("Level"@) {
        None => Err(DecodeError::Missing),
        Some(level) => listed_entity_ids(level, "TileEntities"@),
    };
    match older {
        Ok(ids) => Ok(ids),
        Err(_) => match listed_entity_ids(chunk, "block_entities"@) {
            Ok(ids) => Ok(ids),
            Err(_) => Err(DecodeError::Shape),
        },
    }
}

/// The items in a member that must be there and hold a list.
pub open spec fn required_item_ids(holder: Tag, name: Seq<char>) -> Found {
    match holder.member(name) {
        None => Err(DecodeError::Missing),
        Some(Tag::List(items)) => all_item_ids(items@),
        Some(_) => Err(DecodeError::Kind),
    }
}

/// What a player holds in the off hand: `equipment.offhand`, where both are
/// there.
pub open spec fn offhand_ids(player: Tag) -> Found {
    match player.member("equipment"@) {
        None => Ok(Set::empty()),
        Some(equipment) => match equipment {
            Tag::Compound(_) => match equipment.member("offhand"@) {
                None => Ok(Set::empty()),
                Some(item) => item_ids(item),
            },
            _ => Err(DecodeError::NotCompound),
        },
    }
}

/// A player: the ender chest, the off hand and the inventory.
pub open spec fn player_ids(player: Tag) -> Found {
    match player {
        Tag::Compound(_) => both(
            both(required_item_ids(player, "EnderItems"@), offhand_ids(player)),
            required_item_ids(player, "Inventory"@),
        ),
        _ => Err(DecodeError::NotCompound),
    }
}

/// One more finding joins those before it.
pub proof fn lemma_gather_step(findings: Seq<Found>, i: int)
    requires
        0 <= i < findings.len(),
    ensures
        gather(findings.take(i + 1)) == both(gather(findings.take(i)), findings[i]),
{
    assert(findings.take(i + 1).drop_last() =~= findings.take(i));
}

/// A failure among the first findings is the failure of them all.
pub proof fn lemma_gather_failure(findings: Seq<Found>, i: int)
    requires
        0 <= i <= findings.len(),
        gather(findings.take(i)) is Err,
    ensures
        gather(findings) == gather(findings.take(i)),
    decreases findings.len() - i,
{
    if i < findings.len() {
        lemma_gather_step(findings, i);
        lemma_gather_failure(findings, i + 1);
    } else {
        assert(findings.take(i) =~= findings);
    }
}

/// Whether what a decoder returned is the finding `f`.
pub open spec fn is_finding(r: Result<IdSet, DecodeError>, f: Found) -> bool {
    match r {
        Ok(ids) => f == Ok::<Set<u32>, DecodeError>(ids@),
        Err(e) => f == Err::<Set<u32>, DecodeError>(e),
    }
}

fn bundle_name(id: &str) -> (b: bool)
    ensures
        b == is_bundle(id@),
{
    same_text(id, "minecraft:bundle") || same_text(id, "minecraft:black_bundle") || same_text(
        id,
        "minecraft:blue_bundle",
    ) || same_text(id, "minecraft:brown_bundle") || same_text(id, "minecraft:cyan_bundle")
        || same_text(id, "minecraft:gray_bundle") || same_text(id, "minecraft:green_bundle")
        || same_text(id, "minecraft:light_blue_bundle") || same_text(
        id,
        "minecraft:light_gray_bundle",
    ) || same_text(id, "minecraft:lime_bundle") || same_text(id, "minecraft:magenta_bundle")
        || same_text(id, "minecraft:orange_bundle") || same_text(id, "minecraft:pink_bundle")
        || same_text(id, "minecraft:purple_bundle") || same_text(id, "minecraft:red_bundle")
        || same_text(id, "minecraft:white_bundle") || same_text(id, "minecraft:yellow_bundle")
}

fn shulker_box_name(id: &str) -> (b: bool)
    ensures
        b == is_shulker_box(id@),
{
    same_text(id, "minecraft:shulker_box") || same_text(id, "minecraft:black_shulker_box")
        || same_text(id, "minecraft:blue_shulker_box") || same_text(
        id,
        "minecraft:brown_shulker_box",
    ) || same_text(id, "minecraft:cyan_shulker_box") || same_text(
        id,
        "minecraft:gray_shulker_box",
    ) || same_text(id, "minecraft:green_shulker_box") || same_text(
        id,
        "minecraft:light_blue_shulker_box",
    ) || same_text(id, "minecraft:light_gray_shulker_box") || same_text(
        id,
        "minecraft:lime_shulker_box",
    ) || same_text(id, "minecraft:magenta_shulker_box") || same_text(
        id,
        "minecraft:orange_shulker_box",
    ) || same_text(id, "minecraft:pink_shulker_box") || same_text(
        id,
        "minecraft:purple_shulker_box",
    ) || same_text(id, "minecraft:red_shulker_box") || same_text(
        id,
        "minecraft:white_shulker_box",
    ) || same_text(id, "minecraft:yellow_shulker_box")
}

/// The id that an integer tag gives.
pub fn read_map_id(tag: &Tag) -> (r: Result<u32, DecodeError>)
    ensures
        r == map_id(*tag),
{
    match tag.integer() {
        None => Err(DecodeError::Kind),
        Some(n) => if 0 <= n && n <= 0xffff_ffff {
            Ok(n as u32)
        } else {
            Err(DecodeError::Range)
        },
    }
}

fn read_labelled_map(data: &Tag, id_name: &str, label_name: &str) -> (r: Result<
    Option<u32>,
    DecodeError,
>)
    ensures
        r == labelled_map(*data, id_name@, label_name@),
{
    match data {
        Tag::Compound(_) => match data.get(id_name) {
            None => Err(DecodeError::Missing),
            Some(m) => match read_map_id(m) {
                Err(e) => Err(e),
                Ok(id) => if data.get(label_name).is_some() {
                    Ok(None)
                } else {
                    Ok(Some(id))
                },
            },
        },
        _ => Err(DecodeError::NotCompound),
    }
}

fn read_held_map(item: &Tag, holder: &str, id_name: &str, label_name: &str) -> (r: Result<
    Option<u32>,
    DecodeError,
>)
    ensures
        r == held_map(*item, holder@, id_name@, label_name@),
{
    match item.get(holder) {
        None => Err(DecodeError::Missing),
        Some(data) => read_labelled_map(data, id_name, label_name),
    }
}

/// What a filled map item refers to.
pub fn filled_map_item(item: &Tag) -> (r: Result<IdSet, DecodeError>)
    ensures
        is_finding(r, filled_map_ids(*item)),
{
    match read_held_map(item, "tag", "map", "display") {
        Ok(found) => Ok(holding(found)),
        Err(_) => match read_held_map(
            item,
            "components",
            "minecraft:map_id",
            "minecraft:item_name",
        ) {
            Ok(found) => Ok(holding(found)),
            Err(_) => Err(DecodeError::Shape),
        },
    }
}

fn read_item_name(item: &Tag) -> (r: Result<&str, DecodeError>)
    ensures
        match r {
            Ok(id) => item_name(*item) == Ok::<Seq<char>, DecodeError>(id@),
            Err(e) => item_name(*item) == Err::<Seq<char>, DecodeError>(e),
        },
{
    match item {
        Tag::Compound(_) => match item.get("id") {
            None => Err(DecodeError::Missing),
            Some(Tag::String(id)) => Ok(id.as_str()),
            Some(_) => Err(DecodeError::Kind),
        },
        _ => Err(DecodeError::NotCompound),
    }
}

/// The empty finding.
fn nothing() -> (r: Result<IdSet, DecodeError>)
    ensures
        is_finding(r, Ok(Set::empty())),
{
    Ok(holding(None))
}

/// Both findings together.
fn together(a: Result<IdSet, DecodeError>, b: Result<IdSet, DecodeError>) -> (r: Result<
    IdSet,
    DecodeError,
>)
    ensures
        forall|x: Found, y: Found| is_finding(a, x) && is_finding(b, y) ==> is_finding(r, both(x, y)),
{
    match a {
        Err(e) => Err(e),
        Ok(mut ids) => match b {
            Err(e) => Err(e),
            Ok(more) => {
                absorb(&mut ids, &more);
                Ok(ids)
            },
        },
    }
}

/// The map ids that an item refers to, itself or through what it holds: a
/// filled map its own id, unless it was given a name; a shulker box and a
/// bundle what the items in them refer to; any other item nothing.
pub fn item_map_ids(item: &Tag) -> (r: Result<IdSet, DecodeError>)
    ensures
        is_finding(r, item_ids(*item)),
    decreases item, 3int,
{
    match read_item_name(item) {
        Err(e) => Err(e),
        Ok(id) => if bundle_name(id) {
            bundle_map_ids(item)
        } else if shulker_box_name(id) {
            shulker_box_map_ids(item)
        } else if same_text(id, "minecraft:filled_map") {
            filled_map_item(item)
        } else {
            nothing()
        },
    }
}

fn all_item_map_ids(items: &Vec<Tag>) -> (r: Result<IdSet, DecodeError>)
    ensures
        is_finding(r, all_item_ids(items@)),
    decreases items, 1int,
{
    let ghost findings = item_findings(items@);
    let mut out = holding(None);
    let mut i: usize = 0;
    while i < items.len()
        invariant
            i <= items@.len(),
            findings == item_findings(items@),
            gather(findings.take(i as int)) == Ok::<Set<u32>, DecodeError>(out@),
        decreases items@.len() - i,
    {
        proof {
            lemma_gather_step(findings, i as int);
        }
        match item_map_ids(&items[i]) {
            Ok(ids) => {
                absorb(&mut out, &ids);
            },
            Err(e) => {
                proof {
                    lemma_gather_failure(findings, i + 1);
                }
                return Err(e);
            },
        }
        i += 1;
    }
    proof {
        assert(findings.take(i as int) =~= findings);
    }
    Ok(out)
}

fn listed_item_map_ids(holder: &Tag, name: &str) -> (r: Result<IdSet, DecodeError>)
    ensures
        is_finding(r, listed_item_ids(*holder, name@)),
    decreases holder, 0int,
{
    match holder.get(name) {
        None => nothing(),
        Some(Tag::List(items)) => all_item_map_ids(items),
        Some(_) => Err(DecodeError::Kind),
    }
}

fn bundle_map_ids(item: &Tag) -> (r: Result<IdSet, DecodeError>)
    ensures
        is_finding(r, bundle_ids(*item)),
    decreases item, 1int,
{
    match item.get("components") {
        None => nothing(),
        Some(c) => match c {
            Tag::Compound(_) => listed_item_map_ids(c, "minecraft:bundle_contents"),
            _ => Err(DecodeError::NotCompound),
        },
    }
}

fn slot_map_ids(slot: &Tag) -> (r: Result<IdSet, DecodeError>)
    ensures
        is_finding(r, slot_ids(*slot)),
    decreases slot, 1int,
{
    match slot {
        Tag::Compound(_) => match slot.get("item") {
            None => Err(DecodeError::Missing),
            Some(item) => item_map_ids(item),
        },
        _ => Err(DecodeError::NotCompound),
    }
}

fn all_slot_map_ids(slots: &Vec<Tag>) -> (r: Result<IdSet, DecodeError>)
    ensures
        is_finding(r, all_slot_ids(slots@)),
    decreases slots, 1int,
{
    let ghost findings = slot_findings(slots@);
    let mut out = holding(None);
    let mut i: usize = 0;
    while i < slots.len()
        invariant
            i <= slots@.len(),
            findings == slot_findings(slots@),
            gather(findings.take(i as int)) == Ok::<Set<u32>, DecodeError>(out@),
        decreases slots@.len() - i,
    {
        proof {
            lemma_gather_step(findings, i as int);
        }
        match slot_map_ids(&slots[i]) {
            Ok(ids) => {
                absorb(&mut out, &ids);
            },
            Err(e) => {
                proof {
                    lemma_gather_failure(findings, i + 1);
                }
                return Err(e);
            },
        }
        i += 1;
    }
    proof {
        assert(findings.take(i as int) =~= findings);
    }
    Ok(out)
}

fn container_map_ids(item: &Tag) -> (r: Result<IdSet, DecodeError>)
    ensures
        is_finding(r, container_ids(*item)),
    decreases item, 1int,
{
    match item.get("components") {
        None => nothing(),
        Some(c) => match c {
            Tag::Compound(_) => match c.get("minecraft:container") {
                None => nothing(),
                Some(Tag::List(slots)) => all_slot_map_ids(slots),
                Some(_) => Err(DecodeError::Kind),
            },
            _ => Err(DecodeError::NotCompound),
        },
    }
}

fn boxed_entity_map_ids(item: &Tag) -> (r: Result<IdSet, DecodeError>)
    ensures
        is_finding(r, boxed_entity_ids(*item)),
    decreases item, 1int,
{
    match item.get("tag") {
        None => Err(DecodeError::Missing),
        Some(t) => match t.get("BlockEntityTag") {
            None => Err(DecodeError::Missing),
            Some(b) => entity_map_ids(b),
        },
    }
}

fn shulker_box_map_ids(item: &Tag) -> (r: Result<IdSet, DecodeError>)
    ensures
        is_finding(r, shulker_box_ids(*item)),
    decreases item, 2int,
{
    match boxed_entity_map_ids(item) {
        Ok(ids) => Ok(ids),
        Err(_) => container_map_ids(item),
    }
}

/// The map ids that an entity or a block entity refers to: what it holds
/// in `Items` and in `Item`.
pub fn entity_map_ids(entity: &Tag) -> (r: Result<IdSet, DecodeError>)
    ensures
        is_finding(r, entity_ids(*entity)),
    decreases entity, 1int,
{
    match entity {
        Tag::Compound(_) => {
            let many = listed_item_map_ids(entity, "Items");
            let one = match entity.get("Item") {
                None => nothing(),
                Some(item) => item_map_ids(item),
            };
            together(many, one)
        },
        _ => Err(DecodeError::NotCompound),
    }
}

fn all_entity_map_ids(entities: &Vec<Tag>) -> (r: Result<IdSet, DecodeError>)
    ensures
        is_finding(r, all_entity_ids(entities@)),
{
    let ghost findings = entity_findings(entities@);
    let mut out = holding(None);
    let mut i: usize = 0;
    while i < entities.len()
        invariant
            i <= entities@.len(),
            findings == entity_findings(entities@),
            gather(findings.take(i as int)) == Ok::<Set<u32>, DecodeError>(out@),
        decreases entities@.len() - i,
    {
        proof {
            lemma_gather_step(findings, i as int);
        }
        match entity_map_ids(&entities[i]) {
            Ok(ids) => {
                absorb(&mut out, &ids);
            },
            Err(e) => {
                proof {
                    lemma_gather_failure(findings, i + 1);
                }
                return Err(e);
            },
        }
        i += 1;
    }
    proof {
        assert(findings.take(i as int) =~= findings);
    }
    Ok(out)
}

fn listed_entity_map_ids(holder: &Tag, name: &str) -> (r: Result<IdSet, DecodeError>)
    ensures
        is_finding(r, listed_entity_ids(*holder, name@)),
{
    match holder.get(name) {
        None => Err(DecodeError::Missing),
        Some(Tag::List(entities)) => all_entity_map_ids(entities),
        Some(_) => Err(DecodeError::Kind),
    }
}

/// The map ids that a chunk of an entity region refers to.
pub fn entities_chunk_map_ids(chunk: &Tag) -> (r: Result<IdSet, DecodeError>)
    ensures
        is_finding(r, entities_chunk_ids(*chunk)),
{
    match chunk {
        Tag::Compound(_) => listed_entity_map_ids(chunk, "Entities"),
        _ => Err(DecodeError::NotCompound),
    }
}

/// The map ids that a chunk of a block region refers to, through its block
/// entities.
pub fn level_chunk_map_ids(chunk: &Tag) -> (r: Result<IdSet, DecodeError>)
    ensures
        is_finding(r, level_chunk_ids(*chunk)),
{
    let older = match chunk.get("Level") {
        None => Err(DecodeError::Missing),
        Some(level) => listed_entity_map_ids(level, "TileEntities"),
    };
    match older {
        Ok(ids) => Ok(ids),
        Err(_) => match listed_entity_map_ids(chunk, "block_entities") {
            Ok(ids) => Ok(ids),
            Err(_) => Err(DecodeError::Shape),
        },
    }
}

fn required_item_map_ids(holder: &Tag, name: &str) -> (r: Result<IdSet, DecodeError>)
    ensures
        is_finding(r, required_item_ids(*holder, name@)),
{
    match holder.get(name) {
        None => Err(DecodeError::Missing),
        Some(Tag::List(items)) => all_item_map_ids(items),
        Some(_) => Err(DecodeError::Kind),
    }
}

fn offhand_map_ids(player: &Tag) -> (r: Result<IdSet, DecodeError>)
    ensures
        is_finding(r, offhand_ids(*player)),
{
    match player.get("equipment") {
        None => nothing(),
        Some(equipment) => match equipment {
            Tag::Compound(_) => match equipment.get("offhand") {
                None => nothing(),
                Some(item) => item_map_ids(item),
            },
            _ => Err(DecodeError::NotCompound),
        },
    }
}

/// The map ids that a player refers to: in the ender chest, in the off hand
/// and in the inventory.
pub fn player_map_ids(player: &Tag) -> (r: Result<IdSet, DecodeError>)
    ensures
        is_finding(r, player_ids(*player)),
{
    match player {
        Tag::Compound(_) => {
            let ender = required_item_map_ids(player, "EnderItems");
            let offhand = offhand_map_ids(player);
            let inventory = required_item_map_ids(player, "Inventory");
            together(together(ender, offhand), inventory)
        },
        _ => Err(DecodeError::NotCompound),
    }
}

/// What is found in an item depends on what the item holds alone: two
/// tags that hold the same give the same finding. So it is for everything
/// else that this module reads.
pub proof fn lemma_same_item(a: Tag, b: Tag)
    requires
        tree(a) == tree(b),
    ensures
        item_ids(a) == item_ids(b),
    decreases a, 3int,
{
    lemma_same_name(a, b);
    lemma_same_bundle(a, b);
    lemma_same_shulker_box(a, b);
    lemma_same_filled_map(a, b);
}

proof fn lemma_same_name(a: Tag, b: Tag)
    requires
        tree(a) == tree(b),
    ensures
        item_name(a) == item_name(b),
{
    lemma_alike(a, b);
    lemma_alike_member(a, b, "id"@);
    if a.member("id"@) is Some {
        lemma_alike(a.member("id"@)->0, b.member("id"@)->0);
    }
}

proof fn lemma_same_labelled(a: Tag, b: Tag, id_name: Seq<char>, label_name: Seq<char>)
    requires
        tree(a) == tree(b),
    ensures
        labelled_map(a, id_name, label_name) == labelled_map(b, id_name, label_name),
{
    lemma_alike(a, b);
    lemma_alike_member(a, b, id_name);
    lemma_alike_member(a, b, label_name);
    if a.member(id_name) is Some {
        lemma_alike(a.member(id_name)->0, b.member(id_name)->0);
    }
}

proof fn lemma_same_held(
    a: Tag,
    b: Tag,
    holder: Seq<char>,
    id_name: Seq<char>,
    label_name: Seq<char>,
)
    requires
        tree(a) == tree(b),
    ensures
        held_map(a, holder, id_name, label_name) == held_map(b, holder, id_name, label_name),
{
    lemma_alike_member(a, b, holder);
    if a.member(holder) is Some {
        lemma_same_labelled(a.member(holder)->0, b.member(holder)->0, id_name, label_name);
    }
}

proof fn lemma_same_filled_map(a: Tag, b: Tag)
    requires
        tree(a) == tree(b),
    ensures
        filled_map_ids(a) == filled_map_ids(b),
{
    lemma_same_held(a, b, "tag"@, "map"@, "display"@);
    lemma_same_held(a, b, "components"@, "minecraft:map_id"@, "minecraft:item_name"@);
}

proof fn lemma_same_all_items(x: Seq<Tag>, y: Seq<Tag>)
    requires
        trees(x) == trees(y),
    ensures
        all_item_ids(x) == all_item_ids(y),
    decreases x, 1int,
{
    lemma_trees(x);
    lemma_trees(y);
    assert forall|i: int| 0 <= i < x.len() implies item_ids(x[i]) == item_ids(y[i]) by {
        lemma_alike_items(x, y, i);
        lemma_same_item(x[i], y[i]);
    }
    assert(item_findings(x) =~= item_findings(y));
}

proof fn lemma_same_listed_items(a: Tag, b: Tag, name: Seq<char>)
    requires
        tree(a) == tree(b),
    ensures
        listed_item_ids(a, name) == listed_item_ids(b, name),
        required_item_ids(a, name) == required_item_ids(b, name),
    decreases a, 0int,
{
    lemma_alike_member(a, b, name);
    if a.member(name) is Some {
        let x = a.member(name)->0;
        let y = b.member(name)->0;
        lemma_alike(x, y);
        lemma_member_smaller(a, name);
        match x {
            Tag::List(items) => {
                lemma_same_all_items(items@, items_of(y)->0);
            },
            _ => {},
        }
    }
}

proof fn lemma_same_bundle(a: Tag, b: Tag)
    requires
        tree(a) == tree(b),
    ensures
        bundle_ids(a) == bundle_ids(b),
    decreases a, 1int,
{
    lemma_alike_member(a, b, "components"@);
    if a.member("components"@) is Some {
        let x = a.member("components"@)->0;
        let y = b.member("components"@)->0;
        lemma_alike(x, y);
        lemma_member_smaller(a, "components"@);
        lemma_same_listed_items(x, y, "minecraft:bundle_contents"@);
    }
}

proof fn lemma_same_slot(a: Tag, b: Tag)
    requires
        tree(a) == tree(b),
    ensures
        slot_ids(a) == slot_ids(b),
    decreases a, 1int,
{
    lemma_alike(a, b);
    lemma_alike_member(a, b, "item"@);
    if a.member("item"@) is Some {
        lemma_member_smaller(a, "item"@);
        lemma_same_item(a.member("item"@)->0, b.member("item"@)->0);
    }
}

proof fn lemma_same_all_slots(x: Seq<Tag>, y: Seq<Tag>)
    requires
        trees(x) == trees(y),
    ensures
        all_slot_ids(x) == all_slot_ids(y),
    decreases x, 1int,
{
    lemma_trees(x);
    lemma_trees(y);
    assert forall|i: int| 0 <= i < x.len() implies slot_ids(x[i]) == slot_ids(y[i]) by {
        lemma_alike_items(x, y, i);
        lemma_same_slot(x[i], y[i]);
    }
    assert(slot_findings(x) =~= slot_findings(y));
}

proof fn lemma_same_container(a: Tag, b: Tag)
    requires
        tree(a) == tree(b),
    ensures
        container_ids(a) == container_ids(b),
    decreases a, 1int,
{
    lemma_alike_member(a, b, "components"@);
    if a.member("components"@) is Some {
        let x = a.member("components"@)->0;
        let y = b.member("components"@)->0;
        lemma_alike(x, y);
        lemma_alike_member(x, y, "minecraft:container"@);
        if x.member("minecraft:container"@) is Some {
            let p = x.member("minecraft:container"@)->0;
            let q = y.member("minecraft:container"@)->0;
            lemma_alike(p, q);
            lemma_member_smaller(a, "components"@);
            lemma_member_smaller(x, "minecraft:container"@);
            match p {
                Tag::List(slots) => {
                    lemma_same_all_slots(slots@, items_of(q)->0);
                },
                _ => {},
            }
        }
    }
}

proof fn lemma_same_boxed_entity(a: Tag, b: Tag)
    requires
        tree(a) == tree(b),
    ensures
        boxed_entity_ids(a) == boxed_entity_ids(b),
    decreases a, 1int,
{
    lemma_alike_member(a, b, "tag"@);
    if a.member("tag"@) is Some {
        let x = a.member("tag"@)->0;
        let y = b.member("tag"@)->0;
        lemma_alike_member(x, y, "BlockEntityTag"@);
        if x.member("BlockEntityTag"@) is Some {
            lemma_member_smaller(a, "tag"@);
            lemma_member_smaller(x, "BlockEntityTag"@);
            lemma_same_entity(x.member("BlockEntityTag"@)->0, y.member("BlockEntityTag"@)->0);
        }
    }
}

proof fn lemma_same_shulker_box(a: Tag, b: Tag)
    requires
        tree(a) == tree(b),
    ensures
        shulker_box_ids(a) == shulker_box_ids(b),
    decreases a, 2int,
{
    lemma_same_boxed_entity(a, b);
    lemma_same_container(a, b);
}

/// What is found in an entity depends on what it holds alone.
pub proof fn lemma_same_entity(a: Tag, b: Tag)
    requires
        tree(a) == tree(b),
    ensures
        entity_ids(a) == entity_ids(b),
    decreases a, 1int,
{
    lemma_alike(a, b);
    lemma_same_listed_items(a, b, "Items"@);
    lemma_alike_member(a, b, "Item"@);
    if a.member("Item"@) is Some {
        lemma_member_smaller(a, "Item"@);
        lemma_same_item(a.member("Item"@)->0, b.member("Item"@)->0);
    }
}

proof fn lemma_same_listed_entities(a: Tag, b: Tag, name: Seq<char>)
    requires
        tree(a) == tree(b),
    ensures
        listed_entity_ids(a, name) == listed_entity_ids(b, name),
{
    lemma_alike_member(a, b, name);
    if a.member(name) is Some {
        let x = a.member(name)->0;
        let y = b.member(name)->0;
        lemma_alike(x, y);
        if items_of(x) is Some {
            let p = items_of(x)->0;
            let q = items_of(y)->0;
            lemma_trees(p);
            lemma_trees(q);
            assert forall|i: int| 0 <= i < p.len() implies entity_ids(p[i]) == entity_ids(q[i]) by {
                lemma_alike_items(p, q, i);
                lemma_same_entity(p[i], q[i]);
            }
            assert(entity_findings(p) =~= entity_findings(q));
        }
    }
}

/// What is found in a chunk of entities depends on what it holds alone.
pub proof fn lemma_same_entities_chunk(a: Tag, b: Tag)
    requires
        tree(a) == tree(b),
    ensures
        entities_chunk_ids(a) == entities_chunk_ids(b),
{
    lemma_alike(a, b);
    lemma_same_listed_entities(a, b, "Entities"@);
}

/// What is found in a chunk of blocks depends on what it holds alone.
pub proof fn lemma_same_level_chunk(a: Tag, b: Tag)
    requires
        tree(a) == tree(b),
    ensures
        level_chunk_ids(a) == level_chunk_ids(b),
{
    lemma_alike_member(a, b, "Level"@);
    if a.member("Level"@) is Some {
        lemma_same_listed_entities(a.member("Level"@)->0, b.member("Level"@)->0, "TileEntities"@);
    }
    lemma_same_listed_entities(a, b, "block_entities"@);
}

/// What is found with a player depends on what the player's file holds
/// alone.
pub proof fn lemma_same_player(a: Tag, b: Tag)
    requires
        tree(a) == tree(b),
    ensures
        player_ids(a) == player_ids(b),
{
    lemma_alike(a, b);
    lemma_same_listed_items(a, b, "EnderItems"@);
    lemma_same_listed_items(a, b, "Inventory"@);
    lemma_alike_member(a, b, "equipment"@);
    if a.member("equipment"@) is Some {
        let x = a.member("equipment"@)->0;
        let y = b.member("equipment"@)->0;
        lemma_alike(x, y);
        lemma_alike_member(x, y, "offhand"@);
        if x.member("offhand"@) is Some {
            lemma_same_item(x.member("offhand"@)->0, y.member("offhand"@)->0);
        }
    }
}

} // verus!

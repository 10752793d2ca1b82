//! From the bytes of a file to what it says: unpacking, decoding the tagged
//! values, and reading the record.

use crate::ids::{absorb, holding, IdSet};
use crate::item::{
    entities_chunk_ids, entities_chunk_map_ids, gather, is_finding, lemma_gather_failure,
    lemma_gather_step, lemma_same_entities_chunk, lemma_same_level_chunk, lemma_same_player,
    level_chunk_ids, level_chunk_map_ids, player_ids, player_map_ids, Found,
};
use crate::level::{lemma_same_level, level_of, Level, LevelView};
use crate::map::{
    lemma_same_meta, lemma_same_pixels, meta_of, pixels_of, MapData, MapMeta, MetaView,
};
use crate::nbt::{
    fits, is_leaf, lemma_fits_compound, lemma_fits_list, lemma_trees, member_trees, tree, trees,
    DecodeError, Tag, Tree,
};
use crate::nesting::{is_shallow, shallow};
use fastnbt::Value;
use vstd::prelude::*;

verus! {

/// Why a file could not be read.
#[derive(Clone, Copy, Debug, PartialEq, Eq, Structural)]
pub enum ReadError {
    /// The file is no gzip stream.
    Gzip,
    /// The bytes are no tagged values, or values nested deeper than 512
    /// levels.
    Nbt,
    /// The file is no region file.
    Region,
    /// The values are not the record that was asked for.
    Decode(DecodeError),
}

/// What `flate2` unpacks a gzip stream to: nothing where the bytes are
/// none.
pub uninterp spec fn gunzipped(bytes: Seq<u8>) -> Option<Seq<u8>>;

/// Unpacks a gzip stream with `flate2::read::GzDecoder`, read to its end.
/// Not proved: that the result is `gunzipped` of the bytes, which only says
/// that the same bytes are always unpacked to the same.
#[verifier::external_body]
fn gunzip(bytes: &[u8]) -> (r: Option<Vec<u8>>)
    ensures
        match r {
            Some(out) => gunzipped(bytes@) == Some(out@),
            None => gunzipped(bytes@) is None,
        },
{
    let mut out = Vec::new();
    let mut decoder = flate2::read::GzDecoder::new(bytes);
    std::io::Read::read_to_end(&mut decoder, &mut out).ok().map(|_| out)
}

/// The chunks that `fastanvil` finds in a region file, each unpacked, in
/// the order in which it goes through them: nothing where it fails.
pub uninterp spec fn anvil_chunks(bytes: Seq<u8>) -> Option<Seq<Seq<u8>>>;

/// The bytes of each of the chunks.
pub open spec fn chunk_bytes(chunks: Seq<Vec<u8>>) -> Seq<Seq<u8>> {
    chunks.map_values(|c: Vec<u8>| c@)
}

/// Where the chunk with the number `k` is stored, as the head of a region
/// file says: the first three bytes of its entry, in sectors of 4096 bytes.
pub open spec fn chunk_start(bytes: Seq<u8>, k: int) -> int {
    ((bytes[4 * k] * 256 + bytes[4 * k + 1]) * 256 + bytes[4 * k + 2]) * 4096
}

/// Whether the head of a region file has an entry for the chunk `k`.
pub open spec fn has_chunk(bytes: Seq<u8>, k: int) -> bool {
    bytes[4 * k] != 0 || bytes[4 * k + 1] != 0 || bytes[4 * k + 2] != 0 || bytes[4 * k + 3] != 0
}

/// Whether the chunk `k` is stored with a length of zero, which leaves no
/// room for the byte that tells how it is packed.
pub open spec fn without_length(bytes: Seq<u8>, k: int) -> bool {
    let at = chunk_start(bytes, k);
    at + 4 <= bytes.len() && bytes[at] == 0 && bytes[at + 1] == 0 && bytes[at + 2] == 0 && bytes[at
        + 3] == 0
}

/// Whether a region file can be gone through: where it has a whole head,
/// no chunk with an entry there is stored with a length of zero.
pub open spec fn well_stored(bytes: Seq<u8>) -> bool {
    bytes.len() >= 4096 ==> forall|k: int|
        0 <= k < 1024 && #[trigger] has_chunk(bytes, k) ==> !without_length(bytes, k)
}

/// Whether a region file can be gone through.
pub fn is_well_stored(bytes: &[u8]) -> (b: bool)
    ensures
        b == well_stored(bytes@),
{
    let len = bytes.len();
    if len < 4096 {
        return true;
    }
    let mut k: usize = 0;
    while k < 1024
        invariant
            k <= 1024,
            len == bytes@.len(),
            len >= 4096,
            forall|j: int| 0 <= j < k && #[trigger] has_chunk(bytes@, j) ==> !without_length(bytes@, j),
        decreases 1024 - k,
    {
        let a = bytes[4 * k];
        let b = bytes[4 * k + 1];
        let c = bytes[4 * k + 2];
        let d = bytes[4 * k + 3];
        if a != 0 || b != 0 || c != 0 || d != 0 {
            let at: u64 = ((a as u64 * 256 + b as u64) * 256 + c as u64) * 4096;
            if at + 4 <= len as u64 {
                let at = at as usize;
                if bytes[at] == 0 && bytes[at + 1] == 0 && bytes[at + 2] == 0 && bytes[at + 3] == 0 {
                    proof {
                        assert(has_chunk(bytes@, k as int) && without_length(bytes@, k as int));
                    }
                    return false;
                }
            }
        }
        k += 1;
    }
    true
}

/// Opens the bytes as a region with `fastanvil::Region::from_stream` and
/// collects the data of the chunks that `Region::iter` yields, up to the
/// first failure. Not proved: that the result is `anvil_chunks` of the
/// bytes, which only says that the same bytes always hold the same chunks.
/// A chunk that is stored with a length of zero is kept out: `fastanvil`
/// takes one from that length without looking.
#[verifier::external_body]
fn read_chunks(bytes: &[u8]) -> (r: Option<Vec<Vec<u8>>>)
    requires
        well_stored(bytes@),
    ensures
        match r {
            Some(chunks) => anvil_chunks(bytes@) == Some(chunk_bytes(chunks@)),
            None => anvil_chunks(bytes@) is None,
        },
{
    let mut region = fastanvil::Region::from_stream(std::io::Cursor::new(bytes)).ok()?;
    region.iter().map(|chunk| chunk.ok().map(|c| c.data)).collect()
}

#[verifier::external_type_specification]
#[verifier::external_body]
pub struct ExNbtValue(fastnbt::Value);

/// What `fastnbt` decodes bytes to: nothing where it fails.
pub uninterp spec fn nbt_tree(bytes: Seq<u8>) -> Option<Tree>;

/// What a value of `fastnbt` holds.
pub uninterp spec fn tree_of(value: Value) -> Tree;

/// What each of the values holds.
pub open spec fn value_trees(values: Seq<Value>) -> Seq<Tree> {
    Seq::new(values.len(), |i: int| tree_of(values[i]))
}

/// What the members hold, by their names.
pub open spec fn value_members(members: Seq<(String, Value)>) -> Map<Seq<char>, Tree>
    decreases members.len(),
{
    if members.len() == 0 {
        Map::empty()
    } else {
        value_members(members.drop_first()).insert(members[0].0@, tree_of(members[0].1))
    }
}

/// No two of the members have one name.
pub open spec fn distinct_names(members: Seq<(String, Value)>) -> bool {
    forall|i: int, j: int|
        0 <= i < j < members.len() ==> (#[trigger] members[i]).0@ != (#[trigger] members[j]).0@
}

/// What `peel_leaf` claims of its result.
pub open spec fn is_peeled_leaf(value: Value, r: Option<Tag>) -> bool {
    match r {
        Some(tag) => is_leaf(tree_of(value)) && tree(tag) == tree_of(value),
        None => !is_leaf(tree_of(value)),
    }
}

/// What `peel_nested` claims of its result.
spec fn is_peeled_nested(value: Value, r: Nested) -> bool {
    match r {
        Nested::List(items) => tree_of(value) == Tree::List(value_trees(items@)),
        Nested::Compound(members) => distinct_names(members@) && tree_of(value) == Tree::Compound(
            value_members(members@),
        ),
        Nested::Neither => is_leaf(tree_of(value)),
    }
}

/// Decodes tagged values with `fastnbt::from_bytes` into a
/// `fastnbt::Value`. Not proved: that what the value holds is `nbt_tree` of
/// the bytes, which only says that the same bytes are always decoded to
/// the same. Bytes that cannot be walked as one compound, or in which
/// values are nested deeper than 512 levels, are kept out: `fastnbt`
/// descends once for each level of nesting and keeps no limit of its own.
#[verifier::external_body]
fn parse_nbt(bytes: &[u8]) -> (r: Option<Value>)
    requires
        shallow(bytes@),
    ensures
        match r {
            Some(value) => nbt_tree(bytes@) == Some(tree_of(value)),
            None => nbt_tree(bytes@) is None,
        },
{
    fastnbt::from_bytes::<Value>(bytes).ok()
}

/// What a value of `fastnbt` holds, one level deep.
enum Nested {
    List(Vec<Value>),
    Compound(Vec<(String, Value)>),
    Neither,
}

/// Tells the variants of `fastnbt::Value` that hold no further values
/// apart, and hands on what they hold. Not proved: that the tag handed on
/// holds what the value holds, and that nothing is handed on exactly for a
/// list and for a compound.
#[verifier::external_body]
fn peel_leaf(value: &Value) -> (r: Option<Tag>)
    ensures
        is_peeled_leaf(*value, r),
{
    Some(
        match value {
            Value::Byte(v) => Tag::Byte(*v),
            Value::Short(v) => Tag::Short(*v),
            Value::Int(v) => Tag::Int(*v),
            Value::Long(v) => Tag::Long(*v),
            Value::Float(v) => Tag::Float(v.to_bits()),
            Value::Double(v) => Tag::Double(v.to_bits()),
            Value::String(v) => Tag::String(v.clone()),
            Value::ByteArray(v) => Tag::ByteArray(v.to_vec()),
            Value::IntArray(v) => Tag::IntArray(v.to_vec()),
            Value::LongArray(v) => Tag::LongArray(v.to_vec()),
            _ => return None,
        },
    )
}

/// Hands on the values that a list or a compound of `fastnbt` holds. Not
/// proved: that the value holds what the values handed on hold, a list
/// place by place and a compound name by name, and that the names of a
/// compound, which come from the keys of a hash map, differ from each
/// other.
#[verifier::external_body]
fn peel_nested(value: Value) -> (r: Nested)
    ensures
        is_peeled_nested(value, r),
{
    match value {
        Value::List(items) => Nested::List(items),
        Value::Compound(members) => Nested::Compound(members.into_iter().collect()),
        _ => Nested::Neither,
    }
}

/// The deepest nesting of tagged values that is read.
pub const MAX_DEPTH: usize = 512;

/// The tags hold what the values hold, place by place.
proof fn lemma_same_trees(tags: Seq<Tag>, values: Seq<Value>)
    requires
        tags.len() == values.len(),
        forall|j: int| 0 <= j < tags.len() ==> tree(#[trigger] tags[j]) == tree_of(values[j]),
    ensures
        trees(tags) == value_trees(values),
{
    lemma_trees(tags);
    assert forall|i: int| 0 <= i < tags.len() implies trees(tags)[i] == value_trees(values)[i] by {
        assert(trees(tags)[i] == tree(tags[i]));
    }
    assert(trees(tags) =~= value_trees(values));
}

/// The tags hold what the values hold, name by name.
proof fn lemma_same_members(tags: Seq<(String, Tag)>, values: Seq<(String, Value)>)
    requires
        tags.len() == values.len(),
        forall|j: int|
            0 <= j < tags.len() ==> (#[trigger] tags[j]).0 == values[j].0 && tree(tags[j].1)
                == tree_of(values[j].1),
    ensures
        member_trees(tags) == value_members(values),
    decreases tags.len(),
{
    if tags.len() > 0 {
        let a = tags.drop_first();
        let b = values.drop_first();
        assert forall|j: int| 0 <= j < a.len() implies (#[trigger] a[j]).0 == b[j].0 && tree(a[j].1)
            == tree_of(b[j].1) by {
            assert(a[j] == tags[j + 1]);
            assert(b[j] == values[j + 1]);
        }
        lemma_same_members(a, b);
        assert(tags[0].0 == values[0].0);
    }
}

/// Members with names that differ are found under their names, and
/// nothing else is.
proof fn lemma_value_members(members: Seq<(String, Value)>)
    requires
        distinct_names(members),
    ensures
        forall|j: int|
            0 <= j < members.len() ==> value_members(members).dom().contains(
                (#[trigger] members[j]).0@,
            ) && value_members(members)[members[j].0@] == tree_of(members[j].1),
        forall|name: Seq<char>| #[trigger]
            value_members(members).dom().contains(name) ==> exists|j: int|
                0 <= j < members.len() && (#[trigger] members[j]).0@ == name,
    decreases members.len(),
{
    if members.len() > 0 {
        let rest = members.drop_first();
        assert forall|i: int, j: int| 0 <= i < j < rest.len() implies (#[trigger] rest[i]).0@ != (
        #[trigger] rest[j]).0@ by {
            assert(rest[i] == members[i + 1]);
            assert(rest[j] == members[j + 1]);
        }
        lemma_value_members(rest);
        assert forall|j: int| 0 <= j < members.len() implies value_members(members).dom().contains(
            (#[trigger] members[j]).0@,
        ) && value_members(members)[members[j].0@] == tree_of(members[j].1) by {
            if j > 0 {
                assert(rest[j - 1] == members[j]);
                assert(members[0].0@ != members[j].0@);
            }
        }
        assert forall|name: Seq<char>| #[trigger]
            value_members(members).dom().contains(name) implies exists|j: int|
            0 <= j < members.len() && (#[trigger] members[j]).0@ == name by {
            if name != members[0].0@ {
                let j = choose|j: int| 0 <= j < rest.len() && (#[trigger] rest[j]).0@ == name;
                assert(members[j + 1] == rest[j]);
            }
        }
    }
}

/// The tagged value that a value of `fastnbt` stands for, with everything
/// below it, if that is nested no deeper than `depth` levels: the tag
/// holds what the value holds, and there is none exactly when the value is
/// nested deeper.
fn tag_of(value: Value, depth: usize) -> (r: Option<Tag>)
    ensures
        r is Some == fits(tree_of(value), depth as nat),
        r matches Some(tag) ==> tree(tag) == tree_of(value),
    decreases depth,
{
    let ghost whole = tree_of(value);
    match peel_leaf(&value) {
        Some(tag) => Some(tag),
        None => {
            if depth == 0 {
                return None;
            }
            match peel_nested(value) {
                Nested::List(items) => {
                    let ghost all = items@;
                    let mut tags: Vec<Tag> = Vec::new();
                    for item in iter: items
                        invariant
                            depth > 0,
                            iter.seq() == all,
                            whole == tree_of(value),
                            whole == Tree::List(value_trees(all)),
                            tags@.len() == iter.index(),
                            forall|j: int|
                                0 <= j < tags@.len() ==> tree(#[trigger] tags@[j]) == tree_of(
                                    all[j],
                                ) && fits(tree_of(all[j]), (depth - 1) as nat),
                    {
                        match tag_of(item, depth - 1) {
                            Some(tag) => tags.push(tag),
                            None => {
                                proof {
                                    let n = iter.index() as int;
                                    assert(0 <= n < all.len());
                                    assert(value_trees(all)[n] == tree_of(item));
                                    assert(!fits(value_trees(all)[n], (depth - 1) as nat));
                                    lemma_fits_list(value_trees(all), depth as nat);
                                }
                                return None;
                            },
                        }
                    }
                    proof {
                        lemma_same_trees(tags@, all);
                        lemma_fits_list(value_trees(all), depth as nat);
                        assert forall|i: int| 0 <= i < value_trees(all).len() implies fits(
                            #[trigger] value_trees(all)[i],
                            (depth - 1) as nat,
                        ) by {
                            assert(tree(tags@[i]) == tree_of(all[i]));
                        }
                    }
                    Some(Tag::List(tags))
                },
                Nested::Compound(members) => {
                    let ghost all = members@;
                    let mut tags: Vec<(String, Tag)> = Vec::new();
                    proof {
                        lemma_value_members(all);
                    }
                    for member in iter: members
                        invariant
                            depth > 0,
                            iter.seq() == all,
                            distinct_names(all),
                            whole == tree_of(value),
                            whole == Tree::Compound(value_members(all)),
                            tags@.len() == iter.index(),
                            forall|j: int|
                                0 <= j < tags@.len() ==> (#[trigger] tags@[j]).0 == all[j].0
                                    && tree(tags@[j].1) == tree_of(all[j].1) && fits(
                                    tree_of(all[j].1),
                                    (depth - 1) as nat,
                                ),
                    {
                        let ghost n = iter.index() as int;
                        let (name, held) = member;
                        match tag_of(held, depth - 1) {
                            Some(tag) => tags.push((name, tag)),
                            None => {
                                proof {
                                    lemma_value_members(all);
                                    assert(all[n].1 == held);
                                    assert(value_members(all).dom().contains(all[n].0@));
                                    assert(!fits(
                                        value_members(all)[all[n].0@],
                                        (depth - 1) as nat,
                                    ));
                                    lemma_fits_compound(value_members(all), depth as nat);
                                }
                                return None;
                            },
                        }
                    }
                    proof {
                        lemma_same_members(tags@, all);
                        lemma_value_members(all);
                        lemma_fits_compound(value_members(all), depth as nat);
                        assert forall|name: Seq<char>|
                            value_members(all).dom().contains(name) implies fits(
                            #[trigger] value_members(all)[name],
                            (depth - 1) as nat,
                        ) by {
                            let j = choose|j: int|
                                0 <= j < all.len() && (#[trigger] all[j]).0@ == name;
                            assert(tree(tags@[j].1) == tree_of(all[j].1));
                        }
                    }
                    Some(Tag::Compound(tags))
                },
                Nested::Neither => None,
            }
        },
    }
}

/// Whether bytes are decoded: they can be walked as one compound in which
/// nothing is nested deeper than 512 levels, `fastnbt` reads them as
/// tagged values, and these are nested no deeper than `MAX_DEPTH` levels.
pub open spec fn decodes(bytes: Seq<u8>) -> bool {
    shallow(bytes) && match nbt_tree(bytes) {
        Some(t) => fits(t, 512),
        None => false,
    }
}

/// Decodes tagged values. What the bytes hold is for `fastnbt` to say:
/// this function hands on what it decodes, level by level. It succeeds
/// exactly when the bytes can be walked without going deeper than 512
/// levels, `fastnbt` decodes them, and the values are nested no deeper
/// than `MAX_DEPTH` levels; then the tag holds what `fastnbt` has decoded.
pub fn decode(bytes: &[u8]) -> (r: Result<Tag, ReadError>)
    ensures
        r is Ok == decodes(bytes@),
        r matches Ok(tag) ==> nbt_tree(bytes@) == Some(tree(tag)),
        r matches Err(e) ==> e == ReadError::Nbt,
{
    if !is_shallow(bytes) {
        return Err(ReadError::Nbt);
    }
    match parse_nbt(bytes) {
        Some(value) => match tag_of(value, MAX_DEPTH) {
            Some(tag) => Ok(tag),
            None => Err(ReadError::Nbt),
        },
        None => Err(ReadError::Nbt),
    }
}

/// Whether `tag` holds what `fastnbt` decodes the bytes to.
pub open spec fn holds_tree(bytes: Seq<u8>, tag: Tag) -> bool {
    nbt_tree(bytes) == Some(tree(tag))
}

/// Unpacks a gzip stream and decodes the tagged values in it. A file that
/// is no gzip stream fails as such; what it unpacks to is decoded as
/// `decode` does.
pub fn unpack(file: &[u8]) -> (r: Result<Tag, ReadError>)
    ensures
        match gunzipped(file@) {
            None => r == Err::<Tag, ReadError>(ReadError::Gzip),
            Some(bytes) => (r is Ok == decodes(bytes)) && (r matches Ok(tag) ==> holds_tree(
                bytes,
                tag,
            )) && (r matches Err(e) ==> e == ReadError::Nbt),
        },
{
    match gunzip(file) {
        Some(bytes) => decode(bytes.as_slice()),
        None => Err(ReadError::Gzip),
    }
}

/// The map ids that the file of a player refers to: what `player_ids`
/// finds in the tagged values that the file unpacks and decodes to. Some tag
/// holds those values, and every tag that does gives this result.
pub fn read_player(file: &[u8]) -> (r: Result<IdSet, ReadError>)
    ensures
        match gunzipped(file@) {
            None => r matches Err(e) && e == ReadError::Gzip,
            Some(bytes) => if !decodes(bytes) {
                r matches Err(e) && e == ReadError::Nbt
            } else {
                (exists|tag: Tag| #[trigger] holds_tree(bytes, tag)) && forall|tag: Tag|
                    #[trigger] holds_tree(bytes, tag) ==> match r {
                        Ok(ids) => player_ids(tag) == Ok::<Set<u32>, DecodeError>(ids@),
                        Err(ReadError::Decode(e)) => player_ids(tag) == Err::<
                            Set<u32>,
                            DecodeError,
                        >(e),
                        Err(_) => false,
                    }
            },
        },
{
    match unpack(file) {
        Err(e) => Err(e),
        Ok(tag) => {
            let r = match player_map_ids(&tag) {
                Ok(ids) => Ok(ids),
                Err(e) => Err(ReadError::Decode(e)),
            };
            proof {
                let bytes = gunzipped(file@)->0;
                assert(holds_tree(bytes, tag));
                assert forall|other: Tag| #[trigger] holds_tree(bytes, other) implies player_ids(other)
                    == player_ids(tag) by {
                    lemma_same_player(other, tag);
                }
            }
            r
        },
    }
}

/// What a map file says about its map: what `meta_of` reads from the
/// tagged values that the file unpacks and decodes to. Some tag
/// holds those values, and every tag that does gives this result.
pub fn read_map_meta(file: &[u8]) -> (r: Result<MapMeta, ReadError>)
    ensures
        match gunzipped(file@) {
            None => r matches Err(e) && e == ReadError::Gzip,
            Some(bytes) => if !decodes(bytes) {
                r matches Err(e) && e == ReadError::Nbt
            } else {
                (exists|tag: Tag| #[trigger] holds_tree(bytes, tag)) && forall|tag: Tag|
                    #[trigger] holds_tree(bytes, tag) ==> match r {
                        Ok(meta) => meta_of(tag) == Ok::<MetaView, DecodeError>(meta@),
                        Err(ReadError::Decode(e)) => meta_of(tag) == Err::<MetaView, DecodeError>(
                            e,
                        ),
                        Err(_) => false,
                    }
            },
        },
        r matches Ok(MapMeta::Normal { tile, .. }) ==> tile.valid(),
{
    match unpack(file) {
        Err(e) => Err(e),
        Ok(tag) => {
            let r = match MapMeta::from_tag(&tag) {
                Ok(meta) => Ok(meta),
                Err(e) => Err(ReadError::Decode(e)),
            };
            proof {
                let bytes = gunzipped(file@)->0;
                assert(holds_tree(bytes, tag));
                assert forall|other: Tag| #[trigger] holds_tree(bytes, other) implies meta_of(other)
                    == meta_of(tag) by {
                    lemma_same_meta(other, tag);
                }
            }
            r
        },
    }
}

/// The pixels that a map file holds: what `pixels_of` reads from the
/// tagged values that the file unpacks and decodes to. Some tag
/// holds those values, and every tag that does gives this result.
pub fn read_map_data(file: &[u8]) -> (r: Result<MapData, ReadError>)
    ensures
        match gunzipped(file@) {
            None => r matches Err(e) && e == ReadError::Gzip,
            Some(bytes) => if !decodes(bytes) {
                r matches Err(e) && e == ReadError::Nbt
            } else {
                (exists|tag: Tag| #[trigger] holds_tree(bytes, tag)) && forall|tag: Tag|
                    #[trigger] holds_tree(bytes, tag) ==> match r {
                        Ok(data) => pixels_of(tag) == Ok::<Seq<u8>, DecodeError>(data@),
                        Err(ReadError::Decode(e)) => pixels_of(tag) == Err::<Seq<u8>, DecodeError>(
                            e,
                        ),
                        Err(_) => false,
                    }
            },
        },
{
    match unpack(file) {
        Err(e) => Err(e),
        Ok(tag) => {
            let r = match MapData::from_tag(&tag) {
                Ok(data) => Ok(data),
                Err(e) => Err(ReadError::Decode(e)),
            };
            proof {
                let bytes = gunzipped(file@)->0;
                assert(holds_tree(bytes, tag));
                assert forall|other: Tag| #[trigger] holds_tree(bytes, other) implies pixels_of(other)
                    == pixels_of(tag) by {
                    lemma_same_pixels(other, tag);
                }
            }
            r
        },
    }
}

/// The head that a `level.dat` holds: what `level_of` reads from the
/// tagged values that the file unpacks and decodes to. Some tag
/// holds those values, and every tag that does gives this result.
pub fn read_level(file: &[u8]) -> (r: Result<Level, ReadError>)
    ensures
        match gunzipped(file@) {
            None => r matches Err(e) && e == ReadError::Gzip,
            Some(bytes) => if !decodes(bytes) {
                r matches Err(e) && e == ReadError::Nbt
            } else {
                (exists|tag: Tag| #[trigger] holds_tree(bytes, tag)) && forall|tag: Tag|
                    #[trigger] holds_tree(bytes, tag) ==> match r {
                        Ok(level) => level_of(tag) == Ok::<LevelView, DecodeError>(level@),
                        Err(ReadError::Decode(e)) => level_of(tag) == Err::<
                            LevelView,
                            DecodeError,
                        >(e),
                        Err(_) => false,
                    }
            },
        },
{
    match unpack(file) {
        Err(e) => Err(e),
        Ok(tag) => {
            let r = match Level::from_tag(&tag) {
                Ok(level) => Ok(level),
                Err(e) => Err(ReadError::Decode(e)),
            };
            proof {
                let bytes = gunzipped(file@)->0;
                assert(holds_tree(bytes, tag));
                assert forall|other: Tag| #[trigger] holds_tree(bytes, other) implies level_of(other)
                    == level_of(tag) by {
                    lemma_same_level(other, tag);
                }
            }
            r
        },
    }
}

/// What the regions of a directory hold.
#[derive(Clone, Copy, Debug, PartialEq, Eq, Structural)]
pub enum RegionKind {
    /// Entities: the regions below `entities`.
    Entities,
    /// Blocks with their block entities: the regions below `region`.
    Blocks,
}

/// The finding for one chunk of a region of the kind `kind`.
pub open spec fn chunk_ids(chunk: Tag, kind: RegionKind) -> Found {
    match kind {
        RegionKind::Entities => entities_chunk_ids(chunk),
        RegionKind::Blocks => level_chunk_ids(chunk),
    }
}

/// The findings for the chunks of a region, together.
pub open spec fn region_ids(chunks: Seq<Tag>, kind: RegionKind) -> Found {
    gather(Seq::new(chunks.len(), |i: int| chunk_ids(chunks[i], kind)))
}

/// What is found in a region depends on what its chunks hold alone.
pub proof fn lemma_same_region(x: Seq<Tag>, y: Seq<Tag>, kind: RegionKind)
    requires
        x.len() == y.len(),
        forall|i: int| 0 <= i < x.len() ==> tree(#[trigger] x[i]) == tree(y[i]),
    ensures
        region_ids(x, kind) == region_ids(y, kind),
{
    assert forall|i: int| 0 <= i < x.len() implies chunk_ids(x[i], kind) == chunk_ids(
        y[i],
        kind,
    ) by {
        lemma_same_entities_chunk(x[i], y[i]);
        lemma_same_level_chunk(x[i], y[i]);
    }
    assert(Seq::new(x.len(), |i: int| chunk_ids(x[i], kind)) =~= Seq::new(
        y.len(),
        |i: int| chunk_ids(y[i], kind),
    ));
}

/// The map ids that the chunks of a region refer to.
pub fn chunks_map_ids(chunks: &Vec<Tag>, kind: RegionKind) -> (r: Result<IdSet, DecodeError>)
    ensures
        is_finding(r, region_ids(chunks@, kind)),
{
    let ghost findings = Seq::new(chunks@.len(), |i: int| chunk_ids(chunks@[i], kind));
    let mut out = holding(None);
    let mut i: usize = 0;
    while i < chunks.len()
        invariant
            i <= chunks@.len(),
            findings == Seq::new(chunks@.len(), |i: int| chunk_ids(chunks@[i], kind)),
            gather(findings.take(i as int)) == Ok::<Set<u32>, DecodeError>(out@),
        decreases chunks@.len() - i,
    {
        proof {
            lemma_gather_step(findings, i as int);
        }
        let found = match kind {
            RegionKind::Entities => entities_chunk_map_ids(&chunks[i]),
            RegionKind::Blocks => level_chunk_map_ids(&chunks[i]),
        };
        match found {
            Ok(ids) => {
                absorb(&mut out, &ids);
            },
            Err(e) => {
                proof {
                    lemma_gather_failure(findings, i + 1);
                }
                return Err(e);
            },
        }
        i += 1;
    }
    proof {
        assert(findings.take(i as int) =~= findings);
    }
    Ok(out)
}

/// The chunks of a region file, each as its bytes. A file without any
/// bytes is a region without chunks, and a file in which a chunk is stored
/// with a length of zero is no region file.
pub fn region_chunks(file: &[u8]) -> (r: Result<Vec<Vec<u8>>, ReadError>)
    ensures
        match r {
            Ok(chunks) => if file@.len() == 0 {
                chunks@.len() == 0
            } else {
                well_stored(file@) && anvil_chunks(file@) == Some(chunk_bytes(chunks@))
            },
            Err(e) => e == ReadError::Region && file@.len() > 0 && (!well_stored(file@)
                || anvil_chunks(file@) is None),
        },
{
    if file.len() == 0 {
        Ok(Vec::new())
    } else if !is_well_stored(file) {
        Err(ReadError::Region)
    } else {
        match read_chunks(file) {
            Some(chunks) => Ok(chunks),
            None => Err(ReadError::Region),
        }
    }
}

/// Whether the tags hold, place by place, what `fastnbt` decodes the
/// chunks to.
pub open spec fn hold_trees(blobs: Seq<Seq<u8>>, chunks: Seq<Tag>) -> bool {
    chunks.len() == blobs.len() && forall|i: int|
        0 <= i < blobs.len() ==> holds_tree(#[trigger] blobs[i], chunks[i])
}

/// What reading a region file of the kind `kind` gives, from the chunks
/// that it holds: a chunk that is not decoded fails the file; else the
/// result is what `region_ids` finds in the tagged values of the chunks,
/// in whatever tags hold them.
pub open spec fn region_read(
    blobs: Seq<Seq<u8>>,
    kind: RegionKind,
    r: Result<IdSet, ReadError>,
) -> bool {
    if exists|i: int| 0 <= i < blobs.len() && !decodes(#[trigger] blobs[i]) {
        r matches Err(e) && e == ReadError::Nbt
    } else {
        (exists|chunks: Seq<Tag>| #[trigger] hold_trees(blobs, chunks)) && forall|
            chunks: Seq<Tag>,
        | #[trigger]
            hold_trees(blobs, chunks) ==> match r {
                Ok(ids) => region_ids(chunks, kind) == Ok::<Set<u32>, DecodeError>(ids@),
                Err(ReadError::Decode(e)) => region_ids(chunks, kind) == Err::<
                    Set<u32>,
                    DecodeError,
                >(e),
                Err(_) => false,
            }
    }
}

/// The map ids that a region file of the kind `kind` refers to: those of
/// its chunks together. A file without any bytes refers to none, and a
/// file that is no region file fails as such.
pub fn read_region(file: &[u8], kind: RegionKind) -> (r: Result<IdSet, ReadError>)
    ensures
        if file@.len() == 0 {
            r matches Ok(ids) && ids@ == Set::<u32>::empty()
        } else if !well_stored(file@) || anvil_chunks(file@) is None {
            r matches Err(e) && e == ReadError::Region
        } else {
            region_read(anvil_chunks(file@)->0, kind, r)
        },
{
    let blobs = match region_chunks(file) {
        Ok(blobs) => blobs,
        Err(e) => {
            return Err(e);
        },
    };
    let ghost held = chunk_bytes(blobs@);
    let mut chunks: Vec<Tag> = Vec::new();
    let mut i: usize = 0;
    while i < blobs.len()
        invariant
            i <= blobs@.len(),
            chunks@.len() == i,
            held == chunk_bytes(blobs@),
            file@.len() == 0 ==> blobs@.len() == 0,
            file@.len() > 0 ==> well_stored(file@) && anvil_chunks(file@) == Some(held),
            forall|j: int|
                0 <= j < i ==> decodes(#[trigger] held[j]) && holds_tree(held[j], chunks@[j]),
        decreases blobs@.len() - i,
    {
        proof {
            assert(held[i as int] == blobs@[i as int]@);
        }
        match decode(blobs[i].as_slice()) {
            Ok(tag) => chunks.push(tag),
            Err(e) => {
                proof {
                    assert(!decodes(held[i as int]));
                }
                return Err(e);
            },
        }
        i += 1;
    }
    let r = match chunks_map_ids(&chunks, kind) {
        Ok(ids) => Ok(ids),
        Err(e) => Err(ReadError::Decode(e)),
    };
    proof {
        if file@.len() == 0 {
            assert(chunks@.len() == 0);
            assert(Seq::new(chunks@.len(), |i: int| chunk_ids(chunks@[i], kind)) =~= Seq::<
                Found,
            >::empty());
        } else {
            assert(hold_trees(held, chunks@));
            assert forall|others: Seq<Tag>| #[trigger] hold_trees(held, others) implies region_ids(
                others,
                kind,
            ) == region_ids(chunks@, kind) by {
                assert forall|j: int| 0 <= j < others.len() implies tree(others[j]) == tree(
                    chunks@[j],
                ) by {
                    assert(holds_tree(held[j], others[j]));
                    assert(holds_tree(held[j], chunks@[j]));
                }
                lemma_same_region(others, chunks@, kind);
            }
        }
    }
    r
}

} // verus!

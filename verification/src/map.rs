//! Map items: the record of one map, its pixels, and what its file says
//! about where it lies.

use crate::banner::{banner_of, lemma_same_banner, Banner, BannerView};
use crate::nbt::{
    items_of, lemma_alike, lemma_alike_items, lemma_alike_member, lemma_trees, same_text, tree,
    trees, DecodeError, Tag,
};
use crate::sorted::Keyed;
use crate::tile::Tile;
use crate::time::Timestamp;
use core::cmp::Ordering;
use vstd::prelude::*;
use vstd::std_specs::cmp::PartialEqSpecImpl;

verus! {

/// One map item: its id, when its file last changed, and the tile it shows.
#[derive(Clone, Copy, Debug)]
pub struct MapItem {
    pub modified: Timestamp,
    pub id: u32,
    pub tile: Tile,
}

impl Keyed for MapItem {
    /// Maps are ordered by the time of their last change and then by id.
    /// The tile takes no part.
    open spec fn key(&self) -> int {
        self.modified.nanos * 0x1_0000_0000 + self.id
    }

    fn key_lt(&self, other: &Self) -> (b: bool) {
        self.modified.nanos < other.modified.nanos || (self.modified.nanos == other.modified.nanos
            && self.id < other.id)
    }
}

impl PartialEq for MapItem {
    /// Two maps are equal when id and time of last change are; the tile is
    /// not looked at.
    fn eq(&self, other: &Self) -> (r: bool) {
        self.modified.nanos == other.modified.nanos && self.id == other.id
    }
}

impl Eq for MapItem {

}

impl PartialEqSpecImpl for MapItem {
    open spec fn obeys_eq_spec() -> bool {
        true
    }

    open spec fn eq_spec(&self, other: &Self) -> bool {
        self.same_as(*other)
    }
}

impl MapItem {
    /// What `==` means for maps: the same id and the same time of last
    /// change.
    pub open spec fn same_as(self, other: MapItem) -> bool {
        self.modified.nanos == other.modified.nanos && self.id == other.id
    }

    /// How this map stands to `other` in the order of maps: by time of last
    /// change, then by id.
    pub fn cmp(&self, other: &MapItem) -> (o: Ordering)
        ensures
            o is Less == (self.key() < other.key()),
            o is Equal == (self.key() == other.key()),
            o is Greater == (self.key() > other.key()),
    {
        if self.key_lt(other) {
            Ordering::Less
        } else if other.key_lt(self) {
            Ordering::Greater
        } else {
            Ordering::Equal
        }
    }
}

/// The order of maps is that of the pairs of time and id, and two maps have
/// the same place in it exactly when they are equal: whatever their tiles.
pub proof fn lemma_map_order(a: MapItem, b: MapItem)
    ensures
        a.key() < b.key() <==> (a.modified.nanos < b.modified.nanos || (a.modified.nanos
            == b.modified.nanos && a.id < b.id)),
        a.key() == b.key() <==> (a.modified == b.modified && a.id == b.id),
        a.key() == b.key() <==> a.same_as(b),
{
}

/// The number of pixels of a map: 128 rows of 128.
pub const MAP_PIXELS: usize = 16384;

/// The pixels of one map: 128 rows of 128 colour indices.
pub struct MapData(pub [u8; 16384]);

impl View for MapData {
    type V = Seq<u8>;

    open spec fn view(&self) -> Seq<u8> {
        self.0@
    }
}

/// The byte that a signed byte stands for.
pub open spec fn unsigned(b: i8) -> u8 {
    if b < 0 {
        (b + 256) as u8
    } else {
        b as u8
    }
}

/// A member that a record cannot do without.
pub open spec fn required(holder: Tag, name: Seq<char>) -> Result<Tag, DecodeError> {
    match holder {
        Tag::Compound(_) => match holder.member(name) {
            Some(t) => Ok(t),
            None => Err(DecodeError::Missing),
        },
        _ => Err(DecodeError::NotCompound),
    }
}

/// The pixels that a map file holds: the bytes of `data.colors`, which must
/// be exactly 16384.
pub open spec fn pixels_of(file: Tag) -> Result<Seq<u8>, DecodeError> {
    match required(file, "data"@) {
        Err(e) => Err(e),
        Ok(data) => match required(data, "colors"@) {
            Err(e) => Err(e),
            Ok(Tag::ByteArray(colors)) => if colors@.len() == 16384 {
                Ok(Seq::new(16384, |i: int| unsigned(colors@[i])))
            } else {
                Err(DecodeError::Range)
            },
            Ok(_) => Err(DecodeError::Kind),
        },
    }
}

/// A member that a record cannot do without.
pub fn require<'a>(holder: &'a Tag, name: &str) -> (r: Result<&'a Tag, DecodeError>)
    ensures
        match r {
            Ok(t) => required(*holder, name@) == Ok::<Tag, DecodeError>(*t),
            Err(e) => required(*holder, name@) == Err::<Tag, DecodeError>(e),
        },
{
    match holder {
        Tag::Compound(_) => match holder.get(name) {
            Some(t) => Ok(t),
            None => Err(DecodeError::Missing),
        },
        _ => Err(DecodeError::NotCompound),
    }
}

impl MapData {
    /// The pixels that a map file holds.
    pub fn from_tag(file: &Tag) -> (r: Result<MapData, DecodeError>)
        ensures
            match r {
                Ok(d) => pixels_of(*file) == Ok::<Seq<u8>, DecodeError>(d@),
                Err(e) => pixels_of(*file) == Err::<Seq<u8>, DecodeError>(e),
            },
    {
        let data = match require(file, "data") {
            Ok(data) => data,
            Err(e) => {
                return Err(e);
            },
        };
        match require(data, "colors") {
            Err(e) => Err(e),
            Ok(Tag::ByteArray(colors)) => {
                if colors.len() != MAP_PIXELS {
                    return Err(DecodeError::Range);
                }
                let mut pixels: [u8; 16384] = [0u8; 16384];
                let mut i: usize = 0;
                while i < MAP_PIXELS
                    invariant
                        i <= 16384,
                        colors@.len() == 16384,
                        forall|j: int| 0 <= j < i ==> pixels@[j] == unsigned(#[trigger] colors@[j]),
                    decreases 16384 - i,
                {
                    let b: i8 = colors[i];
                    let v: u8 = if b < 0 {
                        (b as i16 + 256) as u8
                    } else {
                        b as u8
                    };
                    pixels[i] = v;
                    i += 1;
                }
                proof {
                    assert(pixels@ =~= Seq::new(16384, |i: int| unsigned(colors@[i])));
                }
                Ok(MapData(pixels))
            },
            Ok(_) => Err(DecodeError::Kind),
        }
    }
}

/// The dimension of the world that a map shows.
#[derive(Clone, Copy, Debug, PartialEq, Eq, Structural)]
pub enum Dimension {
    Nether,
    Overworld,
    End,
}

/// The dimension that a stored value names: by number, -1, 0 or 1, or by
/// name.
pub open spec fn dimension_of(tag: Tag) -> Result<Dimension, DecodeError> {
    match tag {
        Tag::String(name) => if name@ == "minecraft:the_nether"@ {
            Ok(Dimension::Nether)
        } else if name@ == "minecraft:overworld"@ {
            Ok(Dimension::Overworld)
        } else if name@ == "minecraft:the_end"@ {
            Ok(Dimension::End)
        } else {
            Err(DecodeError::Range)
        },
        _ => match tag.number() {
            Some(n) => if n == -1 {
                Ok(Dimension::Nether)
            } else if n == 0 {
                Ok(Dimension::Overworld)
            } else if n == 1 {
                Ok(Dimension::End)
            } else {
                Err(DecodeError::Range)
            },
            None => Err(DecodeError::Kind),
        },
    }
}

impl Dimension {
    /// The dimension that a stored value names.
    pub fn from_tag(tag: &Tag) -> (r: Result<Dimension, DecodeError>)
        ensures
            r == dimension_of(*tag),
    {
        match tag {
            Tag::String(name) => if same_text(name.as_str(), "minecraft:the_nether") {
                Ok(Dimension::Nether)
            } else if same_text(name.as_str(), "minecraft:overworld") {
                Ok(Dimension::Overworld)
            } else if same_text(name.as_str(), "minecraft:the_end") {
                Ok(Dimension::End)
            } else {
                Err(DecodeError::Range)
            },
            _ => match tag.integer() {
                Some(n) => if n == -1 {
                    Ok(Dimension::Nether)
                } else if n == 0 {
                    Ok(Dimension::Overworld)
                } else if n == 1 {
                    Ok(Dimension::End)
                } else {
                    Err(DecodeError::Range)
                },
                None => Err(DecodeError::Kind),
            },
        }
    }
}

/// What a map file says about its map: the tile that it shows and the
/// banners on it, or that it is no map of the overworld to be shown.
pub enum MapMeta {
    Normal { banners: Vec<Banner>, tile: Tile },
    Other,
}

/// `MapMeta` with the banners as their views.
pub ghost enum MetaView {
    Normal { banners: Seq<BannerView>, tile: Tile },
    Other,
}

/// The views of a sequence of banners.
pub open spec fn banner_views(banners: Seq<Banner>) -> Seq<BannerView> {
    banners.map_values(|b: Banner| b@)
}

impl View for MapMeta {
    type V = MetaView;

    open spec fn view(&self) -> MetaView {
        match self {
            MapMeta::Normal { banners, tile } => MetaView::Normal {
                banners: banner_views(banners@),
                tile: *tile,
            },
            MapMeta::Other => MetaView::Other,
        }
    }
}

/// The banners that a list describes, or the failure of the first that
/// cannot be read.
pub open spec fn banners_of(items: Seq<Tag>) -> Result<Seq<BannerView>, DecodeError>
    decreases items.len(),
{
    if items.len() == 0 {
        Ok(Seq::empty())
    } else {
        match banners_of(items.drop_last()) {
            Err(e) => Err(e),
            Ok(banners) => match banner_of(items.last()) {
                Err(e) => Err(e),
                Ok(b) => Ok(banners.push(b)),
            },
        }
    }
}

/// The banners in `data.banners`: none where the member is missing.
pub open spec fn stored_banners(data: Tag) -> Result<Seq<BannerView>, DecodeError> {
    match data.member("banners"@) {
        None => Ok(Seq::empty()),
        Some(Tag::List(items)) => banners_of(items@),
        Some(_) => Err(DecodeError::Kind),
    }
}

/// A number within `low..=high`, from an integer tag of any width.
pub open spec fn number_within(tag: Tag, low: int, high: int) -> Result<int, DecodeError> {
    match tag.number() {
        None => Err(DecodeError::Kind),
        Some(n) => if low <= n <= high {
            Ok(n)
        } else {
            Err(DecodeError::Range)
        },
    }
}

/// A flag that is not set where it is not stored, and else is set by any
/// number but zero.
pub open spec fn flag_in(data: Tag, name: Seq<char>) -> Result<bool, DecodeError> {
    match data.member(name) {
        None => Ok(false),
        Some(t) => match t.number() {
            None => Err(DecodeError::Kind),
            Some(n) => Ok(n != 0),
        },
    }
}

/// The scale of a map, 0 to 4: 0 where none is stored.
pub open spec fn scale_in(data: Tag) -> Result<int, DecodeError> {
    match data.member("scale"@) {
        None => Ok(0),
        Some(t) => number_within(t, 0, 4),
    }
}

/// A world coordinate that must be stored under `name`.
pub open spec fn coordinate_in(data: Tag, name: Seq<char>) -> Result<int, DecodeError> {
    match data.member(name) {
        None => Err(DecodeError::Missing),
        Some(t) => number_within(t, i32::MIN as int, i32::MAX as int),
    }
}

/// What a map file says about its map. All of `data` is read first:
/// `banners`, `dimension`, `unlimitedTracking`, `scale`, `xCenter` and
/// `zCenter`, and the first that cannot be read fails the file. The map is
/// `Normal`, with the tile of scale and centre, exactly when it shows the
/// overworld and does not track without limit.
pub open spec fn meta_of(file: Tag) -> Result<MetaView, DecodeError> {
    match required(file, "data"@) {
        Err(e) => Err(e),
        Ok(data) => match data {
            Tag::Compound(_) => match stored_banners(data) {
                Err(e) => Err(e),
                Ok(banners) => match required(data, "dimension"@) {
                    Err(e) => Err(e),
                    Ok(d) => match dimension_of(d) {
                        Err(e) => Err(e),
                        Ok(dimension) => match flag_in(data, "unlimitedTracking"@) {
                            Err(e) => Err(e),
                            Ok(unlimited) => match scale_in(data) {
                                Err(e) => Err(e),
                                Ok(scale) => match coordinate_in(data, "xCenter"@) {
                                    Err(e) => Err(e),
                                    Ok(x) => match coordinate_in(data, "zCenter"@) {
                                        Err(e) => Err(e),
                                        Ok(z) => Ok(
                                            if dimension == Dimension::Overworld && !unlimited {
                                                MetaView::Normal {
                                                    banners,
                                                    tile: Tile::at_position(
                                                        scale as u8,
                                                        x as i32,
                                                        z as i32,
                                                    ),
                                                }
                                            } else {
                                                MetaView::Other
                                            },
                                        ),
                                    },
                                },
                            },
                        },
                    },
                },
            },
            _ => Err(DecodeError::NotCompound),
        },
    }
}

/// One more banner joins those before it.
proof fn lemma_banners_step(items: Seq<Tag>, i: int)
    requires
        0 <= i < items.len(),
    ensures
        banners_of(items.take(i + 1)) == match banners_of(items.take(i)) {
            Err(e) => Err(e),
            Ok(banners) => match banner_of(items[i]) {
                Err(e) => Err(e),
                Ok(b) => Ok(banners.push(b)),
            },
        },
{
    assert(items.take(i + 1).drop_last() =~= items.take(i));
}

/// A failure among the first banners is the failure of them all.
proof fn lemma_banners_failure(items: Seq<Tag>, i: int)
    requires
        0 <= i <= items.len(),
        banners_of(items.take(i)) is Err,
    ensures
        banners_of(items) == banners_of(items.take(i)),
    decreases items.len() - i,
{
    if i < items.len() {
        lemma_banners_step(items, i);
        lemma_banners_failure(items, i + 1);
    } else {
        assert(items.take(i) =~= items);
    }
}

fn read_banners(items: &Vec<Tag>) -> (r: Result<Vec<Banner>, DecodeError>)
    ensures
        match r {
            Ok(banners) => banners_of(items@) == Ok::<Seq<BannerView>, DecodeError>(
                banner_views(banners@),
            ),
            Err(e) => banners_of(items@) == Err::<Seq<BannerView>, DecodeError>(e),
        },
{
    let mut out: Vec<Banner> = Vec::new();
    let mut i: usize = 0;
    proof {
        assert(banner_views(out@) =~= Seq::empty());
    }
    while i < items.len()
        invariant
            i <= items@.len(),
            banners_of(items@.take(i as int)) == Ok::<Seq<BannerView>, DecodeError>(
                banner_views(out@),
            ),
        decreases items@.len() - i,
    {
        proof {
            lemma_banners_step(items@, i as int);
        }
        match Banner::from_tag(&items[i]) {
            Ok(b) => {
                proof {
                    assert(banner_views(out@.push(b)) =~= banner_views(out@).push(b@));
                }
                out.push(b);
            },
            Err(e) => {
                proof {
                    lemma_banners_failure(items@, i + 1);
                }
                return Err(e);
            },
        }
        i += 1;
    }
    proof {
        assert(items@.take(i as int) =~= items@);
    }
    Ok(out)
}

fn read_stored_banners(data: &Tag) -> (r: Result<Vec<Banner>, DecodeError>)
    ensures
        match r {
            Ok(banners) => stored_banners(*data) == Ok::<Seq<BannerView>, DecodeError>(
                banner_views(banners@),
            ),
            Err(e) => stored_banners(*data) == Err::<Seq<BannerView>, DecodeError>(e),
        },
{
    match data.get("banners") {
        None => {
            let none: Vec<Banner> = Vec::new();
            proof {
                assert(banner_views(none@) =~= Seq::empty());
            }
            Ok(none)
        },
        Some(Tag::List(items)) => read_banners(items),
        Some(_) => Err(DecodeError::Kind),
    }
}

fn read_number_within(tag: &Tag, low: i64, high: i64) -> (r: Result<i64, DecodeError>)
    ensures
        match r {
            Ok(n) => number_within(*tag, low as int, high as int) == Ok::<int, DecodeError>(
                n as int,
            ),
            Err(e) => number_within(*tag, low as int, high as int) == Err::<int, DecodeError>(e),
        },
{
    match tag.integer() {
        None => Err(DecodeError::Kind),
        Some(n) => if low <= n && n <= high {
            Ok(n)
        } else {
            Err(DecodeError::Range)
        },
    }
}

fn read_flag_in(data: &Tag, name: &str) -> (r: Result<bool, DecodeError>)
    ensures
        r == flag_in(*data, name@),
{
    match data.get(name) {
        None => Ok(false),
        Some(t) => match t.integer() {
            None => Err(DecodeError::Kind),
            Some(n) => Ok(n != 0),
        },
    }
}

fn read_scale_in(data: &Tag) -> (r: Result<u8, DecodeError>)
    ensures
        match r {
            Ok(n) => scale_in(*data) == Ok::<int, DecodeError>(n as int),
            Err(e) => scale_in(*data) == Err::<int, DecodeError>(e),
        },
{
    match data.get("scale") {
        None => Ok(0),
        Some(t) => match read_number_within(t, 0, 4) {
            Ok(n) => Ok(n as u8),
            Err(e) => Err(e),
        },
    }
}

fn read_coordinate_in(data: &Tag, name: &str) -> (r: Result<i32, DecodeError>)
    ensures
        match r {
            Ok(n) => coordinate_in(*data, name@) == Ok::<int, DecodeError>(n as int),
            Err(e) => coordinate_in(*data, name@) == Err::<int, DecodeError>(e),
        },
{
    match data.get(name) {
        None => Err(DecodeError::Missing),
        Some(t) => match read_number_within(t, -0x8000_0000, 0x7fff_ffff) {
            Ok(n) => Ok(n as i32),
            Err(e) => Err(e),
        },
    }
}

impl MapMeta {
    /// What a map file says about its map.
    pub fn from_tag(file: &Tag) -> (r: Result<MapMeta, DecodeError>)
        ensures
            match r {
                Ok(m) => meta_of(*file) == Ok::<MetaView, DecodeError>(m@),
                Err(e) => meta_of(*file) == Err::<MetaView, DecodeError>(e),
            },
            r matches Ok(MapMeta::Normal { tile, .. }) ==> tile.valid(),
    {
        let data = match require(file, "data") {
            Ok(data) => data,
            Err(e) => {
                return Err(e);
            },
        };
        match data {
            Tag::Compound(_) => {},
            _ => {
                return Err(DecodeError::NotCompound);
            },
        }
        let banners = match read_stored_banners(data) {
            Ok(banners) => banners,
            Err(e) => {
                return Err(e);
            },
        };
        let dimension = match require(data, "dimension") {
            Ok(d) => match Dimension::from_tag(d) {
                Ok(dimension) => dimension,
                Err(e) => {
                    return Err(e);
                },
            },
            Err(e) => {
                return Err(e);
            },
        };
        let unlimited = match read_flag_in(data, "unlimitedTracking") {
            Ok(unlimited) => unlimited,
            Err(e) => {
                return Err(e);
            },
        };
        let scale = match read_scale_in(data) {
            Ok(scale) => scale,
            Err(e) => {
                return Err(e);
            },
        };
        let x = match read_coordinate_in(data, "xCenter") {
            Ok(x) => x,
            Err(e) => {
                return Err(e);
            },
        };
        let z = match read_coordinate_in(data, "zCenter") {
            Ok(z) => z,
            Err(e) => {
                return Err(e);
            },
        };
        let overworld = match dimension {
            Dimension::Overworld => true,
            _ => false,
        };
        if overworld && !unlimited {
            Ok(MapMeta::Normal { banners, tile: Tile::from_position(scale, x, z) })
        } else {
            Ok(MapMeta::Other)
        }
    }
}

proof fn lemma_same_required(a: Tag, b: Tag, name: Seq<char>)
    requires
        tree(a) == tree(b),
    ensures
        required(a, name) is Ok == required(b, name) is Ok,
        required(a, name) matches Err(e) ==> required(b, name) == Err::<Tag, DecodeError>(e),
        required(a, name) matches Ok(x) ==> tree(x) == tree(required(b, name)->Ok_0),
{
    lemma_alike(a, b);
    lemma_alike_member(a, b, name);
}

/// The pixels of a map are read from what its file holds alone.
pub proof fn lemma_same_pixels(a: Tag, b: Tag)
    requires
        tree(a) == tree(b),
    ensures
        pixels_of(a) == pixels_of(b),
{
    lemma_same_required(a, b, "data"@);
    if required(a, "data"@) is Ok {
        let x = required(a, "data"@)->Ok_0;
        let y = required(b, "data"@)->Ok_0;
        lemma_same_required(x, y, "colors"@);
        if required(x, "colors"@) is Ok {
            lemma_alike(required(x, "colors"@)->Ok_0, required(y, "colors"@)->Ok_0);
        }
    }
}

proof fn lemma_same_banners(x: Seq<Tag>, y: Seq<Tag>)
    requires
        trees(x) == trees(y),
    ensures
        banners_of(x) == banners_of(y),
    decreases x.len(),
{
    lemma_trees(x);
    lemma_trees(y);
    if x.len() > 0 {
        lemma_trees(x.drop_last());
        lemma_trees(y.drop_last());
        assert forall|i: int| 0 <= i < x.len() implies tree(x[i]) == tree(y[i]) by {
            lemma_alike_items(x, y, i);
        }
        assert forall|i: int| 0 <= i < x.len() - 1 implies trees(x.drop_last())[i] == trees(
            y.drop_last(),
        )[i] by {
            assert(x.drop_last()[i] == x[i]);
            assert(y.drop_last()[i] == y[i]);
        }
        assert(trees(x.drop_last()) =~= trees(y.drop_last()));
        lemma_same_banners(x.drop_last(), y.drop_last());
        lemma_same_banner(x.last(), y.last());
    }
}

proof fn lemma_same_number(a: Tag, b: Tag, name: Seq<char>)
    requires
        tree(a) == tree(b),
    ensures
        flag_in(a, name) == flag_in(b, name),
        coordinate_in(a, name) == coordinate_in(b, name),
        scale_in(a) == scale_in(b),
{
    lemma_alike_member(a, b, name);
    if a.member(name) is Some {
        lemma_alike(a.member(name)->0, b.member(name)->0);
    }
    lemma_alike_member(a, b, "scale"@);
    if a.member("scale"@) is Some {
        lemma_alike(a.member("scale"@)->0, b.member("scale"@)->0);
    }
}

/// What a map file says about its map is read from what the file holds
/// alone.
pub proof fn lemma_same_meta(a: Tag, b: Tag)
    requires
        tree(a) == tree(b),
    ensures
        meta_of(a) == meta_of(b),
{
    lemma_same_required(a, b, "data"@);
    if required(a, "data"@) is Ok {
        let x = required(a, "data"@)->Ok_0;
        let y = required(b, "data"@)->Ok_0;
        lemma_alike(x, y);
        lemma_alike_member(x, y, "banners"@);
        if x.member("banners"@) is Some {
            let p = x.member("banners"@)->0;
            let q = y.member("banners"@)->0;
            lemma_alike(p, q);
            if items_of(p) is Some {
                lemma_same_banners(items_of(p)->0, items_of(q)->0);
            }
        }
        lemma_same_required(x, y, "dimension"@);
        if required(x, "dimension"@) is Ok {
            lemma_alike(required(x, "dimension"@)->Ok_0, required(y, "dimension"@)->Ok_0);
        }
        lemma_same_number(x, y, "unlimitedTracking"@);
        lemma_same_number(x, y, "xCenter"@);
        lemma_same_number(x, y, "zCenter"@);
    }
}

} // verus!

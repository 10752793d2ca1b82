//! The scan of the map files: which maps lie on which tile, which banners
//! they show, and which root tiles have to be rendered.

use crate::banner::{position_key, Banner};
use crate::map::{MapItem, MapMeta};
use crate::sorted::{
    has_key, inserted, lemma_inserted, lemma_inserted_items, lemma_merged, lemma_merged_items,
    merged, sorted, Keyed, SortedVec,
};
use crate::tile::Tile;
use crate::time::{later, latest, Timestamp};
use vstd::prelude::*;

verus! {

/// A map in the order of the scan: by its tile, and on one tile as maps are
/// ordered, by time of last change and id.
#[derive(Clone, Copy, Debug)]
pub struct PlacedMap(pub MapItem);

impl Keyed for PlacedMap {
    open spec fn key(&self) -> int {
        self.0.tile.key() * 0x1_0000_0000_0000_0000_0000_0000_0000_0000_0000_0000int + (
        self.0.modified.nanos + 0x8000_0000_0000_0000_0000_0000_0000_0000) * 0x1_0000_0000
            + self.0.id
    }

    fn key_lt(&self, other: &Self) -> (b: bool) {
        self.0.tile.key_lt(&other.0.tile) || (!other.0.tile.key_lt(&self.0.tile)
            && self.0.key_lt(&other.0))
    }
}

/// Placed maps are ordered by tile first and then as maps are, and no two
/// share a key.
pub proof fn lemma_placed_order(a: PlacedMap, b: PlacedMap)
    ensures
        a.key() < b.key() <==> (a.0.tile.key() < b.0.tile.key() || (a.0.tile == b.0.tile
            && a.0.key() < b.0.key())),
        a.key() == b.key() <==> (a.0.tile == b.0.tile && a.0.modified == b.0.modified && a.0.id
            == b.0.id),
{
}

/// A banner seen on a map: the position of the banner and the id of the map.
#[derive(Clone, Copy, Debug, PartialEq, Eq, Structural)]
pub struct Sighting {
    pub x: i32,
    pub z: i32,
    pub id: u32,
}

impl Keyed for Sighting {
    /// Sightings are ordered by position and then by map id.
    open spec fn key(&self) -> int {
        position_key(self.x, self.z) * 0x1_0000_0000 + self.id
    }

    fn key_lt(&self, other: &Self) -> (b: bool) {
        self.x < other.x || (self.x == other.x && (self.z < other.z || (self.z == other.z
            && self.id < other.id)))
    }
}

/// One map file as the scan takes it: the id of the map, when the file last
/// changed, and what it says.
pub struct MapEntry {
    pub id: u32,
    pub modified: Timestamp,
    pub meta: MapMeta,
}

/// What a scan has found, as sequences in their order.
pub ghost struct ScanView {
    /// The banners, by position. Of several at one position the first that
    /// was seen stays.
    pub banners: Seq<Banner>,
    /// The latest change of a map that shows a banner.
    pub banners_modified: Option<Timestamp>,
    /// The maps, by tile and then by time of last change and id.
    pub maps: Seq<PlacedMap>,
    /// The latest change of a map.
    pub maps_modified: Option<Timestamp>,
    /// Which map shows a banner at which position.
    pub sightings: Seq<Sighting>,
    /// The roots of the tiles that hold a map.
    pub root_tiles: Seq<Tile>,
}

/// Every map stands on a valid tile.
pub open spec fn on_valid_tiles(maps: Seq<PlacedMap>) -> bool {
    forall|i: int| 0 <= i < maps.len() ==> (#[trigger] maps[i]).0.tile.valid()
}

/// Every root tile is a valid tile of zoom 0.
pub open spec fn valid_roots(roots: Seq<Tile>) -> bool {
    forall|j: int| 0 <= j < roots.len() ==> (#[trigger] roots[j]).valid() && roots[j].zoom == 0
}

/// The root of every map's tile is among `roots`, and every one of `roots`
/// is the root of a map's tile.
pub open spec fn roots_match(maps: Seq<PlacedMap>, roots: Seq<Tile>) -> bool {
    &&& forall|i: int|
        0 <= i < maps.len() ==> roots.contains((#[trigger] maps[i]).0.tile.root_of())
    &&& forall|j: int|
        0 <= j < roots.len() ==> exists|i: int|
            0 <= i < maps.len() && (#[trigger] maps[i]).0.tile.root_of() == #[trigger] roots[j]
}

/// `when` is the latest change of one of `maps`: unknown only where there
/// is no map.
pub open spec fn latest_change(maps: Seq<PlacedMap>, when: Option<Timestamp>) -> bool {
    match when {
        None => maps.len() == 0,
        Some(t) => {
            &&& forall|i: int|
                0 <= i < maps.len() ==> (#[trigger] maps[i]).0.modified.nanos <= t.nanos
            &&& exists|i: int| 0 <= i < maps.len() && (#[trigger] maps[i]).0.modified == t
        },
    }
}

/// `sightings` with one more for each of `banners`, all on the map `id`.
pub open spec fn sighted(sightings: Seq<Sighting>, banners: Seq<Banner>, id: u32) -> Seq<Sighting>
    decreases banners.len(),
{
    if banners.len() == 0 {
        sightings
    } else {
        inserted(
            sighted(sightings, banners.drop_last(), id),
            Sighting { x: banners.last().x, z: banners.last().z, id },
        )
    }
}

impl ScanView {
    /// Nothing found.
    pub open spec fn empty() -> ScanView {
        ScanView {
            banners: Seq::empty(),
            banners_modified: None,
            maps: Seq::empty(),
            maps_modified: None,
            sightings: Seq::empty(),
            root_tiles: Seq::empty(),
        }
    }

    /// The scan after one more overworld map: the map stands at its tile,
    /// the root of the tile is to be rendered, and each banner is kept with
    /// a sighting on this map.
    pub open spec fn with_map(
        self,
        id: u32,
        modified: Timestamp,
        tile: Tile,
        banners: Seq<Banner>,
    ) -> ScanView {
        ScanView {
            banners: merged(self.banners, banners),
            banners_modified: if banners.len() > 0 {
                latest(self.banners_modified, Some(modified))
            } else {
                self.banners_modified
            },
            maps: inserted(self.maps, PlacedMap(MapItem { modified, id, tile })),
            maps_modified: latest(self.maps_modified, Some(modified)),
            sightings: sighted(self.sightings, banners, id),
            root_tiles: inserted(self.root_tiles, tile.root_of()),
        }
    }

    /// The scan after one more map file. A file that is no overworld map to
    /// be shown adds nothing.
    pub open spec fn with_entry(self, entry: MapEntry) -> ScanView {
        match entry.meta {
            MapMeta::Normal { banners, tile } => self.with_map(
                entry.id,
                entry.modified,
                tile,
                banners@,
            ),
            MapMeta::Other => self,
        }
    }

    /// Two scans together.
    pub open spec fn union(self, other: ScanView) -> ScanView {
        ScanView {
            banners: merged(self.banners, other.banners),
            banners_modified: latest(self.banners_modified, other.banners_modified),
            maps: merged(self.maps, other.maps),
            maps_modified: latest(self.maps_modified, other.maps_modified),
            sightings: merged(self.sightings, other.sightings),
            root_tiles: merged(self.root_tiles, other.root_tiles),
        }
    }

    /// What holds of every scan: each collection is in its order, the tiles
    /// are valid, the root tiles are those of the maps, and `maps_modified`
    /// is the latest change of a map.
    #[verifier::opaque]
    pub open spec fn wf(self) -> bool {
        &&& sorted(self.banners)
        &&& sorted(self.maps)
        &&& sorted(self.sightings)
        &&& sorted(self.root_tiles)
        &&& on_valid_tiles(self.maps)
        &&& valid_roots(self.root_tiles)
        &&& roots_match(self.maps, self.root_tiles)
        &&& latest_change(self.maps, self.maps_modified)
    }
}

/// What the scan of a sequence of map files finds.
pub open spec fn scan_of(entries: Seq<MapEntry>) -> ScanView
    decreases entries.len(),
{
    if entries.len() == 0 {
        ScanView::empty()
    } else {
        scan_of(entries.drop_last()).with_entry(entries.last())
    }
}

/// Sightings stay in their order.
pub proof fn lemma_sighted(sightings: Seq<Sighting>, banners: Seq<Banner>, id: u32)
    requires
        sorted(sightings),
    ensures
        sorted(sighted(sightings, banners, id)),
    decreases banners.len(),
{
    if banners.len() > 0 {
        lemma_sighted(sightings, banners.drop_last(), id);
        lemma_inserted(
            sighted(sightings, banners.drop_last(), id),
            Sighting { x: banners.last().x, z: banners.last().z, id },
        );
    }
}

/// One more map keeps a scan well-formed.
pub proof fn lemma_with_map(
    v: ScanView,
    id: u32,
    modified: Timestamp,
    tile: Tile,
    banners: Seq<Banner>,
)
    requires
        v.wf(),
        tile.valid(),
    ensures
        v.with_map(id, modified, tile, banners).wf(),
{
    reveal(ScanView::wf);
    let p = PlacedMap(MapItem { modified, id, tile });
    lemma_merged(v.banners, banners);
    lemma_sighted(v.sightings, banners, id);
    lemma_inserted(v.maps, p);
    lemma_inserted(v.root_tiles, tile.root_of());
    lemma_valid_after(v.maps, v.root_tiles, p);
    lemma_roots_after(v.maps, v.root_tiles, p);
    lemma_latest_after(v.maps, v.maps_modified, p);
}

proof fn lemma_valid_after(maps: Seq<PlacedMap>, roots: Seq<Tile>, p: PlacedMap)
    requires
        sorted(maps),
        sorted(roots),
        on_valid_tiles(maps),
        valid_roots(roots),
        p.0.tile.valid(),
    ensures
        on_valid_tiles(inserted(maps, p)),
        valid_roots(inserted(roots, p.0.tile.root_of())),
{
    let root = p.0.tile.root_of();
    let w = inserted(maps, p);
    let r = inserted(roots, root);
    lemma_inserted_items(maps, p);
    lemma_inserted_items(roots, root);
    crate::tile::lemma_root_valid(p.0.tile);
    assert forall|i: int| 0 <= i < w.len() implies (#[trigger] w[i]).0.tile.valid() by {
        if w[i] != p {
            let j = choose|j: int| 0 <= j < maps.len() && maps[j] == w[i];
            assert(maps[j].0.tile.valid());
        }
    }
    assert forall|j: int| 0 <= j < r.len() implies (#[trigger] r[j]).valid() && r[j].zoom == 0 by {
        if r[j] != root {
            let q = choose|q: int| 0 <= q < roots.len() && roots[q] == r[j];
            assert(roots[q].valid());
        }
    }
}

proof fn lemma_roots_after(maps: Seq<PlacedMap>, roots: Seq<Tile>, p: PlacedMap)
    requires
        sorted(maps),
        sorted(roots),
        roots_match(maps, roots),
    ensures
        roots_match(inserted(maps, p), inserted(roots, p.0.tile.root_of())),
{
    let root = p.0.tile.root_of();
    let w = inserted(maps, p);
    let r = inserted(roots, root);
    lemma_inserted_items(maps, p);
    lemma_inserted_items(roots, root);
    lemma_placed_present(maps, p);
    let n = choose|n: int|
        0 <= n < w.len() && (#[trigger] w[n]).0.tile == p.0.tile && w[n].0.modified
            == p.0.modified && w[n].0.id == p.0.id;
    assert(r.contains(root)) by {
        if has_key(roots, root.key()) {
            let q = choose|q: int| 0 <= q < roots.len() && (#[trigger] roots[q]).key() == root.key();
            crate::tile::lemma_tile_order(roots[q], root);
            assert(r[q] == root);
        }
    }
    assert forall|i: int| 0 <= i < w.len() implies r.contains(
        (#[trigger] w[i]).0.tile.root_of(),
    ) by {
        if w[i] != p {
            let j = choose|j: int| 0 <= j < maps.len() && maps[j] == w[i];
            let t = maps[j].0.tile.root_of();
            assert(roots.contains(t));
            let q = choose|q: int| 0 <= q < roots.len() && roots[q] == t;
            assert(r.contains(roots[q]));
        }
    }
    assert forall|j: int| 0 <= j < r.len() implies exists|i: int|
        0 <= i < w.len() && (#[trigger] w[i]).0.tile.root_of() == #[trigger] r[j] by {
        if r[j] != root {
            let q = choose|q: int| 0 <= q < roots.len() && roots[q] == r[j];
            let i = choose|i: int|
                0 <= i < maps.len() && (#[trigger] maps[i]).0.tile.root_of() == roots[q];
            assert(w.contains(maps[i]));
            let m = choose|m: int| 0 <= m < w.len() && w[m] == maps[i];
            assert(w[m].0.tile.root_of() == r[j]);
        } else {
            assert(w[n].0.tile.root_of() == r[j]);
        }
    }
}

proof fn lemma_latest_after(maps: Seq<PlacedMap>, when: Option<Timestamp>, p: PlacedMap)
    requires
        sorted(maps),
        latest_change(maps, when),
    ensures
        latest_change(inserted(maps, p), latest(when, Some(p.0.modified))),
{
    let w = inserted(maps, p);
    let t = latest(when, Some(p.0.modified))->0;
    lemma_inserted_items(maps, p);
    lemma_placed_present(maps, p);
    let n = choose|n: int|
        0 <= n < w.len() && (#[trigger] w[n]).0.tile == p.0.tile && w[n].0.modified
            == p.0.modified && w[n].0.id == p.0.id;
    assert forall|i: int| 0 <= i < w.len() implies (#[trigger] w[i]).0.modified.nanos
        <= t.nanos by {
        if w[i] != p {
            let j = choose|j: int| 0 <= j < maps.len() && maps[j] == w[i];
            assert(maps[j].0.modified.nanos <= when->0.nanos);
        }
    }
    if t == p.0.modified {
        assert(w[n].0.modified == t);
    } else {
        let i = choose|i: int| 0 <= i < maps.len() && (#[trigger] maps[i]).0.modified == t;
        assert(w.contains(maps[i]));
        let m = choose|m: int| 0 <= m < w.len() && w[m] == maps[i];
        assert(w[m].0.modified == t);
    }
}

/// After `inserted`, a map with the tile, time and id of the new one is
/// there: the new one, or the one that had its place.
proof fn lemma_placed_present(maps: Seq<PlacedMap>, p: PlacedMap)
    requires
        sorted(maps),
    ensures
        exists|n: int|
            0 <= n < inserted(maps, p).len() && (#[trigger] inserted(maps, p)[n]).0.tile
                == p.0.tile && inserted(maps, p)[n].0.modified == p.0.modified && inserted(
                maps,
                p,
            )[n].0.id == p.0.id,
{
    let t = inserted(maps, p);
    lemma_inserted_items(maps, p);
    if has_key(maps, p.key()) {
        let n = choose|n: int| 0 <= n < maps.len() && (#[trigger] maps[n]).key() == p.key();
        lemma_placed_order(maps[n], p);
        assert(t[n].0.tile == p.0.tile);
    } else {
        let n = choose|n: int| 0 <= n < t.len() && t[n] == p;
        assert(t[n].0.tile == p.0.tile);
    }
}

/// Two scans together are a well-formed scan.
pub proof fn lemma_union(a: ScanView, b: ScanView)
    requires
        a.wf(),
        b.wf(),
    ensures
        a.union(b).wf(),
{
    reveal(ScanView::wf);
    lemma_merged(a.banners, b.banners);
    lemma_merged(a.maps, b.maps);
    lemma_merged(a.sightings, b.sightings);
    lemma_merged(a.root_tiles, b.root_tiles);
    lemma_union_valid(a.maps, b.maps, a.root_tiles, b.root_tiles);
    lemma_union_roots(a.maps, b.maps, a.root_tiles, b.root_tiles);
    lemma_union_latest(a.maps, b.maps, a.maps_modified, b.maps_modified);
}

proof fn lemma_union_valid(
    maps: Seq<PlacedMap>,
    more: Seq<PlacedMap>,
    roots: Seq<Tile>,
    more_roots: Seq<Tile>,
)
    requires
        sorted(maps),
        sorted(roots),
        on_valid_tiles(maps),
        on_valid_tiles(more),
        valid_roots(roots),
        valid_roots(more_roots),
    ensures
        on_valid_tiles(merged(maps, more)),
        valid_roots(merged(roots, more_roots)),
{
    let w = merged(maps, more);
    let r = merged(roots, more_roots);
    lemma_merged_items(maps, more);
    lemma_merged_items(roots, more_roots);
    assert forall|i: int| 0 <= i < w.len() implies (#[trigger] w[i]).0.tile.valid() by {
        if maps.contains(w[i]) {
            let j = choose|j: int| 0 <= j < maps.len() && maps[j] == w[i];
            assert(maps[j].0.tile.valid());
        } else {
            let j = choose|j: int| 0 <= j < more.len() && more[j] == w[i];
            assert(more[j].0.tile.valid());
        }
    }
    assert forall|j: int| 0 <= j < r.len() implies (#[trigger] r[j]).valid() && r[j].zoom == 0 by {
        if roots.contains(r[j]) {
            let q = choose|q: int| 0 <= q < roots.len() && roots[q] == r[j];
            assert(roots[q].valid());
        } else {
            let q = choose|q: int| 0 <= q < more_roots.len() && more_roots[q] == r[j];
            assert(more_roots[q].valid());
        }
    }
}

/// A tile whose key is held is held itself.
proof fn lemma_tile_held(roots: Seq<Tile>, t: Tile)
    requires
        has_key(roots, t.key()),
    ensures
        roots.contains(t),
{
    let q = choose|q: int| 0 <= q < roots.len() && (#[trigger] roots[q]).key() == t.key();
    crate::tile::lemma_tile_order(roots[q], t);
    assert(roots[q] == t);
}

proof fn lemma_union_roots(
    maps: Seq<PlacedMap>,
    more: Seq<PlacedMap>,
    roots: Seq<Tile>,
    more_roots: Seq<Tile>,
)
    requires
        sorted(maps),
        sorted(roots),
        roots_match(maps, roots),
        roots_match(more, more_roots),
    ensures
        roots_match(merged(maps, more), merged(roots, more_roots)),
{
    let w = merged(maps, more);
    let r = merged(roots, more_roots);
    lemma_merged_items(maps, more);
    lemma_merged_items(roots, more_roots);
    assert forall|i: int| 0 <= i < w.len() implies r.contains(
        (#[trigger] w[i]).0.tile.root_of(),
    ) by {
        if maps.contains(w[i]) {
            let j = choose|j: int| 0 <= j < maps.len() && maps[j] == w[i];
            let t = maps[j].0.tile.root_of();
            assert(roots.contains(t));
            let q = choose|q: int| 0 <= q < roots.len() && roots[q] == t;
            assert(r.contains(roots[q]));
        } else {
            let j = choose|j: int| 0 <= j < more.len() && more[j] == w[i];
            let t = more[j].0.tile.root_of();
            assert(more_roots.contains(t));
            let q = choose|q: int| 0 <= q < more_roots.len() && more_roots[q] == t;
            assert(has_key(r, more_roots[q].key()));
            lemma_tile_held(r, t);
        }
    }
    assert forall|j: int| 0 <= j < r.len() implies exists|i: int|
        0 <= i < w.len() && (#[trigger] w[i]).0.tile.root_of() == #[trigger] r[j] by {
        if roots.contains(r[j]) {
            let q = choose|q: int| 0 <= q < roots.len() && roots[q] == r[j];
            let i = choose|i: int|
                0 <= i < maps.len() && (#[trigger] maps[i]).0.tile.root_of() == roots[q];
            assert(w.contains(maps[i]));
            let m = choose|m: int| 0 <= m < w.len() && w[m] == maps[i];
            assert(w[m].0.tile.root_of() == r[j]);
        } else {
            let q = choose|q: int| 0 <= q < more_roots.len() && more_roots[q] == r[j];
            let i = choose|i: int|
                0 <= i < more.len() && (#[trigger] more[i]).0.tile.root_of() == more_roots[q];
            assert(has_key(w, more[i].key()));
            let m = choose|m: int| 0 <= m < w.len() && (#[trigger] w[m]).key() == more[i].key();
            lemma_placed_order(w[m], more[i]);
            assert(w[m].0.tile.root_of() == r[j]);
        }
    }
}

proof fn lemma_union_latest(
    maps: Seq<PlacedMap>,
    more: Seq<PlacedMap>,
    when: Option<Timestamp>,
    more_when: Option<Timestamp>,
)
    requires
        sorted(maps),
        latest_change(maps, when),
        latest_change(more, more_when),
    ensures
        latest_change(merged(maps, more), latest(when, more_when)),
{
    let w = merged(maps, more);
    let both = latest(when, more_when);
    lemma_merged_items(maps, more);
    if both is None {
        if w.len() > 0 {
            assert(maps.contains(w[0]) || more.contains(w[0]));
        }
    } else {
        let t = both->0;
        assert forall|i: int| 0 <= i < w.len() implies (#[trigger] w[i]).0.modified.nanos
            <= t.nanos by {
            if maps.contains(w[i]) {
                let j = choose|j: int| 0 <= j < maps.len() && maps[j] == w[i];
                assert(maps[j].0.modified.nanos <= when->0.nanos);
            } else {
                let j = choose|j: int| 0 <= j < more.len() && more[j] == w[i];
                assert(more[j].0.modified.nanos <= more_when->0.nanos);
            }
        }
        if when == Some(t) {
            let i = choose|i: int| 0 <= i < maps.len() && (#[trigger] maps[i]).0.modified == t;
            assert(w.contains(maps[i]));
            let m = choose|m: int| 0 <= m < w.len() && w[m] == maps[i];
            assert(w[m].0.modified == t);
        } else {
            let i = choose|i: int| 0 <= i < more.len() && (#[trigger] more[i]).0.modified == t;
            assert(has_key(w, more[i].key()));
            let m = choose|m: int| 0 <= m < w.len() && (#[trigger] w[m]).key() == more[i].key();
            lemma_placed_order(w[m], more[i]);
            assert(w[m].0.modified == t);
        }
    }
}

/// The scan of any sequence of map files with valid tiles is well-formed.
pub proof fn lemma_scan_of(entries: Seq<MapEntry>)
    requires
        forall|i: int| 0 <= i < entries.len() ==> entry_valid(#[trigger] entries[i]),
    ensures
        scan_of(entries).wf(),
    decreases entries.len(),
{
    if entries.len() == 0 {
        reveal(ScanView::wf);
    } else {
        let head = entries.drop_last();
        assert forall|i: int| 0 <= i < head.len() implies entry_valid(#[trigger] head[i]) by {
            assert(head[i] == entries[i]);
        }
        lemma_scan_of(head);
        let e = entries.last();
        assert(entry_valid(e));
        match e.meta {
            MapMeta::Normal { banners, tile } => {
                lemma_with_map(scan_of(head), e.id, e.modified, tile, banners@);
            },
            MapMeta::Other => {},
        }
    }
}

/// Whether a map file is one of an overworld map that shows a banner.
pub open spec fn shows_banner(entry: MapEntry) -> bool {
    entry.meta matches MapMeta::Normal { banners, .. } && banners@.len() > 0
}

/// `banners_modified` is the latest change of a map file that shows a
/// banner: no such file changed later, one of them changed then, and the
/// time is unknown exactly when there is no such file.
pub proof fn lemma_banners_modified(entries: Seq<MapEntry>)
    ensures
        forall|i: int|
            0 <= i < entries.len() && shows_banner(#[trigger] entries[i]) ==> scan_of(
                entries,
            ).banners_modified is Some && entries[i].modified.nanos <= scan_of(
                entries,
            ).banners_modified->0.nanos,
        scan_of(entries).banners_modified is Some ==> exists|i: int|
            0 <= i < entries.len() && shows_banner(#[trigger] entries[i]) && entries[i].modified
                == scan_of(entries).banners_modified->0,
    decreases entries.len(),
{
    if entries.len() > 0 {
        let head = entries.drop_last();
        let last = entries.last();
        lemma_banners_modified(head);
        let before = scan_of(head).banners_modified;
        let after = scan_of(entries).banners_modified;
        assert forall|i: int|
            0 <= i < entries.len() && shows_banner(#[trigger] entries[i]) implies after is Some
            && entries[i].modified.nanos <= after->0.nanos by {
            if i < head.len() {
                assert(head[i] == entries[i]);
            }
        }
        if after is Some {
            if shows_banner(last) && after->0 == last.modified {
                assert(entries[entries.len() - 1] == last);
            } else {
                let i = choose|i: int|
                    0 <= i < head.len() && shows_banner(#[trigger] head[i]) && head[i].modified
                        == before->0;
                assert(entries[i] == head[i]);
            }
        }
    }
}

/// The map that a map file places on a tile: none for a file that is no
/// overworld map to be shown.
pub open spec fn placed_of(entry: MapEntry) -> Option<PlacedMap> {
    match entry.meta {
        MapMeta::Normal { tile, .. } => Some(
            PlacedMap(MapItem { modified: entry.modified, id: entry.id, tile }),
        ),
        MapMeta::Other => None,
    }
}

/// The maps of a scan are those of the map files of overworld maps: each
/// such file has its map in the scan, at its tile, and each map of the scan
/// comes from such a file.
pub proof fn lemma_scanned_maps(entries: Seq<MapEntry>)
    ensures
        forall|i: int|
            0 <= i < entries.len() && placed_of(#[trigger] entries[i]) is Some ==> has_key(
                scan_of(entries).maps,
                placed_of(entries[i])->0.key(),
            ),
        forall|k: int|
            0 <= k < scan_of(entries).maps.len() ==> exists|i: int|
                0 <= i < entries.len() && placed_of(#[trigger] entries[i]) == Some(
                    #[trigger] scan_of(entries).maps[k],
                ),
        sorted(scan_of(entries).maps),
    decreases entries.len(),
{
    if entries.len() > 0 {
        let head = entries.drop_last();
        let last = entries.last();
        lemma_scanned_maps(head);
        let before = scan_of(head).maps;
        let after = scan_of(entries).maps;
        if placed_of(last) is Some {
            let p = placed_of(last)->0;
            lemma_inserted(before, p);
            lemma_inserted_items(before, p);
            assert(after == inserted(before, p));
        } else {
            assert(after == before);
        }
        assert forall|i: int|
            0 <= i < entries.len() && placed_of(#[trigger] entries[i]) is Some implies has_key(
            after,
            placed_of(entries[i])->0.key(),
        ) by {
            let q = placed_of(entries[i])->0;
            if i < head.len() {
                assert(head[i] == entries[i]);
                assert(crate::sorted::keys(before).contains(q.key()));
            }
            assert(crate::sorted::keys(after).contains(q.key()));
        }
        assert forall|k: int| 0 <= k < after.len() implies exists|i: int|
            0 <= i < entries.len() && placed_of(#[trigger] entries[i]) == Some(
                #[trigger] after[k],
            ) by {
            if placed_of(last) is Some && after[k] == placed_of(last)->0 {
                assert(placed_of(entries[entries.len() - 1]) == Some(after[k]));
            } else {
                assert(before.contains(after[k]));
                let n = choose|n: int| 0 <= n < before.len() && before[n] == after[k];
                let i = choose|i: int|
                    0 <= i < head.len() && placed_of(#[trigger] head[i]) == Some(
                        #[trigger] before[n],
                    );
                assert(entries[i] == head[i]);
                assert(placed_of(entries[i]) == Some(after[k]));
            }
        }
    }
}

/// Two scans hold the same tiles, maps, positions of banners and sightings
/// whichever of them is merged into the other, and the same times.
pub proof fn lemma_union_commutes(a: ScanView, b: ScanView)
    requires
        a.wf(),
        b.wf(),
    ensures
        crate::sorted::keys(a.union(b).maps) == crate::sorted::keys(b.union(a).maps),
        crate::sorted::keys(a.union(b).root_tiles) == crate::sorted::keys(b.union(a).root_tiles),
        crate::sorted::keys(a.union(b).banners) == crate::sorted::keys(b.union(a).banners),
        crate::sorted::keys(a.union(b).sightings) == crate::sorted::keys(b.union(a).sightings),
        a.union(b).maps_modified == b.union(a).maps_modified,
        a.union(b).banners_modified == b.union(a).banners_modified,
{
    reveal(ScanView::wf);
    lemma_merged(a.maps, b.maps);
    lemma_merged(b.maps, a.maps);
    lemma_merged(a.root_tiles, b.root_tiles);
    lemma_merged(b.root_tiles, a.root_tiles);
    lemma_merged(a.banners, b.banners);
    lemma_merged(b.banners, a.banners);
    lemma_merged(a.sightings, b.sightings);
    lemma_merged(b.sightings, a.sightings);
    assert(crate::sorted::keys(a.maps).union(crate::sorted::keys(b.maps)) =~= crate::sorted::keys(
        b.maps,
    ).union(crate::sorted::keys(a.maps)));
    assert(crate::sorted::keys(a.root_tiles).union(crate::sorted::keys(b.root_tiles))
        =~= crate::sorted::keys(b.root_tiles).union(crate::sorted::keys(a.root_tiles)));
    assert(crate::sorted::keys(a.banners).union(crate::sorted::keys(b.banners))
        =~= crate::sorted::keys(b.banners).union(crate::sorted::keys(a.banners)));
    assert(crate::sorted::keys(a.sightings).union(crate::sorted::keys(b.sightings))
        =~= crate::sorted::keys(b.sightings).union(crate::sorted::keys(a.sightings)));
}

/// The scan of one map file of an overworld map holds that map alone, and
/// the root of its tile.
pub proof fn lemma_scan_of_one(entry: MapEntry)
    requires
        placed_of(entry) is Some,
    ensures
        scan_of(seq![entry]).maps == seq![placed_of(entry)->0],
        scan_of(seq![entry]).root_tiles == seq![placed_of(entry).unwrap().0.tile.root_of()],
        scan_of(seq![entry]).maps_modified == Some(entry.modified),
        banners_in(entry).len() == 0 ==> scan_of(seq![entry]).banners.len() == 0 && scan_of(
            seq![entry],
        ).banners_modified is None,
{
    let entries = seq![entry];
    reveal_with_fuel(scan_of, 2);
    assert(entries.drop_last() =~= Seq::<MapEntry>::empty());
    assert(entries.last() == entry);
    assert(scan_of(entries.drop_last()) == ScanView::empty());
    assert(scan_of(entries) == ScanView::empty().with_entry(entry));
    let p = placed_of(entry)->0;
    let none = Seq::<PlacedMap>::empty();
    assert(!has_key(none, p.key()));
    assert(inserted(none, p) =~= seq![p]);
    let root = p.0.tile.root_of();
    let no_tiles = Seq::<Tile>::empty();
    assert(!has_key(no_tiles, root.key()));
    assert(inserted(no_tiles, root) =~= seq![root]);
}

/// The banners that a map file shows: none for a file that is no overworld
/// map to be shown.
pub open spec fn banners_in(entry: MapEntry) -> Seq<Banner> {
    match entry.meta {
        MapMeta::Normal { banners, .. } => banners@,
        MapMeta::Other => Seq::empty(),
    }
}

/// The sighting of the banner `k` of a map file.
pub open spec fn sighting_in(entry: MapEntry, k: int) -> Sighting {
    Sighting { x: banners_in(entry)[k].x, z: banners_in(entry)[k].z, id: entry.id }
}

/// Whether one of the map files shows a banner with the key `q`: a banner
/// at that position.
pub open spec fn shows_at(entries: Seq<MapEntry>, q: int) -> bool {
    exists|i: int, k: int|
        0 <= i < entries.len() && 0 <= k < banners_in(entries[i]).len() && (
        #[trigger] banners_in(entries[i])[k]).key() == q
}

/// Whether one of the map files gives a sighting with the key `q`.
pub open spec fn sighted_as(entries: Seq<MapEntry>, q: int) -> bool {
    exists|i: int, k: int|
        0 <= i < entries.len() && 0 <= k < banners_in(entries[i]).len() && (#[trigger] sighting_in(
            entries[i],
            k,
        )).key() == q
}

/// Sightings are ordered by position and then by the id of the map, and
/// no two share a key.
pub proof fn lemma_sighting_order(a: Sighting, b: Sighting)
    ensures
        a.key() == b.key() <==> a == b,
        a.key() < b.key() <==> (a.x < b.x || (a.x == b.x && (a.z < b.z || (a.z == b.z && a.id
            < b.id)))),
{
}

/// The sighting of a banner on the map `id`.
pub open spec fn sighting_on(banner: Banner, id: u32) -> Sighting {
    Sighting { x: banner.x, z: banner.z, id }
}

/// Whether one of the banners, seen on the map `id`, gives a sighting with
/// the key `q`.
pub open spec fn seen_as(banners: Seq<Banner>, id: u32, q: int) -> bool {
    exists|k: int| 0 <= k < banners.len() && (#[trigger] sighting_on(banners[k], id)).key() == q
}

/// The keys of sightings after the banners of one map were seen.
pub proof fn lemma_sighted_keys(sightings: Seq<Sighting>, banners: Seq<Banner>, id: u32)
    requires
        sorted(sightings),
    ensures
        sorted(sighted(sightings, banners, id)),
        forall|q: int|
            has_key(sighted(sightings, banners, id), q) <==> (has_key(sightings, q) || seen_as(
                banners,
                id,
                q,
            )),
    decreases banners.len(),
{
    if banners.len() == 0 {
        assert forall|q: int| !seen_as(banners, id, q) by {}
    } else {
        let head = banners.drop_last();
        let last = sighting_on(banners.last(), id);
        let before = sighted(sightings, head, id);
        let after = sighted(sightings, banners, id);
        lemma_sighted_keys(sightings, head, id);
        lemma_inserted(before, last);
        assert(after == inserted(before, last));
        assert forall|q: int|
            has_key(after, q) <==> (has_key(sightings, q) || seen_as(banners, id, q)) by {
            lemma_seen_as(banners, id, q);
            assert(crate::sorted::keys(after).contains(q) <==> (crate::sorted::keys(
                before,
            ).contains(q) || q == last.key()));
        }
    }
}

/// One more banner gives one more sighting.
proof fn lemma_seen_as(banners: Seq<Banner>, id: u32, q: int)
    requires
        banners.len() > 0,
    ensures
        seen_as(banners, id, q) <==> (seen_as(banners.drop_last(), id, q) || sighting_on(
            banners.last(),
            id,
        ).key() == q),
{
    let head = banners.drop_last();
    if seen_as(head, id, q) {
        let k = choose|k: int| 0 <= k < head.len() && (#[trigger] sighting_on(head[k], id)).key() == q;
        assert(head[k] == banners[k]);
        assert(sighting_on(banners[k], id).key() == q);
    }
    if sighting_on(banners.last(), id).key() == q {
        assert(sighting_on(banners[banners.len() - 1], id).key() == q);
    }
    if seen_as(banners, id, q) {
        let k = choose|k: int|
            0 <= k < banners.len() && (#[trigger] sighting_on(banners[k], id)).key() == q;
        if k < head.len() {
            assert(head[k] == banners[k]);
            assert(sighting_on(head[k], id).key() == q);
        }
    }
}

/// The banners of a scan stand at the positions at which the map files
/// show banners, and the sightings are those that the map files give.
pub proof fn lemma_scanned_banners(entries: Seq<MapEntry>)
    ensures
        sorted(scan_of(entries).banners),
        sorted(scan_of(entries).sightings),
        forall|q: int| has_key(scan_of(entries).banners, q) <==> shows_at(entries, q),
        forall|q: int| has_key(scan_of(entries).sightings, q) <==> sighted_as(entries, q),
    decreases entries.len(),
{
    if entries.len() == 0 {
        assert forall|q: int| !shows_at(entries, q) && !sighted_as(entries, q) by {}
    } else {
        let head = entries.drop_last();
        let last = entries.last();
        let n = entries.len() - 1;
        lemma_scanned_banners(head);
        let before = scan_of(head);
        let after = scan_of(entries);
        let shown = banners_in(last);
        lemma_merged(before.banners, shown);
        lemma_sighted_keys(before.sightings, shown, last.id);
        assert(after.banners == merged(before.banners, shown)) by {
            if shown.len() == 0 {
                assert(merged(before.banners, shown) == before.banners);
            }
        }
        assert(after.sightings == sighted(before.sightings, shown, last.id)) by {
            if shown.len() == 0 {
                assert(sighted(before.sightings, shown, last.id) == before.sightings);
            }
        }
        assert forall|q: int| has_key(after.banners, q) <==> shows_at(entries, q) by {
            assert(has_key(after.banners, q) <==> crate::sorted::keys(after.banners).contains(q));
            assert(crate::sorted::keys(after.banners).contains(q) <==> (crate::sorted::keys(
                before.banners,
            ).contains(q) || crate::sorted::keys(shown).contains(q)));
            if shows_at(head, q) {
                let (i, k) = choose|i: int, k: int|
                    0 <= i < head.len() && 0 <= k < banners_in(head[i]).len() && (
                    #[trigger] banners_in(head[i])[k]).key() == q;
                assert(head[i] == entries[i]);
                assert(banners_in(entries[i])[k].key() == q);
            }
            if has_key(shown, q) {
                let k = choose|k: int| 0 <= k < shown.len() && (#[trigger] shown[k]).key() == q;
                assert(banners_in(entries[n])[k].key() == q);
            }
            if shows_at(entries, q) {
                let (i, k) = choose|i: int, k: int|
                    0 <= i < entries.len() && 0 <= k < banners_in(entries[i]).len() && (
                    #[trigger] banners_in(entries[i])[k]).key() == q;
                if i < n {
                    assert(head[i] == entries[i]);
                    assert(banners_in(head[i])[k].key() == q);
                    assert(shows_at(head, q));
                } else {
                    assert(shown[k].key() == q);
                    assert(has_key(shown, q));
                }
            }
        }
        assert forall|q: int| has_key(after.sightings, q) <==> sighted_as(entries, q) by {
            if sighted_as(head, q) {
                let (i, k) = choose|i: int, k: int|
                    0 <= i < head.len() && 0 <= k < banners_in(head[i]).len() && (
                    #[trigger] sighting_in(head[i], k)).key() == q;
                assert(head[i] == entries[i]);
                assert(sighting_in(entries[i], k).key() == q);
            }
            if seen_as(shown, last.id, q) {
                let k = choose|k: int|
                    0 <= k < shown.len() && (#[trigger] sighting_on(shown[k], last.id)).key() == q;
                assert(sighting_in(entries[n], k).key() == q);
            }
            if sighted_as(entries, q) {
                let (i, k) = choose|i: int, k: int|
                    0 <= i < entries.len() && 0 <= k < banners_in(entries[i]).len() && (
                    #[trigger] sighting_in(entries[i], k)).key() == q;
                if i < n {
                    assert(head[i] == entries[i]);
                    assert(sighting_in(head[i], k).key() == q);
                    assert(sighted_as(head, q));
                } else {
                    assert(sighting_on(shown[k], last.id).key() == q);
                    assert(seen_as(shown, last.id, q));
                }
            }
        }
    }
}

/// Banners that map files show at one position are one banner of the
/// scan, whatever their names and colours: the scan holds a banner at
/// every position at which a map file shows one, and no two at one
/// position. The maps that show a banner there are those with a sighting.
pub proof fn lemma_one_banner(entries: Seq<MapEntry>, i: int, k: int)
    requires
        0 <= i < entries.len(),
        0 <= k < banners_in(entries[i]).len(),
    ensures
        has_key(scan_of(entries).banners, banners_in(entries[i])[k].key()),
        has_key(scan_of(entries).sightings, sighting_in(entries[i], k).key()),
        forall|a: int, b: int|
            0 <= a < scan_of(entries).banners.len() && 0 <= b < scan_of(entries).banners.len() && (
            #[trigger] scan_of(entries).banners[a]).same_place(
                #[trigger] scan_of(entries).banners[b],
            ) ==> a == b,
        forall|id: u32|
            #[trigger] has_key(
                scan_of(entries).sightings,
                Sighting {
                    x: banners_in(entries[i])[k].x,
                    z: banners_in(entries[i])[k].z,
                    id,
                }.key(),
            ) <==> exists|j: int, m: int|
                0 <= j < entries.len() && 0 <= m < banners_in(entries[j]).len() && entries[j].id
                    == id && (#[trigger] banners_in(entries[j])[m]).same_place(
                    banners_in(entries[i])[k],
                ),
{
    lemma_scanned_banners(entries);
    let scan = scan_of(entries);
    let here = banners_in(entries[i])[k];
    assert(shows_at(entries, here.key()));
    assert(sighted_as(entries, sighting_in(entries[i], k).key()));
    assert forall|a: int, b: int|
        0 <= a < scan.banners.len() && 0 <= b < scan.banners.len() && (
        #[trigger] scan.banners[a]).same_place(#[trigger] scan.banners[b]) implies a == b by {
        crate::banner::lemma_banner_order(scan.banners[a], scan.banners[b]);
        crate::sorted::lemma_distinct_keys(scan.banners, a, b);
    }
    assert forall|id: u32|
        #[trigger] has_key(scan.sightings, Sighting { x: here.x, z: here.z, id }.key())
            <==> exists|j: int, m: int|
            0 <= j < entries.len() && 0 <= m < banners_in(entries[j]).len() && entries[j].id == id
                && (#[trigger] banners_in(entries[j])[m]).same_place(here) by {
        let s = Sighting { x: here.x, z: here.z, id };
        if sighted_as(entries, s.key()) {
            let (j, m) = choose|j: int, m: int|
                0 <= j < entries.len() && 0 <= m < banners_in(entries[j]).len() && (
                #[trigger] sighting_in(entries[j], m)).key() == s.key();
            lemma_sighting_order(sighting_in(entries[j], m), s);
            assert(banners_in(entries[j])[m].same_place(here));
        }
        if exists|j: int, m: int|
            0 <= j < entries.len() && 0 <= m < banners_in(entries[j]).len() && entries[j].id == id
                && (#[trigger] banners_in(entries[j])[m]).same_place(here) {
            let (j, m) = choose|j: int, m: int|
                0 <= j < entries.len() && 0 <= m < banners_in(entries[j]).len() && entries[j].id
                    == id && (#[trigger] banners_in(entries[j])[m]).same_place(here);
            assert(sighting_in(entries[j], m) == s);
            assert(sighted_as(entries, s.key()));
        }
    }
}

/// Whether two sequences of map files show banners at the same positions,
/// file by file and banner by banner.
pub open spec fn same_positions(first: Seq<MapEntry>, second: Seq<MapEntry>) -> bool {
    &&& first.len() == second.len()
    &&& forall|i: int|
        0 <= i < first.len() ==> banners_in(#[trigger] first[i]).len() == banners_in(
            second[i],
        ).len()
    &&& forall|i: int, k: int|
        0 <= i < first.len() && 0 <= k < banners_in(first[i]).len() ==> (#[trigger] banners_in(
            first[i],
        )[k]).same_place(banners_in(second[i])[k])
}

/// Names and colours do not move banners: map files that show banners at
/// the same positions give scans with as many banners, at the same
/// positions in the same order, which is that of the positions.
pub proof fn lemma_banner_positions(first: Seq<MapEntry>, second: Seq<MapEntry>)
    requires
        same_positions(first, second),
    ensures
        scan_of(first).banners.len() == scan_of(second).banners.len(),
        forall|j: int|
            0 <= j < scan_of(first).banners.len() ==> (#[trigger] scan_of(
                first,
            ).banners[j]).same_place(scan_of(second).banners[j]),
        sorted(scan_of(first).banners),
{
    lemma_scanned_banners(first);
    lemma_scanned_banners(second);
    let a = scan_of(first).banners;
    let b = scan_of(second).banners;
    assert forall|q: int| shows_at(first, q) <==> shows_at(second, q) by {
        if shows_at(first, q) {
            let (i, k) = choose|i: int, k: int|
                0 <= i < first.len() && 0 <= k < banners_in(first[i]).len() && (
                #[trigger] banners_in(first[i])[k]).key() == q;
            crate::banner::lemma_banner_order(
                banners_in(first[i])[k],
                banners_in(second[i])[k],
            );
            assert(banners_in(second[i])[k].key() == q);
        }
        if shows_at(second, q) {
            let (i, k) = choose|i: int, k: int|
                0 <= i < second.len() && 0 <= k < banners_in(second[i]).len() && (
                #[trigger] banners_in(second[i])[k]).key() == q;
            assert(banners_in(first[i]).len() == banners_in(second[i]).len());
            crate::banner::lemma_banner_order(
                banners_in(first[i])[k],
                banners_in(second[i])[k],
            );
            assert(banners_in(first[i])[k].key() == q);
        }
    }
    assert(crate::sorted::keys(a) =~= crate::sorted::keys(b)) by {
        assert forall|q: int| crate::sorted::keys(a).contains(q) <==> crate::sorted::keys(
            b,
        ).contains(q) by {
            assert(has_key(a, q) <==> shows_at(first, q));
            assert(has_key(b, q) <==> shows_at(second, q));
        }
    }
    crate::sorted::lemma_same_keys(a, b);
    assert forall|j: int| 0 <= j < a.len() implies (#[trigger] a[j]).same_place(b[j]) by {
        crate::banner::lemma_banner_order(a[j], b[j]);
    }
}

/// A map file that names a tile names a valid one.
pub open spec fn entry_valid(entry: MapEntry) -> bool {
    entry.meta matches MapMeta::Normal { tile, .. } ==> tile.valid()
}

/// What a scan of map files has found.
pub struct MapScan {
    banners: SortedVec<Banner>,
    banners_modified: Option<Timestamp>,
    maps: SortedVec<PlacedMap>,
    maps_modified: Option<Timestamp>,
    sightings: SortedVec<Sighting>,
    root_tiles: SortedVec<Tile>,
}

impl View for MapScan {
    type V = ScanView;

    closed spec fn view(&self) -> ScanView {
        ScanView {
            banners: self.banners@,
            banners_modified: self.banners_modified,
            maps: self.maps@,
            maps_modified: self.maps_modified,
            sightings: self.sightings@,
            root_tiles: self.root_tiles@,
        }
    }
}

impl MapScan {
    #[verifier::type_invariant]
    spec fn well_formed(&self) -> bool {
        self@.wf()
    }

    /// The scan that has found nothing.
    pub fn new() -> (s: MapScan)
        ensures
            s@ == ScanView::empty(),
            s@.wf(),
    {
        proof {
            reveal(ScanView::wf);
        }
        MapScan {
            banners: SortedVec::new(),
            banners_modified: None,
            maps: SortedVec::new(),
            maps_modified: None,
            sightings: SortedVec::new(),
            root_tiles: SortedVec::new(),
        }
    }

    /// The scan after one more overworld map.
    pub fn with_map(self, id: u32, modified: Timestamp, tile: Tile, banners: Vec<Banner>) -> (s:
        MapScan)
        requires
            tile.valid(),
        ensures
            s@ == self@.with_map(id, modified, tile, banners@),
            s@.wf(),
    {
        proof {
            use_type_invariant(&self);
            lemma_with_map(self@, id, modified, tile, banners@);
        }
        let MapScan {
            banners: mut all,
            banners_modified,
            mut maps,
            maps_modified,
            mut sightings,
            mut root_tiles,
        } = self;
        let banners_modified = if banners.len() > 0 {
            later(banners_modified, Some(modified))
        } else {
            banners_modified
        };
        maps.insert(PlacedMap(MapItem { modified, id, tile }));
        root_tiles.insert(tile.root());
        let ghost seen = sightings@;
        let ghost before = all@;
        let ghost shown = banners@;
        for banner in iter: banners
            invariant
                iter.seq() == shown,
                sightings@ == sighted(seen, shown.take(iter.index() as int), id),
                all@ == merged(before, shown.take(iter.index() as int)),
        {
            proof {
                let n = iter.index() as int;
                assert(shown.take(n + 1).drop_last() =~= shown.take(n));
                assert(shown.take(n + 1).last() == banner);
            }
            sightings.insert(Sighting { x: banner.x, z: banner.z, id });
            all.insert(banner);
        }
        proof {
            assert(shown.take(shown.len() as int) =~= shown);
        }
        MapScan {
            banners: all,
            banners_modified,
            maps,
            maps_modified: later(maps_modified, Some(modified)),
            sightings,
            root_tiles,
        }
    }

    /// The scan after one more map file.
    pub fn with_entry(self, entry: MapEntry) -> (s: MapScan)
        requires
            entry_valid(entry),
        ensures
            s@ == self@.with_entry(entry),
            s@.wf(),
    {
        proof {
            use_type_invariant(&self);
        }
        match entry.meta {
            MapMeta::Normal { banners, tile } => self.with_map(
                entry.id,
                entry.modified,
                tile,
                banners,
            ),
            MapMeta::Other => self,
        }
    }

    /// Both scans together. Where both hold a banner at one position, the
    /// one of `self` stays.
    pub fn merge(self, other: MapScan) -> (s: MapScan)
        ensures
            s@ == self@.union(other@),
            s@.wf(),
    {
        proof {
            use_type_invariant(&self);
            use_type_invariant(&other);
            lemma_union(self@, other@);
        }
        let MapScan {
            banners: mut all,
            banners_modified,
            mut maps,
            maps_modified,
            mut sightings,
            mut root_tiles,
        } = self;
        let MapScan {
            banners: more_banners,
            banners_modified: more_banners_modified,
            maps: more_maps,
            maps_modified: more_maps_modified,
            sightings: more_sightings,
            root_tiles: more_root_tiles,
        } = other;
        all.extend(more_banners);
        maps.extend(more_maps);
        sightings.extend(more_sightings);
        root_tiles.extend(more_root_tiles);
        MapScan {
            banners: all,
            banners_modified: later(banners_modified, more_banners_modified),
            maps,
            maps_modified: later(maps_modified, more_maps_modified),
            sightings,
            root_tiles,
        }
    }

    /// Scans the map files in the order given.
    pub fn run(entries: Vec<MapEntry>) -> (s: MapScan)
        requires
            forall|i: int| 0 <= i < entries@.len() ==> entry_valid(#[trigger] entries@[i]),
        ensures
            s@ == scan_of(entries@),
            s@.wf(),
    {
        let ghost all = entries@;
        let mut scan = MapScan::new();
        for entry in iter: entries
            invariant
                iter.seq() == all,
                forall|i: int| 0 <= i < all.len() ==> entry_valid(#[trigger] all[i]),
                scan@ == scan_of(all.take(iter.index() as int)),
        {
            proof {
                let n = iter.index() as int;
                assert(all.take(n + 1).drop_last() =~= all.take(n));
                assert(all.take(n + 1).last() == entry);
                assert(entry == all[n]);
            }
            scan = scan.with_entry(entry);
        }
        proof {
            assert(all.take(all.len() as int) =~= all);
            use_type_invariant(&scan);
        }
        scan
    }

    /// The banners, by position.
    pub fn banners(&self) -> (banners: &SortedVec<Banner>)
        ensures
            banners@ == self@.banners,
            self@.wf(),
    {
        proof {
            use_type_invariant(self);
        }
        &self.banners
    }

    /// The latest change of a map that shows a banner.
    pub fn banners_modified(&self) -> (time: Option<Timestamp>)
        ensures
            time == self@.banners_modified,
    {
        self.banners_modified
    }

    /// The maps, by tile and then by time of last change and id.
    pub fn maps(&self) -> (maps: &SortedVec<PlacedMap>)
        ensures
            maps@ == self@.maps,
            self@.wf(),
    {
        proof {
            use_type_invariant(self);
        }
        &self.maps
    }

    /// The latest change of a map.
    pub fn maps_modified(&self) -> (time: Option<Timestamp>)
        ensures
            time == self@.maps_modified,
    {
        self.maps_modified
    }

    /// Which map shows a banner at which position.
    pub fn sightings(&self) -> (sightings: &SortedVec<Sighting>)
        ensures
            sightings@ == self@.sightings,
            self@.wf(),
    {
        proof {
            use_type_invariant(self);
        }
        &self.sightings
    }

    /// The roots of the tiles that hold a map.
    pub fn root_tiles(&self) -> (roots: &SortedVec<Tile>)
        ensures
            roots@ == self@.root_tiles,
            self@.wf(),
    {
        proof {
            use_type_invariant(self);
        }
        &self.root_tiles
    }
}

} // verus!

//! What a run reports, and what it decides from the times of the files it
//! has written before: whether a picture is still good, which pictures are
//! left over, what the summary says.

use crate::files::{map_of, parse_map_name, parse_tile_path, tile_of};
use crate::ids::{absorb, holding, IdSet};
use crate::map::MapItem;
use crate::render::{LeafPlan, RootPlan};
use crate::sorted::{has_key, inserted, merged, sorted, Keyed, SortedVec};
use crate::tile::Tile;
use crate::time::Timestamp;
use vstd::prelude::*;

verus! {

/// What the rendering below some root tiles has done.
pub struct Report {
    /// The ids of the maps that lie below the root tiles.
    pub maps: IdSet,
    /// How many pictures of single maps were written.
    pub maps_rendered: usize,
    /// The largest number of maps that cover one leaf tile.
    pub maps_stacked: usize,
    /// How many pictures of tiles were written.
    pub tiles_rendered: usize,
    /// The leaf tiles that a map covers.
    pub tiles: SortedVec<Tile>,
}

/// The ids of the maps of a sequence.
pub open spec fn ids_of_maps(maps: Seq<MapItem>) -> Set<u32>
    decreases maps.len(),
{
    if maps.len() == 0 {
        Set::empty()
    } else {
        ids_of_maps(maps.drop_last()).insert(maps.last().id)
    }
}

/// The largest number of maps on one of the leaves.
pub open spec fn deepest(leaves: Seq<LeafPlan>) -> int
    decreases leaves.len(),
{
    if leaves.len() == 0 {
        0
    } else {
        let before = deepest(leaves.drop_last());
        if before < leaves.last().maps@.len() {
            leaves.last().maps@.len() as int
        } else {
            before
        }
    }
}

/// The tiles of the leaves, in the order of tiles.
pub open spec fn tiles_of(leaves: Seq<LeafPlan>) -> Seq<Tile>
    decreases leaves.len(),
{
    if leaves.len() == 0 {
        Seq::empty()
    } else {
        inserted(tiles_of(leaves.drop_last()), leaves.last().tile)
    }
}

/// The larger of two numbers.
pub open spec fn larger(a: int, b: int) -> int {
    if a < b {
        b
    } else {
        a
    }
}

impl Report {
    /// The report of a run that has done nothing.
    pub fn new() -> (r: Report)
        ensures
            r.maps@ == Set::<u32>::empty(),
            r.maps_rendered == 0,
            r.maps_stacked == 0,
            r.tiles_rendered == 0,
            r.tiles@ == Seq::<Tile>::empty(),
    {
        Report {
            maps: holding(None),
            maps_rendered: 0,
            maps_stacked: 0,
            tiles_rendered: 0,
            tiles: SortedVec::new(),
        }
    }

    /// The report for one root tile before anything is written: the maps
    /// and the leaf tiles of the plan, and how deep the maps are stacked.
    pub fn of_plan(plan: &RootPlan) -> (r: Report)
        ensures
            r.maps@ == ids_of_maps(plan.maps@),
            r.maps_rendered == 0,
            r.maps_stacked == deepest(plan.leaves@),
            r.tiles_rendered == 0,
            r.tiles@ == tiles_of(plan.leaves@),
    {
        let mut maps = holding(None);
        let mut i: usize = 0;
        proof {
            assert(plan.maps@.take(0) =~= Seq::<MapItem>::empty());
        }
        while i < plan.maps.len()
            invariant
                i <= plan.maps@.len(),
                maps@ == ids_of_maps(plan.maps@.take(i as int)),
            decreases plan.maps@.len() - i,
        {
            proof {
                assert(plan.maps@.take(i + 1).drop_last() =~= plan.maps@.take(i as int));
                assert(plan.maps@.take(i + 1).last() == plan.maps@[i as int]);
            }
            maps.insert(plan.maps[i].id);
            i += 1;
        }
        let mut tiles: SortedVec<Tile> = SortedVec::new();
        let mut stacked: usize = 0;
        let mut k: usize = 0;
        proof {
            assert(plan.maps@.take(i as int) =~= plan.maps@);
            assert(plan.leaves@.take(0) =~= Seq::<LeafPlan>::empty());
        }
        while k < plan.leaves.len()
            invariant
                k <= plan.leaves@.len(),
                stacked == deepest(plan.leaves@.take(k as int)),
                tiles@ == tiles_of(plan.leaves@.take(k as int)),
            decreases plan.leaves@.len() - k,
        {
            proof {
                assert(plan.leaves@.take(k + 1).drop_last() =~= plan.leaves@.take(k as int));
                assert(plan.leaves@.take(k + 1).last() == plan.leaves@[k as int]);
            }
            let leaf = &plan.leaves[k];
            if stacked < leaf.maps.len() {
                stacked = leaf.maps.len();
            }
            tiles.insert(leaf.tile);
            k += 1;
        }
        proof {
            assert(plan.leaves@.take(k as int) =~= plan.leaves@);
        }
        Report { maps, maps_rendered: 0, maps_stacked: stacked, tiles_rendered: 0, tiles }
    }

    /// Counts one more picture of a tile.
    pub fn tile_rendered(&mut self)
        requires
            old(self).tiles_rendered < usize::MAX,
        ensures
            final(self).tiles_rendered == old(self).tiles_rendered + 1,
            final(self).maps == old(self).maps,
            final(self).maps_rendered == old(self).maps_rendered,
            final(self).maps_stacked == old(self).maps_stacked,
            final(self).tiles == old(self).tiles,
    {
        self.tiles_rendered = self.tiles_rendered + 1;
    }

    /// Counts one more picture of a single map.
    pub fn map_rendered(&mut self)
        requires
            old(self).maps_rendered < usize::MAX,
        ensures
            final(self).maps_rendered == old(self).maps_rendered + 1,
            final(self).maps == old(self).maps,
            final(self).tiles_rendered == old(self).tiles_rendered,
            final(self).maps_stacked == old(self).maps_stacked,
            final(self).tiles == old(self).tiles,
    {
        self.maps_rendered = self.maps_rendered + 1;
    }

    /// Adds what `other` reports: the sets are united, the counts of
    /// pictures are added, and of the depths of stacking the larger stays.
    pub fn add_assign(&mut self, other: Report)
        requires
            old(self).maps_rendered + other.maps_rendered <= usize::MAX,
            old(self).tiles_rendered + other.tiles_rendered <= usize::MAX,
        ensures
            final(self).maps@ == old(self).maps@.union(other.maps@),
            final(self).maps_rendered == old(self).maps_rendered + other.maps_rendered,
            final(self).maps_stacked == larger(
                old(self).maps_stacked as int,
                other.maps_stacked as int,
            ),
            final(self).tiles_rendered == old(self).tiles_rendered + other.tiles_rendered,
            final(self).tiles@ == merged(old(self).tiles@, other.tiles@),
    {
        let Report { maps, maps_rendered, maps_stacked, tiles_rendered, tiles } = other;
        absorb(&mut self.maps, &maps);
        self.maps_rendered = self.maps_rendered + maps_rendered;
        if self.maps_stacked < maps_stacked {
            self.maps_stacked = maps_stacked;
        }
        self.tiles_rendered = self.tiles_rendered + tiles_rendered;
        self.tiles.extend(tiles);
    }

    /// Whether the picture of a tile at `path`, below the output directory,
    /// is left over: the tile is none of those that a map covers. Nothing
    /// where the path names no tile.
    pub fn is_stale_tile(&self, path: &[u8]) -> (r: Option<bool>)
        ensures
            r == match tile_of(path@) {
                Some(tile) => Some(!has_key(self.tiles@, tile.key())),
                None => None,
            },
    {
        match parse_tile_path(path) {
            Some(tile) => Some(!self.tiles.contains(&tile)),
            None => None,
        }
    }

    /// Whether the picture of a single map with the file name `name` is
    /// left over: the map is none of those below the root tiles. Nothing
    /// where the name names no map.
    pub fn is_stale_map(&self, name: &[u8]) -> (r: Option<bool>)
        ensures
            r == match map_of(name@) {
                Some(id) => Some(!self.maps@.contains(id)),
                None => None,
            },
    {
        match parse_map_name(name) {
            Some(id) => Some(!self.maps.contains(&id)),
            None => None,
        }
    }
}

/// Whether a picture that was written at `written`, if it was, is still
/// good for maps that last changed at `modified`: it is, unless the run is
/// forced, when it is no older than the maps.
pub open spec fn current(force: bool, written: Option<Timestamp>, modified: Timestamp) -> bool {
    !force && match written {
        Some(w) => w.nanos >= modified.nanos,
        None => false,
    }
}

/// Whether the list of banners has to be written again: the run is forced,
/// or pictures of tiles were removed, or the list is missing or older than
/// the latest change of a map with a banner.
pub open spec fn outdated(
    force: bool,
    tiles_pruned: usize,
    written: Option<Timestamp>,
    modified: Timestamp,
) -> bool {
    force || tiles_pruned != 0 || match written {
        None => true,
        Some(w) => w.nanos < modified.nanos,
    }
}

/// What a run has written, with the time of its maps as the time of its
/// last change, a second run that is not forced leaves alone as long as
/// the maps do not change and no picture of a tile is removed.
pub proof fn lemma_rerun(modified: Timestamp)
    ensures
        current(false, Some(modified), modified),
        !outdated(false, 0, Some(modified), modified),
{
}

/// Whether a picture that was written at `written`, if it was, is still
/// good for maps that last changed at `modified`.
pub fn is_current(force: bool, written: Option<Timestamp>, modified: Timestamp) -> (r: bool)
    ensures
        r == current(force, written, modified),
{
    match written {
        Some(w) => !force && w.nanos >= modified.nanos,
        None => false,
    }
}

/// Whether the list of banners has to be written again.
pub fn banners_outdated(
    force: bool,
    tiles_pruned: usize,
    written: Option<Timestamp>,
    modified: Timestamp,
) -> (r: bool)
    ensures
        r == outdated(force, tiles_pruned, written, modified),
{
    force || tiles_pruned != 0 || match written {
        None => true,
        Some(w) => w.nanos < modified.nanos,
    }
}

/// What a run says at its end.
#[derive(Clone, Copy, Debug, PartialEq, Eq, Structural)]
pub enum Summary {
    /// Nothing was written and nothing removed.
    UpToDate,
    /// The numbers of pictures written and removed.
    Rendered { tiles: usize, maps: usize, tiles_pruned: usize, maps_pruned: usize },
}

/// What a run says at its end: that all is up to date where no picture
/// was written and none removed, and else the four counts.
pub fn summary(report: &Report, tiles_pruned: usize, maps_pruned: usize) -> (s: Summary)
    ensures
        s == if report.tiles_rendered == 0 && report.maps_rendered == 0 && tiles_pruned == 0
            && maps_pruned == 0 {
            Summary::UpToDate
        } else {
            Summary::Rendered {
                tiles: report.tiles_rendered,
                maps: report.maps_rendered,
                tiles_pruned,
                maps_pruned,
            }
        },
{
    if report.tiles_rendered == 0 && report.maps_rendered == 0 && tiles_pruned == 0 && maps_pruned
        == 0 {
        Summary::UpToDate
    } else {
        Summary::Rendered {
            tiles: report.tiles_rendered,
            maps: report.maps_rendered,
            tiles_pruned,
            maps_pruned,
        }
    }
}

/// A plan with one leaf: the report counts the maps of that leaf as the
/// deepest stack, and holds the tile of that leaf alone.
pub proof fn lemma_one_leaf(leaf: LeafPlan)
    ensures
        deepest(seq![leaf]) == leaf.maps@.len(),
        tiles_of(seq![leaf]) == seq![leaf.tile],
{
    let leaves = seq![leaf];
    assert(leaves.drop_last() =~= Seq::<LeafPlan>::empty());
    assert(leaves.last() == leaf);
    reveal_with_fuel(deepest, 2);
    reveal_with_fuel(tiles_of, 2);
    let none = Seq::<Tile>::empty();
    assert(!has_key(none, leaf.tile.key()));
    assert(inserted(none, leaf.tile) =~= seq![leaf.tile]);
}

} // verus!

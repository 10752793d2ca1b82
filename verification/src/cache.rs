//! The cache of a search: which map ids were found in which file, and when
//! that was written down.

use crate::banner::position_key;
use crate::ids::{absorb, holding, IdSet};
use crate::nbt::same_text;
use crate::sorted::{replaced, sorted, Keyed, SortedVec};
use crate::time::Timestamp;
use std::collections::HashMap;
use vstd::prelude::*;
use vstd::std_specs::hash::spec_hash_map_iter;
use vstd::std_specs::iter::IteratorSpec;

verus! {

broadcast use vstd::std_specs::hash::group_hash_axioms;

/// The map ids found in the region file `r.<x>.<z>.mca`.
pub struct RegionIds {
    pub x: i32,
    pub z: i32,
    pub ids: IdSet,
}

impl Keyed for RegionIds {
    /// Regions are told by their position.
    open spec fn key(&self) -> int {
        position_key(self.x, self.z)
    }

    fn key_lt(&self, other: &Self) -> (b: bool) {
        self.x < other.x || (self.x == other.x && self.z < other.z)
    }
}

/// The map ids found in the file of one player. `index` is the place of the
/// file among the player files in the order of their names.
pub struct PlayerIds {
    pub index: usize,
    pub ids: IdSet,
}

/// Which map ids were found in which file.
pub struct Cache {
    /// When the cache was written: the time of the last change of its file.
    /// Unknown for a cache that was not read from a file.
    pub modified: Option<Timestamp>,
    /// The version of the tool that wrote the cache.
    pub version: String,
    pub map_ids_by_entities_region: SortedVec<RegionIds>,
    pub map_ids_by_block_region: SortedVec<RegionIds>,
    /// The map ids found with each player, by the place of the player's
    /// file among the player files.
    pub map_ids_by_player: HashMap<usize, IdSet>,
}

/// What was found where a cache is kept: what the file holds, if that
/// could be read as a cache, and when the file last changed.
pub struct Stored {
    pub cache: Option<Cache>,
    pub modified: Timestamp,
}

/// All ids found in the regions.
pub open spec fn ids_in_regions(regions: Seq<RegionIds>) -> Set<u32>
    decreases regions.len(),
{
    if regions.len() == 0 {
        Set::empty()
    } else {
        ids_in_regions(regions.drop_last()).union(regions.last().ids@)
    }
}

/// All ids found with the players.
pub open spec fn ids_with_players(players: Map<usize, IdSet>) -> Set<u32> {
    Set::new(
        |id: u32|
            exists|index: usize|
                players.contains_key(index) && (#[trigger] players[index])@.contains(id),
    )
}

/// `regions` after the findings `found` were written down one after the
/// other: a finding takes the place of an earlier one for the same region.
pub open spec fn with_regions(regions: Seq<RegionIds>, found: Seq<RegionIds>) -> Seq<RegionIds>
    decreases found.len(),
{
    if found.len() == 0 {
        regions
    } else {
        replaced(with_regions(regions, found.drop_last()), found.last())
    }
}

/// `players` after the findings `found` were written down one after the
/// other.
pub open spec fn with_players(players: Map<usize, IdSet>, found: Seq<PlayerIds>) -> Map<
    usize,
    IdSet,
>
    decreases found.len(),
{
    if found.len() == 0 {
        players
    } else {
        with_players(players, found.drop_last()).insert(found.last().index, found.last().ids)
    }
}

fn put_regions(regions: &mut SortedVec<RegionIds>, found: Vec<RegionIds>)
    ensures
        final(regions)@ == with_regions(old(regions)@, found@),
{
    let ghost start = regions@;
    let ghost all = found@;
    for item in iter: found
        invariant
            iter.seq() == all,
            regions@ == with_regions(start, all.take(iter.index() as int)),
    {
        proof {
            let n = iter.index() as int;
            assert(all.take(n + 1).drop_last() =~= all.take(n));
            assert(all.take(n + 1).last() == item);
        }
        regions.replace(item);
    }
    proof {
        assert(all.take(all.len() as int) =~= all);
    }
}

fn gather_regions(regions: &SortedVec<RegionIds>, out: &mut IdSet)
    ensures
        final(out)@ == old(out)@.union(ids_in_regions(regions@)),
{
    let n = regions.len();
    let ghost start = out@;
    let mut k: usize = 0;
    proof {
        assert(regions@.take(0) =~= Seq::<RegionIds>::empty());
        assert(start.union(ids_in_regions(regions@.take(0))) =~= start);
    }
    while k < n
        invariant
            k <= n,
            n == regions@.len(),
            out@ == start.union(ids_in_regions(regions@.take(k as int))),
        decreases n - k,
    {
        proof {
            assert(regions@.take(k + 1).drop_last() =~= regions@.take(k as int));
            assert(regions@.take(k + 1).last() == regions@[k as int]);
        }
        absorb(out, &regions.get(k).ids);
        proof {
            assert(out@ =~= start.union(ids_in_regions(regions@.take(k + 1))));
        }
        k += 1;
    }
    proof {
        assert(regions@.take(k as int) =~= regions@);
    }
}

fn gather_players(players: &HashMap<usize, IdSet>, out: &mut IdSet)
    ensures
        final(out)@ == old(out)@.union(ids_with_players(players@)),
{
    let ghost start = out@;
    let ghost all = spec_hash_map_iter(players).remaining();
    for entry in iter: players.iter()
        invariant
            iter.seq() == all,
            forall|x: u32|
                #[trigger] out@.contains(x) <==> (start.contains(x) || exists|j: int|
                    0 <= j < iter.index() && (*(#[trigger] all[j]).1)@.contains(x)),
    {
        let ghost before = out@;
        let ghost k = iter.index();
        absorb(out, entry.1);
        proof {
            assert(out@ == before.union((*all[k].1)@));
        }
    }
    proof {
        let held = ids_with_players(players@);
        assert forall|x: u32| out@.contains(x) <==> start.union(held).contains(x) by {
            if exists|j: int| 0 <= j < all.len() && (*(#[trigger] all[j]).1)@.contains(x) {
                let j = choose|j: int| 0 <= j < all.len() && (*(#[trigger] all[j]).1)@.contains(x);
                assert(players@.contains_key(*all[j].0) && players@[*all[j].0] == *all[j].1);
            }
            if held.contains(x) {
                let index = choose|index: usize|
                    players@.contains_key(index) && (#[trigger] players@[index])@.contains(x);
                assert(all.contains((&index, &players@[index])));
                let j = choose|j: int| 0 <= j < all.len() && all[j] == (&index, &players@[index]);
                assert((*all[j].1)@.contains(x));
            }
        }
        assert(out@ =~= start.union(held));
    }
}

impl Cache {
    /// Whether this is the cache that a search starts with when it has
    /// none: nothing found, written at no time, for the version `version`.
    pub open spec fn is_fresh(&self, version: Seq<char>) -> bool {
        &&& self.modified is None
        &&& self.version_text() == version
        &&& self.map_ids_by_entities_region@.len() == 0
        &&& self.map_ids_by_block_region@.len() == 0
        &&& self.map_ids_by_player@ == Map::<usize, IdSet>::empty()
    }

    /// The version of the tool that wrote the cache.
    pub open spec fn version_text(&self) -> Seq<char> {
        self.version@
    }

    /// The map ids that the cache holds, for whatever file.
    pub open spec fn ids(&self) -> Set<u32> {
        ids_in_regions(self.map_ids_by_entities_region@).union(
            ids_in_regions(self.map_ids_by_block_region@),
        ).union(ids_with_players(self.map_ids_by_player@))
    }

    /// Whether a file that last changed at `modified` has to be searched
    /// again: it changed after the cache was written, or there is no time
    /// at which the cache was written.
    pub open spec fn expired_for(&self, modified: Timestamp) -> bool {
        match self.modified {
            None => true,
            Some(written) => written.nanos < modified.nanos,
        }
    }

    /// The cache that a search starts with when it has none.
    pub fn new(version: &str) -> (c: Cache)
        ensures
            c.is_fresh(version@),
    {
        Cache {
            modified: None,
            version: version.to_owned(),
            map_ids_by_entities_region: SortedVec::new(),
            map_ids_by_block_region: SortedVec::new(),
            map_ids_by_player: HashMap::new(),
        }
    }

    /// A cache with what a file held.
    pub fn with_contents(
        version: String,
        map_ids_by_entities_region: SortedVec<RegionIds>,
        map_ids_by_block_region: SortedVec<RegionIds>,
        map_ids_by_player: HashMap<usize, IdSet>,
    ) -> (c: Cache)
        ensures
            c.modified is None,
            c.version_text() == version@,
            c.map_ids_by_entities_region == map_ids_by_entities_region,
            c.map_ids_by_block_region == map_ids_by_block_region,
            c.map_ids_by_player == map_ids_by_player,
    {
        Cache {
            modified: None,
            version,
            map_ids_by_entities_region,
            map_ids_by_block_region,
            map_ids_by_player,
        }
    }

    /// The version of the tool that wrote the cache.
    pub fn version(&self) -> (v: &str)
        ensures
            v@ == self.version_text(),
    {
        self.version.as_str()
    }

    /// The cache that a search works with. A search that is forced, or
    /// finds no file, or a file that is no cache, or a cache of another
    /// version of the tool than `current`, starts afresh. Else it goes on
    /// with what the file held, written at the time of the file's last
    /// change.
    pub fn open(force: bool, stored: Option<Stored>, current: &str) -> (c: Cache)
        ensures
            match stored {
                Some(Stored { cache: Some(held), modified }) => if !force && held.version_text()
                    == current@ {
                    &&& c.modified == Some(modified)
                    &&& c.version_text() == current@
                    &&& c.map_ids_by_entities_region == held.map_ids_by_entities_region
                    &&& c.map_ids_by_block_region == held.map_ids_by_block_region
                    &&& c.map_ids_by_player == held.map_ids_by_player
                } else {
                    c.is_fresh(current@)
                },
                _ => c.is_fresh(current@),
            },
    {
        if force {
            return Cache::new(current);
        }
        match stored {
            Some(Stored { cache: Some(held), modified }) => {
                if same_text(held.version.as_str(), current) {
                    Cache {
                        modified: Some(modified),
                        version: held.version,
                        map_ids_by_entities_region: held.map_ids_by_entities_region,
                        map_ids_by_block_region: held.map_ids_by_block_region,
                        map_ids_by_player: held.map_ids_by_player,
                    }
                } else {
                    Cache::new(current)
                }
            },
            _ => Cache::new(current),
        }
    }

    /// Whether a file that last changed at `modified` has to be searched
    /// again.
    pub fn is_expired_for(&self, modified: Timestamp) -> (expired: bool)
        ensures
            expired == self.expired_for(modified),
    {
        match self.modified {
            None => true,
            Some(written) => written.nanos < modified.nanos,
        }
    }

    /// Writes down what was found in entity regions.
    pub fn extend_entities(&mut self, found: Vec<RegionIds>)
        ensures
            final(self).map_ids_by_entities_region@ == with_regions(
                old(self).map_ids_by_entities_region@,
                found@,
            ),
            final(self).map_ids_by_block_region == old(self).map_ids_by_block_region,
            final(self).map_ids_by_player == old(self).map_ids_by_player,
            final(self).modified == old(self).modified,
            final(self).version_text() == old(self).version_text(),
    {
        put_regions(&mut self.map_ids_by_entities_region, found);
    }

    /// Writes down what was found in block regions.
    pub fn extend_blocks(&mut self, found: Vec<RegionIds>)
        ensures
            final(self).map_ids_by_block_region@ == with_regions(
                old(self).map_ids_by_block_region@,
                found@,
            ),
            final(self).map_ids_by_entities_region == old(self).map_ids_by_entities_region,
            final(self).map_ids_by_player == old(self).map_ids_by_player,
            final(self).modified == old(self).modified,
            final(self).version_text() == old(self).version_text(),
    {
        put_regions(&mut self.map_ids_by_block_region, found);
    }

    /// Writes down what was found with players.
    pub fn extend_players(&mut self, found: Vec<PlayerIds>)
        ensures
            final(self).map_ids_by_player@ == with_players(old(self).map_ids_by_player@, found@),
            final(self).map_ids_by_entities_region == old(self).map_ids_by_entities_region,
            final(self).map_ids_by_block_region == old(self).map_ids_by_block_region,
            final(self).modified == old(self).modified,
            final(self).version_text() == old(self).version_text(),
    {
        let ghost start = self.map_ids_by_player@;
        let ghost all = found@;
        for item in iter: found
            invariant
                iter.seq() == all,
                self.map_ids_by_player@ == with_players(start, all.take(iter.index() as int)),
                self.map_ids_by_entities_region == old(self).map_ids_by_entities_region,
                self.map_ids_by_block_region == old(self).map_ids_by_block_region,
                self.modified == old(self).modified,
                self.version_text() == old(self).version_text(),
        {
            proof {
                let n = iter.index() as int;
                assert(all.take(n + 1).drop_last() =~= all.take(n));
                assert(all.take(n + 1).last() == item);
            }
            self.map_ids_by_player.insert(item.index, item.ids);
        }
        proof {
            assert(all.take(all.len() as int) =~= all);
        }
    }

    /// The map ids that the cache holds, for whatever file.
    pub fn all_ids(&self) -> (ids: IdSet)
        ensures
            ids@ == self.ids(),
    {
        let mut ids = holding(None);
        gather_regions(&self.map_ids_by_entities_region, &mut ids);
        gather_regions(&self.map_ids_by_block_region, &mut ids);
        gather_players(&self.map_ids_by_player, &mut ids);
        proof {
            assert(ids@ =~= self.ids());
        }
        ids
    }
}

/// A file is searched again exactly when it changed after the cache was
/// written, or when the cache was written at no known time.
pub proof fn lemma_expired(cache: Cache, modified: Timestamp)
    ensures
        cache.expired_for(modified) <==> (cache.modified is None || modified.nanos
            > cache.modified->0.nanos),
{
}

} // verus!

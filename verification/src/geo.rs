//! The list of banners as it is written for the viewer: one feature for
//! each banner, with the maps that show it.

use crate::banner::{position_key, Banner};
use crate::scan::{MapScan, ScanView, Sighting};
use crate::sorted::{lemma_rank, rank, sorted, Keyed, SortedVec};
use vstd::prelude::*;

verus! {

/// One banner as the viewer shows it.
pub struct Feature {
    pub x: i32,
    pub z: i32,
    pub color: String,
    /// The name that the banner was given, if any.
    pub name: Option<String>,
    /// Whether the banner has a name that no other banner has.
    pub unique: bool,
    /// The ids of the maps that show the banner, in increasing order.
    pub maps: Vec<u32>,
}

/// `Feature` with its texts and its list as sequences.
pub ghost struct FeatureView {
    pub x: i32,
    pub z: i32,
    pub color: Seq<char>,
    pub name: Option<Seq<char>>,
    pub unique: bool,
    pub maps: Seq<u32>,
}

impl View for Feature {
    type V = FeatureView;

    open spec fn view(&self) -> FeatureView {
        FeatureView {
            x: self.x,
            z: self.z,
            color: self.color@,
            name: match self.name {
                Some(n) => Some(n@),
                None => None,
            },
            unique: self.unique,
            maps: self.maps@,
        }
    }
}

/// How many of the banners have the name `label`.
pub open spec fn label_count(banners: Seq<Banner>, label: Seq<char>) -> nat
    decreases banners.len(),
{
    if banners.len() == 0 {
        0
    } else {
        label_count(banners.drop_last(), label) + if banners.last()@.label == Some(label) {
            1nat
        } else {
            0nat
        }
    }
}

/// Whether a banner has a name that no other of the banners has.
pub open spec fn is_unique(banners: Seq<Banner>, banner: Banner) -> bool {
    match banner@.label {
        Some(label) => label_count(banners, label) == 1,
        None => false,
    }
}

/// The least key that a sighting at `(x, z)` can have.
pub open spec fn floor_at(x: i32, z: i32) -> int {
    position_key(x, z) * 0x1_0000_0000
}

/// The ids of the maps that show a banner at `(x, z)`, in increasing
/// order.
pub open spec fn ids_at(sightings: Seq<Sighting>, x: i32, z: i32) -> Seq<u32> {
    sightings.subrange(
        rank(sightings, floor_at(x, z)),
        rank(sightings, floor_at(x, z) + 0x1_0000_0000),
    ).map_values(|s: Sighting| s.id)
}

/// The sightings at `(x, z)` stand together, from the rank of the least
/// key of the position on.
pub proof fn lemma_ids_at(sightings: Seq<Sighting>, x: i32, z: i32)
    requires
        sorted(sightings),
    ensures
        0 <= rank(sightings, floor_at(x, z)) <= rank(sightings, floor_at(x, z) + 0x1_0000_0000)
            <= sightings.len(),
        forall|i: int|
            0 <= i < sightings.len() ==> (((#[trigger] sightings[i]).x == x && sightings[i].z == z)
                <==> rank(sightings, floor_at(x, z)) <= i < rank(
                sightings,
                floor_at(x, z) + 0x1_0000_0000,
            )),
{
    let lo = rank(sightings, floor_at(x, z));
    let hi = rank(sightings, floor_at(x, z) + 0x1_0000_0000);
    lemma_rank(sightings, floor_at(x, z));
    lemma_rank(sightings, floor_at(x, z) + 0x1_0000_0000);
    if hi < lo {
        assert(sightings[hi].key() < floor_at(x, z));
    }
    assert forall|i: int| 0 <= i < sightings.len() implies (((#[trigger] sightings[i]).x == x
        && sightings[i].z == z) <==> lo <= i < hi) by {
        if i < lo {
            assert(sightings[i].key() < floor_at(x, z));
        }
        if i >= hi {
            assert(sightings[i].key() >= floor_at(x, z) + 0x1_0000_0000);
        }
        if lo <= i {
            assert(sightings[i].key() >= floor_at(x, z));
        }
        if i < hi {
            assert(sightings[i].key() < floor_at(x, z) + 0x1_0000_0000);
        }
    }
}

/// The feature for one of the banners of a scan.
pub open spec fn feature_of(scan: ScanView, banner: Banner) -> FeatureView {
    FeatureView {
        x: banner.x,
        z: banner.z,
        color: banner.color@,
        name: banner@.label,
        unique: is_unique(scan.banners, banner),
        maps: ids_at(scan.sightings, banner.x, banner.z),
    }
}

/// A banner without a name is not unique, and neither is one whose name
/// another banner has.
pub proof fn lemma_not_unique(banners: Seq<Banner>, i: int, j: int)
    requires
        0 <= i < banners.len(),
        0 <= j < banners.len(),
    ensures
        banners[i]@.label is None ==> !is_unique(banners, banners[i]),
        i != j && banners[i]@.label is Some && banners[i]@.label == banners[j]@.label
            ==> !is_unique(banners, banners[i]),
{
    if i != j && banners[i]@.label is Some && banners[i]@.label == banners[j]@.label {
        let label = banners[i]@.label->0;
        if i < j {
            lemma_count_two(banners, label, i, j);
        } else {
            lemma_count_two(banners, label, j, i);
        }
    }
}

proof fn lemma_count_one(banners: Seq<Banner>, label: Seq<char>, i: int)
    requires
        0 <= i < banners.len(),
        banners[i]@.label == Some(label),
    ensures
        label_count(banners, label) >= 1,
    decreases banners.len(),
{
    if i < banners.len() - 1 {
        assert(banners.drop_last()[i] == banners[i]);
        lemma_count_one(banners.drop_last(), label, i);
    }
}

proof fn lemma_count_two(banners: Seq<Banner>, label: Seq<char>, i: int, j: int)
    requires
        0 <= i < j < banners.len(),
        banners[i]@.label == Some(label),
        banners[j]@.label == Some(label),
    ensures
        label_count(banners, label) >= 2,
    decreases banners.len(),
{
    if j < banners.len() - 1 {
        assert(banners.drop_last()[i] == banners[i]);
        assert(banners.drop_last()[j] == banners[j]);
        lemma_count_two(banners.drop_last(), label, i, j);
    } else {
        assert(banners.drop_last()[i] == banners[i]);
        lemma_count_one(banners.drop_last(), label, i);
    }
}

fn count_label(banners: &SortedVec<Banner>, label: &String) -> (n: usize)
    ensures
        n == label_count(banners@, label@),
{
    let total = banners.len();
    let mut n: usize = 0;
    let mut i: usize = 0;
    proof {
        assert(banners@.take(0) =~= Seq::<Banner>::empty());
    }
    while i < total
        invariant
            i <= total,
            total == banners@.len(),
            n == label_count(banners@.take(i as int), label@),
            n <= i,
        decreases total - i,
    {
        proof {
            assert(banners@.take(i + 1).drop_last() =~= banners@.take(i as int));
            assert(banners@.take(i + 1).last() == banners@[i as int]);
        }
        let same = match &banners.get(i).label {
            Some(l) => *l == *label,
            None => false,
        };
        if same {
            n = n + 1;
        }
        i += 1;
    }
    proof {
        assert(banners@.take(i as int) =~= banners@);
    }
    n
}

fn collect_ids_at(sightings: &SortedVec<Sighting>, x: i32, z: i32) -> (ids: Vec<u32>)
    ensures
        ids@ == ids_at(sightings@, x, z),
{
    let probe = Sighting { x, z, id: 0 };
    let lo = sightings.rank_of(&probe);
    let n = sightings.len();
    let ghost all = sightings@;
    proof {
        assert(probe.key() == floor_at(x, z));
        lemma_ids_at(all, x, z);
    }
    let ghost hi = rank(all, floor_at(x, z) + 0x1_0000_0000);
    let mut ids: Vec<u32> = Vec::new();
    let mut j = lo;
    proof {
        assert(ids@ =~= all.subrange(lo as int, j as int).map_values(|s: Sighting| s.id));
    }
    loop
        invariant_except_break
            lo <= j <= hi <= n,
            ids@ == all.subrange(lo as int, j as int).map_values(|s: Sighting| s.id),
        invariant
            n == all.len(),
            all == sightings@,
            sorted(all),
            lo == rank(all, floor_at(x, z)),
            hi == rank(all, floor_at(x, z) + 0x1_0000_0000),
            forall|i: int|
                0 <= i < all.len() ==> (((#[trigger] all[i]).x == x && all[i].z == z) <==> lo <= i
                    < hi),
        ensures
            ids@ == all.subrange(lo as int, hi).map_values(|s: Sighting| s.id),
        decreases n - j,
    {
        if j >= n {
            proof {
                assert(j == hi);
            }
            break ;
        }
        let s = sightings.get(j);
        if !(s.x == x && s.z == z) {
            proof {
                assert(!(all[j as int].x == x && all[j as int].z == z));
                assert(j == hi);
            }
            break ;
        }
        proof {
            assert(all[j as int].x == x && all[j as int].z == z);
            assert(all.subrange(lo as int, j + 1).map_values(|s: Sighting| s.id) =~= all.subrange(
                lo as int,
                j as int,
            ).map_values(|s: Sighting| s.id).push(all[j as int].id));
        }
        ids.push(s.id);
        j += 1;
    }
    ids
}

/// The features of the banners of a scan, in the order of the banners.
pub fn features(scan: &MapScan) -> (list: Vec<Feature>)
    ensures
        list@.len() == scan@.banners.len(),
        forall|i: int|
            0 <= i < list@.len() ==> (#[trigger] list@[i])@ == feature_of(
                scan@,
                scan@.banners[i],
            ),
{
    let banners = scan.banners();
    let sightings = scan.sightings();
    let n = banners.len();
    let mut list: Vec<Feature> = Vec::new();
    let mut i: usize = 0;
    while i < n
        invariant
            i <= n,
            n == banners@.len(),
            banners@ == scan@.banners,
            sightings@ == scan@.sightings,
            list@.len() == i,
            forall|k: int|
                0 <= k < i ==> (#[trigger] list@[k])@ == feature_of(scan@, scan@.banners[k]),
        decreases n - i,
    {
        let banner = banners.get(i);
        let copy = banner.duplicate();
        let unique = match &banner.label {
            Some(label) => count_label(banners, label) == 1,
            None => false,
        };
        let feature = Feature {
            x: banner.x,
            z: banner.z,
            color: copy.color,
            name: copy.label,
            unique,
            maps: collect_ids_at(sightings, banner.x, banner.z),
        };
        proof {
            assert(feature@ == feature_of(scan@, scan@.banners[i as int]));
        }
        list.push(feature);
        i += 1;
    }
    list
}

} // verus!

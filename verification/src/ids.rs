//! Sets of map ids.

use crate::sorted::{has_key, keys, sorted, Keyed, SortedVec};
use std::collections::HashSet;
use vstd::prelude::*;
use vstd::std_specs::hash::spec_hash_keys_iter;
use vstd::std_specs::iter::IteratorSpec;

verus! {

broadcast use vstd::std_specs::hash::group_hash_axioms;

/// A set of map ids.
pub type IdSet = HashSet<u32>;

/// The set of one id, or of none.
pub fn holding(found: Option<u32>) -> (s: IdSet)
    ensures
        s@ == match found {
            Some(id) => set![id],
            None => Set::<u32>::empty(),
        },
{
    let mut s: HashSet<u32> = HashSet::new();
    match found {
        Some(id) => {
            s.insert(id);
            proof {
                assert(s@ =~= set![id]);
            }
        },
        None => {},
    }
    s
}

/// Puts every id of `other` into `out`.
pub fn absorb(out: &mut IdSet, other: &IdSet)
    ensures
        final(out)@ == old(out)@.union(other@),
{
    let ghost start = out@;
    let ghost all = spec_hash_keys_iter(other).remaining();
    proof {
        assert(all.unref().to_set() == other@);
    }
    for id in iter: other.iter()
        invariant
            iter.seq() == all,
            forall|x: u32|
                #[trigger] out@.contains(x) <==> (start.contains(x) || exists|j: int|
                    0 <= j < iter.index() && *(#[trigger] all[j]) == x),
    {
        let ghost before = out@;
        let ghost k = iter.index();
        out.insert(*id);
        proof {
            assert(out@ == before.insert(*all[k]));
        }
    }
    proof {
        assert forall|x: u32| out@.contains(x) <==> start.union(other@).contains(x) by {
            if other@.contains(x) {
                assert(all.unref().to_set().contains(x));
                let j = choose|j: int| 0 <= j < all.unref().len() && all.unref()[j] == x;
                assert(*all[j] == x);
            }
            if exists|j: int| 0 <= j < all.len() && *(#[trigger] all[j]) == x {
                let j = choose|j: int| 0 <= j < all.len() && *(#[trigger] all[j]) == x;
                assert(all.unref()[j] == x);
                assert(all.unref().to_set().contains(x));
            }
        }
        assert(out@ =~= start.union(other@));
    }
}

/// The ids in ascending order, each once.
pub fn ascending(ids: &IdSet) -> (v: SortedVec<u32>)
    ensures
        sorted(v@),
        forall|id: u32| ids@.contains(id) <==> has_key(v@, id as int),
{
    let mut v: SortedVec<u32> = SortedVec::new();
    let ghost all = spec_hash_keys_iter(ids).remaining();
    proof {
        assert(all.unref().to_set() == ids@);
    }
    for id in iter: ids.iter()
        invariant
            iter.seq() == all,
            sorted(v@),
            forall|k: int|
                #[trigger] has_key(v@, k) <==> exists|j: int|
                    0 <= j < iter.index() && *(#[trigger] all[j]) as int == k,
    {
        let ghost before = v@;
        let ghost n = iter.index();
        v.insert(*id);
        proof {
            assert forall|k: int| #[trigger] has_key(v@, k) <==> exists|j: int|
                0 <= j < n + 1 && *(#[trigger] all[j]) as int == k by {
                assert(keys(v@).contains(k) == has_key(v@, k));
                assert(keys(before).contains(k) == has_key(before, k));
                assert(keys(v@).contains(k) <==> keys(before).contains(k) || k == (*all[n]).key());
                if k == *all[n] as int {
                    assert(*all[n] as int == k);
                }
            }
        }
    }
    proof {
        assert forall|id: u32| ids@.contains(id) <==> has_key(v@, id as int) by {
            if ids@.contains(id) {
                assert(all.unref().to_set().contains(id));
                let j = choose|j: int| 0 <= j < all.unref().len() && all.unref()[j] == id;
                assert(*all[j] as int == id as int);
            }
            if has_key(v@, id as int) {
                let j = choose|j: int| 0 <= j < all.len() && *(#[trigger] all[j]) as int == id as int;
                assert(all.unref()[j] == id);
                assert(all.unref().to_set().contains(id));
            }
        }
    }
    v
}

} // verus!

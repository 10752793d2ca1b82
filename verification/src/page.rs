//! What the page of the viewer is filled with.

use crate::level::Level;
use crate::scan::MapScan;
use crate::text::{hex, to_hex};
use crate::time::{later, latest, Timestamp};
use vstd::prelude::*;

verus! {

/// The values that the page of the viewer is filled with.
pub struct IndexPage {
    /// Where the viewer looks first: where players first appear, `z` before
    /// `x`.
    pub center: [i32; 2],
    /// The name and the version of the tool.
    pub generator: String,
    /// A text that changes whenever the pictures do: the seconds of the
    /// latest change of a map, in hexadecimal.
    pub cache_version: String,
    /// The largest number of maps that cover one leaf tile.
    pub maps_stacked: usize,
}

/// The seconds, since the epoch, of the latest change that a scan has
/// seen: zero where it has seen none, and nothing where that change lies
/// before the epoch or too far after it.
pub open spec fn stamp_of(banners_modified: Option<Timestamp>, maps_modified: Option<Timestamp>)
    -> Option<u64> {
    match latest(banners_modified, maps_modified) {
        None => Some(0),
        Some(t) => if t.nanos >= 0 && t.nanos / 1_000_000_000 <= u64::MAX {
            Some((t.nanos / 1_000_000_000) as u64)
        } else {
            None
        },
    }
}

/// The values for the page of the viewer. Nothing where the latest change
/// of a map lies before the epoch.
pub fn index_page(level: &Level, scan: &MapScan, maps_stacked: usize, name: &str, version: &str)
    -> (r: Option<IndexPage>)
    ensures
        r is Some == stamp_of(scan@.banners_modified, scan@.maps_modified) is Some,
        r matches Some(page) ==> {
            &&& page.center@ == seq![level.spawn_z, level.spawn_x]
            &&& page.generator@ == name@ + seq![' '] + version@
            &&& page.cache_version@ == hex(
                stamp_of(scan@.banners_modified, scan@.maps_modified)->0 as nat,
            )
            &&& page.maps_stacked == maps_stacked
        },
{
    let secs = match later(scan.banners_modified(), scan.maps_modified()) {
        None => 0,
        Some(t) => match t.epoch_secs() {
            Some(s) => s,
            None => {
                return None;
            },
        },
    };
    let mut generator = name.to_owned();
    proof {
        reveal_strlit(" ");
    }
    generator.append(" ");
    generator.append(version);
    let center = [level.spawn_z, level.spawn_x];
    proof {
        assert(center@ =~= seq![level.spawn_z, level.spawn_x]);
        assert(generator@ =~= name@ + seq![' '] + version@);
    }
    Some(IndexPage { center, generator, cache_version: to_hex(secs), maps_stacked })
}

} // verus!

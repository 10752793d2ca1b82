use little_a_map::cache::{Cache, PlayerIds, RegionIds, Stored};
use little_a_map::ids::{ascending, IdSet};
use little_a_map::sorted::SortedVec;
use std::collections::HashMap;
use little_a_map::time::Timestamp;
use semver::Version;

const CURRENT: &str = "0.14.0";

fn next_version(text: &str) -> String {
    let mut version = Version::parse(text).unwrap();
    if version.patch > 0 {
        version.patch -= 1;
    } else if version.minor > 0 {
        version.minor -= 1;
    } else {
        version.major -= 1;
    }
    version.to_string()
}

fn previous_version(text: &str) -> String {
    let mut version = Version::parse(text).unwrap();
    version.patch += 1;
    version.to_string()
}

fn set(ids: &[u32]) -> IdSet {
    let mut set = IdSet::new();
    for &id in ids {
        set.insert(id);
    }
    set
}

fn stored(version: &str) -> Stored {
    let mut players = HashMap::new();
    players.insert(0, set(&[0]));
    Stored {
        cache: Some(Cache::with_contents(
            version.to_string(),
            SortedVec::new(),
            SortedVec::new(),
            players,
        )),
        modified: Timestamp::from_secs(100),
    }
}

fn with_version(version: &str) -> Result<Cache, ()> {
    let cache = Cache::open(false, Some(stored(version)), CURRENT);
    if cache.modified.is_some() {
        Ok(cache)
    } else {
        Err(())
    }
}

#[test]
fn validate_version() {
    let current = CURRENT;

    assert!(with_version(current).is_ok());
    assert!(with_version(&next_version(current)).is_err());
    assert!(with_version(&previous_version(current)).is_err());
}

#[test]
fn fresh_cache() {
    let cache = Cache::new(CURRENT);
    assert_eq!(cache.modified, None);
    assert_eq!(cache.version(), CURRENT);
    assert!(cache.map_ids_by_entities_region.is_empty());
    assert!(cache.map_ids_by_block_region.is_empty());
    assert!(cache.map_ids_by_player.is_empty());
    assert!(cache.all_ids().is_empty());
}

#[test]
fn open_keeps_a_cache_of_this_version() {
    let cache = Cache::open(false, Some(stored(CURRENT)), CURRENT);
    assert_eq!(cache.modified, Some(Timestamp::from_secs(100)));
    assert_eq!(ascending(&cache.all_ids()).as_slice(), [0]);
}

#[test]
fn open_starts_afresh() {
    let forced = Cache::open(true, Some(stored(CURRENT)), CURRENT);
    assert_eq!(forced.modified, None);
    assert!(forced.all_ids().is_empty());
    let absent = Cache::open(false, None, CURRENT);
    assert_eq!(absent.modified, None);
    let unreadable = Cache::open(
        false,
        Some(Stored { cache: None, modified: Timestamp::from_secs(100) }),
        CURRENT,
    );
    assert_eq!(unreadable.modified, None);
    assert_eq!(unreadable.version(), CURRENT);
    let outdated = Cache::open(false, Some(stored("0.13.0")), CURRENT);
    assert_eq!(outdated.modified, None);
    assert_eq!(outdated.version(), CURRENT);
    assert!(outdated.all_ids().is_empty());
}

#[test]
fn expired_exactly_when_the_file_is_newer() {
    let mut cache = Cache::new(CURRENT);
    assert!(cache.is_expired_for(Timestamp::from_secs(0)));
    assert!(cache.is_expired_for(Timestamp { nanos: -5 }));
    cache.modified = Some(Timestamp::new(100, 500));
    assert!(!cache.is_expired_for(Timestamp::new(100, 499)));
    assert!(!cache.is_expired_for(Timestamp::new(100, 500)));
    assert!(cache.is_expired_for(Timestamp::new(100, 501)));
    assert!(cache.is_expired_for(Timestamp::from_secs(101)));
    assert!(!cache.is_expired_for(Timestamp::from_secs(100)));
}

#[test]
fn findings_replace_earlier_ones() {
    let mut cache = Cache::new(CURRENT);
    cache.extend_blocks(vec![
        RegionIds { x: 0, z: 0, ids: set(&[1, 2]) },
        RegionIds { x: -1, z: 0, ids: set(&[3]) },
    ]);
    cache.extend_entities(vec![RegionIds { x: 0, z: 0, ids: set(&[5]) }]);
    cache.extend_players(vec![PlayerIds { index: 1, ids: set(&[0, 13]) }]);
    assert_eq!(ascending(&cache.all_ids()).as_slice(), [0, 1, 2, 3, 5, 13]);
    cache.extend_blocks(vec![RegionIds { x: 0, z: 0, ids: set(&[2, 4]) }]);
    cache.extend_players(vec![
        PlayerIds { index: 0, ids: set(&[12]) },
        PlayerIds { index: 1, ids: set(&[]) },
    ]);
    assert_eq!(ascending(&cache.all_ids()).as_slice(), [2, 3, 4, 5, 12]);
    assert_eq!(cache.map_ids_by_block_region.len(), 2);
    assert_eq!(cache.map_ids_by_block_region.get(0).x, -1);
    assert_eq!(cache.map_ids_by_player.len(), 2);
    assert!(cache.map_ids_by_player[&1].is_empty());
    assert_eq!(ascending(&cache.map_ids_by_player[&0]).as_slice(), [12]);
}

//! The search for map items: which of the files of a world have to be read
//! again, and under which key their findings are written down.

use crate::cache::Cache;
use crate::files::{is_player_file, is_player_name, parse_region_name, region_of};
use crate::sorted::{inserted, sorted, Keyed, SortedVec};
use crate::time::Timestamp;
use vstd::prelude::*;

verus! {

/// The regions that a search is held to: from the first position to the
/// second, both within.
pub type Bounds = ((i32, i32), (i32, i32));

/// A file as it was seen in a directory: its name, without the directory,
/// and when it last changed.
pub struct Seen {
    pub name: Vec<u8>,
    pub modified: Timestamp,
}

/// A region file that has to be read. `at` is its place in the listing.
#[derive(Clone, Copy, Debug, PartialEq, Eq, Structural)]
pub struct RegionFile {
    pub x: i32,
    pub z: i32,
    pub at: usize,
}

/// Whether the region at `(x, z)` lies within the bounds. Without bounds
/// every region does.
pub open spec fn within(bounds: Option<Bounds>, x: i32, z: i32) -> bool {
    match bounds {
        None => true,
        Some(((x0, z0), (x1, z1))) => x0 <= x <= x1 && z0 <= z <= z1,
    }
}

/// Whether a file that changed at `modified` is newer than a cache written
/// at `written`.
pub open spec fn newer(written: Option<Timestamp>, modified: Timestamp) -> bool {
    match written {
        None => true,
        Some(w) => w.nanos < modified.nanos,
    }
}

/// The region files of a listing that have to be read: those within the
/// bounds that changed after the cache was written, in the order of the
/// listing. A name that names no region fails the search; the failure
/// names the first such place.
pub open spec fn chosen_regions(
    listing: Seq<Seen>,
    bounds: Option<Bounds>,
    written: Option<Timestamp>,
) -> Result<Seq<RegionFile>, usize>
    decreases listing.len(),
{
    if listing.len() == 0 {
        Ok(Seq::empty())
    } else {
        match chosen_regions(listing.drop_last(), bounds, written) {
            Err(at) => Err(at),
            Ok(before) => match region_of(listing.last().name@) {
                None => Err((listing.len() - 1) as usize),
                Some((x, z)) => Ok(
                    if within(bounds, x, z) && newer(written, listing.last().modified) {
                        before.push(RegionFile { x, z, at: (listing.len() - 1) as usize })
                    } else {
                        before
                    },
                ),
            },
        }
    }
}

/// A failure among the first files is the failure of the listing.
proof fn lemma_chosen_failure(
    listing: Seq<Seen>,
    bounds: Option<Bounds>,
    written: Option<Timestamp>,
    i: int,
)
    requires
        0 <= i <= listing.len(),
        chosen_regions(listing.take(i), bounds, written) is Err,
    ensures
        chosen_regions(listing, bounds, written) == chosen_regions(
            listing.take(i),
            bounds,
            written,
        ),
    decreases listing.len() - i,
{
    if i < listing.len() {
        assert(listing.take(i + 1).drop_last() =~= listing.take(i));
        lemma_chosen_failure(listing, bounds, written, i + 1);
    } else {
        assert(listing.take(i) =~= listing);
    }
}

/// Whether the region at `(x, z)` lies within the bounds.
pub fn is_within(bounds: Option<&Bounds>, x: i32, z: i32) -> (b: bool)
    ensures
        b == within(
            match bounds {
                Some(b) => Some(*b),
                None => None,
            },
            x,
            z,
        ),
{
    match bounds {
        None => true,
        Some(b) => {
            let ((x0, z0), (x1, z1)) = *b;
            x0 <= x && x <= x1 && z0 <= z && z <= z1
        },
    }
}

/// The region files of a listing that have to be read.
pub fn select_regions(listing: &Vec<Seen>, bounds: Option<&Bounds>, cache: &Cache) -> (r: Result<
    Vec<RegionFile>,
    usize,
>)
    ensures
        match r {
            Ok(files) => chosen_regions(
                listing@,
                match bounds {
                    Some(b) => Some(*b),
                    None => None,
                },
                cache.modified,
            ) == Ok::<Seq<RegionFile>, usize>(files@),
            Err(at) => chosen_regions(
                listing@,
                match bounds {
                    Some(b) => Some(*b),
                    None => None,
                },
                cache.modified,
            ) == Err::<Seq<RegionFile>, usize>(at),
        },
{
    let ghost limits: Option<Bounds> = match bounds {
        Some(b) => Some(*b),
        None => None,
    };
    let ghost written = cache.modified;
    let mut files: Vec<RegionFile> = Vec::new();
    let mut i: usize = 0;
    proof {
        assert(listing@.take(0) =~= Seq::<Seen>::empty());
    }
    while i < listing.len()
        invariant
            i <= listing@.len(),
            limits == match bounds {
                Some(b) => Some(*b),
                None => None,
            },
            written == cache.modified,
            chosen_regions(listing@.take(i as int), limits, written) == Ok::<
                Seq<RegionFile>,
                usize,
            >(files@),
        decreases listing@.len() - i,
    {
        let seen = &listing[i];
        proof {
            assert(listing@.take(i + 1).drop_last() =~= listing@.take(i as int));
            assert(listing@.take(i + 1).last() == listing@[i as int]);
        }
        match parse_region_name(seen.name.as_slice()) {
            None => {
                proof {
                    lemma_chosen_failure(listing@, limits, written, i + 1);
                }
                return Err(i);
            },
            Some((x, z)) => {
                if is_within(bounds, x, z) && cache.is_expired_for(seen.modified) {
                    files.push(RegionFile { x, z, at: i });
                }
            },
        }
        i += 1;
    }
    proof {
        assert(listing@.take(i as int) =~= listing@);
    }
    Ok(files)
}

/// Bytes as one number, the first byte counting most.
pub open spec fn joined(bytes: Seq<u8>) -> int
    decreases bytes.len(),
{
    if bytes.len() == 0 {
        0
    } else {
        joined(bytes.drop_last()) * 256 + bytes.last()
    }
}

/// Eight bytes of a name, from the place `from` on, as one number.
pub open spec fn word(name: Seq<u8>, from: int) -> u64 {
    joined(name.subrange(from, from + 8)) as u64
}

/// The file of a player: the forty bytes of its name as five numbers, when
/// it last changed, and its place in the listing.
#[derive(Clone, Copy, Debug, PartialEq, Eq)]
pub struct PlayerFile {
    pub name: (u64, u64, u64, u64, u64),
    pub modified: Timestamp,
    pub at: usize,
}

impl Keyed for PlayerFile {
    /// Player files are ordered by the five numbers of their names, the
    /// first counting most: that is the order of the names, byte by byte.
    open spec fn key(&self) -> int {
        (((self.name.0 * 0x1_0000_0000_0000_0000 + self.name.1) * 0x1_0000_0000_0000_0000
            + self.name.2) * 0x1_0000_0000_0000_0000 + self.name.3) * 0x1_0000_0000_0000_0000
            + self.name.4
    }

    fn key_lt(&self, other: &Self) -> (b: bool) {
        let a = &self.name;
        let o = &other.name;
        a.0 < o.0 || (a.0 == o.0 && (a.1 < o.1 || (a.1 == o.1 && (a.2 < o.2 || (a.2 == o.2 && (a.3
            < o.3 || (a.3 == o.3 && a.4 < o.4)))))))
    }
}

/// The player file that a file of the listing is, where its name is that
/// of one.
pub open spec fn player_file(seen: Seen, at: usize) -> PlayerFile {
    PlayerFile {
        name: (
            word(seen.name@, 0),
            word(seen.name@, 8),
            word(seen.name@, 16),
            word(seen.name@, 24),
            word(seen.name@, 32),
        ),
        modified: seen.modified,
        at,
    }
}

/// The player files of a listing, in their order. Files with other names
/// are passed over, and of two files with one name the first stays.
pub open spec fn players_of(listing: Seq<Seen>) -> Seq<PlayerFile>
    decreases listing.len(),
{
    if listing.len() == 0 {
        Seq::empty()
    } else if is_player_name(listing.last().name@) {
        inserted(
            players_of(listing.drop_last()),
            player_file(listing.last(), (listing.len() - 1) as usize),
        )
    } else {
        players_of(listing.drop_last())
    }
}

/// Whether the text `a` comes before the text `b` of the same length: at
/// the first place where they differ, `a` has the smaller byte.
pub open spec fn comes_before(a: Seq<u8>, b: Seq<u8>) -> bool {
    exists|i: int| 0 <= i < a.len() && a.take(i) == b.take(i) && #[trigger] a[i] < b[i]
}

/// Bytes joined to a number are ordered as the texts are, and two texts of
/// one length give one number only if they are the same.
pub proof fn lemma_joined_order(a: Seq<u8>, b: Seq<u8>)
    requires
        a.len() == b.len(),
    ensures
        joined(a) >= 0,
        joined(a) < joined(b) <==> comes_before(a, b),
        joined(a) == joined(b) <==> a == b,
    decreases a.len(),
{
    if a.len() == 0 {
        assert(a =~= b);
    } else {
        let x = a.drop_last();
        let y = b.drop_last();
        lemma_joined_order(x, y);
        lemma_joined_order(y, x);
        if comes_before(x, y) {
            let i = choose|i: int| 0 <= i < x.len() && x.take(i) == y.take(i) && #[trigger] x[i] < y[i];
            assert(a.take(i) =~= x.take(i));
            assert(b.take(i) =~= y.take(i));
            assert(a[i] == x[i] && b[i] == y[i]);
            assert(comes_before(a, b));
        }
        if x == y && a.last() < b.last() {
            let n = a.len() - 1;
            assert(a.take(n) =~= x);
            assert(b.take(n) =~= y);
            assert(a[n] < b[n]);
            assert(comes_before(a, b));
        }
        if comes_before(a, b) {
            let i = choose|i: int| 0 <= i < a.len() && a.take(i) == b.take(i) && #[trigger] a[i] < b[i];
            if i < a.len() - 1 {
                assert(x.take(i) =~= a.take(i));
                assert(y.take(i) =~= b.take(i));
                assert(x[i] == a[i] && y[i] == b[i]);
                assert(comes_before(x, y));
            } else {
                assert(a.take(i) =~= x);
                assert(b.take(i) =~= y);
            }
        }
        if x == y && a.last() == b.last() {
            assert forall|k: int| 0 <= k < a.len() implies a[k] == b[k] by {
                if k < a.len() - 1 {
                    assert(a[k] == x[k] && b[k] == y[k]);
                }
            }
            assert(a =~= b);
        }
    }
}

/// Two texts joined as one number: the first counts as much more as the
/// second is long.
pub proof fn lemma_joined_halves(a: Seq<u8>, b: Seq<u8>)
    ensures
        joined(a + b) == joined(a) * scale(b.len() as int) + joined(b),
        0 <= joined(b) < scale(b.len() as int),
    decreases b.len(),
{
    if b.len() == 0 {
        assert(a + b =~= a);
    } else {
        let head = b.drop_last();
        lemma_joined_halves(a, head);
        assert((a + b).drop_last() =~= a + head);
        assert((a + b).last() == b.last());
        let s = scale(head.len() as int);
        assert(scale(b.len() as int) == s * 256);
        assert((joined(a) * s + joined(head)) * 256 + b.last() == joined(a) * (s * 256) + (
        joined(head) * 256 + b.last())) by (nonlinear_arith);
        assert(joined(head) * 256 + b.last() < s * 256) by (nonlinear_arith)
            requires
                0 <= joined(head) < s,
                0 <= b.last() < 256,
        ;
    }
}

/// What a byte counts for when `n` bytes follow it: 256 to the `n`.
pub open spec fn scale(n: int) -> int
    decreases n,
{
    if n <= 0 {
        1
    } else {
        scale(n - 1) * 256
    }
}

/// The key of a player file is the forty bytes of its name joined, so
/// that player files are ordered as their names are, byte by byte.
pub proof fn lemma_player_order(a: Seen, b: Seen, i: usize, j: usize)
    requires
        a.name@.len() == 40,
        b.name@.len() == 40,
    ensures
        player_file(a, i).key() == joined(a.name@),
        player_file(a, i).key() < player_file(b, j).key() <==> comes_before(a.name@, b.name@),
        player_file(a, i).key() == player_file(b, j).key() <==> a.name@ == b.name@,
{
    lemma_player_key(a.name@);
    lemma_player_key(b.name@);
    lemma_joined_order(a.name@, b.name@);
}

proof fn lemma_player_key(name: Seq<u8>)
    requires
        name.len() == 40,
    ensures
        ((((word(name, 0) * 0x1_0000_0000_0000_0000 + word(name, 8)) * 0x1_0000_0000_0000_0000
            + word(name, 16)) * 0x1_0000_0000_0000_0000 + word(name, 24))
            * 0x1_0000_0000_0000_0000 + word(name, 32)) == joined(name),
{
    let w0 = name.subrange(0, 8);
    let w1 = name.subrange(8, 16);
    let w2 = name.subrange(16, 24);
    let w3 = name.subrange(24, 32);
    let w4 = name.subrange(32, 40);
    assert(scale(8) == 0x1_0000_0000_0000_0000) by {
        reveal_with_fuel(scale, 10);
    }
    lemma_joined_halves(Seq::empty(), w0);
    assert(Seq::<u8>::empty() + w0 =~= w0);
    lemma_joined_halves(w0, w1);
    lemma_joined_halves(w0 + w1, w2);
    lemma_joined_halves(w0 + w1 + w2, w3);
    lemma_joined_halves(w0 + w1 + w2 + w3, w4);
    lemma_joined_halves(Seq::empty(), w1);
    assert(Seq::<u8>::empty() + w1 =~= w1);
    lemma_joined_halves(Seq::empty(), w2);
    assert(Seq::<u8>::empty() + w2 =~= w2);
    lemma_joined_halves(Seq::empty(), w3);
    assert(Seq::<u8>::empty() + w3 =~= w3);
    lemma_joined_halves(Seq::empty(), w4);
    assert(Seq::<u8>::empty() + w4 =~= w4);
    assert(w0 + w1 + w2 + w3 + w4 =~= name);
}

/// A player file that has to be read. `index` is the place of the file
/// among the player files in the order of their names: the key under which
/// its findings are written down. `at` is its place in the listing.
#[derive(Clone, Copy, Debug, PartialEq, Eq, Structural)]
pub struct PlayerChoice {
    pub index: usize,
    pub at: usize,
}

/// Of the player files in their order, those that changed after the cache
/// was written, each with its place in that order.
pub open spec fn chosen_players(players: Seq<PlayerFile>, written: Option<Timestamp>) -> Seq<
    PlayerChoice,
>
    decreases players.len(),
{
    if players.len() == 0 {
        Seq::empty()
    } else {
        let before = chosen_players(players.drop_last(), written);
        if newer(written, players.last().modified) {
            before.push(
                PlayerChoice { index: (players.len() - 1) as usize, at: players.last().at },
            )
        } else {
            before
        }
    }
}

fn read_word(name: &[u8], from: usize) -> (w: u64)
    requires
        from + 8 <= name@.len(),
    ensures
        w == word(name@, from as int),
{
    let ghost part = name@.subrange(from as int, from + 8);
    let n = name.len();
    let mut w: u64 = 0;
    let mut i: usize = 0;
    proof {
        assert(part.take(0) =~= Seq::<u8>::empty());
    }
    while i < 8
        invariant
            i <= 8,
            n == name@.len(),
            from + 8 <= n,
            part == name@.subrange(from as int, from + 8),
            w == joined(part.take(i as int)),
            w < far(i as int),
        decreases 8 - i,
    {
        proof {
            assert(part.take(i + 1).drop_last() =~= part.take(i as int));
            assert(part.take(i + 1).last() == name@[from + i]);
        }
        w = w * 256 + name[from + i] as u64;
        i += 1;
    }
    proof {
        assert(part.take(8) =~= part);
    }
    w
}

/// One more than the largest number that `n` bytes can write, for up to
/// eight bytes.
pub open spec fn far(n: int) -> int {
    if n <= 0 {
        1
    } else if n == 1 {
        0x100
    } else if n == 2 {
        0x1_0000
    } else if n == 3 {
        0x100_0000
    } else if n == 4 {
        0x1_0000_0000
    } else if n == 5 {
        0x100_0000_0000
    } else if n == 6 {
        0x1_0000_0000_0000
    } else if n == 7 {
        0x100_0000_0000_0000
    } else {
        0x1_0000_0000_0000_0000
    }
}

/// The player files of a listing, in the order of their names.
pub fn sort_players(listing: &Vec<Seen>) -> (players: SortedVec<PlayerFile>)
    ensures
        players@ == players_of(listing@),
{
    let mut players: SortedVec<PlayerFile> = SortedVec::new();
    let mut i: usize = 0;
    proof {
        assert(listing@.take(0) =~= Seq::<Seen>::empty());
    }
    while i < listing.len()
        invariant
            i <= listing@.len(),
            players@ == players_of(listing@.take(i as int)),
        decreases listing@.len() - i,
    {
        let seen = &listing[i];
        proof {
            assert(listing@.take(i + 1).drop_last() =~= listing@.take(i as int));
            assert(listing@.take(i + 1).last() == listing@[i as int]);
        }
        let name = seen.name.as_slice();
        if is_player_file(name) {
            let file = PlayerFile {
                name: (
                    read_word(name, 0),
                    read_word(name, 8),
                    read_word(name, 16),
                    read_word(name, 24),
                    read_word(name, 32),
                ),
                modified: seen.modified,
                at: i,
            };
            players.insert(file);
        }
        i += 1;
    }
    proof {
        assert(listing@.take(i as int) =~= listing@);
    }
    players
}

/// The player files of a listing that have to be read, each with the key
/// under which its findings are written down.
pub fn select_players(listing: &Vec<Seen>, cache: &Cache) -> (chosen: Vec<PlayerChoice>)
    ensures
        chosen@ == chosen_players(players_of(listing@), cache.modified),
{
    let players = sort_players(listing);
    let mut chosen: Vec<PlayerChoice> = Vec::new();
    let n = players.len();
    let mut i: usize = 0;
    proof {
        assert(players@.take(0) =~= Seq::<PlayerFile>::empty());
    }
    while i < n
        invariant
            i <= n,
            n == players@.len(),
            chosen@ == chosen_players(players@.take(i as int), cache.modified),
        decreases n - i,
    {
        let file = players.get(i);
        proof {
            assert(players@.take(i + 1).drop_last() =~= players@.take(i as int));
            assert(players@.take(i + 1).last() == players@[i as int]);
        }
        if cache.is_expired_for(file.modified) {
            chosen.push(PlayerChoice { index: i, at: file.at });
        }
        i += 1;
    }
    proof {
        assert(players@.take(i as int) =~= players@);
    }
    chosen
}

} // verus!

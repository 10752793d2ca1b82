//! The head of a world: where players first appear, and the version of the
//! game that wrote it.

use crate::banner::{int32, lemma_same_int32, read_int32};
use crate::nbt::{lemma_alike, lemma_alike_member, tree, DecodeError, Tag};
use vstd::prelude::*;

verus! {

/// The versions of the game whose worlds this crate reads, as a
/// requirement in the notation of semantic versioning.
pub const COMPATIBLE_VERSIONS: &'static str = ">=1.20.2, <1.22";

/// The head of a world.
pub struct Level {
    pub spawn_x: i32,
    pub spawn_z: i32,
    /// The version of the game, with three numbers.
    pub version: String,
}

/// `Level` with its version as a sequence of characters.
pub ghost struct LevelView {
    pub spawn_x: i32,
    pub spawn_z: i32,
    pub version: Seq<char>,
}

impl View for Level {
    type V = LevelView;

    open spec fn view(&self) -> LevelView {
        LevelView { spawn_x: self.spawn_x, spawn_z: self.spawn_z, version: self.version@ }
    }
}

/// Whether `semver` reads a text as a version.
pub uninterp spec fn semver_valid(text: Seq<char>) -> bool;

/// Whether, as `semver` reads them, a version meets a requirement. Nothing
/// where one of the two cannot be read.
pub uninterp spec fn semver_meets(requirement: Seq<char>, version: Seq<char>) -> Option<bool>;

/// Asks `semver::Version::parse` whether it takes the text. Not proved:
/// that the answer is `semver_valid` of the text, which only says that the
/// same text always gets the same answer.
#[verifier::external_body]
fn is_semver(text: &str) -> (valid: bool)
    ensures
        valid == semver_valid(text@),
{
    semver::Version::parse(text).is_ok()
}

/// Reads the requirement with `semver::VersionReq::parse` and the version
/// with `semver::Version::parse`, and asks `VersionReq::matches`. Not
/// proved: that the answer is `semver_meets` of the two texts, which only
/// says that the same texts always get the same answer.
#[verifier::external_body]
fn meets_semver(requirement: &str, version: &str) -> (meets: Option<bool>)
    ensures
        meets == semver_meets(requirement@, version@),
{
    let requirement = semver::VersionReq::parse(requirement).ok()?;
    let version = semver::Version::parse(version).ok()?;
    Some(requirement.matches(&version))
}

/// Why a world is not read.
#[derive(Clone, Copy, Debug, PartialEq, Eq, Structural)]
pub enum GateError {
    /// The version of the game is none that this crate reads.
    Incompatible,
    /// The version or the requirement could not be read.
    Unreadable,
}

/// What follows from the answer to whether a version meets a requirement.
pub open spec fn gate_of(meets: Option<bool>) -> Result<(), GateError> {
    match meets {
        Some(true) => Ok(()),
        Some(false) => Err(GateError::Incompatible),
        None => Err(GateError::Unreadable),
    }
}

/// What follows from the answer to whether a version meets a requirement:
/// the world is read only where the answer is yes.
pub fn gate(meets: Option<bool>) -> (r: Result<(), GateError>)
    ensures
        r == gate_of(meets),
{
    match meets {
        Some(true) => Ok(()),
        Some(false) => Err(GateError::Incompatible),
        None => Err(GateError::Unreadable),
    }
}

/// How many of the characters are dots.
pub open spec fn dots(text: Seq<char>) -> nat
    decreases text.len(),
{
    if text.len() == 0 {
        0
    } else {
        dots(text.drop_last()) + if text.last() == '.' {
            1nat
        } else {
            0nat
        }
    }
}

/// A version with three numbers: `.0` is put behind a text with one dot,
/// and twice behind a text with none.
pub open spec fn three_part(text: Seq<char>) -> Seq<char> {
    if dots(text) == 0 {
        text + seq!['.', '0', '.', '0']
    } else if dots(text) == 1 {
        text + seq!['.', '0']
    } else {
        text
    }
}

/// The member `name` of the member `Data` of the head.
pub open spec fn in_data(file: Tag, name: Seq<char>) -> Option<Tag> {
    match file.member("Data"@) {
        Some(data) => data.member(name),
        None => None,
    }
}

/// The name of the version: `Data.Version.Name`.
pub open spec fn version_name(file: Tag) -> Option<Seq<char>> {
    match in_data(file, "Version"@) {
        Some(v) => match v.member("Name"@) {
            Some(Tag::String(name)) => Some(name@),
            _ => None,
        },
        None => None,
    }
}

/// Where players first appear, in the older shape: `Data.SpawnX` and
/// `Data.SpawnZ`.
pub open spec fn older_spawn(file: Tag) -> Option<(i32, i32)> {
    match (in_data(file, "SpawnX"@), in_data(file, "SpawnZ"@)) {
        (Some(x), Some(z)) => match (int32(x), int32(z)) {
            (Some(x), Some(z)) => Some((x, z)),
            _ => None,
        },
        _ => None,
    }
}

/// Where players first appear, in the newer shape: the first and the third
/// number of `Data.spawn.pos`.
pub open spec fn newer_spawn(file: Tag) -> Option<(i32, i32)> {
    match in_data(file, "spawn"@) {
        Some(spawn) => match spawn.member("pos"@) {
            Some(Tag::IntArray(pos)) => if pos@.len() >= 3 {
                Some((pos@[0], pos@[2]))
            } else {
                None
            },
            _ => None,
        },
        None => None,
    }
}

/// The head that a `level.dat` holds. The place where players appear is
/// read in the older shape, and in the newer one where that fails. The
/// name of the version gets three numbers and must then be a version.
pub open spec fn level_of(file: Tag) -> Result<LevelView, DecodeError> {
    let spawn = match older_spawn(file) {
        Some(s) => Some(s),
        None => newer_spawn(file),
    };
    match (spawn, version_name(file)) {
        (Some((spawn_x, spawn_z)), Some(name)) => if semver_valid(three_part(name)) {
            Ok(LevelView { spawn_x, spawn_z, version: three_part(name) })
        } else {
            Err(DecodeError::Version)
        },
        _ => Err(DecodeError::Shape),
    }
}

fn get_in_data<'a>(file: &'a Tag, name: &str) -> (r: Option<&'a Tag>)
    ensures
        r is Some == in_data(*file, name@) is Some,
        r matches Some(t) ==> in_data(*file, name@) == Some(*t),
{
    match file.get("Data") {
        Some(data) => data.get(name),
        None => None,
    }
}

fn read_older_spawn(file: &Tag) -> (r: Option<(i32, i32)>)
    ensures
        r == older_spawn(*file),
{
    match (get_in_data(file, "SpawnX"), get_in_data(file, "SpawnZ")) {
        (Some(x), Some(z)) => match (read_int32(x), read_int32(z)) {
            (Some(x), Some(z)) => Some((x, z)),
            _ => None,
        },
        _ => None,
    }
}

fn read_newer_spawn(file: &Tag) -> (r: Option<(i32, i32)>)
    ensures
        r == newer_spawn(*file),
{
    match get_in_data(file, "spawn") {
        Some(spawn) => match spawn.get("pos") {
            Some(Tag::IntArray(pos)) => if pos.len() >= 3 {
                Some((pos[0], pos[2]))
            } else {
                None
            },
            _ => None,
        },
        None => None,
    }
}

fn count_dots(text: &str) -> (n: usize)
    ensures
        n == dots(text@),
{
    let len = text.unicode_len();
    let mut n: usize = 0;
    let mut i: usize = 0;
    proof {
        assert(text@.take(0) =~= Seq::<char>::empty());
    }
    while i < len
        invariant
            i <= len,
            len == text@.len(),
            n == dots(text@.take(i as int)),
            n <= i,
        decreases len - i,
    {
        proof {
            assert(text@.take(i + 1).drop_last() =~= text@.take(i as int));
            assert(text@.take(i + 1).last() == text@[i as int]);
        }
        if text.get_char(i) == '.' {
            n = n + 1;
        }
        i += 1;
    }
    proof {
        assert(text@.take(i as int) =~= text@);
    }
    n
}

/// A version with three numbers.
pub fn to_three_part(text: &str) -> (version: String)
    ensures
        version@ == three_part(text@),
{
    let n = count_dots(text);
    let mut version = text.to_owned();
    proof {
        reveal_strlit(".0.0");
        reveal_strlit(".0");
    }
    if n == 0 {
        version.append(".0.0");
        proof {
            assert(version@ =~= text@ + seq!['.', '0', '.', '0']);
        }
    } else if n == 1 {
        version.append(".0");
        proof {
            assert(version@ =~= text@ + seq!['.', '0']);
        }
    }
    version
}

impl Level {
    /// The head that a `level.dat` holds.
    pub fn from_tag(file: &Tag) -> (r: Result<Level, DecodeError>)
        ensures
            match r {
                Ok(level) => level_of(*file) == Ok::<LevelView, DecodeError>(level@),
                Err(e) => level_of(*file) == Err::<LevelView, DecodeError>(e),
            },
    {
        let spawn = match read_older_spawn(file) {
            Some(s) => Some(s),
            None => read_newer_spawn(file),
        };
        let name = match get_in_data(file, "Version") {
            Some(v) => match v.get("Name") {
                Some(Tag::String(name)) => Some(name),
                _ => None,
            },
            None => None,
        };
        match (spawn, name) {
            (Some((spawn_x, spawn_z)), Some(name)) => {
                let version = to_three_part(name.as_str());
                let valid = is_semver(version.as_str());
                Level::with_version(spawn_x, spawn_z, version, valid)
            },
            _ => Err(DecodeError::Shape),
        }
    }

    /// The head with the version `version`, where that is one: `valid`
    /// says whether it is.
    pub fn with_version(spawn_x: i32, spawn_z: i32, version: String, valid: bool) -> (r: Result<
        Level,
        DecodeError,
    >)
        ensures
            match r {
                Ok(level) => valid && level@ == (LevelView { spawn_x, spawn_z, version: version@ }),
                Err(e) => !valid && e == DecodeError::Version,
            },
    {
        if valid {
            Ok(Level { spawn_x, spawn_z, version })
        } else {
            Err(DecodeError::Version)
        }
    }

    /// Whether this crate reads worlds of the version of the game.
    pub fn check(&self) -> (r: Result<(), GateError>)
        ensures
            r == gate_of(semver_meets(COMPATIBLE_VERSIONS@, self.version@)),
    {
        gate(self.meets(COMPATIBLE_VERSIONS))
    }

    /// Whether the version of the game meets the requirement. Nothing
    /// where the requirement, or the version, cannot be read.
    pub fn meets(&self, requirement: &str) -> (r: Option<bool>)
        ensures
            r == semver_meets(requirement@, self.version@),
    {
        meets_semver(requirement, self.version.as_str())
    }
}

proof fn lemma_same_in_data(a: Tag, b: Tag, name: Seq<char>)
    requires
        tree(a) == tree(b),
    ensures
        in_data(a, name) is Some == in_data(b, name) is Some,
        in_data(a, name) matches Some(x) ==> tree(x) == tree(in_data(b, name)->0),
{
    lemma_alike_member(a, b, "Data"@);
    if a.member("Data"@) is Some {
        lemma_alike_member(a.member("Data"@)->0, b.member("Data"@)->0, name);
    }
}

/// The head of a world is read from what `level.dat` holds alone.
pub proof fn lemma_same_level(a: Tag, b: Tag)
    requires
        tree(a) == tree(b),
    ensures
        level_of(a) == level_of(b),
{
    lemma_same_in_data(a, b, "Version"@);
    if in_data(a, "Version"@) is Some {
        let x = in_data(a, "Version"@)->0;
        let y = in_data(b, "Version"@)->0;
        lemma_alike_member(x, y, "Name"@);
        if x.member("Name"@) is Some {
            lemma_alike(x.member("Name"@)->0, y.member("Name"@)->0);
        }
    }
    lemma_same_in_data(a, b, "SpawnX"@);
    if in_data(a, "SpawnX"@) is Some {
        lemma_same_int32(in_data(a, "SpawnX"@)->0, in_data(b, "SpawnX"@)->0);
    }
    lemma_same_in_data(a, b, "SpawnZ"@);
    if in_data(a, "SpawnZ"@) is Some {
        lemma_same_int32(in_data(a, "SpawnZ"@)->0, in_data(b, "SpawnZ"@)->0);
    }
    lemma_same_in_data(a, b, "spawn"@);
    if in_data(a, "spawn"@) is Some {
        let x = in_data(a, "spawn"@)->0;
        let y = in_data(b, "spawn"@)->0;
        lemma_alike_member(x, y, "pos"@);
        if x.member("pos"@) is Some {
            lemma_alike(x.member("pos"@)->0, y.member("pos"@)->0);
        }
    }
}

} // verus!

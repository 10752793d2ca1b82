//! Banners: the markers that players place on maps.

use crate::json::{
    json_reading, member_readings, read_json, JsonMember, JsonReading, JsonText, MemberReading,
};
use crate::nbt::{lemma_alike, lemma_alike_member, same_text, tree, DecodeError, Tag};
use crate::sorted::Keyed;
use vstd::prelude::*;
use vstd::std_specs::cmp::PartialEqSpecImpl;

verus! {

/// A banner that a map shows: where it stands, its colour, and the name it
/// was given, if any.
#[derive(Debug)]
pub struct Banner {
    pub label: Option<String>,
    pub color: String,
    pub x: i32,
    pub z: i32,
}

/// A banner with its texts as sequences of characters.
pub ghost struct BannerView {
    pub label: Option<Seq<char>>,
    pub color: Seq<char>,
    pub x: i32,
    pub z: i32,
}

impl View for Banner {
    type V = BannerView;

    open spec fn view(&self) -> BannerView {
        BannerView {
            label: match self.label {
                Some(l) => Some(l@),
                None => None,
            },
            color: self.color@,
            x: self.x,
            z: self.z,
        }
    }
}

/// The place of a position in the order of positions: by `x`, then by `z`.
pub open spec fn position_key(x: i32, z: i32) -> int {
    (x + 0x8000_0000) * 0x1_0000_0000 + (z + 0x8000_0000)
}

/// Positions are ordered by `x` and then by `z`, and no two share a key.
pub proof fn lemma_position_order(x1: i32, z1: i32, x2: i32, z2: i32)
    ensures
        position_key(x1, z1) < position_key(x2, z2) <==> (x1 < x2 || (x1 == x2 && z1 < z2)),
        position_key(x1, z1) == position_key(x2, z2) <==> (x1 == x2 && z1 == z2),
{
}

impl Keyed for Banner {
    /// A banner is told by where it stands. Name and colour take no part in
    /// the order of banners.
    open spec fn key(&self) -> int {
        position_key(self.x, self.z)
    }

    fn key_lt(&self, other: &Self) -> (b: bool) {
        self.x < other.x || (self.x == other.x && self.z < other.z)
    }
}

impl PartialEq for Banner {
    /// Two banners are equal when they stand at the same place.
    fn eq(&self, other: &Self) -> (r: bool) {
        self.x == other.x && self.z == other.z
    }
}

impl Eq for Banner {

}

impl PartialEqSpecImpl for Banner {
    open spec fn obeys_eq_spec() -> bool {
        true
    }

    open spec fn eq_spec(&self, other: &Self) -> bool {
        self.same_place(*other)
    }
}

/// Equality and order of banners go by the position alone: two banners are
/// equal exactly when neither comes before the other, whatever their names
/// and colours.
pub proof fn lemma_banner_order(a: Banner, b: Banner)
    ensures
        a.key() < b.key() <==> (a.x < b.x || (a.x == b.x && a.z < b.z)),
        a.key() == b.key() <==> a.same_place(b),
        a.same_place(b) <==> (a.x == b.x && a.z == b.z),
{
}

/// A number that fits 32 bits with sign, from an integer tag of any width.
pub open spec fn int32(tag: Tag) -> Option<i32> {
    match tag.number() {
        Some(n) => if i32::MIN <= n <= i32::MAX {
            Some(n as i32)
        } else {
            None
        },
        None => None,
    }
}

/// The name that a banner was given, from the value stored for it. A string
/// is read as JSON: a JSON string is the name itself, a JSON object names
/// the banner by its member `text`, and a text that is neither is taken as
/// the name as it stands. A compound names the banner by its member `text`.
pub open spec fn label_of(name: Tag) -> Result<Option<Seq<char>>, DecodeError> {
    match name {
        Tag::String(s) => json_label(s@, json_reading(s@)),
        Tag::Compound(_) => match name.member("text"@) {
            None => Ok(None),
            Some(Tag::String(t)) => Ok(Some(t@)),
            Some(_) => Err(DecodeError::Kind),
        },
        _ => Err(DecodeError::Kind),
    }
}

/// The name in the member `name` of a banner, which may be missing.
pub open spec fn label_in(banner: Tag, name: Seq<char>) -> Result<Option<Seq<char>>, DecodeError> {
    match banner.member(name) {
        None => Ok(None),
        Some(n) => label_of(n),
    }
}

/// A banner in the older shape: `Color`, `Name` and `Pos` with `X` and `Z`.
pub open spec fn older_banner(tag: Tag) -> Option<BannerView> {
    match (tag.member("Color"@), label_in(tag, "Name"@), tag.member("Pos"@)) {
        (Some(Tag::String(color)), Ok(label), Some(pos)) => match (
            pos.member("X"@),
            pos.member("Z"@),
        ) {
            (Some(x), Some(z)) => match (int32(x), int32(z)) {
                (Some(x), Some(z)) => Some(BannerView { label, color: color@, x, z }),
                _ => None,
            },
            _ => None,
        },
        _ => None,
    }
}

/// The colour of a banner in the newer shape: white where none is stored.
pub open spec fn newer_color(tag: Tag) -> Option<Seq<char>> {
    match tag.member("color"@) {
        None => Some("white"@),
        Some(Tag::String(color)) => Some(color@),
        Some(_) => None,
    }
}

/// A banner in the newer shape: `color`, `name` and `pos`, an array of
/// `x`, `y` and `z`.
pub open spec fn newer_banner(tag: Tag) -> Option<BannerView> {
    match (newer_color(tag), label_in(tag, "name"@), tag.member("pos"@)) {
        (Some(color), Ok(label), Some(Tag::IntArray(pos))) => if pos@.len() >= 3 {
            Some(BannerView { label, color, x: pos@[0], z: pos@[2] })
        } else {
            None
        },
        _ => None,
    }
}

/// The banner that a stored value describes. The older shape is tried
/// first, then the newer one.
pub open spec fn banner_of(tag: Tag) -> Result<BannerView, DecodeError> {
    match older_banner(tag) {
        Some(b) => Ok(b),
        None => match newer_banner(tag) {
            Some(b) => Ok(b),
            None => Err(DecodeError::Shape),
        },
    }
}

/// A number that fits 32 bits with sign, from an integer tag of any width.
pub fn read_int32(tag: &Tag) -> (r: Option<i32>)
    ensures
        r == int32(*tag),
{
    match tag.integer() {
        Some(n) => if -0x8000_0000 <= n && n <= 0x7fff_ffff {
            Some(n as i32)
        } else {
            None
        },
        None => None,
    }
}

/// The first of the members with the name `text`.
pub open spec fn text_member(members: Seq<(Seq<char>, MemberReading)>) -> Option<MemberReading>
    decreases members.len(),
{
    if members.len() == 0 {
        None
    } else if members[0].0 == "text"@ {
        Some(members[0].1)
    } else {
        text_member(members.drop_first())
    }
}

/// The name that a stored text gives, when the text, read as JSON, is
/// `reading`: what a JSON string holds; for a JSON object its member
/// `text`, which gives no name where it is missing or `null` and fails
/// where it is no string; and else the text as it stands.
pub open spec fn json_label(text: Seq<char>, reading: JsonReading) -> Result<
    Option<Seq<char>>,
    DecodeError,
> {
    match reading {
        JsonReading::Text(t) => Ok(Some(t)),
        JsonReading::Object(members) => match text_member(members) {
            None => Ok(None),
            Some(MemberReading::Text(t)) => Ok(Some(t)),
            Some(MemberReading::Null) => Ok(None),
            Some(MemberReading::Other) => Err(DecodeError::Kind),
        },
        JsonReading::Other => Ok(Some(text)),
    }
}

/// Where `text_member` finds its member: the first place with that name.
proof fn lemma_text_member(members: Seq<(Seq<char>, MemberReading)>, i: int)
    requires
        0 <= i <= members.len(),
        forall|j: int| 0 <= j < i ==> (#[trigger] members[j]).0 != "text"@,
        i < members.len() ==> members[i].0 == "text"@,
    ensures
        text_member(members) == if i < members.len() {
            Some(members[i].1)
        } else {
            None
        },
    decreases i,
{
    if i > 0 {
        let rest = members.drop_first();
        assert forall|j: int| 0 <= j < i - 1 implies (#[trigger] rest[j]).0 != "text"@ by {
            assert(rest[j] == members[j + 1]);
        }
        if i < members.len() {
            assert(rest[i - 1] == members[i]);
        }
        assert(members[0].0 != "text"@);
        lemma_text_member(rest, i - 1);
    }
}

/// The name that a stored text gives, when the text, read as JSON, is
/// `reading`.
pub fn label_from_json(text: &String, reading: JsonText) -> (r: Result<Option<String>, DecodeError>)
    ensures
        match r {
            Ok(Some(l)) => json_label(text@, reading@) == Ok::<Option<Seq<char>>, DecodeError>(
                Some(l@),
            ),
            Ok(None) => json_label(text@, reading@) == Ok::<Option<Seq<char>>, DecodeError>(None),
            Err(e) => json_label(text@, reading@) == Err::<Option<Seq<char>>, DecodeError>(e),
        },
{
    let ghost whole = reading@;
    match reading {
        JsonText::Text(t) => Ok(Some(t)),
        JsonText::Object(members) => {
            let ghost all = members@;
            let ghost readings = member_readings(all);
            for member in iter: members
                invariant
                    iter.seq() == all,
                    readings == member_readings(all),
                    whole == reading@,
                    whole == JsonReading::Object(readings),
                    forall|j: int| 0 <= j < iter.index() ==> (#[trigger] readings[j]).0 != "text"@,
            {
                let ghost n = iter.index() as int;
                let (name, value) = member;
                proof {
                    assert(readings[n] == (all[n].0@, all[n].1@));
                }
                if same_text(name.as_str(), "text") {
                    proof {
                        lemma_text_member(readings, n);
                    }
                    return match value {
                        JsonMember::Text(t) => Ok(Some(t)),
                        JsonMember::Null => Ok(None),
                        JsonMember::Other => Err(DecodeError::Kind),
                    };
                }
            }
            proof {
                lemma_text_member(readings, all.len() as int);
            }
            Ok(None)
        },
        JsonText::Other => Ok(Some(text.clone())),
    }
}

fn read_label(name: &Tag) -> (r: Result<Option<String>, DecodeError>)
    ensures
        match r {
            Ok(Some(l)) => label_of(*name) == Ok::<Option<Seq<char>>, DecodeError>(Some(l@)),
            Ok(None) => label_of(*name) == Ok::<Option<Seq<char>>, DecodeError>(None),
            Err(e) => label_of(*name) == Err::<Option<Seq<char>>, DecodeError>(e),
        },
{
    match name {
        Tag::String(s) => label_from_json(s, read_json(s.as_str())),
        Tag::Compound(_) => match name.get("text") {
            None => Ok(None),
            Some(Tag::String(t)) => Ok(Some(t.clone())),
            Some(_) => Err(DecodeError::Kind),
        },
        _ => Err(DecodeError::Kind),
    }
}

fn read_label_in(banner: &Tag, name: &str) -> (r: Result<Option<String>, DecodeError>)
    ensures
        match r {
            Ok(Some(l)) => label_in(*banner, name@) == Ok::<Option<Seq<char>>, DecodeError>(
                Some(l@),
            ),
            Ok(None) => label_in(*banner, name@) == Ok::<Option<Seq<char>>, DecodeError>(None),
            Err(e) => label_in(*banner, name@) == Err::<Option<Seq<char>>, DecodeError>(e),
        },
{
    match banner.get(name) {
        None => Ok(None),
        Some(n) => read_label(n),
    }
}

fn read_older(tag: &Tag) -> (r: Option<Banner>)
    ensures
        r is Some == older_banner(*tag) is Some,
        r matches Some(b) ==> older_banner(*tag) == Some(b@),
{
    let color = match tag.get("Color") {
        Some(Tag::String(color)) => color.clone(),
        _ => {
            return None;
        },
    };
    let label = match read_label_in(tag, "Name") {
        Ok(label) => label,
        Err(_) => {
            return None;
        },
    };
    let pos = match tag.get("Pos") {
        Some(pos) => pos,
        None => {
            return None;
        },
    };
    match (pos.get("X"), pos.get("Z")) {
        (Some(x), Some(z)) => match (read_int32(x), read_int32(z)) {
            (Some(x), Some(z)) => Some(Banner { label, color, x, z }),
            _ => None,
        },
        _ => None,
    }
}

fn read_newer(tag: &Tag) -> (r: Option<Banner>)
    ensures
        r is Some == newer_banner(*tag) is Some,
        r matches Some(b) ==> newer_banner(*tag) == Some(b@),
{
    let color = match tag.get("color") {
        None => "white".to_owned(),
        Some(Tag::String(color)) => color.clone(),
        Some(_) => {
            return None;
        },
    };
    let label = match read_label_in(tag, "name") {
        Ok(label) => label,
        Err(_) => {
            return None;
        },
    };
    match tag.get("pos") {
        Some(Tag::IntArray(pos)) => if pos.len() >= 3 {
            Some(Banner { label, color, x: pos[0], z: pos[2] })
        } else {
            None
        },
        _ => None,
    }
}

impl Banner {
    /// What `==` means for banners: the same position.
    pub open spec fn same_place(self, other: Banner) -> bool {
        self.x == other.x && self.z == other.z
    }

    /// The banner that a stored value describes.
    pub fn from_tag(tag: &Tag) -> (r: Result<Banner, DecodeError>)
        ensures
            match r {
                Ok(b) => banner_of(*tag) == Ok::<BannerView, DecodeError>(b@),
                Err(e) => banner_of(*tag) == Err::<BannerView, DecodeError>(e),
            },
    {
        match read_older(tag) {
            Some(b) => Ok(b),
            None => match read_newer(tag) {
                Some(b) => Ok(b),
                None => Err(DecodeError::Shape),
            },
        }
    }

    /// A copy of this banner.
    pub fn duplicate(&self) -> (b: Banner)
        ensures
            b == *self,
    {
        Banner {
            label: match &self.label {
                Some(l) => Some(l.clone()),
                None => None,
            },
            color: self.color.clone(),
            x: self.x,
            z: self.z,
        }
    }
}

/// A number is read from what a tag holds alone.
pub proof fn lemma_same_int32(a: Tag, b: Tag)
    requires
        tree(a) == tree(b),
    ensures
        int32(a) == int32(b),
{
    lemma_alike(a, b);
}

proof fn lemma_same_label(a: Tag, b: Tag, name: Seq<char>)
    requires
        tree(a) == tree(b),
    ensures
        label_in(a, name) == label_in(b, name),
{
    lemma_alike_member(a, b, name);
    if a.member(name) is Some {
        let x = a.member(name)->0;
        let y = b.member(name)->0;
        lemma_alike(x, y);
        lemma_alike_member(x, y, "text"@);
        if x.member("text"@) is Some {
            lemma_alike(x.member("text"@)->0, y.member("text"@)->0);
        }
    }
}

proof fn lemma_same_older(a: Tag, b: Tag)
    requires
        tree(a) == tree(b),
    ensures
        older_banner(a) == older_banner(b),
{
    lemma_same_label(a, b, "Name"@);
    lemma_alike_member(a, b, "Color"@);
    lemma_alike_member(a, b, "Pos"@);
    if a.member("Color"@) is Some {
        lemma_alike(a.member("Color"@)->0, b.member("Color"@)->0);
    }
    if a.member("Pos"@) is Some {
        let x = a.member("Pos"@)->0;
        let y = b.member("Pos"@)->0;
        lemma_alike_member(x, y, "X"@);
        lemma_alike_member(x, y, "Z"@);
        if x.member("X"@) is Some {
            lemma_same_int32(x.member("X"@)->0, y.member("X"@)->0);
        }
        if x.member("Z"@) is Some {
            lemma_same_int32(x.member("Z"@)->0, y.member("Z"@)->0);
        }
    }
}

proof fn lemma_same_newer(a: Tag, b: Tag)
    requires
        tree(a) == tree(b),
    ensures
        newer_banner(a) == newer_banner(b),
{
    lemma_same_label(a, b, "name"@);
    lemma_alike_member(a, b, "color"@);
    lemma_alike_member(a, b, "pos"@);
    if a.member("color"@) is Some {
        lemma_alike(a.member("color"@)->0, b.member("color"@)->0);
    }
    if a.member("pos"@) is Some {
        lemma_alike(a.member("pos"@)->0, b.member("pos"@)->0);
    }
}

/// A banner is read from what a tag holds alone: two tags that hold the
/// same describe the same banner, or fail alike.
pub proof fn lemma_same_banner(a: Tag, b: Tag)
    requires
        tree(a) == tree(b),
    ensures
        banner_of(a) == banner_of(b),
{
    lemma_same_older(a, b);
    lemma_same_newer(a, b);
}

} // verus!

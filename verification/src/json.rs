//! Reading a text as JSON, as far as the names of banners need it.

use vstd::prelude::*;

verus! {

/// A member of a JSON object, as far as this crate looks.
pub enum JsonMember {
    /// A string, with what it holds.
    Text(String),
    /// `null`.
    Null,
    /// Any other value.
    Other,
}

/// What a text is when it is read as JSON, as far as this crate looks.
pub enum JsonText {
    /// A JSON string, with what it holds.
    Text(String),
    /// A JSON object, with its members by their names.
    Object(Vec<(String, JsonMember)>),
    /// Any other JSON value, or no JSON at all.
    Other,
}

/// `JsonMember` with its string as a sequence of characters.
pub ghost enum MemberReading {
    Text(Seq<char>),
    Null,
    Other,
}

/// `JsonText` with its strings as sequences of characters.
pub ghost enum JsonReading {
    Text(Seq<char>),
    Object(Seq<(Seq<char>, MemberReading)>),
    Other,
}

impl View for JsonMember {
    type V = MemberReading;

    open spec fn view(&self) -> MemberReading {
        match self {
            JsonMember::Text(t) => MemberReading::Text(t@),
            JsonMember::Null => MemberReading::Null,
            JsonMember::Other => MemberReading::Other,
        }
    }
}

/// The members with their texts as sequences of characters.
pub open spec fn member_readings(members: Seq<(String, JsonMember)>) -> Seq<
    (Seq<char>, MemberReading),
> {
    members.map_values(|m: (String, JsonMember)| (m.0@, m.1@))
}

impl View for JsonText {
    type V = JsonReading;

    open spec fn view(&self) -> JsonReading {
        match self {
            JsonText::Text(t) => JsonReading::Text(t@),
            JsonText::Object(members) => JsonReading::Object(member_readings(members@)),
            JsonText::Other => JsonReading::Other,
        }
    }
}

/// What `serde_json` makes of a text.
pub uninterp spec fn json_reading(text: Seq<char>) -> JsonReading;

/// Parses `text` with `serde_json::from_str` into a `serde_json::Value`
/// and hands on what it is. Not proved: that the result is `json_reading`
/// of the text, which only says that the same text is always read the same
/// way. A string value is handed on as `Text`; an object as `Object`, with
/// each member as a string, as `null` or as another value; every other
/// value and every parse error as `Other`.
#[verifier::external_body]
pub(crate) fn read_json(text: &str) -> (r: JsonText)
    ensures
        r@ == json_reading(text@),
{
    match serde_json::from_str::<serde_json::Value>(text) {
        Ok(serde_json::Value::String(t)) => JsonText::Text(t),
        Ok(serde_json::Value::Object(m)) => JsonText::Object(
            m.into_iter().map(|(name, value)| (name, match value {
                serde_json::Value::String(t) => JsonMember::Text(t),
                serde_json::Value::Null => JsonMember::Null,
                _ => JsonMember::Other,
            })).collect(),
        ),
        _ => JsonText::Other,
    }
}

} // verus!

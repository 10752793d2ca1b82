//! The tagged values that save files are made of, and the ways a decoder
//! reads them: members of a compound by name, integers of any width, lists.

use vstd::prelude::*;
use vstd::string::StringSliceAdditionalSpecFns;
use vstd::utf8::encode_utf8_decode_utf8;

verus! {

/// One value of the named-tag format, with everything below it.
#[derive(Debug, PartialEq, Eq)]
pub enum Tag {
    Byte(i8),
    Short(i16),
    Int(i32),
    Long(i64),
    /// A 32-bit float, kept as its bits.
    Float(u32),
    /// A 64-bit float, kept as its bits.
    Double(u64),
    String(String),
    ByteArray(Vec<i8>),
    IntArray(Vec<i32>),
    LongArray(Vec<i64>),
    List(Vec<Tag>),
    /// Named members, in the order in which they were stored.
    Compound(Vec<(String, Tag)>),
}

/// Why a value could not be read as the record that was asked for.
#[derive(Clone, Copy, Debug, PartialEq, Eq, Structural)]
pub enum DecodeError {
    /// A compound was needed, and the value is none.
    NotCompound,
    /// The compound lacks a member that the record cannot do without.
    Missing,
    /// A member is of a kind that the record cannot take.
    Kind,
    /// An integer does not fit the field it is meant for.
    Range,
    /// The value has none of the shapes that the record is known in.
    Shape,
    /// A text that is meant to be a version is none.
    Version,
}

/// A tagged value as what it holds, with the members of a compound told by
/// their names and standing in no order.
pub ghost enum Tree {
    Byte(i8),
    Short(i16),
    Int(i32),
    Long(i64),
    Float(u32),
    Double(u64),
    String(Seq<char>),
    ByteArray(Seq<i8>),
    IntArray(Seq<i32>),
    LongArray(Seq<i64>),
    List(Seq<Tree>),
    Compound(Map<Seq<char>, Tree>),
}

/// What a tagged value holds. Of several members of a compound with one
/// name the first counts, as it does for `lookup`.
pub open spec fn tree(tag: Tag) -> Tree
    decreases tag,
{
    match tag {
        Tag::Byte(v) => Tree::Byte(v),
        Tag::Short(v) => Tree::Short(v),
        Tag::Int(v) => Tree::Int(v),
        Tag::Long(v) => Tree::Long(v),
        Tag::Float(v) => Tree::Float(v),
        Tag::Double(v) => Tree::Double(v),
        Tag::String(v) => Tree::String(v@),
        Tag::ByteArray(v) => Tree::ByteArray(v@),
        Tag::IntArray(v) => Tree::IntArray(v@),
        Tag::LongArray(v) => Tree::LongArray(v@),
        Tag::List(items) => Tree::List(trees(items@)),
        Tag::Compound(members) => Tree::Compound(member_trees(members@)),
    }
}

/// What each of the tagged values holds.
pub open spec fn trees(tags: Seq<Tag>) -> Seq<Tree>
    decreases tags,
{
    if tags.len() == 0 {
        Seq::empty()
    } else {
        trees(tags.drop_last()).push(tree(tags.last()))
    }
}

/// What the members hold, by their names.
pub open spec fn member_trees(members: Seq<(String, Tag)>) -> Map<Seq<char>, Tree>
    decreases members,
{
    if members.len() == 0 {
        Map::empty()
    } else {
        member_trees(members.drop_first()).insert(members[0].0@, tree(members[0].1))
    }
}

/// Whether a tree holds no further trees.
pub open spec fn is_leaf(t: Tree) -> bool {
    !(t is List) && !(t is Compound)
}

/// Whether a tree is nested no deeper than `depth` levels: a value that
/// holds no further values is nested zero levels deep.
pub open spec fn fits(t: Tree, depth: nat) -> bool
    decreases depth,
{
    match t {
        Tree::List(items) => depth > 0 && forall|i: int|
            0 <= i < items.len() ==> fits(#[trigger] items[i], (depth - 1) as nat),
        Tree::Compound(members) => depth > 0 && forall|name: Seq<char>|
            members.dom().contains(name) ==> fits(#[trigger] members[name], (depth - 1) as nat),
        _ => true,
    }
}

/// A list fits exactly when each of its items fits one level less.
pub proof fn lemma_fits_list(items: Seq<Tree>, depth: nat)
    ensures
        fits(Tree::List(items), depth) <==> (depth > 0 && forall|i: int|
            0 <= i < items.len() ==> fits(#[trigger] items[i], (depth - 1) as nat)),
{
    let t = Tree::List(items);
    if fits(t, depth) {
        assert forall|i: int| 0 <= i < items.len() implies fits(
            #[trigger] items[i],
            (depth - 1) as nat,
        ) by {
            assert(fits(t->List_0[i], (depth - 1) as nat));
        }
    }
    if depth > 0 && forall|i: int|
        0 <= i < items.len() ==> fits(#[trigger] items[i], (depth - 1) as nat) {
        assert forall|i: int| 0 <= i < t->List_0.len() implies fits(
            #[trigger] t->List_0[i],
            (depth - 1) as nat,
        ) by {
            assert(fits(items[i], (depth - 1) as nat));
        }
    }
}

/// A compound fits exactly when each of its members fits one level less.
pub proof fn lemma_fits_compound(members: Map<Seq<char>, Tree>, depth: nat)
    ensures
        fits(Tree::Compound(members), depth) <==> (depth > 0 && forall|name: Seq<char>|
            members.dom().contains(name) ==> fits(#[trigger] members[name], (depth - 1) as nat)),
{
    let t = Tree::Compound(members);
    if fits(t, depth) {
        assert forall|name: Seq<char>| members.dom().contains(name) implies fits(
            #[trigger] members[name],
            (depth - 1) as nat,
        ) by {
            assert(fits(t->Compound_0[name], (depth - 1) as nat));
        }
    }
    if depth > 0 && forall|name: Seq<char>|
        members.dom().contains(name) ==> fits(#[trigger] members[name], (depth - 1) as nat) {
        assert forall|name: Seq<char>| t->Compound_0.dom().contains(name) implies fits(
            #[trigger] t->Compound_0[name],
            (depth - 1) as nat,
        ) by {
            assert(fits(members[name], (depth - 1) as nat));
        }
    }
}

/// The members by their names are those that `lookup` finds.
pub proof fn lemma_member_trees(members: Seq<(String, Tag)>, name: Seq<char>)
    ensures
        member_trees(members).dom().contains(name) == (lookup(members, name) is Some),
        lookup(members, name) is Some ==> member_trees(members)[name] == tree(
            lookup(members, name)->0,
        ),
    decreases members.len(),
{
    if members.len() > 0 {
        lemma_member_trees(members.drop_first(), name);
    }
}

/// The text of a string, the bytes and numbers of an array, and the items
/// of a list.
pub open spec fn text_of(tag: Tag) -> Option<Seq<char>> {
    match tag {
        Tag::String(s) => Some(s@),
        _ => None,
    }
}

pub open spec fn bytes_of(tag: Tag) -> Option<Seq<i8>> {
    match tag {
        Tag::ByteArray(v) => Some(v@),
        _ => None,
    }
}

pub open spec fn ints_of(tag: Tag) -> Option<Seq<i32>> {
    match tag {
        Tag::IntArray(v) => Some(v@),
        _ => None,
    }
}

pub open spec fn items_of(tag: Tag) -> Option<Seq<Tag>> {
    match tag {
        Tag::List(items) => Some(items@),
        _ => None,
    }
}

/// Two tags that hold the same are of one kind, hold the same number,
/// text or array, and have lists of equal length and members of the same
/// names.
pub proof fn lemma_alike(a: Tag, b: Tag)
    requires
        tree(a) == tree(b),
    ensures
        a.number() == b.number(),
        text_of(a) == text_of(b),
        bytes_of(a) == bytes_of(b),
        ints_of(a) == ints_of(b),
        (a is Compound) == (b is Compound),
        items_of(a) is Some == items_of(b) is Some,
        items_of(a) is Some ==> trees(items_of(a)->0) == trees(items_of(b)->0) && items_of(
            a,
        )->0.len() == items_of(b)->0.len(),
{
    if items_of(a) is Some {
        lemma_trees(items_of(a)->0);
        lemma_trees(items_of(b)->0);
    }
}

/// Two lists that hold the same hold the same place by place.
pub proof fn lemma_alike_items(a: Seq<Tag>, b: Seq<Tag>, i: int)
    requires
        trees(a) == trees(b),
        0 <= i < a.len(),
    ensures
        a.len() == b.len(),
        tree(a[i]) == tree(b[i]),
{
    lemma_trees(a);
    lemma_trees(b);
    assert(trees(a)[i] == tree(a[i]));
    assert(trees(b)[i] == tree(b[i]));
}

/// Two tags that hold the same have members of the same names, which hold
/// the same.
pub proof fn lemma_alike_member(a: Tag, b: Tag, name: Seq<char>)
    requires
        tree(a) == tree(b),
    ensures
        a.member(name) is Some == b.member(name) is Some,
        a.member(name) is Some ==> tree(a.member(name)->0) == tree(b.member(name)->0),
{
    match a {
        Tag::Compound(x) => {
            match b {
                Tag::Compound(y) => {
                    lemma_member_trees(x@, name);
                    lemma_member_trees(y@, name);
                },
                _ => {},
            }
        },
        _ => {
            lemma_alike(a, b);
        },
    }
}

/// `trees` goes place by place.
pub proof fn lemma_trees(tags: Seq<Tag>)
    ensures
        trees(tags).len() == tags.len(),
        forall|i: int| 0 <= i < tags.len() ==> trees(tags)[i] == tree(#[trigger] tags[i]),
    decreases tags.len(),
{
    if tags.len() > 0 {
        lemma_trees(tags.drop_last());
        assert forall|i: int| 0 <= i < tags.len() implies trees(tags)[i] == tree(
            #[trigger] tags[i],
        ) by {
            if i < tags.len() - 1 {
                assert(tags.drop_last()[i] == tags[i]);
            }
        }
    }
}

/// The first of `members` with the name `name`.
pub open spec fn lookup(members: Seq<(String, Tag)>, name: Seq<char>) -> Option<Tag>
    decreases members.len(),
{
    if members.len() == 0 {
        None
    } else if members[0].0@ == name {
        Some(members[0].1)
    } else {
        lookup(members.drop_first(), name)
    }
}

/// Where `lookup` finds its member: the first place with that name.
pub proof fn lemma_lookup(members: Seq<(String, Tag)>, name: Seq<char>, i: int)
    requires
        0 <= i < members.len(),
        members[i].0@ == name,
        forall|j: int| 0 <= j < i ==> (#[trigger] members[j]).0@ != name,
    ensures
        lookup(members, name) == Some(members[i].1),
    decreases i,
{
    if i > 0 {
        let rest = members.drop_first();
        assert(rest[i - 1] == members[i]);
        assert forall|j: int| 0 <= j < i - 1 implies (#[trigger] rest[j]).0@ != name by {
            assert(rest[j] == members[j + 1]);
        }
        lemma_lookup(rest, name, i - 1);
    }
}

/// `lookup` finds nothing where no member has the name.
pub proof fn lemma_lookup_none(members: Seq<(String, Tag)>, name: Seq<char>)
    requires
        forall|j: int| 0 <= j < members.len() ==> (#[trigger] members[j]).0@ != name,
    ensures
        lookup(members, name) is None,
    decreases members.len(),
{
    if members.len() > 0 {
        let rest = members.drop_first();
        assert forall|j: int| 0 <= j < rest.len() implies (#[trigger] rest[j]).0@ != name by {
            assert(rest[j] == members[j + 1]);
        }
        lemma_lookup_none(rest, name);
    }
}

/// What `lookup` finds is a member, and so a part of the sequence.
pub proof fn lemma_lookup_member(members: Seq<(String, Tag)>, name: Seq<char>)
    ensures
        lookup(members, name) matches Some(t) ==> exists|i: int|
            0 <= i < members.len() && (#[trigger] members[i]).1 == t,
    decreases members.len(),
{
    if members.len() == 0 {
    } else if members[0].0@ == name {
        assert(members[0].1 == lookup(members, name).unwrap());
    } else {
        let rest = members.drop_first();
        lemma_lookup_member(rest, name);
        if lookup(rest, name) is Some {
            let i = choose|i: int|
                0 <= i < rest.len() && (#[trigger] rest[i]).1 == lookup(rest, name).unwrap();
            assert(members[i + 1] == rest[i]);
        }
    }
}

impl Tag {
    /// The member `name` of a compound. A value that is no compound has no
    /// members.
    pub open spec fn member(self, name: Seq<char>) -> Option<Tag> {
        match self {
            Tag::Compound(members) => lookup(members@, name),
            _ => None,
        }
    }

    /// The number that an integer tag of any width holds.
    pub open spec fn number(self) -> Option<int> {
        match self {
            Tag::Byte(v) => Some(v as int),
            Tag::Short(v) => Some(v as int),
            Tag::Int(v) => Some(v as int),
            Tag::Long(v) => Some(v as int),
            _ => None,
        }
    }

    /// The member `name` of a compound.
    pub fn get(&self, name: &str) -> (found: Option<&Tag>)
        ensures
            found is Some == self.member(name@) is Some,
            found matches Some(t) ==> Some(*t) == self.member(name@),
            found matches Some(t) ==> decreases_to!(self => t),
    {
        match self {
            Tag::Compound(members) => {
                let mut i: usize = 0;
                while i < members.len()
                    invariant
                        i <= members@.len(),
                        *self == Tag::Compound(*members),
                        forall|j: int| 0 <= j < i ==> (#[trigger] members@[j]).0@ != name@,
                    decreases members@.len() - i,
                {
                    if same_text(members[i].0.as_str(), name) {
                        proof {
                            lemma_lookup(members@, name@, i as int);
                        }
                        return Some(&members[i].1);
                    }
                    i += 1;
                }
                proof {
                    lemma_lookup_none(members@, name@);
                }
                None
            },
            _ => None,
        }
    }

    /// The number that an integer tag of any width holds.
    pub fn integer(&self) -> (n: Option<i64>)
        ensures
            n is Some == self.number() is Some,
            n matches Some(v) ==> self.number() == Some(v as int),
    {
        match self {
            Tag::Byte(v) => Some(*v as i64),
            Tag::Short(v) => Some(*v as i64),
            Tag::Int(v) => Some(*v as i64),
            Tag::Long(v) => Some(*v),
            _ => None,
        }
    }
}

/// Whether two strings hold the same text: they do exactly when their
/// bytes are the same.
pub(crate) fn same_text(a: &str, b: &str) -> (same: bool)
    ensures
        same == (a@ == b@),
{
    let x = a.as_bytes();
    let y = b.as_bytes();
    proof {
        encode_utf8_decode_utf8(a@);
        encode_utf8_decode_utf8(b@);
    }
    if x.len() != y.len() {
        return false;
    }
    let mut i: usize = 0;
    while i < x.len()
        invariant
            i <= x@.len(),
            x@.len() == y@.len(),
            x@ == a.spec_bytes(),
            y@ == b.spec_bytes(),
            forall|j: int| 0 <= j < i ==> x@[j] == y@[j],
        decreases x@.len() - i,
    {
        if x[i] != y[i] {
            return false;
        }
        i += 1;
    }
    proof {
        assert(x@ =~= y@);
        encode_utf8_decode_utf8(a@);
        encode_utf8_decode_utf8(b@);
    }
    true
}

} // verus!

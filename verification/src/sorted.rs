//! Ordered collections: a vector kept in strictly increasing order of an
//! integer key. It holds what is told apart by more than one number (tiles,
//! banners, maps, regions), each once, in the order in which it is listed.

use vstd::prelude::*;

verus! {

/// A value that is ordered and found again by an integer key.
pub trait Keyed: Sized {
    /// The key. Two values with the same key are the same member of a
    /// collection, whatever else they hold.
    spec fn key(&self) -> int;

    /// Whether this value comes strictly before `other`.
    fn key_lt(&self, other: &Self) -> (b: bool)
        ensures
            b == (self.key() < other.key()),
    ;
}

impl Keyed for u32 {
    open spec fn key(&self) -> int {
        *self as int
    }

    fn key_lt(&self, other: &Self) -> (b: bool) {
        *self < *other
    }
}

/// Strictly increasing keys.
pub open spec fn sorted<T: Keyed>(s: Seq<T>) -> bool {
    forall|i: int, j: int| 0 <= i < j < s.len() ==> (#[trigger] s[i]).key() < (#[trigger] s[j]).key()
}

/// Whether some item of `s` has the key `k`.
pub open spec fn has_key<T: Keyed>(s: Seq<T>, k: int) -> bool {
    exists|i: int| 0 <= i < s.len() && (#[trigger] s[i]).key() == k
}

/// The keys of the items of `s`.
pub open spec fn keys<T: Keyed>(s: Seq<T>) -> Set<int> {
    Set::new(|k: int| has_key(s, k))
}

/// In a sorted `s`, the number of items whose key is below `k`: the place
/// where an item with key `k` stands or would be put.
pub open spec fn rank<T: Keyed>(s: Seq<T>, k: int) -> int
    decreases s.len(),
{
    if s.len() == 0 {
        0
    } else if s.last().key() < k {
        s.len() as int
    } else {
        rank(s.drop_last(), k)
    }
}

/// What `rank` means in a sorted sequence.
pub proof fn lemma_rank<T: Keyed>(s: Seq<T>, k: int)
    requires
        sorted(s),
    ensures
        0 <= rank(s, k) <= s.len(),
        forall|i: int| 0 <= i < rank(s, k) ==> (#[trigger] s[i]).key() < k,
        forall|i: int| rank(s, k) <= i < s.len() ==> (#[trigger] s[i]).key() >= k,
        has_key(s, k) <==> (rank(s, k) < s.len() && s[rank(s, k)].key() == k),
    decreases s.len(),
{
    if s.len() == 0 {
    } else if s.last().key() < k {
        assert forall|i: int| 0 <= i < s.len() implies (#[trigger] s[i]).key() < k by {
            if i < s.len() - 1 {
                assert(s[i].key() < s[s.len() - 1].key());
            }
        }
    } else {
        let t = s.drop_last();
        assert(sorted(t)) by {
            assert forall|i: int, j: int| 0 <= i < j < t.len() implies (#[trigger] t[i]).key() < (
            #[trigger] t[j]).key() by {
                assert(t[i] == s[i] && t[j] == s[j]);
            }
        }
        lemma_rank(t, k);
        let r = rank(t, k);
        assert forall|i: int| 0 <= i < r implies (#[trigger] s[i]).key() < k by {
            assert(s[i] == t[i]);
        }
        assert forall|i: int| r <= i < s.len() implies (#[trigger] s[i]).key() >= k by {
            if i < t.len() {
                assert(s[i] == t[i]);
            }
        }
        if has_key(s, k) {
            let i = choose|i: int| 0 <= i < s.len() && (#[trigger] s[i]).key() == k;
            assert(i >= r);
            if i > r {
                assert(s[r].key() < s[i].key());
            }
        }
    }
}

/// In a sorted sequence, a place that splits the keys below `k` from the
/// others is the rank of `k`.
pub proof fn lemma_rank_is<T: Keyed>(s: Seq<T>, k: int, r: int)
    requires
        sorted(s),
        0 <= r <= s.len(),
        forall|i: int| 0 <= i < r ==> (#[trigger] s[i]).key() < k,
        forall|i: int| r <= i < s.len() ==> (#[trigger] s[i]).key() >= k,
    ensures
        rank(s, k) == r,
{
    lemma_rank(s, k);
    let q = rank(s, k);
    if q < r {
        assert(s[q].key() < k);
    } else if r < q {
        assert(s[r].key() >= k);
    }
}

/// `s` with `item` put at its place, unless an item with the same key is
/// there already: then `s` itself.
pub open spec fn inserted<T: Keyed>(s: Seq<T>, item: T) -> Seq<T> {
    if has_key(s, item.key()) {
        s
    } else {
        s.insert(rank(s, item.key()), item)
    }
}

/// `a` with the items of `b` put in one after the other. Where both hold an
/// item with the same key, the one of `a` stays.
pub open spec fn merged<T: Keyed>(a: Seq<T>, b: Seq<T>) -> Seq<T>
    decreases b.len(),
{
    if b.len() == 0 {
        a
    } else {
        inserted(merged(a, b.drop_last()), b.last())
    }
}

/// Putting an item into a sorted sequence keeps it sorted and adds exactly
/// the item's key.
pub proof fn lemma_inserted<T: Keyed>(s: Seq<T>, item: T)
    requires
        sorted(s),
    ensures
        sorted(inserted(s, item)),
        keys(inserted(s, item)) == keys(s).insert(item.key()),
        forall|k: int| has_key(s, k) ==> #[trigger] item_at(inserted(s, item), k) == item_at(s, k),
        !has_key(s, item.key()) ==> item_at(inserted(s, item), item.key()) == item,
{
    let k = item.key();
    let r = rank(s, k);
    let t = inserted(s, item);
    lemma_rank(s, k);
    if has_key(s, k) {
        assert(keys(s).insert(k) =~= keys(s));
    } else {
        assert forall|i: int, j: int| 0 <= i < j < t.len() implies (#[trigger] t[i]).key() < (
        #[trigger] t[j]).key() by {
            if j < r {
                assert(t[i] == s[i] && t[j] == s[j]);
            } else if j == r {
                assert(t[i] == s[i]);
            } else if i < r {
                assert(t[i] == s[i] && t[j] == s[j - 1]);
            } else if i == r {
                assert(t[j] == s[j - 1]);
            } else {
                assert(t[i] == s[i - 1] && t[j] == s[j - 1]);
            }
        }
        assert forall|q: int| keys(t).contains(q) <==> keys(s).insert(k).contains(q) by {
            if has_key(t, q) {
                let i = choose|i: int| 0 <= i < t.len() && (#[trigger] t[i]).key() == q;
                if i < r {
                    assert(s[i].key() == q);
                } else if i > r {
                    assert(s[i - 1].key() == q);
                }
            }
            if has_key(s, q) {
                let i = choose|i: int| 0 <= i < s.len() && (#[trigger] s[i]).key() == q;
                if i < r {
                    assert(t[i].key() == q);
                } else {
                    assert(t[i + 1].key() == q);
                }
            }
            if q == k {
                assert(t[r].key() == q);
            }
        }
        assert(keys(t) =~= keys(s).insert(k));
        assert forall|q: int| has_key(s, q) implies #[trigger] item_at(t, q) == item_at(s, q) by {
            lemma_rank(s, q);
            let i = rank(s, q);
            let j = if i < r { i } else { i + 1 };
            assert(t[j] == s[i]);
            assert(has_key(t, q));
            lemma_rank(t, q);
            lemma_distinct_keys(t, j, rank(t, q));
        }
        assert(t[r] == item);
        assert(has_key(t, k));
        lemma_rank(t, k);
        lemma_distinct_keys(t, r, rank(t, k));
    }
}

/// `s` with `item` at its place, where it takes the place of an item with
/// the same key if there is one.
pub open spec fn replaced<T: Keyed>(s: Seq<T>, item: T) -> Seq<T> {
    if has_key(s, item.key()) {
        s.update(rank(s, item.key()), item)
    } else {
        s.insert(rank(s, item.key()), item)
    }
}

/// Replacing an item keeps a sorted sequence sorted, with the keys it had
/// and the key of the item.
pub proof fn lemma_replaced<T: Keyed>(s: Seq<T>, item: T)
    requires
        sorted(s),
    ensures
        sorted(replaced(s, item)),
        keys(replaced(s, item)) == keys(s).insert(item.key()),
        item_at(replaced(s, item), item.key()) == item,
        forall|k: int|
            has_key(s, k) && k != item.key() ==> #[trigger] item_at(replaced(s, item), k)
                == item_at(s, k),
{
    let k = item.key();
    let r = rank(s, k);
    let t = replaced(s, item);
    lemma_rank(s, k);
    if has_key(s, k) {
        assert forall|i: int, j: int| 0 <= i < j < t.len() implies (#[trigger] t[i]).key() < (
        #[trigger] t[j]).key() by {
            assert(t[i].key() == s[i].key() && t[j].key() == s[j].key());
        }
        assert forall|q: int| keys(t).contains(q) <==> keys(s).insert(k).contains(q) by {
            if has_key(t, q) {
                let i = choose|i: int| 0 <= i < t.len() && (#[trigger] t[i]).key() == q;
                assert(s[i].key() == q);
            }
            if has_key(s, q) {
                let i = choose|i: int| 0 <= i < s.len() && (#[trigger] s[i]).key() == q;
                assert(t[i].key() == q);
            }
        }
        assert(keys(t) =~= keys(s).insert(k));
        assert(t[r].key() == k);
        assert(has_key(t, k));
        lemma_rank(t, k);
        lemma_distinct_keys(t, r, rank(t, k));
        assert forall|q: int| has_key(s, q) && q != k implies #[trigger] item_at(t, q) == item_at(
            s,
            q,
        ) by {
            lemma_rank(s, q);
            let i = rank(s, q);
            assert(t[i] == s[i]);
            assert(has_key(t, q));
            lemma_rank(t, q);
            lemma_distinct_keys(t, i, rank(t, q));
        }
    } else {
        lemma_inserted(s, item);
    }
}

/// The items of a sequence after `inserted` are those before it and the
/// new one, if its key was not there.
pub proof fn lemma_inserted_items<T: Keyed>(s: Seq<T>, item: T)
    requires
        sorted(s),
    ensures
        forall|i: int|
            0 <= i < inserted(s, item).len() ==> (#[trigger] inserted(s, item)[i] == item
                || s.contains(inserted(s, item)[i])),
        forall|j: int| 0 <= j < s.len() ==> inserted(s, item).contains(#[trigger] s[j]),
        !has_key(s, item.key()) ==> inserted(s, item).contains(item),
        has_key(s, item.key()) ==> inserted(s, item) == s,
        inserted(s, item).len() >= s.len(),
{
    let k = item.key();
    let r = rank(s, k);
    let t = inserted(s, item);
    lemma_rank(s, k);
    if !has_key(s, k) {
        assert forall|i: int| 0 <= i < t.len() implies (#[trigger] t[i] == item || s.contains(
            t[i],
        )) by {
            if i < r {
                assert(t[i] == s[i]);
            } else if i > r {
                assert(t[i] == s[i - 1]);
            }
        }
        assert forall|j: int| 0 <= j < s.len() implies t.contains(#[trigger] s[j]) by {
            if j < r {
                assert(t[j] == s[j]);
            } else {
                assert(t[j + 1] == s[j]);
            }
        }
        assert(t[r] == item);
    }
}

/// The item of `s` with the key `k`, where there is one.
pub open spec fn item_at<T: Keyed>(s: Seq<T>, k: int) -> T
    recommends
        sorted(s),
        has_key(s, k),
{
    s[rank(s, k)]
}

/// In a sorted sequence no key occurs twice.
pub proof fn lemma_distinct_keys<T: Keyed>(s: Seq<T>, i: int, j: int)
    requires
        sorted(s),
        0 <= i < s.len(),
        0 <= j < s.len(),
        s[i].key() == s[j].key(),
    ensures
        i == j,
{
    if i < j {
        assert(s[i].key() < s[j].key());
    } else if j < i {
        assert(s[j].key() < s[i].key());
    }
}

/// Merging sorted sequences gives a sorted sequence with the keys of both,
/// in which every key of `a` keeps the item of `a`.
pub proof fn lemma_merged<T: Keyed>(a: Seq<T>, b: Seq<T>)
    requires
        sorted(a),
    ensures
        sorted(merged(a, b)),
        keys(merged(a, b)) == keys(a).union(keys(b)),
        forall|k: int| has_key(a, k) ==> #[trigger] item_at(merged(a, b), k) == item_at(a, k),
    decreases b.len(),
{
    if b.len() == 0 {
        assert(keys(b) =~= Set::<int>::empty());
        assert(keys(a).union(keys(b)) =~= keys(a));
    } else {
        let head = b.drop_last();
        let m = merged(a, head);
        lemma_merged(a, head);
        lemma_inserted(m, b.last());
        assert forall|q: int| keys(b).contains(q) <==> keys(head).insert(b.last().key()).contains(
            q,
        ) by {
            if has_key(b, q) {
                let i = choose|i: int| 0 <= i < b.len() && (#[trigger] b[i]).key() == q;
                if i < head.len() {
                    assert(head[i].key() == q);
                }
            }
            if has_key(head, q) {
                let i = choose|i: int| 0 <= i < head.len() && (#[trigger] head[i]).key() == q;
                assert(b[i].key() == q);
            }
            if q == b.last().key() {
                assert(b[b.len() - 1].key() == q);
            }
        }
        assert(keys(b) =~= keys(head).insert(b.last().key()));
        assert(keys(merged(a, b)) =~= keys(a).union(keys(b)));
        assert forall|k: int| has_key(a, k) implies #[trigger] item_at(merged(a, b), k) == item_at(
            a,
            k,
        ) by {
            assert(keys(m).contains(k));
            assert(has_key(m, k));
        }
    }
}

/// The items of a merged sequence come from the two that were merged; all
/// of the first are there, and for each of the second an item with its key.
pub proof fn lemma_merged_items<T: Keyed>(a: Seq<T>, b: Seq<T>)
    requires
        sorted(a),
    ensures
        forall|i: int|
            0 <= i < merged(a, b).len() ==> (a.contains(#[trigger] merged(a, b)[i]) || b.contains(
                merged(a, b)[i],
            )),
        forall|j: int| 0 <= j < a.len() ==> merged(a, b).contains(#[trigger] a[j]),
        forall|j: int| 0 <= j < b.len() ==> has_key(merged(a, b), (#[trigger] b[j]).key()),
        merged(a, b).len() >= a.len(),
    decreases b.len(),
{
    let t = merged(a, b);
    if b.len() == 0 {
        assert forall|i: int| 0 <= i < t.len() implies a.contains(#[trigger] t[i]) by {
            assert(a[i] == t[i]);
        }
        assert forall|j: int| 0 <= j < a.len() implies t.contains(#[trigger] a[j]) by {
            assert(t[j] == a[j]);
        }
    } else {
        let head = b.drop_last();
        let m = merged(a, head);
        lemma_merged_items(a, head);
        lemma_merged(a, head);
        lemma_inserted_items(m, b.last());
        lemma_inserted(m, b.last());
        assert forall|i: int| 0 <= i < t.len() implies (a.contains(#[trigger] t[i]) || b.contains(
            t[i],
        )) by {
            if t[i] == b.last() {
                assert(b[b.len() - 1] == t[i]);
            } else {
                let q = choose|q: int| 0 <= q < m.len() && m[q] == t[i];
                if !a.contains(m[q]) {
                    let n = choose|n: int| 0 <= n < head.len() && head[n] == m[q];
                    assert(b[n] == t[i]);
                }
            }
        }
        assert forall|j: int| 0 <= j < a.len() implies t.contains(#[trigger] a[j]) by {
            let q = choose|q: int| 0 <= q < m.len() && m[q] == a[j];
            assert(t.contains(m[q]));
        }
        assert forall|j: int| 0 <= j < b.len() implies has_key(t, (#[trigger] b[j]).key()) by {
            if j < head.len() {
                assert(head[j] == b[j]);
                assert(has_key(m, head[j].key()));
                assert(keys(m).contains(b[j].key()));
                assert(keys(t).contains(b[j].key()));
            } else {
                assert(keys(t).contains(b.last().key()));
            }
        }
    }
}

/// Two sorted sequences with the same keys have them at the same places.
pub proof fn lemma_same_keys<T: Keyed>(a: Seq<T>, b: Seq<T>)
    requires
        sorted(a),
        sorted(b),
        keys(a) == keys(b),
    ensures
        a.len() == b.len(),
        forall|i: int| 0 <= i < a.len() ==> (#[trigger] a[i]).key() == b[i].key(),
    decreases a.len(),
{
    if a.len() == 0 {
        if b.len() > 0 {
            assert(has_key(b, b[0].key()));
            assert(keys(b).contains(b[0].key()));
            assert(keys(a).contains(b[0].key()));
            assert(has_key(a, b[0].key()));
        }
    } else {
        let top = a.last().key();
        assert(has_key(a, a[a.len() - 1].key()));
        assert(keys(a).contains(top));
        assert(keys(b).contains(top));
        assert(has_key(b, top));
        let n = choose|n: int| 0 <= n < b.len() && (#[trigger] b[n]).key() == top;
        if n < b.len() - 1 {
            let more = b[b.len() - 1].key();
            assert(b[n].key() < b[b.len() - 1].key());
            assert(has_key(b, more));
            assert(keys(b).contains(more));
            assert(keys(a).contains(more));
            assert(has_key(a, more));
            let m = choose|m: int| 0 <= m < a.len() && (#[trigger] a[m]).key() == more;
            if m < a.len() - 1 {
                assert(a[m].key() < a[a.len() - 1].key());
            }
        }
        let x = a.drop_last();
        let y = b.drop_last();
        assert(sorted(x)) by {
            assert forall|i: int, j: int| 0 <= i < j < x.len() implies (#[trigger] x[i]).key() < (
            #[trigger] x[j]).key() by {
                assert(x[i] == a[i] && x[j] == a[j]);
            }
        }
        assert(sorted(y)) by {
            assert forall|i: int, j: int| 0 <= i < j < y.len() implies (#[trigger] y[i]).key() < (
            #[trigger] y[j]).key() by {
                assert(y[i] == b[i] && y[j] == b[j]);
            }
        }
        lemma_keys_drop_last(a);
        lemma_keys_drop_last(b);
        assert(keys(x) =~= keys(y));
        lemma_same_keys(x, y);
        assert forall|i: int| 0 <= i < a.len() implies (#[trigger] a[i]).key() == b[i].key() by {
            if i < a.len() - 1 {
                assert(x[i] == a[i] && y[i] == b[i]);
            }
        }
    }
}

/// Without its last item, a sorted sequence has the keys it had but the
/// last one.
pub proof fn lemma_keys_drop_last<T: Keyed>(a: Seq<T>)
    requires
        sorted(a),
        a.len() > 0,
    ensures
        keys(a.drop_last()) == keys(a).remove(a.last().key()),
{
    let x = a.drop_last();
    let top = a.last().key();
    assert forall|k: int| keys(x).contains(k) <==> keys(a).remove(top).contains(k) by {
        if has_key(x, k) {
            let i = choose|i: int| 0 <= i < x.len() && (#[trigger] x[i]).key() == k;
            assert(a[i] == x[i]);
            assert(a[i].key() < a[a.len() - 1].key());
            assert(has_key(a, k));
        }
        if has_key(a, k) && k != top {
            let i = choose|i: int| 0 <= i < a.len() && (#[trigger] a[i]).key() == k;
            assert(x[i] == a[i]);
            assert(has_key(x, k));
        }
    }
    assert(keys(x) =~= keys(a).remove(top));
}

/// A vector whose items stand in strictly increasing order of their keys.
/// No key occurs twice: `insert` keeps the item that is there.
#[derive(Debug)]
pub struct SortedVec<T: Keyed> {
    items: Vec<T>,
}

impl<T: Keyed> View for SortedVec<T> {
    type V = Seq<T>;

    closed spec fn view(&self) -> Seq<T> {
        self.items@
    }
}

impl<T: Keyed> SortedVec<T> {
    #[verifier::type_invariant]
    spec fn in_order(&self) -> bool {
        sorted(self.items@)
    }

    /// Whether an item with the key `k` is held.
    pub open spec fn holds(&self, k: int) -> bool {
        has_key(self@, k)
    }

    /// The empty collection.
    pub fn new() -> (s: Self)
        ensures
            s@ == Seq::<T>::empty(),
    {
        SortedVec { items: Vec::new() }
    }

    /// The number of items.
    pub fn len(&self) -> (n: usize)
        ensures
            n == self@.len(),
            sorted(self@),
    {
        proof {
            use_type_invariant(self);
        }
        self.items.len()
    }

    pub fn is_empty(&self) -> (b: bool)
        ensures
            b == (self@.len() == 0),
    {
        self.items.len() == 0
    }

    /// The item at place `i` of the order.
    pub fn get(&self, i: usize) -> (item: &T)
        requires
            i < self@.len(),
        ensures
            *item == self@[i as int],
            sorted(self@),
    {
        proof {
            use_type_invariant(self);
        }
        &self.items[i]
    }

    /// The items in their order.
    pub fn as_slice(&self) -> (items: &[T])
        ensures
            items@ == self@,
            sorted(self@),
    {
        proof {
            use_type_invariant(self);
        }
        self.items.as_slice()
    }

    /// The place where an item with the key of `probe` stands or would be put.
    pub fn rank_of(&self, probe: &T) -> (r: usize)
        ensures
            r == rank(self@, probe.key()),
            r <= self@.len(),
            sorted(self@),
            self.holds(probe.key()) <==> (r < self@.len() && self@[r as int].key() == probe.key()),
            r < self@.len() ==> self@[r as int].key() >= probe.key(),
    {
        proof {
            use_type_invariant(self);
        }
        let ghost k = probe.key();
        let mut lo: usize = 0;
        let mut hi: usize = self.items.len();
        while lo < hi
            invariant
                lo <= hi <= self.items@.len(),
                sorted(self.items@),
                k == probe.key(),
                forall|i: int| 0 <= i < lo ==> (#[trigger] self.items@[i]).key() < k,
                forall|i: int| hi <= i < self.items@.len() ==> (#[trigger] self.items@[i]).key() >= k,
            decreases hi - lo,
        {
            let mid = lo + (hi - lo) / 2;
            if self.items[mid].key_lt(probe) {
                proof {
                    assert forall|i: int| 0 <= i < mid + 1 implies (#[trigger] self.items@[i]).key()
                        < k by {
                        if i < mid {
                            assert(self.items@[i].key() < self.items@[mid as int].key());
                        }
                    }
                }
                lo = mid + 1;
            } else {
                proof {
                    assert forall|i: int| mid <= i < self.items@.len() implies (
                    #[trigger] self.items@[i]).key() >= k by {
                        if mid < i {
                            assert(self.items@[mid as int].key() < self.items@[i].key());
                        }
                    }
                }
                hi = mid;
            }
        }
        proof {
            lemma_rank_is(self.items@, k, lo as int);
            lemma_rank(self.items@, k);
        }
        lo
    }

    /// Whether an item with the key of `probe` is held.
    pub fn contains(&self, probe: &T) -> (b: bool)
        ensures
            b == self.holds(probe.key()),
    {
        let r = self.rank_of(probe);
        r < self.items.len() && !probe.key_lt(&self.items[r])
    }

    /// The item with the key of `probe`, if one is held.
    pub fn find(&self, probe: &T) -> (found: Option<&T>)
        ensures
            found is Some == self.holds(probe.key()),
            found matches Some(item) ==> *item == item_at(self@, probe.key()),
    {
        let r = self.rank_of(probe);
        if r < self.items.len() && !probe.key_lt(&self.items[r]) {
            Some(&self.items[r])
        } else {
            None
        }
    }

    /// Puts `item` at its place. An item with the same key that is already
    /// held stays, and `item` is dropped. Returns whether `item` was put in.
    pub fn insert(&mut self, item: T) -> (added: bool)
        ensures
            added == !old(self).holds(item.key()),
            final(self)@ == inserted(old(self)@, item),
            sorted(final(self)@),
            keys(final(self)@) == keys(old(self)@).insert(item.key()),
    {
        proof {
            use_type_invariant(&*self);
            lemma_inserted(self.items@, item);
        }
        let r = self.rank_of(&item);
        if r < self.items.len() && !item.key_lt(&self.items[r]) {
            false
        } else {
            let mut items = Vec::new();
            core::mem::swap(&mut self.items, &mut items);
            items.insert(r, item);
            self.items = items;
            true
        }
    }

    /// Puts `item` at its place, where it takes the place of an item with
    /// the same key if one is held.
    pub fn replace(&mut self, item: T)
        ensures
            final(self)@ == replaced(old(self)@, item),
            sorted(final(self)@),
            keys(final(self)@) == keys(old(self)@).insert(item.key()),
    {
        proof {
            use_type_invariant(&*self);
            lemma_replaced(self.items@, item);
        }
        let r = self.rank_of(&item);
        let held = r < self.items.len() && !item.key_lt(&self.items[r]);
        let mut items = Vec::new();
        core::mem::swap(&mut self.items, &mut items);
        if held {
            items.set(r, item);
        } else {
            items.insert(r, item);
        }
        self.items = items;
    }

    /// Puts in every item of `other` whose key is not held yet.
    pub fn extend(&mut self, other: SortedVec<T>)
        ensures
            final(self)@ == merged(old(self)@, other@),
            sorted(final(self)@),
            keys(final(self)@) == keys(old(self)@).union(keys(other@)),
    {
        proof {
            use_type_invariant(&*self);
            lemma_merged(self@, other@);
        }
        let ghost start = self@;
        let ghost all = other@;
        for item in iter: other.items
            invariant
                iter.seq() == all,
                self@ == merged(start, all.take(iter.index() as int)),
                sorted(self@),
        {
            proof {
                let n = iter.index() as int;
                assert(all.take(n + 1).drop_last() =~= all.take(n));
                assert(all.take(n + 1).last() == item);
            }
            self.insert(item);
        }
        proof {
            assert(all.take(all.len() as int) =~= all);
        }
    }
}

} // verus!

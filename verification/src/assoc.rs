//! Association lists keyed by strings: the index of a key, shared by the
//! string map and the template state.

use crate::text::str_eq;
use vstd::prelude::*;

verus! {

/// The first index at which `key` occurs among the keys of `entries`, or -1.
pub open spec fn key_index<V>(entries: Seq<(String, V)>, key: Seq<char>) -> int
    decreases entries.len(),
{
    if entries.len() == 0 {
        -1
    } else if entries[0].0@ == key {
        0
    } else {
        let rest = key_index(entries.drop_first(), key);
        if rest < 0 {
            -1
        } else {
            rest + 1
        }
    }
}

/// No key occurs twice.
pub open spec fn keys_distinct<V>(entries: Seq<(String, V)>) -> bool {
    forall|i: int, j: int| 0 <= i < j < entries.len() ==> entries[i].0@ != entries[j].0@
}

/// `key_index` is within bounds, points at `key`, and no earlier entry has
/// that key.
pub proof fn lemma_key_index<V>(entries: Seq<(String, V)>, key: Seq<char>)
    ensures
        -1 <= key_index(entries, key) < entries.len(),
        key_index(entries, key) >= 0 ==> entries[key_index(entries, key)].0@ == key,
        forall|j: int|
            0 <= j < entries.len() && (j < key_index(entries, key) || key_index(entries, key) < 0)
                ==> entries[j].0@ != key,
    decreases entries.len(),
{
    if entries.len() > 0 && entries[0].0@ != key {
        let rest = entries.drop_first();
        lemma_key_index(rest, key);
        assert forall|j: int|
            0 <= j < entries.len() && (j < key_index(entries, key) || key_index(entries, key)
                < 0) implies entries[j].0@ != key by {
            if j > 0 {
                assert(rest[j - 1] == entries[j]);
            }
        }
    }
}

/// An index that points at `key` with no earlier entry of that key is the
/// key's index; -1 is, when no entry has the key.
pub proof fn lemma_key_index_is<V>(entries: Seq<(String, V)>, key: Seq<char>, i: int)
    requires
        -1 <= i < entries.len(),
        i >= 0 ==> entries[i].0@ == key,
        forall|j: int| 0 <= j < entries.len() && (j < i || i < 0) ==> entries[j].0@ != key,
    ensures
        key_index(entries, key) == i,
    decreases entries.len(),
{
    if entries.len() > 0 && entries[0].0@ != key {
        let rest = entries.drop_first();
        assert forall|j: int| 0 <= j < rest.len() && (j < i - 1 || i - 1 < 0) implies rest[j].0@
            != key by {
            assert(rest[j] == entries[j + 1]);
        }
        if i >= 0 {
            assert(rest[i - 1] == entries[i]);
            lemma_key_index_is(rest, key, i - 1);
        } else {
            lemma_key_index_is(rest, key, -1);
        }
    }
}

/// The map that a sequence of named values stands for, each value seen
/// through `f`. Where a name occurs twice the earlier entry counts.
pub open spec fn assoc_view<V, W>(entries: Seq<(String, V)>, f: spec_fn(V) -> W) -> Map<
    Seq<char>,
    W,
>
    decreases entries.len(),
{
    if entries.len() == 0 {
        Map::empty()
    } else {
        assoc_view(entries.drop_first(), f).insert(entries[0].0@, f(entries[0].1))
    }
}

/// A name is in the map exactly when it is among the keys; its value is that
/// of the first entry with the name.
pub proof fn lemma_assoc_view<V, W>(entries: Seq<(String, V)>, f: spec_fn(V) -> W, key: Seq<char>)
    ensures
        assoc_view(entries, f).contains_key(key) <==> key_index(entries, key) >= 0,
        key_index(entries, key) >= 0 ==> assoc_view(entries, f)[key] == f(
            entries[key_index(entries, key)].1,
        ),
    decreases entries.len(),
{
    if entries.len() > 0 {
        let rest = entries.drop_first();
        lemma_assoc_view(rest, f, key);
        lemma_key_index(rest, key);
        if entries[0].0@ != key && key_index(rest, key) >= 0 {
            assert(rest[key_index(rest, key)] == entries[key_index(rest, key) + 1]);
        }
    }
}

/// Replacing the value of the first entry that has the name is an insert.
pub proof fn lemma_assoc_view_update<V, W>(
    entries: Seq<(String, V)>,
    f: spec_fn(V) -> W,
    i: int,
    key: String,
    value: V,
)
    requires
        0 <= i < entries.len(),
        i == key_index(entries, key@),
    ensures
        assoc_view(entries.update(i, (key, value)), f) == assoc_view(entries, f).insert(
            key@,
            f(value),
        ),
        keys_distinct(entries) ==> keys_distinct(entries.update(i, (key, value))),
    decreases entries.len(),
{
    let updated = entries.update(i, (key, value));
    lemma_key_index(entries, key@);
    if i == 0 {
        assert(updated.drop_first() =~= entries.drop_first());
        assert(assoc_view(updated, f) =~= assoc_view(entries, f).insert(key@, f(value)));
    } else {
        let rest = entries.drop_first();
        assert(updated.drop_first() =~= rest.update(i - 1, (key, value)));
        lemma_assoc_view_update(rest, f, i - 1, key, value);
        assert(assoc_view(updated, f) =~= assoc_view(entries, f).insert(key@, f(value)));
    }
}

/// Appending an entry under a name that is not yet there is an insert.
pub proof fn lemma_assoc_view_push<V, W>(
    entries: Seq<(String, V)>,
    f: spec_fn(V) -> W,
    key: String,
    value: V,
)
    requires
        key_index(entries, key@) < 0,
    ensures
        assoc_view(entries.push((key, value)), f) == assoc_view(entries, f).insert(key@, f(value)),
        keys_distinct(entries) ==> keys_distinct(entries.push((key, value))),
    decreases entries.len(),
{
    let pushed = entries.push((key, value));
    lemma_key_index(entries, key@);
    if entries.len() == 0 {
        assert(pushed.drop_first() =~= entries);
        assert(assoc_view(pushed, f) =~= assoc_view(entries, f).insert(key@, f(value)));
    } else {
        let rest = entries.drop_first();
        assert(pushed.drop_first() =~= rest.push((key, value)));
        lemma_key_index(rest, key@);
        lemma_assoc_view_push(rest, f, key, value);
        assert(assoc_view(pushed, f) =~= assoc_view(entries, f).insert(key@, f(value)));
    }
}

/// With distinct keys the map has as many names as there are entries.
pub proof fn lemma_assoc_view_len<V, W>(entries: Seq<(String, V)>, f: spec_fn(V) -> W)
    requires
        keys_distinct(entries),
    ensures
        assoc_view(entries, f).dom().finite(),
        assoc_view(entries, f).dom().len() == entries.len(),
    decreases entries.len(),
{
    if entries.len() > 0 {
        let rest = entries.drop_first();
        assert forall|i: int, j: int| 0 <= i < j < rest.len() implies rest[i].0@ != rest[j].0@ by {
            assert(rest[i] == entries[i + 1]);
            assert(rest[j] == entries[j + 1]);
        }
        lemma_assoc_view_len(rest, f);
        lemma_assoc_view(rest, f, entries[0].0@);
        lemma_key_index(rest, entries[0].0@);
        if key_index(rest, entries[0].0@) >= 0 {
            assert(rest[key_index(rest, entries[0].0@)] == entries[key_index(rest, entries[0].0@)
                + 1]);
        }
    }
}

/// Entries with the same names and values, index by index, stand for the
/// same map.
pub proof fn lemma_assoc_view_same<V, W>(
    a: Seq<(String, V)>,
    b: Seq<(String, V)>,
    f: spec_fn(V) -> W,
)
    requires
        a.len() == b.len(),
        forall|j: int| 0 <= j < a.len() ==> a[j].0@ == b[j].0@ && f(a[j].1) == f(b[j].1),
    ensures
        assoc_view(a, f) == assoc_view(b, f),
        keys_distinct(b) ==> keys_distinct(a),
    decreases a.len(),
{
    if a.len() > 0 {
        let ra = a.drop_first();
        let rb = b.drop_first();
        assert forall|j: int| 0 <= j < ra.len() implies ra[j].0@ == rb[j].0@ && f(ra[j].1) == f(
            rb[j].1,
        ) by {
            assert(ra[j] == a[j + 1]);
            assert(rb[j] == b[j + 1]);
        }
        lemma_assoc_view_same(ra, rb, f);
    }
}

/// Finds the first entry whose key is `key`.
pub fn find_key<V>(entries: &Vec<(String, V)>, key: &str) -> (r: Option<usize>)
    ensures
        match r {
            Some(i) => key_index(entries@, key@) == i && i < entries@.len(),
            None => key_index(entries@, key@) == -1,
        },
{
    let mut i: usize = 0;
    while i < entries.len()
        invariant
            i <= entries.len(),
            forall|j: int| 0 <= j < i ==> entries@[j].0@ != key@,
        decreases entries.len() - i,
    {
        if str_eq(entries[i].0.as_str(), key) {
            proof {
                lemma_key_index_is(entries@, key@, i as int);
            }
            return Some(i);
        }
        i = i + 1;
    }
    proof {
        lemma_key_index_is(entries@, key@, -1);
    }
    None
}

/// A string seen as its characters.
pub open spec fn text_model() -> spec_fn(String) -> Seq<char> {
    |s: String| s@
}

/// The map that a sequence of pairs builds when they are inserted one after
/// the other: where a key occurs twice the later pair counts.
pub open spec fn pairs_map(pairs: Seq<(String, String)>) -> Map<Seq<char>, Seq<char>>
    decreases pairs.len(),
{
    if pairs.len() == 0 {
        Map::empty()
    } else {
        pairs_map(pairs.drop_last()).insert(pairs.last().0@, pairs.last().1@)
    }
}

/// A map from strings to strings.
#[derive(Debug)]
pub struct StringMap {
    entries: Vec<(String, String)>,
}

impl View for StringMap {
    type V = Map<Seq<char>, Seq<char>>;

    closed spec fn view(&self) -> Map<Seq<char>, Seq<char>> {
        assoc_view(self.entries@, text_model())
    }
}

impl StringMap {
    #[verifier::type_invariant]
    spec fn inv(&self) -> bool {
        keys_distinct(self.entries@)
    }

    /// The empty map.
    pub fn new() -> (m: StringMap)
        ensures
            m@ == Map::<Seq<char>, Seq<char>>::empty(),
    {
        StringMap { entries: Vec::new() }
    }

    /// Binds `key` to `value`, replacing what it was bound to.
    pub fn insert(&mut self, key: String, value: String)
        ensures
            final(self)@ == old(self)@.insert(key@, value@),
    {
        proof {
            use_type_invariant(&*self);
        }
        let mut taken = StringMap { entries: Vec::new() };
        core::mem::swap(self, &mut taken);
        let mut entries = taken.entries;
        let ghost before = entries@;
        match find_key(&entries, key.as_str()) {
            Some(i) => {
                proof {
                    lemma_assoc_view_update(before, text_model(), i as int, key, value);
                }
                entries.set(i, (key, value));
            },
            None => {
                proof {
                    lemma_assoc_view_push(before, text_model(), key, value);
                }
                entries.push((key, value));
            },
        }
        *self = StringMap { entries };
    }

    /// The value bound to `key`, if any.
    pub fn get(&self, key: &str) -> (r: Option<&String>)
        ensures
            match r {
                Some(v) => self@.contains_key(key@) && self@[key@] == v@,
                None => !self@.contains_key(key@),
            },
    {
        proof {
            lemma_assoc_view(self.entries@, text_model(), key@);
        }
        match find_key(&self.entries, key) {
            Some(i) => Some(&self.entries[i].1),
            None => None,
        }
    }

    /// Whether `key` is bound.
    pub fn contains_key(&self, key: &str) -> (r: bool)
        ensures
            r == self@.contains_key(key@),
    {
        self.get(key).is_some()
    }

    /// The number of keys.
    pub fn len(&self) -> (n: usize)
        ensures
            self@.dom().finite(),
            n == self@.dom().len(),
    {
        proof {
            use_type_invariant(self);
            lemma_assoc_view_len(self.entries@, text_model());
        }
        self.entries.len()
    }

    /// Whether the map holds no key.
    pub fn is_empty(&self) -> (r: bool)
        ensures
            r == (self@ == Map::<Seq<char>, Seq<char>>::empty()),
    {
        proof {
            use_type_invariant(self);
            lemma_assoc_view_len(self.entries@, text_model());
            if self.entries@.len() == 0 {
                assert(self@ =~= Map::<Seq<char>, Seq<char>>::empty());
            }
        }
        self.entries.len() == 0
    }

    /// The bindings as pairs, each key once.
    pub fn entries(&self) -> (r: &Vec<(String, String)>)
        ensures
            assoc_view(r@, text_model()) == self@,
            keys_distinct(r@),
    {
        proof {
            use_type_invariant(self);
        }
        &self.entries
    }

    /// The map that inserting the pairs one after the other builds.
    pub fn from_pairs(pairs: Vec<(String, String)>) -> (m: StringMap)
        ensures
            m@ == pairs_map(pairs@),
    {
        let mut m = StringMap::new();
        let mut i: usize = 0;
        assert(pairs@.take(0) =~= Seq::empty());
        while i < pairs.len()
            invariant
                i <= pairs.len(),
                m@ == pairs_map(pairs@.take(i as int)),
            decreases pairs.len() - i,
        {
            assert(pairs@.take(i + 1).drop_last() =~= pairs@.take(i as int));
            let key = pairs[i].0.clone();
            let value = pairs[i].1.clone();
            m.insert(key, value);
            i = i + 1;
        }
        assert(pairs@.take(pairs@.len() as int) =~= pairs@);
        m
    }
}

impl Clone for StringMap {
    fn clone(&self) -> (r: StringMap)
        ensures
            r@ == self@,
    {
        proof {
            use_type_invariant(self);
        }
        let mut copy: Vec<(String, String)> = Vec::new();
        let mut i: usize = 0;
        while i < self.entries.len()
            invariant
                i <= self.entries.len(),
                copy@.len() == i,
                forall|j: int|
                    0 <= j < i ==> copy@[j].0@ == self.entries@[j].0@ && copy@[j].1@
                        == self.entries@[j].1@,
            decreases self.entries.len() - i,
        {
            let key = self.entries[i].0.clone();
            let value = self.entries[i].1.clone();
            copy.push((key, value));
            i = i + 1;
        }
        proof {
            lemma_assoc_view_same(copy@, self.entries@, text_model());
        }
        StringMap { entries: copy }
    }
}

} // verus!

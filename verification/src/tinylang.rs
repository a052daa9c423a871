//! The variable environment handed to the template evaluator: tagged values,
//! the state that maps names to them, and the built-in operations that a
//! template may call.

use crate::assoc::{
    assoc_view, find_key, keys_distinct, lemma_assoc_view, lemma_assoc_view_len,
    lemma_assoc_view_push, lemma_assoc_view_same, lemma_assoc_view_update, lemma_key_index_is,
    StringMap, text_model,
};
use crate::text::{
    decimal, decimal_string, lemma_lex_le_antisymmetric, lemma_lex_le_reflexive,
    lemma_lex_le_total, lemma_lex_le_transitive, lex_le, strings_view, text_le, to_chars,
};
use vstd::prelude::*;

verus! {

/// The operations that the host makes callable from templates.
#[derive(Clone, Copy, Debug, PartialEq, Eq, Structural)]
pub enum Builtin {
    /// Evaluate another template file and splice in its output.
    Render,
    /// Sort a list of objects by the text of one of their fields.
    SortByKey,
    /// Reverse a list.
    Reverse,
}

impl Builtin {
    /// The name that templates call the operation by.
    pub open spec fn name_spec(self) -> Seq<char> {
        match self {
            Builtin::Render => "render"@,
            Builtin::SortByKey => "sort_by_key"@,
            Builtin::Reverse => "reverse"@,
        }
    }

    /// The name that templates call the operation by.
    pub fn name(&self) -> (r: &'static str)
        ensures
            r@ == self.name_spec(),
    {
        match self {
            Builtin::Render => "render",
            Builtin::SortByKey => "sort_by_key",
            Builtin::Reverse => "reverse",
        }
    }
}

/// A value visible to a template.
#[derive(Debug)]
pub enum Value {
    Text(String),
    Numeric(u64),
    Object(State),
    List(Vec<Value>),
    Callable(Builtin),
    Nil,
}

/// The variables visible to one template evaluation, by name.
#[derive(Debug)]
pub struct State {
    entries: Vec<(String, Value)>,
}

/// What a `Value` stands for.
pub enum ValueView {
    Text(Seq<char>),
    Numeric(nat),
    Object(Map<Seq<char>, ValueView>),
    List(Seq<ValueView>),
    Callable(Builtin),
    Nil,
}

/// What a value stands for: strings by their characters, objects by the map
/// from names to what their values stand for, lists element by element.
pub open spec fn value_view(v: Value) -> ValueView
    decreases v,
{
    match v {
        Value::Text(s) => ValueView::Text(s@),
        Value::Numeric(n) => ValueView::Numeric(n as nat),
        Value::Object(s) => ValueView::Object(s.model()),
        Value::List(l) => ValueView::List(list_view(l@)),
        Value::Callable(b) => ValueView::Callable(b),
        Value::Nil => ValueView::Nil,
    }
}

/// The views of a sequence of values, in order.
pub open spec fn list_view(l: Seq<Value>) -> Seq<ValueView>
    decreases l,
{
    if l.len() == 0 {
        Seq::empty()
    } else {
        list_view(l.drop_last()).push(value_view(l.last()))
    }
}

/// The map that a sequence of named values stands for. Where a name occurs
/// twice the earlier entry counts.
pub open spec fn entries_view(entries: Seq<(String, Value)>) -> Map<Seq<char>, ValueView>
    decreases entries,
{
    if entries.len() == 0 {
        Map::empty()
    } else {
        entries_view(entries.drop_first()).insert(entries[0].0@, value_view(entries[0].1))
    }
}

/// Each text of a map as a text value.
pub open spec fn text_values(texts: Map<Seq<char>, Seq<char>>) -> Map<Seq<char>, ValueView> {
    Map::new(|k: Seq<char>| texts.contains_key(k), |k: Seq<char>| ValueView::Text(texts[k]))
}

/// A value seen as what it stands for.
pub open spec fn value_model() -> spec_fn(Value) -> ValueView {
    |v: Value| value_view(v)
}

/// The map of a state's entries is the association map of their views.
pub proof fn lemma_entries_view(entries: Seq<(String, Value)>)
    ensures
        entries_view(entries) == assoc_view(entries, value_model()),
    decreases entries.len(),
{
    if entries.len() > 0 {
        lemma_entries_view(entries.drop_first());
    }
}

/// The views of a list, index by index.
pub proof fn lemma_list_view(l: Seq<Value>)
    ensures
        list_view(l).len() == l.len(),
        forall|i: int| 0 <= i < l.len() ==> #[trigger] list_view(l)[i] == value_view(l[i]),
    decreases l.len(),
{
    if l.len() > 0 {
        lemma_list_view(l.drop_last());
    }
}

impl View for Value {
    type V = ValueView;

    open spec fn view(&self) -> ValueView {
        value_view(*self)
    }
}

impl View for State {
    type V = Map<Seq<char>, ValueView>;

    open spec fn view(&self) -> Map<Seq<char>, ValueView> {
        self.model()
    }
}

impl State {
    /// The map from names to values that this state stands for.
    pub closed spec fn model(&self) -> Map<Seq<char>, ValueView>
        decreases self,
    {
        entries_view(self.entries@)
    }

    #[verifier::type_invariant]
    spec fn inv(&self) -> bool {
        keys_distinct(self.entries@)
    }

    /// A state without variables.
    pub fn new() -> (s: State)
        ensures
            s@ == Map::<Seq<char>, ValueView>::empty(),
    {
        State { entries: Vec::new() }
    }

    /// Binds `key` to `value`, replacing what it was bound to.
    pub fn insert(&mut self, key: String, value: Value)
        ensures
            final(self)@ == old(self)@.insert(key@, value@),
    {
        proof {
            use_type_invariant(&*self);
        }
        let mut taken = State { entries: Vec::new() };
        core::mem::swap(self, &mut taken);
        let mut entries = taken.entries;
        let ghost before = entries@;
        match find_key(&entries, key.as_str()) {
            Some(i) => {
                proof {
                    lemma_assoc_view_update(before, value_model(), i as int, key, value);
                }
                entries.set(i, (key, value));
            },
            None => {
                proof {
                    lemma_assoc_view_push(before, value_model(), key, value);
                }
                entries.push((key, value));
            },
        }
        proof {
            lemma_entries_view(before);
            lemma_entries_view(entries@);
        }
        *self = State { entries };
    }

    /// The value bound to `key`, if any.
    pub fn get(&self, key: &str) -> (r: Option<&Value>)
        ensures
            match r {
                Some(v) => self@.contains_key(key@) && self@[key@] == v@,
                None => !self@.contains_key(key@),
            },
    {
        proof {
            lemma_entries_view(self.entries@);
            lemma_assoc_view(self.entries@, value_model(), key@);
        }
        match find_key(&self.entries, key) {
            Some(i) => Some(&self.entries[i].1),
            None => None,
        }
    }

    /// Whether `key` is bound.
    pub fn contains_key(&self, key: &str) -> (r: bool)
        ensures
            r == self@.contains_key(key@),
    {
        self.get(key).is_some()
    }

    /// The number of bound names.
    pub fn len(&self) -> (n: usize)
        ensures
            self@.dom().finite(),
            n == self@.dom().len(),
    {
        proof {
            use_type_invariant(self);
            lemma_entries_view(self.entries@);
            lemma_assoc_view_len(self.entries@, value_model());
        }
        self.entries.len()
    }

    /// Binds every name of `other` to its value there; names bound only
    /// here keep their values.
    pub fn extend(&mut self, other: &State)
        ensures
            final(self)@ == old(self)@.union_prefer_right(other@),
    {
        proof {
            use_type_invariant(other);
        }
        let entries = &other.entries;
        let mut i: usize = 0;
        assert(entries@.take(0) =~= Seq::empty());
        assert(self@ =~= self@.union_prefer_right(entries_view(entries@.take(0))));
        while i < entries.len()
            invariant
                i <= entries.len(),
                keys_distinct(entries@),
                self@ == old(self)@.union_prefer_right(entries_view(entries@.take(i as int))),
            decreases entries.len() - i,
        {
            proof {
                let before = entries@.take(i as int);
                lemma_key_index_is(before, entries@[i as int].0@, -1);
                lemma_entries_view(before);
                lemma_entries_view(entries@.take(i + 1));
                lemma_assoc_view_push(
                    before,
                    value_model(),
                    entries@[i as int].0,
                    entries@[i as int].1,
                );
                assert(before.push(entries@[i as int]) =~= entries@.take(i + 1));
                assert(old(self)@.union_prefer_right(entries_view(entries@.take(i + 1)))
                    =~= old(self)@.union_prefer_right(entries_view(before)).insert(
                    entries@[i as int].0@,
                    value_view(entries@[i as int].1),
                ));
            }
            self.insert(entries[i].0.clone(), entries[i].1.clone());
            i = i + 1;
        }
        assert(entries@.take(entries@.len() as int) =~= entries@);
    }

    /// Binds every key of `texts` to its text; names bound only here keep
    /// their values.
    pub fn insert_texts(&mut self, texts: &StringMap)
        ensures
            final(self)@ == old(self)@.union_prefer_right(text_values(texts@)),
    {
        let entries = texts.entries();
        let mut i: usize = 0;
        assert(entries@.take(0) =~= Seq::empty());
        assert(self@ =~= self@.union_prefer_right(
            text_values(assoc_view(entries@.take(0), text_model())),
        ));
        while i < entries.len()
            invariant
                i <= entries.len(),
                keys_distinct(entries@),
                self@ == old(self)@.union_prefer_right(
                    text_values(assoc_view(entries@.take(i as int), text_model())),
                ),
            decreases entries.len() - i,
        {
            proof {
                let before = entries@.take(i as int);
                lemma_key_index_is(before, entries@[i as int].0@, -1);
                lemma_assoc_view_push(
                    before,
                    text_model(),
                    entries@[i as int].0,
                    entries@[i as int].1,
                );
                assert(before.push(entries@[i as int]) =~= entries@.take(i + 1));
                assert(old(self)@.union_prefer_right(
                    text_values(assoc_view(entries@.take(i + 1), text_model())),
                ) =~= old(self)@.union_prefer_right(
                    text_values(assoc_view(before, text_model())),
                ).insert(entries@[i as int].0@, ValueView::Text(entries@[i as int].1@)));
            }
            self.insert(entries[i].0.clone(), Value::Text(entries[i].1.clone()));
            i = i + 1;
        }
        assert(entries@.take(entries@.len() as int) =~= entries@);
    }

    /// The bindings as pairs, each name once.
    pub fn entries(&self) -> (r: &Vec<(String, Value)>)
        ensures
            entries_view(r@) == self@,
            keys_distinct(r@),
    {
        proof {
            use_type_invariant(self);
        }
        &self.entries
    }
}

impl Clone for Value {
    /// A copy that stands for the same value.
    fn clone(&self) -> (r: Value)
        ensures
            r@ == self@,
        decreases self,
    {
        match self {
            Value::Text(s) => Value::Text(s.clone()),
            Value::Numeric(n) => Value::Numeric(*n),
            Value::Object(s) => Value::Object(s.clone()),
            Value::List(l) => {
                let mut copy: Vec<Value> = Vec::new();
                let mut i: usize = 0;
                while i < l.len()
                    invariant
                        i <= l.len(),
                        *self is List,
                        self->List_0 == *l,
                        copy@.len() == i,
                        forall|j: int| 0 <= j < i ==> value_view(copy@[j]) == value_view(l@[j]),
                    decreases l.len() - i,
                {
                    assert(decreases_to!(*l => l[i as int]));
                    let item = l[i].clone();
                    copy.push(item);
                    i = i + 1;
                }
                proof {
                    lemma_list_view(l@);
                    lemma_list_view(copy@);
                    assert(list_view(copy@) =~= list_view(l@));
                }
                Value::List(copy)
            },
            Value::Callable(b) => Value::Callable(*b),
            Value::Nil => Value::Nil,
        }
    }
}

impl Clone for State {
    /// A copy that binds the same names to the same values.
    fn clone(&self) -> (r: State)
        ensures
            r@ == self@,
        decreases self,
    {
        proof {
            use_type_invariant(self);
        }
        let mut copy: Vec<(String, Value)> = Vec::new();
        let mut i: usize = 0;
        while i < self.entries.len()
            invariant
                i <= self.entries.len(),
                copy@.len() == i,
                forall|j: int|
                    0 <= j < i ==> copy@[j].0@ == self.entries@[j].0@ && value_view(copy@[j].1)
                        == value_view(self.entries@[j].1),
            decreases self.entries.len() - i,
        {
            let key = self.entries[i].0.clone();
            let value = self.entries[i].1.clone();
            copy.push((key, value));
            i = i + 1;
        }
        proof {
            lemma_assoc_view_same(copy@, self.entries@, value_model());
            lemma_entries_view(copy@);
            lemma_entries_view(self.entries@);
        }
        State { entries: copy }
    }
}

/// The text that a value is shown as: a text as itself, a number as its
/// decimal numeral, and every other value by a word for its kind.
pub open spec fn display(v: ValueView) -> Seq<char> {
    match v {
        ValueView::Text(s) => s,
        ValueView::Numeric(n) => decimal(n),
        ValueView::Object(_) => "Object"@,
        ValueView::List(l) => "Vector with "@ + decimal(l.len()) + " elements"@,
        ValueView::Callable(_) => "Function"@,
        ValueView::Nil => "Nil"@,
    }
}

impl Value {
    /// The text that the value is shown as.
    pub fn to_text(&self) -> (r: String)
        ensures
            r@ == display(self@),
    {
        match self {
            Value::Text(s) => s.clone(),
            Value::Numeric(n) => decimal_string(*n),
            Value::Object(_) => "Object".to_owned(),
            Value::List(l) => {
                proof {
                    lemma_list_view(l@);
                }
                let count = decimal_string(l.len() as u64);
                let mut r = "Vector with ".to_owned();
                r.append(count.as_str());
                r.append(" elements");
                r
            },
            Value::Callable(_) => "Function".to_owned(),
            Value::Nil => "Nil".to_owned(),
        }
    }
}

/// The text that an object is sorted by: what its field `field` is shown as.
pub open spec fn sort_key(item: ValueView, field: Seq<char>) -> Seq<char> {
    match item {
        ValueView::Object(fields) => display(fields[field]),
        _ => Seq::empty(),
    }
}

/// Whether a value is an object with the field `field`.
pub open spec fn has_sort_key(item: ValueView, field: Seq<char>) -> bool {
    match item {
        ValueView::Object(fields) => fields.contains_key(field),
        _ => false,
    }
}

/// The items whose sort key is `key`, in order.
pub open spec fn with_key(items: Seq<ValueView>, field: Seq<char>, key: Seq<char>) -> Seq<ValueView>
    decreases items.len(),
{
    if items.len() == 0 {
        Seq::empty()
    } else if sort_key(items.last(), field) == key {
        with_key(items.drop_last(), field, key).push(items.last())
    } else {
        with_key(items.drop_last(), field, key)
    }
}

/// Whether the sort keys never go down along the sequence.
pub open spec fn sorted_by_key(items: Seq<ValueView>, field: Seq<char>) -> bool {
    forall|i: int, j: int|
        0 <= i < j < items.len() ==> lex_le(
            #[trigger] sort_key(items[i], field),
            #[trigger] sort_key(items[j], field),
        )
}

/// Whether `sorted` is `items` sorted by key and stable: the keys never go
/// down, and under every key the same items stand in the same order.
pub open spec fn is_stable_sort(sorted: Seq<ValueView>, items: Seq<ValueView>, field: Seq<char>) -> bool {
    &&& sorted.len() == items.len()
    &&& sorted_by_key(sorted, field)
    &&& forall|key: Seq<char>| #[trigger] with_key(sorted, field, key) == with_key(items, field, key)
}

/// The items under a key of two sequences put together are those of the
/// first, then those of the second.
pub proof fn lemma_with_key_add(a: Seq<ValueView>, b: Seq<ValueView>, field: Seq<char>, key: Seq<char>)
    ensures
        with_key(a + b, field, key) == with_key(a, field, key) + with_key(b, field, key),
    decreases b.len(),
{
    if b.len() == 0 {
        assert(a + b =~= a);
        assert(with_key(a, field, key) + with_key(b, field, key) =~= with_key(a, field, key));
    } else {
        assert((a + b).drop_last() =~= a + b.drop_last());
        assert((a + b).last() == b.last());
        lemma_with_key_add(a, b.drop_last(), field, key);
        assert(with_key(a + b, field, key) =~= with_key(a, field, key) + with_key(b, field, key));
    }
}

/// Where no item has the key, nothing stands under it.
pub proof fn lemma_with_key_none(items: Seq<ValueView>, field: Seq<char>, key: Seq<char>)
    requires
        forall|j: int| 0 <= j < items.len() ==> sort_key(items[j], field) != key,
    ensures
        with_key(items, field, key) == Seq::<ValueView>::empty(),
    decreases items.len(),
{
    if items.len() > 0 {
        lemma_with_key_none(items.drop_last(), field, key);
    }
}

/// Putting an item behind every item whose key is at most its own keeps a
/// stable sort a stable sort.
pub proof fn lemma_insert_keeps_stable_sort(
    sorted: Seq<ValueView>,
    done: Seq<ValueView>,
    x: ValueView,
    p: int,
    field: Seq<char>,
)
    requires
        is_stable_sort(sorted, done, field),
        0 <= p <= sorted.len(),
        forall|j: int| 0 <= j < p ==> lex_le(sort_key(sorted[j], field), sort_key(x, field)),
        p < sorted.len() ==> !lex_le(sort_key(sorted[p], field), sort_key(x, field)),
    ensures
        is_stable_sort(sorted.insert(p, x), done.push(x), field),
{
    let kx = sort_key(x, field);
    let after = sorted.insert(p, x);
    assert forall|j: int| p <= j < sorted.len() implies !lex_le(sort_key(sorted[j], field), kx)
        && lex_le(kx, sort_key(sorted[j], field)) by {
        if lex_le(sort_key(sorted[j], field), kx) {
            if p < j {
                lemma_lex_le_transitive(sort_key(sorted[p], field), sort_key(sorted[j], field), kx);
            }
        }
        lemma_lex_le_total(sort_key(sorted[j], field), kx);
    }
    assert forall|i: int, j: int| 0 <= i < j < after.len() implies lex_le(
        #[trigger] sort_key(after[i], field),
        #[trigger] sort_key(after[j], field),
    ) by {
        if j < p {
            assert(after[i] == sorted[i] && after[j] == sorted[j]);
        } else if j == p {
            assert(after[i] == sorted[i]);
        } else if i < p {
            assert(after[i] == sorted[i] && after[j] == sorted[j - 1]);
        } else if i == p {
            assert(after[j] == sorted[j - 1]);
        } else {
            assert(after[i] == sorted[i - 1] && after[j] == sorted[j - 1]);
        }
    }
    assert forall|key: Seq<char>| #[trigger]
        with_key(after, field, key) == with_key(done.push(x), field, key) by {
        let head = sorted.take(p);
        let tail = sorted.skip(p);
        assert(after =~= head.push(x) + tail);
        assert(sorted =~= head + tail);
        lemma_with_key_add(head.push(x), tail, field, key);
        lemma_with_key_add(head, tail, field, key);
        assert(head.push(x).drop_last() =~= head);
        assert(done.push(x).drop_last() =~= done);
        assert(with_key(sorted, field, key) == with_key(done, field, key));
        if kx == key {
            assert forall|j: int| 0 <= j < tail.len() implies sort_key(tail[j], field) != key by {
                assert(tail[j] == sorted[p + j]);
                lemma_lex_le_reflexive(kx);
            }
            lemma_with_key_none(tail, field, key);
            assert(with_key(head, field, key) + Seq::<ValueView>::empty() =~= with_key(
                head,
                field,
                key,
            ));
            assert(with_key(head, field, key).push(x) + Seq::<ValueView>::empty() =~= with_key(
                head,
                field,
                key,
            ).push(x));
        }
    }
}

/// Where something stands under a key, some item has the key.
proof fn lemma_with_key_witness(items: Seq<ValueView>, field: Seq<char>, key: Seq<char>) -> (j: int)
    requires
        with_key(items, field, key).len() > 0,
    ensures
        0 <= j < items.len(),
        sort_key(items[j], field) == key,
    decreases items.len(),
{
    if sort_key(items.last(), field) == key {
        items.len() - 1
    } else {
        lemma_with_key_witness(items.drop_last(), field, key)
    }
}

/// Two sorted sequences in which the same items stand in the same order
/// under every key are the same sequence.
proof fn lemma_same_groups_same_order(a: Seq<ValueView>, b: Seq<ValueView>, field: Seq<char>)
    requires
        a.len() == b.len(),
        sorted_by_key(a, field),
        sorted_by_key(b, field),
        forall|key: Seq<char>| #[trigger] with_key(a, field, key) == with_key(b, field, key),
    ensures
        a == b,
    decreases a.len(),
{
    if a.len() == 0 {
        assert(a =~= b);
    } else {
        let n = a.len() - 1;
        let ka = sort_key(a[n], field);
        let kb = sort_key(b[n], field);
        assert(with_key(a, field, ka) == with_key(b, field, ka));
        assert(with_key(a, field, kb) == with_key(b, field, kb));
        let ja = lemma_with_key_witness(a, field, kb);
        let jb = lemma_with_key_witness(b, field, ka);
        if ja < n {
            assert(lex_le(sort_key(a[ja], field), sort_key(a[n], field)));
        } else {
            lemma_lex_le_reflexive(ka);
        }
        if jb < n {
            assert(lex_le(sort_key(b[jb], field), sort_key(b[n], field)));
        } else {
            lemma_lex_le_reflexive(kb);
        }
        lemma_lex_le_antisymmetric(ka, kb);
        assert(with_key(a, field, ka).last() == a[n]);
        assert(with_key(b, field, ka).last() == b[n]);
        let shorter_a = a.drop_last();
        let shorter_b = b.drop_last();
        assert forall|key: Seq<char>| #[trigger]
            with_key(shorter_a, field, key) == with_key(shorter_b, field, key) by {
            assert(with_key(a, field, key) == with_key(b, field, key));
            if key == ka {
                assert(with_key(a, field, key).drop_last() =~= with_key(shorter_a, field, key));
                assert(with_key(b, field, key).drop_last() =~= with_key(shorter_b, field, key));
            }
        }
        assert forall|i: int, j: int| 0 <= i < j < shorter_a.len() implies lex_le(
            #[trigger] sort_key(shorter_a[i], field),
            #[trigger] sort_key(shorter_a[j], field),
        ) by {
            assert(shorter_a[i] == a[i] && shorter_a[j] == a[j]);
        }
        assert forall|i: int, j: int| 0 <= i < j < shorter_b.len() implies lex_le(
            #[trigger] sort_key(shorter_b[i], field),
            #[trigger] sort_key(shorter_b[j], field),
        ) by {
            assert(shorter_b[i] == b[i] && shorter_b[j] == b[j]);
        }
        lemma_same_groups_same_order(shorter_a, shorter_b, field);
        assert(a =~= shorter_a.push(a[n]));
        assert(b =~= shorter_b.push(b[n]));
    }
}

/// A sequence has one stable sort only.
pub proof fn lemma_stable_sort_is_unique(
    first: Seq<ValueView>,
    second: Seq<ValueView>,
    items: Seq<ValueView>,
    field: Seq<char>,
)
    requires
        is_stable_sort(first, items, field),
        is_stable_sort(second, items, field),
    ensures
        first == second,
{
    assert forall|key: Seq<char>| #[trigger]
        with_key(first, field, key) == with_key(second, field, key) by {
        assert(with_key(first, field, key) == with_key(items, field, key));
        assert(with_key(second, field, key) == with_key(items, field, key));
    }
    lemma_same_groups_same_order(first, second, field);
}

/// What `sort_by_key` is to sort and by which field: the first argument, if
/// it is a list, and the second, if it is a text. `None` where fewer than two
/// arguments are given or one of the two is of another kind.
pub open spec fn sort_arguments(arguments: Seq<ValueView>) -> Option<(Seq<ValueView>, Seq<char>)> {
    if arguments.len() < 2 {
        None
    } else {
        match (arguments[0], arguments[1]) {
            (ValueView::List(items), ValueView::Text(field)) => Some((items, field)),
            _ => None,
        }
    }
}

/// Whether every item is an object that has the field.
pub open spec fn all_have_key(items: Seq<ValueView>, field: Seq<char>) -> bool {
    forall|i: int| 0 <= i < items.len() ==> has_sort_key(#[trigger] items[i], field)
}

/// Whether `sort_by_key` can sort what it is given: every item of the list is
/// an object that has the field.
pub open spec fn sortable_spec(arguments: Seq<ValueView>) -> bool {
    match sort_arguments(arguments) {
        None => true,
        Some((items, field)) => all_have_key(items, field),
    }
}

/// Whether `sort_by_key` can sort the arguments.
pub fn sortable(arguments: &Vec<Value>) -> (r: bool)
    ensures
        r == sortable_spec(list_view(arguments@)),
{
    proof {
        lemma_list_view(arguments@);
    }
    if arguments.len() < 2 {
        return true;
    }
    match (&arguments[0], &arguments[1]) {
        (Value::List(items), Value::Text(field)) => {
            proof {
                lemma_list_view(items@);
            }
            let mut i: usize = 0;
            assert(sort_arguments(list_view(arguments@)) == Some((list_view(items@), field@)));
            while i < items.len()
                invariant
                    i <= items.len(),
                    sort_arguments(list_view(arguments@)) == Some((list_view(items@), field@)),
                    forall|j: int|
                        0 <= j < items@.len() ==> #[trigger] list_view(items@)[j] == value_view(
                            items@[j],
                        ),
                    list_view(items@).len() == items@.len(),
                    forall|j: int|
                        0 <= j < i ==> has_sort_key(#[trigger] list_view(items@)[j], field@),
                decreases items.len() - i,
            {
                let found = match &items[i] {
                    Value::Object(fields) => fields.contains_key(field.as_str()),
                    _ => false,
                };
                if !found {
                    assert(!has_sort_key(list_view(items@)[i as int], field@));
                    assert(!all_have_key(list_view(items@), field@));
                    return false;
                }
                i = i + 1;
            }
            true
        },
        _ => true,
    }
}

/// The sort key of an item, as characters.
fn item_key(item: &Value, field: &str) -> (key: Vec<char>)
    requires
        has_sort_key(item@, field@),
    ensures
        key@ == sort_key(item@, field@),
{
    match item {
        Value::Object(fields) => {
            match fields.get(field) {
                Some(value) => {
                    let text = value.to_text();
                    to_chars(text.as_str())
                },
                None => Vec::new(),
            }
        },
        _ => Vec::new(),
    }
}

/// Sorts a list of objects by what one of their fields is shown as.
///
/// The first argument is the list, the second the name of the field. The
/// result is the list in the lexicographic order of those texts, items with
/// the same text in the order they came in. Without two arguments of these
/// kinds the result is nil.
pub fn sort_by_key(arguments: Vec<Value>, _state: &State) -> (r: Value)
    requires
        sortable_spec(list_view(arguments@)),
    ensures
        match sort_arguments(list_view(arguments@)) {
            None => r@ == ValueView::Nil,
            Some((items, field)) => match r@ {
                ValueView::List(sorted) => {
                    &&& is_stable_sort(sorted, items, field)
                    &&& exists|order: Seq<usize>|
                        is_stable_order(order, sort_keys(items, field)) && sorted == in_order(
                            items,
                            order,
                        )
                },
                _ => false,
            },
        },
{
    proof {
        lemma_list_view(arguments@);
    }
    if arguments.len() < 2 {
        return Value::Nil;
    }
    let ghost given = list_view(arguments@);
    let mut rest = arguments;
    let second = rest.remove(1);
    let first = rest.remove(0);
    assert(given[0] == first@ && given[1] == second@);
    let mut items = match first {
        Value::List(items) => items,
        _ => {
            return Value::Nil;
        },
    };
    let field = match second {
        Value::Text(field) => field,
        _ => {
            return Value::Nil;
        },
    };
    let ghost unsorted = list_view(items@);
    assert(sort_arguments(given) == Some((unsorted, field@)));
    assert(all_have_key(unsorted, field@));
    proof {
        lemma_list_view(items@);
    }
    let mut sorted: Vec<Value> = Vec::new();
    let mut keys: Vec<Vec<char>> = Vec::new();
    let ghost mut i: int = 0;
    let ghost mut places: Seq<usize> = Seq::empty();
    let ghost texts = sort_keys(unsorted, field@);
    let ghost total = items@.len();
    assert(unsorted.skip(0) =~= unsorted);
    assert(unsorted.take(0) =~= Seq::empty());
    assert(list_view(sorted@) =~= Seq::empty());
    while items.len() > 0
        invariant
            i + items@.len() == unsorted.len(),
            0 <= i,
            unsorted.len() == total,
            texts == sort_keys(unsorted, field@),
            orders_first(places, texts, i),
            forall|j: int|
                0 <= j < i ==> #[trigger] list_view(sorted@)[j] == unsorted[places[j] as int],
            list_view(items@) == unsorted.skip(i),
            all_have_key(unsorted, field@),
            keys@.len() == i,
            sorted@.len() == i,
            forall|j: int|
                0 <= j < i ==> (#[trigger] keys@[j])@ == sort_key(list_view(sorted@)[j], field@),
            is_stable_sort(list_view(sorted@), unsorted.take(i), field@),
        decreases items@.len(),
    {
        let ghost rest = items@;
        let ghost before = sorted@;
        proof {
            lemma_list_view(rest);
            lemma_list_view(before);
        }
        let item = items.remove(0);
        proof {
            lemma_list_view(items@);
            assert(item@ == unsorted[i]) by {
                assert(unsorted.skip(i)[0] == unsorted[i]);
            }
            assert(list_view(items@) =~= unsorted.skip(i + 1)) by {
                assert forall|j: int| 0 <= j < items@.len() implies list_view(items@)[j]
                    == unsorted.skip(i + 1)[j] by {
                    assert(items@[j] == rest[j + 1]);
                    assert(unsorted.skip(i)[j + 1] == unsorted[i + j + 1]);
                }
            }
        }
        let key = item_key(&item, field.as_str());
        let mut p: usize = 0;
        while p < keys.len() && text_le(&keys[p], &key)
            invariant
                p <= keys@.len(),
                forall|j: int| 0 <= j < p ==> lex_le((#[trigger] keys@[j])@, key@),
            decreases keys@.len() - p,
        {
            p = p + 1;
        }
        let ghost old_keys = keys@;
        proof {
            assert forall|j: int| 0 <= j < p implies lex_le(
                sort_key(list_view(before)[j], field@),
                sort_key(item@, field@),
            ) by {
                assert(lex_le(keys@[j]@, key@));
            }
            if p < keys@.len() {
                assert(keys@[p as int]@ == sort_key(list_view(before)[p as int], field@));
            }
            lemma_insert_keeps_stable_sort(
                list_view(before),
                unsorted.take(i),
                item@,
                p as int,
                field@,
            );
            assert(unsorted.take(i).push(item@) =~= unsorted.take(i + 1));
            assert forall|a: int| 0 <= a < p implies lex_le(
                texts[#[trigger] places[a] as int],
                texts[i],
            ) by {
                assert(list_view(before)[a] == unsorted[places[a] as int]);
            }
            if p < places.len() {
                assert(list_view(before)[p as int] == unsorted[places[p as int] as int]);
            }
            lemma_insert_keeps_order(places, texts, i as usize, p as int);
        }
        let ghost old_places = places;
        sorted.insert(p, item);
        keys.insert(p, key);
        proof {
            places = old_places.insert(p as int, i as usize);
            lemma_list_view(sorted@);
            assert(list_view(sorted@) =~= list_view(before).insert(p as int, item@));
            assert forall|j: int| 0 <= j < i + 1 implies #[trigger] list_view(sorted@)[j]
                == unsorted[places[j] as int] by {
                if j < p {
                    assert(list_view(before)[j] == unsorted[old_places[j] as int]);
                } else if j > p {
                    assert(list_view(before)[j - 1] == unsorted[old_places[j - 1] as int]);
                }
            }
            assert forall|j: int| 0 <= j < i + 1 implies (#[trigger] keys@[j])@ == sort_key(
                list_view(sorted@)[j],
                field@,
            ) by {
                if j < p {
                    assert(keys@[j] == old_keys[j]);
                } else if j > p {
                    assert(keys@[j] == old_keys[j - 1]);
                }
            }
            i = i + 1;
        }
    }
    assert(unsorted.take(unsorted.len() as int) =~= unsorted);
    proof {
        lemma_list_view(sorted@);
        assert(list_view(sorted@) =~= in_order(unsorted, places));
        assert(is_stable_order(places, sort_keys(unsorted, field@)));
    }
    Value::List(sorted)
}

/// Whether `order` lists the first `n` indices of `keys`, each of them and
/// each once, in the order of their keys, indices of equal keys in rising
/// order.
pub open spec fn orders_first(order: Seq<usize>, keys: Seq<Seq<char>>, n: int) -> bool {
    &&& order.len() == n
    &&& n <= keys.len()
    &&& forall|a: int| 0 <= a < order.len() ==> #[trigger] order[a] < n
    &&& forall|a: int, b: int|
        0 <= a < b < order.len() ==> {
            &&& lex_le(keys[#[trigger] order[a] as int], keys[#[trigger] order[b] as int])
            &&& keys[order[a] as int] == keys[order[b] as int] ==> order[a] < order[b]
            &&& order[a] != order[b]
        }
    &&& forall|x: int| 0 <= x < n ==> has_index(order, x)
}

/// Whether the index `x` is listed.
pub open spec fn has_index(order: Seq<usize>, x: int) -> bool {
    exists|a: int| 0 <= a < order.len() && #[trigger] order[a] == x
}

/// Whether `order` is the stable order of `keys`: it lists every index once,
/// the keys never go down along it, and indices of equal keys keep their
/// order.
pub open spec fn is_stable_order(order: Seq<usize>, keys: Seq<Seq<char>>) -> bool {
    orders_first(order, keys, keys.len() as int)
}

/// Putting the next index behind every index whose key is at most its own
/// keeps the order.
proof fn lemma_insert_keeps_order(order: Seq<usize>, keys: Seq<Seq<char>>, i: usize, p: int)
    requires
        orders_first(order, keys, i as int),
        i < keys.len(),
        0 <= p <= order.len(),
        forall|a: int| 0 <= a < p ==> lex_le(keys[#[trigger] order[a] as int], keys[i as int]),
        p < order.len() ==> !lex_le(keys[order[p] as int], keys[i as int]),
    ensures
        orders_first(order.insert(p, i), keys, i + 1),
{
    let ki = keys[i as int];
    let after = order.insert(p, i);
    assert forall|a: int| p <= a < order.len() implies !lex_le(keys[order[a] as int], ki) && lex_le(
        ki,
        keys[order[a] as int],
    ) by {
        if lex_le(keys[order[a] as int], ki) {
            if p < a {
                assert(lex_le(keys[order[p] as int], keys[order[a] as int]));
                lemma_lex_le_transitive(keys[order[p] as int], keys[order[a] as int], ki);
            }
        }
        lemma_lex_le_total(keys[order[a] as int], ki);
    }
    lemma_lex_le_reflexive(ki);
    assert forall|a: int| 0 <= a < after.len() implies #[trigger] after[a] < i + 1 by {
        if a < p {
            assert(after[a] == order[a]);
        } else if a > p {
            assert(after[a] == order[a - 1]);
        }
    }
    assert forall|x: int| 0 <= x < i + 1 implies has_index(after, x) by {
        if x == i {
            assert(after[p] == x);
        } else {
            assert(has_index(order, x));
            let a = choose|a: int| 0 <= a < order.len() && #[trigger] order[a] == x;
            if a < p {
                assert(after[a] == x);
            } else {
                assert(after[a + 1] == x);
            }
        }
    }
    assert forall|a: int, b: int| 0 <= a < b < after.len() implies {
        &&& lex_le(keys[#[trigger] after[a] as int], keys[#[trigger] after[b] as int])
        &&& keys[after[a] as int] == keys[after[b] as int] ==> after[a] < after[b]
        &&& after[a] != after[b]
    } by {
        if b < p {
            assert(after[a] == order[a] && after[b] == order[b]);
        } else if b == p {
            assert(after[a] == order[a]);
            assert(order[a] < i);
        } else if a < p {
            assert(after[a] == order[a] && after[b] == order[b - 1]);
        } else if a == p {
            assert(after[b] == order[b - 1]);
            assert(order[b - 1] < i);
        } else {
            assert(after[a] == order[a - 1] && after[b] == order[b - 1]);
        }
    }
}

/// Two orders of the same keys agree at every place.
proof fn lemma_orders_agree(
    first: Seq<usize>,
    second: Seq<usize>,
    keys: Seq<Seq<char>>,
    n: int,
    a: int,
)
    requires
        orders_first(first, keys, n),
        orders_first(second, keys, n),
        0 <= a < n,
    ensures
        first[a] == second[a],
    decreases a,
{
    let x = first[a];
    let y = second[a];
    assert(has_index(second, x as int));
    assert(has_index(first, y as int));
    let b = choose|b: int| 0 <= b < second.len() && #[trigger] second[b] == x;
    let c = choose|c: int| 0 <= c < first.len() && #[trigger] first[c] == y;
    if b < a {
        lemma_orders_agree(first, second, keys, n, b);
        assert(first[b] != first[a]);
    } else if c < a {
        lemma_orders_agree(first, second, keys, n, c);
        assert(second[c] != second[a]);
    } else if b > a && c > a {
        assert(lex_le(keys[second[a] as int], keys[second[b] as int]));
        assert(lex_le(keys[first[a] as int], keys[first[c] as int]));
        lemma_lex_le_antisymmetric(keys[x as int], keys[y as int]);
        assert(second[a] < second[b]);
        assert(first[a] < first[c]);
    }
}

/// Texts have one stable order only.
pub proof fn lemma_stable_order_is_unique(
    first: Seq<usize>,
    second: Seq<usize>,
    keys: Seq<Seq<char>>,
)
    requires
        is_stable_order(first, keys),
        is_stable_order(second, keys),
    ensures
        first == second,
{
    assert forall|a: int| 0 <= a < first.len() implies first[a] == second[a] by {
        lemma_orders_agree(first, second, keys, keys.len() as int, a);
    }
    assert(first =~= second);
}

/// The stable order of texts: the indices of `keys` in the lexicographic
/// order of the keys, indices of equal keys in rising order.
pub fn stable_order(keys: &Vec<String>) -> (order: Vec<usize>)
    ensures
        is_stable_order(order@, strings_view(keys@)),
{
    let ghost texts = strings_view(keys@);
    let mut chars: Vec<Vec<char>> = Vec::new();
    let mut k: usize = 0;
    while k < keys.len()
        invariant
            k <= keys.len(),
            chars@.len() == k,
            forall|j: int| 0 <= j < k ==> (#[trigger] chars@[j])@ == keys@[j]@,
        decreases keys.len() - k,
    {
        chars.push(to_chars(keys[k].as_str()));
        k = k + 1;
    }
    let mut order: Vec<usize> = Vec::new();
    let mut i: usize = 0;
    while i < keys.len()
        invariant
            i <= keys.len(),
            texts == strings_view(keys@),
            chars@.len() == keys@.len(),
            forall|j: int| 0 <= j < chars@.len() ==> (#[trigger] chars@[j])@ == texts[j],
            orders_first(order@, texts, i as int),
        decreases keys.len() - i,
    {
        let mut p: usize = 0;
        while p < order.len() && text_le(&chars[order[p]], &chars[i])
            invariant
                p <= order@.len(),
                i < chars@.len(),
                chars@.len() == texts.len(),
                forall|j: int| 0 <= j < chars@.len() ==> (#[trigger] chars@[j])@ == texts[j],
                orders_first(order@, texts, i as int),
                forall|a: int|
                    0 <= a < p ==> lex_le(texts[#[trigger] order@[a] as int], texts[i as int]),
            decreases order@.len() - p,
        {
            p = p + 1;
        }
        proof {
            lemma_insert_keeps_order(order@, texts, i, p as int);
        }
        order.insert(p, i);
        i = i + 1;
    }
    order
}

/// The indices of a list of the given length from the last to the first.
pub fn reverse_order(len: usize) -> (order: Vec<usize>)
    ensures
        order@.len() == len,
        forall|j: int| 0 <= j < len ==> #[trigger] order@[j] == len - 1 - j,
{
    let mut order: Vec<usize> = Vec::new();
    let mut i: usize = len;
    while i > 0
        invariant
            i <= len,
            order@.len() == len - i,
            forall|j: int| 0 <= j < order@.len() ==> #[trigger] order@[j] == len - 1 - j,
        decreases i,
    {
        i = i - 1;
        order.push(i);
    }
    order
}

/// The items taken in the order of the given indices.
pub open spec fn in_order(items: Seq<ValueView>, order: Seq<usize>) -> Seq<ValueView> {
    Seq::new(order.len(), |j: int| items[order[j] as int])
}

/// The texts that the items are sorted by, item by item.
pub open spec fn sort_keys(items: Seq<ValueView>, field: Seq<char>) -> Seq<Seq<char>> {
    items.map_values(|item: ValueView| sort_key(item, field))
}

/// The order in which `sort_by_key` hands back the items of its list: the
/// stable order of the texts that the items are sorted by. `None` where
/// `sort_by_key` gives nil.
pub fn sort_order(arguments: &Vec<Value>) -> (r: Option<Vec<usize>>)
    requires
        sortable_spec(list_view(arguments@)),
    ensures
        match sort_arguments(list_view(arguments@)) {
            None => r is None,
            Some((items, field)) => match r {
                Some(order) => is_stable_order(order@, sort_keys(items, field)),
                None => false,
            },
        },
{
    proof {
        lemma_list_view(arguments@);
    }
    if arguments.len() < 2 {
        return None;
    }
    match (&arguments[0], &arguments[1]) {
        (Value::List(items), Value::Text(field)) => {
            proof {
                lemma_list_view(items@);
            }
            let ghost listed = list_view(items@);
            assert(sort_arguments(list_view(arguments@)) == Some((listed, field@)));
            assert(all_have_key(listed, field@));
            let mut keys: Vec<String> = Vec::new();
            let mut i: usize = 0;
            while i < items.len()
                invariant
                    i <= items.len(),
                    listed == list_view(items@),
                    listed.len() == items@.len(),
                    all_have_key(listed, field@),
                    forall|j: int|
                        0 <= j < items@.len() ==> #[trigger] listed[j] == value_view(items@[j]),
                    keys@.len() == i,
                    forall|j: int|
                        0 <= j < i ==> (#[trigger] keys@[j])@ == sort_key(listed[j], field@),
                decreases items.len() - i,
            {
                assert(has_sort_key(listed[i as int], field@));
                let text = match &items[i] {
                    Value::Object(fields) => match fields.get(field.as_str()) {
                        Some(value) => value.to_text(),
                        None => String::new(),
                    },
                    _ => String::new(),
                };
                keys.push(text);
                i = i + 1;
            }
            assert(strings_view(keys@) =~= sort_keys(listed, field@));
            Some(stable_order(&keys))
        },
        _ => None,
    }
}

/// The order in which `reverse` hands back the items of its list: from the
/// last to the first. `None` where `reverse` gives nil.
pub fn reversed_order(arguments: &Vec<Value>) -> (r: Option<Vec<usize>>)
    ensures
        match reverse_arguments(list_view(arguments@)) {
            None => r is None,
            Some(items) => match r {
                Some(order) => {
                    &&& order@.len() == items.len()
                    &&& forall|j: int|
                        0 <= j < items.len() ==> #[trigger] order@[j] == items.len() - 1 - j
                },
                None => false,
            },
        },
{
    proof {
        lemma_list_view(arguments@);
    }
    if arguments.len() < 1 {
        return None;
    }
    match &arguments[0] {
        Value::List(items) => {
            proof {
                lemma_list_view(items@);
            }
            Some(reverse_order(items.len()))
        },
        _ => None,
    }
}

/// What `reverse` is to reverse: the first argument, if it is a list.
pub open spec fn reverse_arguments(arguments: Seq<ValueView>) -> Option<Seq<ValueView>> {
    if arguments.len() < 1 {
        None
    } else {
        match arguments[0] {
            ValueView::List(items) => Some(items),
            _ => None,
        }
    }
}

/// Reverses a list: the first argument back to front. Without a list as the
/// first argument the result is nil.
pub fn reverse(arguments: Vec<Value>, _state: &State) -> (r: Value)
    ensures
        r@ == match reverse_arguments(list_view(arguments@)) {
            None => ValueView::Nil,
            Some(items) => ValueView::List(items.reverse()),
        },
{
    proof {
        lemma_list_view(arguments@);
    }
    if arguments.len() < 1 {
        return Value::Nil;
    }
    let mut arguments = arguments;
    let first = arguments.remove(0);
    let mut items = match first {
        Value::List(items) => items,
        _ => {
            return Value::Nil;
        },
    };
    let ghost forward = items@;
    let mut reversed: Vec<Value> = Vec::new();
    while items.len() > 0
        invariant
            items@.len() + reversed@.len() == forward.len(),
            items@ == forward.take(items@.len() as int),
            forall|j: int|
                0 <= j < reversed@.len() ==> #[trigger] reversed@[j] == forward[forward.len() - 1
                    - j],
        decreases items@.len(),
    {
        let ghost n = items@.len() as int;
        match items.pop() {
            Some(item) => {
                assert(item == forward[n - 1]);
                assert(items@ =~= forward.take(n - 1));
                reversed.push(item);
            },
            None => {},
        }
    }
    proof {
        lemma_list_view(forward);
        lemma_list_view(reversed@);
        assert(list_view(reversed@) =~= list_view(forward).reverse());
    }
    Value::List(reversed)
}

/// The path of the template that `render` is to evaluate: the first
/// argument, if it is a text.
pub open spec fn render_arguments(arguments: Seq<ValueView>) -> Option<Seq<char>> {
    if arguments.len() < 1 {
        None
    } else {
        match arguments[0] {
            ValueView::Text(page) => Some(page),
            _ => None,
        }
    }
}

/// The path of the template that `render` is to evaluate, if the arguments
/// name one. Where they name none, `render` gives nil.
pub fn render_target(arguments: &Vec<Value>) -> (r: Option<String>)
    ensures
        match r {
            Some(page) => render_arguments(list_view(arguments@)) == Some(page@),
            None => render_arguments(list_view(arguments@)) is None,
        },
{
    proof {
        lemma_list_view(arguments@);
    }
    if arguments.len() < 1 {
        return None;
    }
    match &arguments[0] {
        Value::Text(page) => Some(page.clone()),
        _ => None,
    }
}

/// What `render` gives once the template was read and evaluated, or was not:
/// the output as a text, and the error's message as a text where reading or
/// evaluating failed.
pub fn render_result(evaluated: Result<String, String>) -> (r: Value)
    ensures
        r@ == match evaluated {
            Ok(output) => ValueView::Text(output@),
            Err(message) => ValueView::Text(message@),
        },
{
    match evaluated {
        Ok(output) => Value::Text(output),
        Err(message) => Value::Text(message),
    }
}

} // verus!

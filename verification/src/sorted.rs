//! Maps and sets keyed by text, kept in ascending key order.
use vstd::prelude::*;
use crate::text;
use crate::text::{order_text, TextOrder};

verus! {

/// Entries in strictly ascending key order, so that no key occurs twice.
pub open spec fn keys_sorted<V>(entries: Seq<(Seq<char>, V)>) -> bool {
    forall|i: int, j: int| 0 <= i < j < entries.len() ==> text::text_lt(entries[i].0, entries[j].0)
}

/// `entries` with `key` bound to `value`, in key order.
pub open spec fn put<V>(entries: Seq<(Seq<char>, V)>, key: Seq<char>, value: V) -> Seq<(Seq<char>, V)>
    decreases entries.len(),
{
    if entries.len() == 0 {
        seq![(key, value)]
    } else if key == entries[0].0 {
        seq![(key, value)] + entries.drop_first()
    } else if text::text_lt(key, entries[0].0) {
        seq![(key, value)] + entries
    } else {
        seq![entries[0]] + put(entries.drop_first(), key, value)
    }
}

/// The value bound to `key`.
pub open spec fn lookup<V>(entries: Seq<(Seq<char>, V)>, key: Seq<char>) -> Option<V>
    decreases entries.len(),
{
    if entries.len() == 0 {
        None
    } else if entries[0].0 == key {
        Some(entries[0].1)
    } else {
        lookup(entries.drop_first(), key)
    }
}

/// `put` at a known position: every earlier key is smaller and the key there is not.
pub proof fn lemma_put_at<V>(entries: Seq<(Seq<char>, V)>, key: Seq<char>, value: V, at: int)
    requires
        keys_sorted(entries),
        0 <= at <= entries.len(),
        forall|i: int| 0 <= i < at ==> text::text_lt(#[trigger] entries[i].0, key),
        at < entries.len() ==> !text::text_lt(entries[at].0, key),
    ensures
        put(entries, key, value) == if at < entries.len() && entries[at].0 == key {
            entries.update(at, (key, value))
        } else {
            entries.insert(at, (key, value))
        },
    decreases at,
{
    if at == 0 {
        if entries.len() > 0 {
            text::lemma_text_lt_total(entries[0].0, key);
            if entries[0].0 == key {
                assert(seq![(key, value)] + entries.drop_first() =~= entries.update(0, (key, value)));
            } else {
                assert(seq![(key, value)] + entries =~= entries.insert(0, (key, value)));
            }
        } else {
            assert(put(entries, key, value) =~= entries.insert(0, (key, value)));
        }
    } else {
        let rest = entries.drop_first();
        assert(text::text_lt(entries[0].0, key));
        text::lemma_text_lt_total(entries[0].0, key);
        text::lemma_text_lt_irreflexive(key);
        lemma_put_at(rest, key, value, at - 1);
        if at < entries.len() && entries[at].0 == key {
            assert(seq![entries[0]] + rest.update(at - 1, (key, value)) =~= entries.update(
                at,
                (key, value),
            ));
        } else {
            assert(seq![entries[0]] + rest.insert(at - 1, (key, value)) =~= entries.insert(
                at,
                (key, value),
            ));
        }
    }
}

/// Binding a key above every other appends it.
pub proof fn lemma_put_last<V>(entries: Seq<(Seq<char>, V)>, key: Seq<char>, value: V)
    requires
        keys_sorted(entries),
        forall|i: int| 0 <= i < entries.len() ==> text::text_lt(#[trigger] entries[i].0, key),
    ensures
        put(entries, key, value) == entries.push((key, value)),
{
    lemma_put_at(entries, key, value, entries.len() as int);
    assert(entries.insert(entries.len() as int, (key, value)) =~= entries.push((key, value)));
}

proof fn lemma_put_first_key<V>(entries: Seq<(Seq<char>, V)>, key: Seq<char>, value: V, below: Seq<char>)
    requires
        text::text_lt(below, key),
        forall|i: int| 0 <= i < entries.len() ==> text::text_lt(below, #[trigger] entries[i].0),
    ensures
        forall|i: int|
            0 <= i < put(entries, key, value).len() ==> text::text_lt(
                below,
                #[trigger] put(entries, key, value)[i].0,
            ),
    decreases entries.len(),
{
    let result = put(entries, key, value);
    if entries.len() > 0 {
        let rest = entries.drop_first();
        if key != entries[0].0 && !text::text_lt(key, entries[0].0) {
            lemma_put_first_key(rest, key, value, below);
        }
        assert forall|i: int| 0 <= i < result.len() implies text::text_lt(
            below,
            #[trigger] result[i].0,
        ) by {
            if key == entries[0].0 {
                assert(i == 0 || result[i] == entries[i]);
            } else if text::text_lt(key, entries[0].0) {
                assert(i == 0 || result[i] == entries[i - 1]);
            } else {
                assert(i == 0 || result[i] == put(rest, key, value)[i - 1]);
            }
        }
    }
}

/// Binding a key keeps the key order.
pub proof fn lemma_put_sorted<V>(entries: Seq<(Seq<char>, V)>, key: Seq<char>, value: V)
    requires
        keys_sorted(entries),
    ensures
        keys_sorted(put(entries, key, value)),
    decreases entries.len(),
{
    let result = put(entries, key, value);
    if entries.len() > 0 {
        let head = entries[0];
        let rest = entries.drop_first();
        text::lemma_text_lt_total(key, head.0);
        if key == head.0 {
            assert forall|i: int, j: int| 0 <= i < j < result.len() implies text::text_lt(
                result[i].0,
                result[j].0,
            ) by {
                assert(result[i].0 == entries[i].0);
                assert(result[j].0 == entries[j].0);
            }
        } else if text::text_lt(key, head.0) {
            assert forall|i: int, j: int| 0 <= i < j < result.len() implies text::text_lt(
                result[i].0,
                result[j].0,
            ) by {
                assert(result[j].0 == entries[j - 1].0);
                if i == 0 {
                    if j - 1 > 0 {
                        text::lemma_text_lt_transitive(key, head.0, entries[j - 1].0);
                    }
                } else {
                    assert(result[i].0 == entries[i - 1].0);
                }
            }
        } else {
            lemma_put_sorted(rest, key, value);
            lemma_put_first_key(rest, key, value, head.0);
            assert forall|i: int, j: int| 0 <= i < j < result.len() implies text::text_lt(
                result[i].0,
                result[j].0,
            ) by {
                assert(result[j] == put(rest, key, value)[j - 1]);
                if i > 0 {
                    assert(result[i] == put(rest, key, value)[i - 1]);
                }
            }
        }
    }
}

/// After `put`, the key holds the new value and every other key what it held before.
pub proof fn lemma_lookup_put<V>(
    entries: Seq<(Seq<char>, V)>,
    key: Seq<char>,
    value: V,
    other: Seq<char>,
)
    ensures
        lookup(put(entries, key, value), other) == if other == key {
            Some(value)
        } else {
            lookup(entries, other)
        },
    decreases entries.len(),
{
    let result = put(entries, key, value);
    if entries.len() == 0 {
        assert(result.drop_first() =~= entries);
    } else if key == entries[0].0 {
        assert(result.drop_first() =~= entries.drop_first());
    } else if text::text_lt(key, entries[0].0) {
        assert(result.drop_first() =~= entries);
    } else {
        lemma_lookup_put(entries.drop_first(), key, value, other);
        assert(result.drop_first() =~= put(entries.drop_first(), key, value));
    }
}

/// `lookup` finds an entry exactly where the key occurs.
pub proof fn lemma_lookup_at<V>(entries: Seq<(Seq<char>, V)>, at: int)
    requires
        keys_sorted(entries),
        0 <= at < entries.len(),
    ensures
        lookup(entries, entries[at].0) == Some(entries[at].1),
    decreases at,
{
    if at > 0 {
        text::lemma_text_lt_irreflexive(entries[at].0);
        assert(text::text_lt(entries[0].0, entries[at].0));
        lemma_lookup_at(entries.drop_first(), at - 1);
    }
}

/// `lookup` fails exactly where the key does not occur.
pub proof fn lemma_lookup_absent<V>(entries: Seq<(Seq<char>, V)>, key: Seq<char>)
    ensures
        lookup(entries, key) is None <==> forall|i: int|
            0 <= i < entries.len() ==> #[trigger] entries[i].0 != key,
    decreases entries.len(),
{
    if entries.len() > 0 {
        lemma_lookup_absent(entries.drop_first(), key);
        if entries[0].0 != key {
            if lookup(entries, key) is None {
                assert forall|i: int| 0 <= i < entries.len() implies #[trigger] entries[i].0 != key by {
                    if i > 0 {
                        assert(entries.drop_first()[i - 1].0 != key);
                    }
                }
            } else {
                let rest = entries.drop_first();
                let i = choose|i: int| 0 <= i < rest.len() && #[trigger] rest[i].0 == key;
                assert(entries[i + 1].0 == key);
            }
        }
    }
}

/// A map from text to values, iterated in ascending key order.
#[derive(Debug)]
pub struct TextMap<V> {
    entries: Vec<(String, V)>,
}

impl<V> TextMap<V> {
    #[verifier::type_invariant]
    spec fn ascending(self) -> bool {
        forall|i: int, j: int|
            0 <= i < j < self.entries@.len() ==> text::text_lt(
                #[trigger] self.entries@[i].0@,
                #[trigger] self.entries@[j].0@,
            )
    }
}

impl<V: DeepView> View for TextMap<V> {
    type V = Seq<(Seq<char>, V::V)>;

    closed spec fn view(&self) -> Seq<(Seq<char>, V::V)> {
        self.entries@.map_values(|entry: (String, V)| (entry.0@, entry.1.deep_view()))
    }
}

impl<V: DeepView> DeepView for TextMap<V> {
    type V = Seq<(Seq<char>, V::V)>;

    open spec fn deep_view(&self) -> Seq<(Seq<char>, V::V)> {
        self@
    }
}

impl<V: DeepView> TextMap<V> {
    proof fn lemma_ascending(self)
        requires
            self.ascending(),
        ensures
            keys_sorted(self@),
    {
        assert forall|i: int, j: int| 0 <= i < j < self@.len() implies text::text_lt(
            self@[i].0,
            self@[j].0,
        ) by {
            assert(self@[i].0 == self.entries@[i].0@);
            assert(self@[j].0 == self.entries@[j].0@);
        }
    }

    pub fn new() -> (map: Self)
        ensures
            map@ == Seq::<(Seq<char>, V::V)>::empty(),
    {
        let map = TextMap { entries: Vec::new() };
        assert(map@ =~= Seq::empty());
        map
    }

    pub fn len(&self) -> (len: usize)
        ensures
            len == self@.len(),
            keys_sorted(self@),
    {
        proof {
            use_type_invariant(self);
            self.lemma_ascending();
        }
        self.entries.len()
    }

    /// The key at position `at` in key order.
    pub fn key_at(&self, at: usize) -> (key: &String)
        requires
            at < self@.len(),
        ensures
            key@ == self@[at as int].0,
    {
        &self.entries[at].0
    }

    /// The value at position `at` in key order.
    pub fn value_at(&self, at: usize) -> (value: &V)
        requires
            at < self@.len(),
        ensures
            value.deep_view() == self@[at as int].1,
    {
        &self.entries[at].1
    }

    /// The first position whose key is not below `key`, and whether `key` stands there.
    fn position(&self, key: &str) -> (found: (usize, bool))
        requires
            keys_sorted(self@),
        ensures
            found.0 <= self@.len(),
            forall|i: int| 0 <= i < found.0 ==> text::text_lt(#[trigger] self@[i].0, key@),
            found.0 < self@.len() ==> !text::text_lt(self@[found.0 as int].0, key@),
            found.1 == (found.0 < self@.len() && self@[found.0 as int].0 == key@),
    {
        let mut at: usize = 0;
        while at < self.entries.len()
            invariant
                at <= self.entries.len(),
                self@.len() == self.entries.len(),
                forall|i: int| 0 <= i < at ==> text::text_lt(#[trigger] self@[i].0, key@),
            decreases self.entries.len() - at,
        {
            assert(self@[at as int].0 == self.entries@[at as int].0@);
            match order_text(&self.entries[at].0, key) {
                TextOrder::Before => {
                    at = at + 1;
                },
                TextOrder::Same => {
                    proof {
                        text::lemma_text_lt_irreflexive(key@);
                    }
                    return (at, true);
                },
                TextOrder::After => {
                    return (at, false);
                },
            }
        }
        (at, false)
    }

    /// Binds `key` to `value`, replacing an earlier binding.
    pub fn insert(&mut self, key: String, value: V)
        ensures
            final(self)@ == put(old(self)@, key@, value.deep_view()),
            keys_sorted(final(self)@),
    {
        proof {
            use_type_invariant(&*self);
            self.lemma_ascending();
        }
        let (at, found) = self.position(&key);
        let ghost before = self@;
        let ghost after = put(before, key@, value.deep_view());
        proof {
            lemma_put_at(before, key@, value.deep_view(), at as int);
            lemma_put_sorted(before, key@, value.deep_view());
        }
        let mut entries: Vec<(String, V)> = Vec::new();
        std::mem::swap(&mut entries, &mut self.entries);
        if found {
            entries.set(at, (key, value));
        } else {
            entries.insert(at, (key, value));
        }
        proof {
            let view = entries@.map_values(|entry: (String, V)| (entry.0@, entry.1.deep_view()));
            assert(view =~= after);
            assert forall|i: int, j: int| 0 <= i < j < entries@.len() implies text::text_lt(
                #[trigger] entries@[i].0@,
                #[trigger] entries@[j].0@,
            ) by {
                assert(view[i].0 == entries@[i].0@);
                assert(view[j].0 == entries@[j].0@);
            }
        }
        self.entries = entries;
    }

    /// The value bound to `key`.
    pub fn get(&self, key: &str) -> (value: Option<&V>)
        ensures
            value is Some == lookup(self@, key@) is Some,
            value is Some ==> value->0.deep_view() == lookup(self@, key@)->0,
    {
        proof {
            use_type_invariant(self);
            self.lemma_ascending();
        }
        let (at, found) = self.position(key);
        proof {
            lemma_lookup_absent(self@, key@);
        }
        if found {
            proof {
                lemma_lookup_at(self@, at as int);
            }
            Some(&self.entries[at].1)
        } else {
            proof {
                assert forall|i: int| 0 <= i < self@.len() implies #[trigger] self@[i].0 != key@ by {
                    text::lemma_text_lt_irreflexive(key@);
                    if i >= at {
                        text::lemma_text_lt_total(self@[at as int].0, key@);
                        if i > at {
                            assert(text::text_lt(self@[at as int].0, self@[i].0));
                            text::lemma_text_lt_transitive(key@, self@[at as int].0, self@[i].0);
                        }
                    }
                }
            }
            None
        }
    }
}

impl Clone for TextMap<String> {
    fn clone(&self) -> (copy: Self)
        ensures
            copy@ == self@,
    {
        proof {
            use_type_invariant(self);
        }
        let mut entries: Vec<(String, String)> = Vec::new();
        let mut i: usize = 0;
        while i < self.entries.len()
            invariant
                i <= self.entries.len(),
                entries@.len() == i,
                forall|k: int|
                    0 <= k < i ==> #[trigger] entries@[k].0@ == self.entries@[k].0@ && entries@[k].1@
                        == self.entries@[k].1@,
            decreases self.entries.len() - i,
        {
            entries.push((self.entries[i].0.clone(), self.entries[i].1.clone()));
            i = i + 1;
        }
        assert forall|i: int, j: int| 0 <= i < j < entries@.len() implies text::text_lt(
            #[trigger] entries@[i].0@,
            #[trigger] entries@[j].0@,
        ) by {
            assert(text::text_lt(self.entries@[i].0@, self.entries@[j].0@));
        }
        let copy = TextMap { entries };
        assert(copy@ =~= self@);
        copy
    }
}

/// What a map holds after one more entry was bound, and the entry itself, is all that it holds then.
pub proof fn lemma_put_members<V>(
    entries: Seq<(Seq<char>, V)>,
    key: Seq<char>,
    value: V,
    e: int,
)
    requires
        0 <= e < put(entries, key, value).len(),
    ensures
        entries.contains(put(entries, key, value)[e]) || put(entries, key, value)[e] == (key, value),
    decreases entries.len(),
{
    let after = put(entries, key, value);
    if e > 0 && entries.len() > 0 {
        let rest = entries.drop_first();
        let inner = put(rest, key, value);
        if key == entries[0].0 {
            assert(after[e] == entries[e]);
        } else if text::text_lt(key, entries[0].0) {
            assert(after[e] == entries[e - 1]);
        } else {
            lemma_put_members(rest, key, value, e - 1);
            assert(after[e] == inner[e - 1]);
            if rest.contains(inner[e - 1]) {
                let k = choose|k: int| 0 <= k < rest.len() && rest[k] == inner[e - 1];
                assert(entries[k + 1] == after[e]);
            }
        }
    } else if e == 0 && entries.len() > 0 {
        assert(after[0] == (key, value) || after[0] == entries[0]);
    }
}

} // verus!

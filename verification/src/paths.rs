//! Sets of paths, and counts by path.
use vstd::prelude::*;
use crate::text;
use crate::text::{order_text, TextOrder};

verus! {

/// Whether texts ascend strictly.
pub open spec fn texts_ascend(texts: Seq<Seq<char>>) -> bool {
    forall|i: int, j: int|
        0 <= i < j < texts.len() ==> text::text_lt(#[trigger] texts[i], #[trigger] texts[j])
}

/// Where a text stands among ascending texts, or would stand.
pub open spec fn is_place(texts: Seq<Seq<char>>, value: Seq<char>, at: int) -> bool {
    &&& 0 <= at <= texts.len()
    &&& forall|i: int| 0 <= i < at ==> text::text_lt(#[trigger] texts[i], value)
    &&& forall|i: int| at <= i < texts.len() ==> !text::text_lt(#[trigger] texts[i], value)
}

/// Where `path` stands among ascending paths, or would stand.
fn find_place(paths: &Vec<String>, path: &str) -> (at: usize)
    requires
        texts_ascend(paths.deep_view()),
    ensures
        is_place(paths.deep_view(), path@, at as int),
        paths.deep_view().contains(path@) <==> at < paths@.len() && paths.deep_view()[at as int]
            == path@,
{
    let ghost all = paths.deep_view();
    let mut at: usize = 0;
    while at < paths.len()
        invariant
            at <= paths.len(),
            all == paths.deep_view(),
            texts_ascend(all),
            forall|i: int| 0 <= i < at ==> text::text_lt(#[trigger] all[i], path@),
        ensures
            at <= paths.len(),
            forall|i: int| 0 <= i < at ==> text::text_lt(#[trigger] all[i], path@),
            at < paths.len() ==> !text::text_lt(all[at as int], path@),
        decreases paths.len() - at,
    {
        assert(all[at as int] == paths@[at as int]@);
        match order_text(&paths[at], path) {
            TextOrder::Before => {
                at = at + 1;
            },
            TextOrder::Same => {
                proof {
                    text::lemma_text_lt_irreflexive(path@);
                }
                break;
            },
            TextOrder::After => {
                proof {
                    if text::text_lt(all[at as int], path@) {
                        text::lemma_text_lt_transitive(path@, all[at as int], path@);
                        text::lemma_text_lt_irreflexive(path@);
                    }
                }
                break;
            },
        }
    }
    proof {
        assert forall|i: int| at <= i < all.len() implies !text::text_lt(
            #[trigger] all[i],
            path@,
        ) by {
            if i > at && text::text_lt(all[i], path@) {
                text::lemma_text_lt_transitive(all[at as int], all[i], path@);
            }
        }
        lemma_place_finds(all, path@, at as int);
    }
    at
}

/// A set of paths, walked in ascending order.
#[derive(Debug)]
pub struct PathSet {
    paths: Vec<String>,
}

impl View for PathSet {
    type V = Set<Seq<char>>;

    closed spec fn view(&self) -> Set<Seq<char>> {
        self.paths.deep_view().to_set()
    }
}

impl PathSet {
    #[verifier::type_invariant]
    spec fn well_formed(self) -> bool {
        texts_ascend(self.paths.deep_view())
    }

    /// No paths.
    pub fn new() -> (set: Self)
        ensures
            set@ == Set::<Seq<char>>::empty(),
    {
        let set = PathSet { paths: Vec::new() };
        assert(set.paths.deep_view() =~= Seq::empty());
        assert(set@ =~= Set::empty());
        set
    }

    fn place(&self, path: &str) -> (at: usize)
        ensures
            is_place(self.paths.deep_view(), path@, at as int),
            self@.contains(path@) <==> at < self.paths@.len() && self.paths.deep_view()[at as int]
                == path@,
    {
        proof {
            use_type_invariant(self);
        }
        find_place(&self.paths, path)
    }

    /// Whether `path` is in the set.
    pub fn contains(&self, path: &str) -> (found: bool)
        ensures
            found == self@.contains(path@),
    {
        let at = self.place(path);
        if at < self.paths.len() {
            assert(self.paths.deep_view()[at as int] == self.paths@[at as int]@);
            text::same_text(&self.paths[at], path)
        } else {
            false
        }
    }

    /// Adds `path`.
    pub fn insert(&mut self, path: &str)
        ensures
            final(self)@ == old(self)@.insert(path@),
    {
        proof {
            use_type_invariant(&*self);
        }
        let ghost before = self.paths.deep_view();
        let at = self.place(path);
        if at < self.paths.len() {
            assert(before[at as int] == self.paths@[at as int]@);
            if text::same_text(&self.paths[at], path) {
                assert(self@ =~= old(self)@.insert(path@));
                return;
            }
        }
        let mut paths: Vec<String> = Vec::new();
        std::mem::swap(&mut paths, &mut self.paths);
        paths.insert(at, path.to_owned());
        proof {
            assert(paths.deep_view() =~= before.insert(at as int, path@));
            lemma_insert_place(before, path@, at as int);
        }
        self.paths = paths;
        assert(self@ =~= old(self)@.insert(path@)) by {
            lemma_insert_members(before, path@, at as int);
        }
    }

    /// Takes `path` out.
    pub fn remove(&mut self, path: &str)
        ensures
            final(self)@ == old(self)@.remove(path@),
    {
        proof {
            use_type_invariant(&*self);
        }
        let ghost before = self.paths.deep_view();
        let at = self.place(path);
        if at >= self.paths.len() {
            assert(self@ =~= old(self)@.remove(path@));
            return;
        }
        assert(before[at as int] == self.paths@[at as int]@);
        if !text::same_text(&self.paths[at], path) {
            assert(self@ =~= old(self)@.remove(path@));
            return;
        }
        let mut paths: Vec<String> = Vec::new();
        std::mem::swap(&mut paths, &mut self.paths);
        let _removed = paths.remove(at);
        proof {
            assert(paths.deep_view() =~= before.remove(at as int));
            assert(texts_ascend(before.remove(at as int)));
        }
        self.paths = paths;
        assert(self@ =~= old(self)@.remove(path@)) by {
            lemma_remove_members(before, at as int);
        }
    }

    /// The paths in ascending order.
    pub fn paths(&self) -> (paths: Vec<String>)
        ensures
            texts_ascend(paths.deep_view()),
            paths.deep_view().to_set() == self@,
    {
        proof {
            use_type_invariant(self);
        }
        let ghost all = self.paths.deep_view();
        let mut paths: Vec<String> = Vec::new();
        let mut i: usize = 0;
        while i < self.paths.len()
            invariant
                i <= self.paths.len(),
                all == self.paths.deep_view(),
                paths.deep_view() =~= all.take(i as int),
            decreases self.paths.len() - i,
        {
            let ghost before = paths.deep_view();
            paths.push(self.paths[i].clone());
            assert(paths.deep_view() =~= before.push(all[i as int]));
            i = i + 1;
        }
        assert(paths.deep_view() =~= all);
        paths
    }

    /// Number of paths.
    pub fn len(&self) -> (len: usize)
        ensures
            len == self@.len(),
            self@.finite(),
    {
        proof {
            use_type_invariant(self);
            let all = self.paths.deep_view();
            assert(all.no_duplicates()) by {
                assert forall|i: int, j: int| 0 <= i < j < all.len() implies all[i] != all[j] by {
                    assert(text::text_lt(all[i], all[j]));
                    text::lemma_text_lt_irreflexive(all[i]);
                }
            }
            all.unique_seq_to_set();
            vstd::seq_lib::seq_to_set_is_finite(all);
        }
        self.paths.len()
    }
}

impl Clone for PathSet {
    fn clone(&self) -> (copy: Self)
        ensures
            copy@ == self@,
    {
        PathSet { paths: self.paths() }
    }
}

proof fn lemma_place_finds(texts: Seq<Seq<char>>, value: Seq<char>, at: int)
    requires
        is_place(texts, value, at),
        texts_ascend(texts),
    ensures
        texts.contains(value) <==> at < texts.len() && texts[at] == value,
{
    if texts.contains(value) {
        let i = choose|i: int| 0 <= i < texts.len() && texts[i] == value;
        text::lemma_text_lt_irreflexive(value);
        if i > at {
            assert(text::text_lt(texts[at], texts[i]));
        }
    }
}

proof fn lemma_insert_place(texts: Seq<Seq<char>>, value: Seq<char>, at: int)
    requires
        texts_ascend(texts),
        is_place(texts, value, at),
        at < texts.len() ==> texts[at] != value,
    ensures
        texts_ascend(texts.insert(at, value)),
{
    let after = texts.insert(at, value);
    assert forall|i: int, j: int| 0 <= i < j < after.len() implies text::text_lt(
        #[trigger] after[i],
        #[trigger] after[j],
    ) by {
        if j == at {
            assert(after[i] == texts[i]);
        } else if i == at {
            assert(after[j] == texts[j - 1]);
            assert(!text::text_lt(texts[j - 1], value));
            if texts[j - 1] == value {
                assert(text::text_lt(texts[at], texts[j - 1]));
                assert(!text::text_lt(texts[at], value));
            }
            text::lemma_text_lt_total(value, texts[j - 1]);
        } else {
            let left = if i < at {
                texts[i]
            } else {
                texts[i - 1]
            };
            let right = if j < at {
                texts[j]
            } else {
                texts[j - 1]
            };
            assert(after[i] == left && after[j] == right);
        }
    }
}

proof fn lemma_insert_members(texts: Seq<Seq<char>>, value: Seq<char>, at: int)
    requires
        0 <= at <= texts.len(),
    ensures
        texts.insert(at, value).to_set() == texts.to_set().insert(value),
{
    let after = texts.insert(at, value);
    assert forall|text: Seq<char>| after.contains(text) <==> texts.contains(text) || text == value by {
        if texts.contains(text) {
            let i = choose|i: int| 0 <= i < texts.len() && texts[i] == text;
            if i < at {
                assert(after[i] == text);
            } else {
                assert(after[i + 1] == text);
            }
        }
        if text == value {
            assert(after[at] == text);
        }
        if after.contains(text) && text != value {
            let i = choose|i: int| 0 <= i < after.len() && after[i] == text;
            if i < at {
                assert(texts[i] == text);
            } else {
                assert(texts[i - 1] == text);
            }
        }
    }
    assert(after.to_set() =~= texts.to_set().insert(value));
}

proof fn lemma_remove_members(texts: Seq<Seq<char>>, at: int)
    requires
        0 <= at < texts.len(),
        texts_ascend(texts),
    ensures
        texts.remove(at).to_set() == texts.to_set().remove(texts[at]),
{
    let after = texts.remove(at);
    let value = texts[at];
    assert forall|text: Seq<char>| after.contains(text) <==> texts.contains(text) && text
        != value by {
        if after.contains(text) {
            let i = choose|i: int| 0 <= i < after.len() && after[i] == text;
            let k = if i < at {
                i
            } else {
                i + 1
            };
            assert(texts[k] == text);
            text::lemma_text_lt_irreflexive(value);
            if k < at {
                assert(text::text_lt(texts[k], texts[at]));
            } else {
                assert(text::text_lt(texts[at], texts[k]));
            }
        }
        if texts.contains(text) && text != value {
            let i = choose|i: int| 0 <= i < texts.len() && texts[i] == text;
            if i < at {
                assert(after[i] == text);
            } else {
                assert(after[i - 1] == text);
            }
        }
    }
    assert(after.to_set() =~= texts.to_set().remove(value));
}

/// How often each path is held. A path that is not held has no count.
#[derive(Debug)]
pub struct PathCounts {
    paths: Vec<String>,
    counts: Vec<u64>,
}

spec fn counted(paths: Seq<Seq<char>>, counts: Seq<u64>) -> Map<Seq<char>, u64> {
    Map::new(|path: Seq<char>| paths.contains(path), |path: Seq<char>| counts[paths.index_of(path)])
}

proof fn lemma_index_of(paths: Seq<Seq<char>>, at: int)
    requires
        texts_ascend(paths),
        0 <= at < paths.len(),
    ensures
        paths.index_of(paths[at]) == at,
{
    let value = paths[at];
    assert(paths.contains(value));
    let i = paths.index_of(value);
    assert(paths[i] == value);
    text::lemma_text_lt_irreflexive(value);
    if i < at {
        assert(text::text_lt(paths[i], paths[at]));
    } else if at < i {
        assert(text::text_lt(paths[at], paths[i]));
    }
}

impl View for PathCounts {
    type V = Map<Seq<char>, u64>;

    closed spec fn view(&self) -> Map<Seq<char>, u64> {
        counted(self.paths.deep_view(), self.counts@)
    }
}

/// How often `path` is held.
pub open spec fn count_of(counts: Map<Seq<char>, u64>, path: Seq<char>) -> u64 {
    if counts.dom().contains(path) {
        counts[path]
    } else {
        0
    }
}

impl PathCounts {
    #[verifier::type_invariant]
    spec fn well_formed(self) -> bool {
        &&& texts_ascend(self.paths.deep_view())
        &&& self.paths@.len() == self.counts@.len()
    }

    /// No path is held.
    pub fn new() -> (counts: Self)
        ensures
            counts@ == Map::<Seq<char>, u64>::empty(),
    {
        let counts = PathCounts { paths: Vec::new(), counts: Vec::new() };
        assert(counts.paths.deep_view() =~= Seq::empty());
        assert(counts@ =~= Map::empty());
        counts
    }

    /// How often `path` is held.
    pub fn count(&self, path: &str) -> (count: u64)
        ensures
            count == count_of(self@, path@),
    {
        proof {
            use_type_invariant(self);
        }
        let at = find_place(&self.paths, path);
        if at < self.paths.len() {
            assert(self.paths.deep_view()[at as int] == self.paths@[at as int]@);
            if text::same_text(&self.paths[at], path) {
                proof {
                    lemma_index_of(self.paths.deep_view(), at as int);
                }
                return self.counts[at];
            }
        }
        0
    }

    /// Sets how often `path` is held.
    pub fn set(&mut self, path: &str, count: u64)
        ensures
            final(self)@ == old(self)@.insert(path@, count),
    {
        proof {
            use_type_invariant(&*self);
        }
        let ghost texts = self.paths.deep_view();
        let ghost numbers = self.counts@;
        let at = find_place(&self.paths, path);
        let mut paths: Vec<String> = Vec::new();
        let mut counts: Vec<u64> = Vec::new();
        if at < self.paths.len() {
            assert(texts[at as int] == self.paths@[at as int]@);
        }
        if at < self.paths.len() && text::same_text(&self.paths[at], path) {
            let mut entries = PathCounts { paths, counts };
            std::mem::swap(self, &mut entries);
            let PathCounts { paths: known, counts: mut changed } = entries;
            changed.set(at, count);
            proof {
                assert forall|p: Seq<char>| texts.contains(p) implies counted(texts, changed@)[p]
                    == #[trigger] old(self)@.insert(path@, count)[p] by {
                    let i = texts.index_of(p);
                    lemma_index_of(texts, at as int);
                    assert(texts[i] == p);
                }
                assert(counted(texts, changed@) =~= old(self)@.insert(path@, count));
            }
            *self = PathCounts { paths: known, counts: changed };
            return;
        }
        let mut entries = PathCounts { paths, counts };
        std::mem::swap(self, &mut entries);
        let PathCounts { paths: mut known, counts: mut changed } = entries;
        known.insert(at, path.to_owned());
        changed.insert(at, count);
        proof {
            let after = texts.insert(at as int, path@);
            assert(known.deep_view() =~= after);
            lemma_insert_place(texts, path@, at as int);
            lemma_insert_members(texts, path@, at as int);
            assert forall|p: Seq<char>| after.contains(p) implies counted(after, changed@)[p]
                == #[trigger] old(self)@.insert(path@, count)[p] by {
                let i = after.index_of(p);
                assert(after[i] == p);
                lemma_index_of(after, at as int);
                if p != path@ {
                    let k = if i < at {
                        i
                    } else {
                        i - 1
                    };
                    assert(texts[k] == p);
                    lemma_index_of(texts, k);
                } else {
                    assert(after[at as int] == p);
                }
            }
            assert forall|p: Seq<char>| #[trigger] after.contains(p) <==> texts.contains(p) || p
                == path@ by {
                assert(after.to_set().contains(p) <==> texts.to_set().insert(path@).contains(p));
            }
            assert(counted(after, changed@) =~= old(self)@.insert(path@, count));
        }
        *self = PathCounts { paths: known, counts: changed };
    }

    /// Drops the count of `path`.
    pub fn remove(&mut self, path: &str)
        ensures
            final(self)@ == old(self)@.remove(path@),
    {
        proof {
            use_type_invariant(&*self);
        }
        let ghost texts = self.paths.deep_view();
        let at = find_place(&self.paths, path);
        if at < self.paths.len() {
            assert(texts[at as int] == self.paths@[at as int]@);
        }
        if at >= self.paths.len() || !text::same_text(&self.paths[at], path) {
            assert(self@ =~= old(self)@.remove(path@));
            return;
        }
        let mut entries = PathCounts { paths: Vec::new(), counts: Vec::new() };
        std::mem::swap(self, &mut entries);
        let PathCounts { paths: mut known, counts: mut changed } = entries;
        let _path = known.remove(at);
        let _count = changed.remove(at);
        proof {
            let after = texts.remove(at as int);
            assert(known.deep_view() =~= after);
            assert(texts_ascend(after));
            lemma_remove_members(texts, at as int);
            assert forall|p: Seq<char>| #[trigger] after.contains(p) <==> texts.contains(p) && p
                != path@ by {
                assert(after.to_set().contains(p) <==> texts.to_set().remove(path@).contains(p));
            }
            assert forall|p: Seq<char>| after.contains(p) implies counted(after, changed@)[p]
                == #[trigger] old(self)@.remove(path@)[p] by {
                let i = after.index_of(p);
                assert(after[i] == p);
                let k = if i < at {
                    i
                } else {
                    i + 1
                };
                assert(texts[k] == p);
                lemma_index_of(texts, k);
            }
            assert(counted(after, changed@) =~= old(self)@.remove(path@));
        }
        *self = PathCounts { paths: known, counts: changed };
    }

    /// The held paths in ascending order, each with its count.
    pub fn entries(&self) -> (entries: Vec<(String, u64)>)
        ensures
            texts_ascend(entries.deep_view().map_values(|entry: (Seq<char>, u64)| entry.0)),
            forall|path: Seq<char>, count: u64|
                #[trigger] entries.deep_view().contains((path, count)) <==> self@.dom().contains(
                    path,
                ) && self@[path] == count,
    {
        proof {
            use_type_invariant(self);
        }
        let ghost texts = self.paths.deep_view();
        let mut entries: Vec<(String, u64)> = Vec::new();
        let mut i: usize = 0;
        while i < self.paths.len()
            invariant
                i <= self.paths.len(),
                texts == self.paths.deep_view(),
                self.paths@.len() == self.counts@.len(),
                entries@.len() == i,
                forall|k: int|
                    0 <= k < i ==> #[trigger] entries.deep_view()[k] == (texts[k], self.counts@[k]),
            decreases self.paths.len() - i,
        {
            let ghost before = entries.deep_view();
            entries.push((self.paths[i].clone(), self.counts[i]));
            assert(entries.deep_view() =~= before.push((texts[i as int], self.counts@[i as int])));
            assert forall|k: int| 0 <= k < i + 1 implies #[trigger] entries.deep_view()[k] == (
                texts[k],
                self.counts@[k],
            ) by {
                if k < i {
                    assert(entries.deep_view()[k] == before[k]);
                }
            }
            i = i + 1;
        }
        proof {
            let all = entries.deep_view();
            assert(all.map_values(|entry: (Seq<char>, u64)| entry.0) =~= texts);
            assert forall|path: Seq<char>, count: u64| #[trigger] all.contains((path, count))
                <==> self@.dom().contains(path) && self@[path] == count by {
                if all.contains((path, count)) {
                    let k = choose|k: int| 0 <= k < all.len() && all[k] == (path, count);
                    assert(texts[k] == path);
                    lemma_index_of(texts, k);
                }
                if self@.dom().contains(path) && self@[path] == count {
                    let k = texts.index_of(path);
                    assert(texts[k] == path);
                    assert(all[k] == (path, count));
                }
            }
        }
        entries
    }
}

} // verus!

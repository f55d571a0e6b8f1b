//! The store of compiled stylesheets: a map from key to CSS text.

use vstd::prelude::*;

verus! {

/// A map from cache key to compiled CSS, with at most one entry per key.
///
/// Its view is the mathematical map from key to CSS text.
#[derive(Debug)]
pub struct StyleCache {
    entries: Vec<(String, String)>,
}

/// Some entry of `entries` has the key `key`.
spec fn holds(entries: Seq<(String, String)>, key: Seq<char>) -> bool {
    exists|i: int| 0 <= i < entries.len() && (#[trigger] entries[i]).0@ == key
}

/// The position of an entry of `entries` with the key `key`.
spec fn slot(entries: Seq<(String, String)>, key: Seq<char>) -> int {
    choose|i: int| 0 <= i < entries.len() && (#[trigger] entries[i]).0@ == key
}

/// No two entries of `entries` share a key.
spec fn distinct_keys(entries: Seq<(String, String)>) -> bool {
    forall|i: int, j: int|
        0 <= i < j < entries.len() ==> (#[trigger] entries[i]).0@ != (#[trigger] entries[j]).0@
}

/// The map that `entries` stands for.
spec fn map_of(entries: Seq<(String, String)>) -> Map<Seq<char>, Seq<char>> {
    Map::new(|key: Seq<char>| holds(entries, key), |key: Seq<char>| entries[slot(entries, key)].1@)
}

/// The keys of `entries`, in order.
spec fn keys_of(entries: Seq<(String, String)>) -> Seq<Seq<char>> {
    Seq::new(entries.len(), |i: int| entries[i].0@)
}

/// With distinct keys, the entry found for a key is the only one that has it.
proof fn lemma_slot(entries: Seq<(String, String)>, i: int)
    requires
        distinct_keys(entries),
        0 <= i < entries.len(),
    ensures
        holds(entries, entries[i].0@),
        slot(entries, entries[i].0@) == i,
        map_of(entries).contains_key(entries[i].0@),
        map_of(entries)[entries[i].0@] == entries[i].1@,
{
    let found = slot(entries, entries[i].0@);
    assert(entries[found].0@ == entries[i].0@);
}

/// The map of distinct entries is finite and has one key per entry.
proof fn lemma_map_of_len(entries: Seq<(String, String)>)
    requires
        distinct_keys(entries),
    ensures
        map_of(entries).dom().finite(),
        map_of(entries).dom().len() == entries.len(),
{
    let keys = keys_of(entries);
    assert(map_of(entries).dom() =~= keys.to_set()) by {
        assert forall|key: Seq<char>| holds(entries, key) implies keys.to_set().contains(key) by {
            assert(keys[slot(entries, key)] == key);
        }
    }
    keys.unique_seq_to_set();
    vstd::seq_lib::seq_to_set_is_finite(keys);
}

/// An entry written over one with the same key changes what is held under
/// that key, and nothing else.
proof fn lemma_replaced(before: Seq<(String, String)>, i: int, entry: (String, String))
    requires
        distinct_keys(before),
        0 <= i < before.len(),
        before[i].0@ == entry.0@,
    ensures
        distinct_keys(before.update(i, entry)),
        map_of(before.update(i, entry)) == map_of(before).insert(entry.0@, entry.1@),
{
    let after = before.update(i, entry);
    assert forall|key: Seq<char>| holds(after, key) <==> holds(before, key) by {
        if holds(after, key) {
            assert(before[slot(after, key)].0@ == key);
        }
        if holds(before, key) {
            assert(after[slot(before, key)].0@ == key);
        }
    }
    assert forall|key: Seq<char>| holds(after, key) implies map_of(after)[key] == map_of(
        before,
    ).insert(entry.0@, entry.1@)[key] by {
        let j = slot(after, key);
        lemma_slot(after, j);
        lemma_slot(before, j);
    }
    assert(map_of(after) =~= map_of(before).insert(entry.0@, entry.1@));
}

/// An entry added under a key that was not held adds that key, and changes
/// nothing else.
proof fn lemma_appended(before: Seq<(String, String)>, entry: (String, String))
    requires
        distinct_keys(before),
        !holds(before, entry.0@),
    ensures
        distinct_keys(before.push(entry)),
        map_of(before.push(entry)) == map_of(before).insert(entry.0@, entry.1@),
{
    let after = before.push(entry);
    assert forall|key: Seq<char>| holds(after, key) <==> (holds(before, key) || key
        == entry.0@) by {
        if holds(after, key) && key != entry.0@ {
            assert(before[slot(after, key)].0@ == key);
        }
        if holds(before, key) {
            assert(after[slot(before, key)].0@ == key);
        }
        if key == entry.0@ {
            assert(after[before.len() as int].0@ == key);
        }
    }
    assert forall|key: Seq<char>| holds(after, key) implies map_of(after)[key] == map_of(
        before,
    ).insert(entry.0@, entry.1@)[key] by {
        let j = slot(after, key);
        lemma_slot(after, j);
        if j < before.len() {
            lemma_slot(before, j);
        }
    }
    assert(map_of(after) =~= map_of(before).insert(entry.0@, entry.1@));
}

/// Where `key` is held in `entries`, if it is.
fn position(entries: &Vec<(String, String)>, key: &String) -> (at: Option<usize>)
    ensures
        match at {
            Some(i) => i < entries@.len() && entries@[i as int].0@ == key@,
            None => !holds(entries@, key@),
        },
{
    let mut i: usize = 0;
    while i < entries.len()
        invariant
            0 <= i <= entries@.len(),
            forall|j: int| 0 <= j < i ==> (#[trigger] entries@[j]).0@ != key@,
        decreases entries@.len() - i,
    {
        if entries[i].0 == *key {
            return Some(i);
        }
        i += 1;
    }
    None
}

impl View for StyleCache {
    type V = Map<Seq<char>, Seq<char>>;

    closed spec fn view(&self) -> Map<Seq<char>, Seq<char>> {
        map_of(self.entries@)
    }
}

impl StyleCache {
    #[verifier::type_invariant]
    spec fn well_formed(&self) -> bool {
        distinct_keys(self.entries@)
    }

    /// The empty cache.
    pub fn new() -> (cache: StyleCache)
        ensures
            cache@ == Map::<Seq<char>, Seq<char>>::empty(),
    {
        let cache = StyleCache { entries: Vec::new() };
        assert(cache@ =~= Map::<Seq<char>, Seq<char>>::empty());
        cache
    }

    /// Stores `css` under `key`, in place of what was held there.
    pub fn insert(&mut self, key: String, css: String)
        ensures
            final(self)@ == old(self)@.insert(key@, css@),
    {
        proof {
            use_type_invariant(&*self);
        }
        let mut entries: Vec<(String, String)> = Vec::new();
        core::mem::swap(&mut self.entries, &mut entries);
        match position(&entries, &key) {
            Some(i) => {
                proof {
                    lemma_replaced(entries@, i as int, (key, css));
                }
                entries.set(i, (key, css));
            },
            None => {
                proof {
                    lemma_appended(entries@, (key, css));
                }
                entries.push((key, css));
            },
        }
        self.entries = entries;
    }

    /// The CSS held under `key`, if any.
    pub fn get(&self, key: &str) -> (css: Option<&String>)
        ensures
            match css {
                Some(text) => self@.contains_key(key@) && self@[key@] == text@,
                None => !self@.contains_key(key@),
            },
    {
        proof {
            use_type_invariant(self);
        }
        let wanted = key.to_owned();
        match position(&self.entries, &wanted) {
            Some(i) => {
                proof {
                    lemma_slot(self.entries@, i as int);
                }
                Some(&self.entries[i].1)
            },
            None => None,
        }
    }

    /// Whether anything is held under `key`.
    pub fn contains_key(&self, key: &str) -> (held: bool)
        ensures
            held == self@.contains_key(key@),
    {
        self.get(key).is_some()
    }

    /// The number of keys.
    pub fn len(&self) -> (count: usize)
        ensures
            self@.dom().finite(),
            count == self@.len(),
    {
        proof {
            use_type_invariant(self);
            lemma_map_of_len(self.entries@);
        }
        self.entries.len()
    }

    /// Whether no key is held.
    pub fn is_empty(&self) -> (empty: bool)
        ensures
            empty == (self@ == Map::<Seq<char>, Seq<char>>::empty()),
    {
        proof {
            use_type_invariant(self);
            if self.entries@.len() > 0 {
                lemma_slot(self.entries@, 0);
            } else {
                assert(self@ =~= Map::<Seq<char>, Seq<char>>::empty());
            }
        }
        self.entries.len() == 0
    }

    /// The entries as pairs of key and CSS: one pair for each key, each key once.
    pub fn into_entries(self) -> (pairs: Vec<(String, String)>)
        ensures
            pairs@.len() == self@.len(),
            forall|i: int|
                0 <= i < pairs@.len() ==> self@.contains_key((#[trigger] pairs@[i]).0@) && self@[pairs@[i].0@]
                    == pairs@[i].1@,
            forall|i: int, j: int|
                0 <= i < j < pairs@.len() ==> (#[trigger] pairs@[i]).0@ != (#[trigger] pairs@[j]).0@,
            forall|key: Seq<char>|
                self@.contains_key(key) ==> exists|i: int|
                    0 <= i < pairs@.len() && (#[trigger] pairs@[i]).0@ == key,
    {
        proof {
            use_type_invariant(&self);
            lemma_map_of_len(self.entries@);
            assert forall|i: int| 0 <= i < self.entries@.len() implies self@.contains_key(
                (#[trigger] self.entries@[i]).0@,
            ) && self@[self.entries@[i].0@] == self.entries@[i].1@ by {
                lemma_slot(self.entries@, i);
            }
        }
        self.entries
    }
}

} // verus!

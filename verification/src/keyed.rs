//! Rows indexed by their key: one entry for each distinct key, in the order in
//! which the keys were first seen, each holding the values that were stored
//! for the key last.

use std::collections::HashMap;
use vstd::prelude::*;
use crate::hashing::{hash_key, key_hash};
use crate::names::names_equal;

verus! {

/// A key and the values stored for it: a cell for each value column, beside
/// the column's name.
#[derive(Debug, PartialEq, Eq)]
pub struct Entry {
    pub key: Vec<String>,
    pub values: Vec<(String, String)>,
}

/// The mathematical value of an [`Entry`].
pub struct EntryView {
    pub key: Seq<Seq<char>>,
    pub values: Seq<(Seq<char>, Seq<char>)>,
}

impl DeepView for Entry {
    type V = EntryView;

    open spec fn deep_view(&self) -> EntryView {
        EntryView { key: self.key.deep_view(), values: self.values.deep_view() }
    }
}

impl View for Entry {
    type V = EntryView;

    open spec fn view(&self) -> EntryView {
        self.deep_view()
    }
}

/// The keys of a sequence of entries, in order.
pub open spec fn keys_of(entries: Seq<EntryView>) -> Seq<Seq<Seq<char>>> {
    entries.map_values(|e: EntryView| e.key)
}

/// Whether some entry has the key.
pub open spec fn has_key(entries: Seq<EntryView>, key: Seq<Seq<char>>) -> bool {
    keys_of(entries).contains(key)
}

/// The place of an entry with the key, where there is one.
pub open spec fn key_index(entries: Seq<EntryView>, key: Seq<Seq<char>>) -> int {
    keys_of(entries).index_of(key)
}

/// Whether no two entries share a key.
pub open spec fn distinct_keys(entries: Seq<EntryView>) -> bool {
    keys_of(entries).no_duplicates()
}

/// The values stored for a key, if there is an entry for it.
pub open spec fn lookup(entries: Seq<EntryView>, key: Seq<Seq<char>>) -> Option<
    Seq<(Seq<char>, Seq<char>)>,
> {
    if has_key(entries, key) {
        Some(entries[key_index(entries, key)].values)
    } else {
        None
    }
}

/// The entries after one more is stored: it takes the place of the entry with
/// the same key, or comes last where there is none.
pub open spec fn insert_entry(entries: Seq<EntryView>, entry: EntryView) -> Seq<EntryView> {
    if has_key(entries, entry.key) {
        entries.update(key_index(entries, entry.key), entry)
    } else {
        entries.push(entry)
    }
}

/// Where no two entries share a key, an entry's key is found at the entry's
/// own place.
pub proof fn lemma_key_index(entries: Seq<EntryView>, i: int)
    requires
        distinct_keys(entries),
        0 <= i < entries.len(),
    ensures
        has_key(entries, entries[i].key),
        key_index(entries, entries[i].key) == i,
        lookup(entries, entries[i].key) == Some(entries[i].values),
{
    let keys = keys_of(entries);
    assert(keys[i] == entries[i].key);
    let j = keys.index_of(entries[i].key);
    assert(keys[j] == keys[i]);
}

/// Storing an entry keeps the keys distinct.
pub proof fn lemma_insert_entry_distinct(entries: Seq<EntryView>, entry: EntryView)
    requires
        distinct_keys(entries),
    ensures
        distinct_keys(insert_entry(entries, entry)),
        insert_entry(entries, entry).len() == if has_key(entries, entry.key) {
            entries.len()
        } else {
            entries.len() + 1
        },
        lookup(insert_entry(entries, entry), entry.key) == Some(entry.values),
        forall|k: Seq<Seq<char>>|
            k != entry.key ==> lookup(insert_entry(entries, entry), k) == lookup(entries, k),
        forall|k: Seq<Seq<char>>|
            has_key(insert_entry(entries, entry), k) <==> (has_key(entries, k) || k == entry.key),
{
    let keys = keys_of(entries);
    let after = insert_entry(entries, entry);
    let after_keys = keys_of(after);
    if has_key(entries, entry.key) {
        let i = key_index(entries, entry.key);
        assert(after_keys =~= keys);
        lemma_key_index(after, i);
        assert forall|k: Seq<Seq<char>>| k != entry.key implies lookup(after, k) == lookup(
            entries,
            k,
        ) by {
            if has_key(entries, k) {
                let j = key_index(entries, k);
                assert(after[j] == entries[j]);
            }
        }
    } else {
        assert(after_keys =~= keys.push(entry.key));
        lemma_key_index(after, entries.len() as int);
        assert forall|k: Seq<Seq<char>>| has_key(after, k) <==> (has_key(entries, k) || k
            == entry.key) by {
            if has_key(after, k) {
                let j = after_keys.index_of(k);
                if j < keys.len() {
                    assert(keys[j] == k);
                }
            }
            if has_key(entries, k) {
                let j = keys.index_of(k);
                assert(after_keys[j] == k);
            }
            if k == entry.key {
                assert(after_keys[entries.len() as int] == k);
            }
        }
        assert forall|k: Seq<Seq<char>>| k != entry.key implies lookup(after, k) == lookup(
            entries,
            k,
        ) by {
            if has_key(entries, k) {
                let j = key_index(entries, k);
                lemma_key_index(after, j);
            }
        }
    }
}

/// Whether `places` lists place `i` under hash `h`.
spec fn listed(places: Map<u64, Vec<usize>>, h: u64, i: int) -> bool {
    places.contains_key(h) && exists|j: int| 0 <= j < places[h]@.len() && places[h]@[j] == i
}

/// Whether every place that `places` lists is below `len`.
spec fn in_range(places: Map<u64, Vec<usize>>, len: nat) -> bool {
    forall|h: u64, j: int|
        places.contains_key(h) && 0 <= j < places[h]@.len() ==> (#[trigger] places[h]@[j]) < len
}

/// A map from keys to values that remembers the order in which its keys were
/// first stored. Storing under a key that is present replaces the values and
/// keeps the key's place.
///
/// The entries stand in a list. Beside it the places of the entries are kept
/// by the hash of their key, so that a key is found without going through the
/// list.
#[derive(Debug)]
pub struct KeyedMap {
    entries: Vec<Entry>,
    places: HashMap<u64, Vec<usize>>,
}

impl View for KeyedMap {
    type V = Seq<EntryView>;

    closed spec fn view(&self) -> Seq<EntryView> {
        self.entries.deep_view()
    }
}

impl KeyedMap {
    #[verifier::type_invariant]
    spec fn well_formed(self) -> bool {
        let entries = self.entries.deep_view();
        &&& distinct_keys(entries)
        &&& in_range(self.places@, entries.len())
        &&& forall|i: int|
            0 <= i < entries.len() ==> listed(self.places@, key_hash(#[trigger] entries[i].key), i)
    }

    /// The map without entries.
    pub fn new() -> (r: KeyedMap)
        ensures
            r@ == Seq::<EntryView>::empty(),
    {
        let r = KeyedMap { entries: Vec::new(), places: HashMap::new() };
        r
    }

    /// The number of entries, which is the number of distinct keys.
    pub fn len(&self) -> (r: usize)
        ensures
            r == self@.len(),
            distinct_keys(self@),
    {
        proof {
            use_type_invariant(self);
        }
        self.entries.len()
    }

    /// The entries in the order in which their keys were first stored.
    pub fn entries(&self) -> (r: &Vec<Entry>)
        ensures
            r.deep_view() == self@,
            distinct_keys(self@),
    {
        proof {
            use_type_invariant(self);
        }
        &self.entries
    }

    /// The place of the entry for `key`, if there is one.
    pub fn position(&self, key: &Vec<String>) -> (r: Option<usize>)
        ensures
            match r {
                Some(i) => has_key(self@, key.deep_view()) && i == key_index(
                    self@,
                    key.deep_view(),
                ) && i < self@.len(),
                None => !has_key(self@, key.deep_view()),
            },
    {
        proof {
            use_type_invariant(self);
        }
        let ghost all = self.entries.deep_view();
        let ghost wanted = key.deep_view();
        let h = hash_key(key);
        proof {
            if has_key(all, wanted) {
                let i = key_index(all, wanted);
                assert(listed(self.places@, key_hash(all[i].key), i));
            }
        }
        let bucket = match self.places.get(&h) {
            Some(bucket) => bucket,
            None => {
                return None;
            },
        };
        let mut j: usize = 0;
        while j < bucket.len()
            invariant
                j <= bucket.len(),
                all == self.entries.deep_view(),
                wanted == key.deep_view(),
                distinct_keys(all),
                forall|k: int| 0 <= k < bucket@.len() ==> (#[trigger] bucket@[k]) < all.len(),
                forall|k: int| 0 <= k < j ==> all[bucket@[k] as int].key != wanted,
            decreases bucket.len() - j,
        {
            let i = bucket[j];
            if names_equal(&self.entries[i].key, key) {
                proof {
                    lemma_key_index(all, i as int);
                }
                return Some(i);
            }
            j += 1;
        }
        None
    }

    /// Whether there is an entry for `key`.
    pub fn contains_key(&self, key: &Vec<String>) -> (r: bool)
        ensures
            r == has_key(self@, key.deep_view()),
    {
        self.position(key).is_some()
    }

    /// The values stored for `key`, if there is an entry for it.
    pub fn get(&self, key: &Vec<String>) -> (r: Option<&Vec<(String, String)>>)
        ensures
            match lookup(self@, key.deep_view()) {
                Some(values) => r matches Some(v) && v.deep_view() == values,
                None => r is None,
            },
    {
        match self.position(key) {
            Some(i) => Some(&self.entries[i].values),
            None => None,
        }
    }

    /// Stores `values` under `key`. Where the key is present its values are
    /// replaced; where it is not, a new entry comes last.
    pub fn insert(&mut self, key: Vec<String>, values: Vec<(String, String)>)
        ensures
            final(self)@ == insert_entry(
                old(self)@,
                EntryView { key: key.deep_view(), values: values.deep_view() },
            ),
    {
        proof {
            use_type_invariant(&*self);
        }
        let ghost before = self@;
        let ghost old_places = self.places@;
        let found = self.position(&key);
        let h = hash_key(&key);
        let entry = Entry { key, values };
        let ghost added = entry.deep_view();
        let mut taken = KeyedMap::new();
        std::mem::swap(self, &mut taken);
        let KeyedMap { mut entries, mut places } = taken;
        match found {
            Some(i) => {
                entries.set(i, entry);
                proof {
                    lemma_insert_entry_distinct(before, added);
                    let after = entries.deep_view();
                    assert(after =~= insert_entry(before, added));
                    assert forall|k: int| 0 <= k < after.len() implies listed(
                        places@,
                        key_hash(#[trigger] after[k].key),
                        k,
                    ) by {
                        assert(listed(old_places, key_hash(before[k].key), k));
                    }
                }
            },
            None => {
                let i = entries.len();
                entries.push(entry);
                let mut bucket = match places.remove(&h) {
                    Some(bucket) => bucket,
                    None => Vec::new(),
                };
                let ghost old_bucket = bucket@;
                bucket.push(i);
                places.insert(h, bucket);
                proof {
                    lemma_insert_entry_distinct(before, added);
                    let after = entries.deep_view();
                    assert(after =~= insert_entry(before, added));
                    assert forall|k: int| 0 <= k < after.len() implies listed(
                        places@,
                        key_hash(#[trigger] after[k].key),
                        k,
                    ) by {
                        if k < before.len() {
                            let hk = key_hash(before[k].key);
                            let j = choose|j: int|
                                0 <= j < old_places[hk]@.len() && old_places[hk]@[j] == k;
                            if hk == h {
                                assert(places@[h]@[j] == k);
                            } else {
                                assert(places@[hk]@[j] == k);
                            }
                        } else {
                            assert(places@[h]@[old_bucket.len() as int] == k);
                        }
                    }
                    assert forall|g: u64, j: int|
                        places@.contains_key(g) && 0 <= j < places@[g]@.len() implies (
                    #[trigger] places@[g]@[j]) < after.len() by {
                        if g == h {
                            if j < old_bucket.len() {
                                assert(old_places[h]@[j] < before.len());
                            }
                        } else {
                            assert(old_places[g]@[j] < before.len());
                        }
                    }
                }
            },
        }
        *self = KeyedMap { entries, places };
    }
}

} // verus!

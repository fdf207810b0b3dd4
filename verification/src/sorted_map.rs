//! Maps kept as a vector sorted by a canonical byte key.
//!
//! Every collection in the state is consensus-critical: it is iterated into
//! state roots, so its order must be a function of its contents alone. A map
//! here is a vector of entries held in strictly ascending order of their
//! keys' byte form, which makes that order the only one it can have.

use vstd::prelude::*;

use crate::codec::{
    bytes_lt, concat_encodings, eq_bytes, first_unordered, lemma_bytes_lt_irreflexive,
    lemma_bytes_lt_total, lemma_bytes_lt_transitive, lt_bytes, varint_bytes, Encode, Encoder,
};

verus! {

/// A type ordered by a byte string that identifies it.
pub trait SortKey {
    /// The bytes this value is ordered and identified by.
    spec fn sort_key(&self) -> Seq<u8>;

    /// Those bytes.
    fn sort_bytes(&self) -> (bytes: Vec<u8>)
        ensures
            bytes@ == self.sort_key(),
    ;
}

/// Entries in strictly ascending key order.
pub open spec fn ascending<K: SortKey, V>(entries: Seq<(K, V)>) -> bool {
    forall|i: int, j: int|
        #![trigger entries[i], entries[j]]
        0 <= i < j < entries.len() ==> bytes_lt(entries[i].0.sort_key(), entries[j].0.sort_key())
}

/// Whether some entry has key bytes `key`.
pub open spec fn has_key<K: SortKey, V>(entries: Seq<(K, V)>, key: Seq<u8>) -> bool {
    exists|i: int| 0 <= i < entries.len() && #[trigger] entries[i].0.sort_key() == key
}

/// The position of an entry with key bytes `key`, if there is one.
pub open spec fn key_index<K: SortKey, V>(entries: Seq<(K, V)>, key: Seq<u8>) -> int {
    choose|i: int| 0 <= i < entries.len() && #[trigger] entries[i].0.sort_key() == key
}

/// The map from key bytes to values that `entries` hold.
pub open spec fn entries_map<K: SortKey, V>(entries: Seq<(K, V)>) -> Map<Seq<u8>, V> {
    Map::new(|key: Seq<u8>| has_key(entries, key), |key: Seq<u8>| entries[key_index(entries, key)].1)
}

/// In ascending entries, the entry at `i` is the one its key maps to.
pub proof fn lemma_entries_map_at<K: SortKey, V>(entries: Seq<(K, V)>, i: int)
    requires
        ascending(entries),
        0 <= i < entries.len(),
    ensures
        entries_map(entries).contains_key(entries[i].0.sort_key()),
        entries_map(entries)[entries[i].0.sort_key()] == entries[i].1,
{
    let key = entries[i].0.sort_key();
    assert(has_key(entries, key));
    let j = key_index(entries, key);
    if j != i {
        lemma_bytes_lt_irreflexive(key);
        if j < i {
            assert(bytes_lt(entries[j].0.sort_key(), entries[i].0.sort_key()));
        } else {
            assert(bytes_lt(entries[i].0.sort_key(), entries[j].0.sort_key()));
        }
    }
    assert(j == i);
    assert(entries_map(entries)[key] == entries[j].1);
}

/// A map held in ascending entries has as many keys as entries.
pub proof fn lemma_entries_map_len<K: SortKey, V>(entries: Seq<(K, V)>)
    requires
        ascending(entries),
    ensures
        entries_map(entries).dom().finite(),
        entries_map(entries).dom().len() == entries.len(),
{
    let keys = entries.map_values(|entry: (K, V)| entry.0.sort_key());
    assert forall|i: int, j: int| 0 <= i < keys.len() && 0 <= j < keys.len() && i != j implies keys[i]
        != keys[j] by {
        lemma_bytes_lt_irreflexive(keys[i]);
        if i < j {
            assert(bytes_lt(entries[i].0.sort_key(), entries[j].0.sort_key()));
        } else {
            assert(bytes_lt(entries[j].0.sort_key(), entries[i].0.sort_key()));
        }
    }
    assert(keys.no_duplicates());
    keys.unique_seq_to_set();
    assert forall|key: Seq<u8>| entries_map(entries).dom().contains(key) <==> keys.to_set().contains(
        key,
    ) by {
        if has_key(entries, key) {
            let i = choose|i: int| 0 <= i < entries.len() && #[trigger] entries[i].0.sort_key() == key;
            assert(keys[i] == key);
        }
        if keys.contains(key) {
            let i = choose|i: int| 0 <= i < keys.len() && keys[i] == key;
            assert(entries[i].0.sort_key() == key);
        }
    }
    assert(entries_map(entries).dom() =~= keys.to_set());
}

/// A map held as a vector of entries in strictly ascending key order.
#[derive(Debug, Clone, PartialEq, Eq)]
pub struct SortedMap<K, V> {
    entries: Vec<(K, V)>,
}

impl<K: SortKey, V> SortedMap<K, V> {
    /// The entries, in ascending key order.
    pub closed spec fn entries(self) -> Seq<(K, V)> {
        self.entries@
    }

    /// The entries are in strictly ascending key order.
    pub open spec fn wf(self) -> bool {
        ascending(self.entries())
    }

    /// The map the entries hold.
    pub open spec fn map(self) -> Map<Seq<u8>, V> {
        entries_map(self.entries())
    }

    /// An empty map.
    pub fn new() -> (map: Self)
        ensures
            map.wf(),
            map.entries() == Seq::<(K, V)>::empty(),
            map.map() == Map::<Seq<u8>, V>::empty(),
    {
        let map = SortedMap { entries: Vec::new() };
        assert(map.map() =~= Map::<Seq<u8>, V>::empty());
        map
    }

    /// A copy of the map, entry for entry.
    pub fn duplicate(&self) -> (copy: Self)
        where
            K: Copy,
            V: Copy,
        ensures
            copy.entries() == self.entries(),
    {
        let mut entries: Vec<(K, V)> = Vec::new();
        let mut index: usize = 0;
        while index < self.entries.len()
            invariant
                index <= self.entries@.len(),
                entries@ == self.entries@.take(index as int),
            decreases self.entries@.len() - index,
        {
            entries.push(self.entries[index]);
            index = index + 1;
            assert(entries@ =~= self.entries@.take(index as int));
        }
        assert(self.entries@.take(self.entries@.len() as int) =~= self.entries@);
        SortedMap { entries }
    }

    /// A map with the same keys, held in ascending order whatever order
    /// these entries are in.
    pub fn rebuilt(&self) -> (copy: Self)
        where
            K: Copy,
            V: Copy,
        ensures
            copy.wf(),
            copy.map().dom() == self.map().dom(),
    {
        let mut copy = SortedMap::new();
        let mut index: usize = 0;
        while index < self.entries.len()
            invariant
                copy.wf(),
                index <= self.entries@.len(),
                copy.map().dom() == Set::new(
                    |key: Seq<u8>|
                        exists|j: int| 0 <= j < index && #[trigger] self.entries@[j].0.sort_key() == key,
                ),
            decreases self.entries@.len() - index,
        {
            let ghost before = copy.map().dom();
            let entry = self.entries[index];
            copy.insert(entry.0, entry.1);
            proof {
                assert(copy.map().dom() =~= Set::new(
                    |key: Seq<u8>|
                        exists|j: int| 0 <= j < index + 1 && #[trigger] self.entries@[j].0.sort_key() == key,
                )) by {
                    assert forall|key: Seq<u8>| copy.map().dom().contains(key) <==> exists|j: int|
                        0 <= j < index + 1 && #[trigger] self.entries@[j].0.sort_key() == key by {
                        if exists|j: int| 0 <= j < index + 1 && #[trigger] self.entries@[j].0.sort_key() == key {
                            let j = choose|j: int| 0 <= j < index + 1 && #[trigger] self.entries@[j].0.sort_key() == key;
                            if j < index {
                                assert(before.contains(key));
                            }
                        }
                    }
                }
            }
            index = index + 1;
        }
        proof {
            assert(copy.map().dom() =~= self.map().dom());
        }
        copy
    }

    /// How many entries there are.
    pub fn len(&self) -> (count: usize)
        ensures
            count == self.entries().len(),
    {
        self.entries.len()
    }

    /// The entries, in ascending key order.
    pub fn as_slice(&self) -> (entries: &[(K, V)])
        ensures
            entries@ == self.entries(),
    {
        self.entries.as_slice()
    }

    /// Where `key` is, or where it would go: the first index whose key is not
    /// below `key`, and whether that entry has exactly `key`.
    fn locate(&self, key: &[u8]) -> (found: (usize, bool))
        requires
            self.wf(),
        ensures
            found.0 <= self.entries().len(),
            forall|j: int| 0 <= j < found.0 ==> bytes_lt(#[trigger] self.entries()[j].0.sort_key(), key@),
            forall|j: int|
                found.0 <= j < self.entries().len() ==> !bytes_lt(
                    #[trigger] self.entries()[j].0.sort_key(),
                    key@,
                ),
            found.1 == (found.0 < self.entries().len() && self.entries()[found.0 as int].0.sort_key()
                == key@),
            found.1 == has_key(self.entries(), key@),
    {
        let mut index: usize = 0;
        while index < self.entries.len()
            invariant
                self.wf(),
                index <= self.entries().len(),
                forall|j: int| 0 <= j < index ==> bytes_lt(#[trigger] self.entries()[j].0.sort_key(), key@),
            decreases self.entries().len() - index,
        {
            let here = self.entries[index].0.sort_bytes();
            if !lt_bytes(here.as_slice(), key) {
                let same = eq_bytes(here.as_slice(), key);
                proof {
                    assert forall|j: int|
                        index <= j < self.entries().len() implies !bytes_lt(
                        #[trigger] self.entries()[j].0.sort_key(),
                        key@,
                    ) by {
                        if j > index && bytes_lt(self.entries()[j].0.sort_key(), key@) {
                            assert(bytes_lt(
                                self.entries()[index as int].0.sort_key(),
                                self.entries()[j].0.sort_key(),
                            ));
                            lemma_bytes_lt_transitive(
                                self.entries()[index as int].0.sort_key(),
                                self.entries()[j].0.sort_key(),
                                key@,
                            );
                        }
                    }
                    if has_key(self.entries(), key@) {
                        let j = choose|j: int|
                            0 <= j < self.entries().len() && #[trigger] self.entries()[j].0.sort_key()
                                == key@;
                        lemma_bytes_lt_irreflexive(key@);
                        if j > index {
                            assert(bytes_lt(
                                self.entries()[index as int].0.sort_key(),
                                self.entries()[j].0.sort_key(),
                            ));
                        }
                    }
                }
                return (index, same);
            }
            index = index + 1;
        }
        proof {
            if has_key(self.entries(), key@) {
                let j = choose|j: int|
                    0 <= j < self.entries().len() && #[trigger] self.entries()[j].0.sort_key()
                        == key@;
                lemma_bytes_lt_irreflexive(key@);
            }
        }
        (index, false)
    }

    /// The value at `key`, if any.
    pub fn get(&self, key: &K) -> (value: Option<&V>)
        requires
            self.wf(),
        ensures
            self.map().contains_key(key.sort_key()) ==> value == Some(
                &self.map()[key.sort_key()],
            ),
            !self.map().contains_key(key.sort_key()) ==> value is None,
    {
        let bytes = key.sort_bytes();
        let (index, found) = self.locate(bytes.as_slice());
        if found {
            proof {
                lemma_entries_map_at(self.entries(), index as int);
            }
            Some(&self.entries[index].1)
        } else {
            None
        }
    }

    /// Whether `key` is present.
    pub fn contains(&self, key: &K) -> (present: bool)
        requires
            self.wf(),
        ensures
            present == self.map().contains_key(key.sort_key()),
    {
        let bytes = key.sort_bytes();
        let (_, found) = self.locate(bytes.as_slice());
        found
    }

    /// Sets `key` to `value`, returning what it held before.
    pub fn insert(&mut self, key: K, value: V) -> (previous: Option<V>)
        requires
            old(self).wf(),
        ensures
            final(self).wf(),
            final(self).map() == old(self).map().insert(key.sort_key(), value),
            final(self).entries().len() == old(self).entries().len() + if old(self).map().contains_key(
                key.sort_key(),
            ) {
                0int
            } else {
                1int
            },
            old(self).map().contains_key(key.sort_key()) ==> previous == Some(
                old(self).map()[key.sort_key()],
            ),
            !old(self).map().contains_key(key.sort_key()) ==> previous is None,
    {
        let bytes = key.sort_bytes();
        let (index, found) = self.locate(bytes.as_slice());
        let ghost k = key.sort_key();
        let ghost before = self.entries();
        if found {
            proof {
                lemma_entries_map_at(before, index as int);
            }
            let (_, old_value) = self.entries.remove(index);
            self.entries.insert(index, (key, value));
            proof {
                assert(self.entries() =~= before.update(index as int, (key, value)));
                assert forall|i: int, j: int|
                    0 <= i < j < self.entries().len() implies bytes_lt(
                    #[trigger] self.entries()[i].0.sort_key(),
                    #[trigger] self.entries()[j].0.sort_key(),
                ) by {
                    assert(before[i].0.sort_key() == self.entries()[i].0.sort_key() || i == index);
                }
                assert forall|q: Seq<u8>|
                    #![trigger self.map().contains_key(q)]
                    self.map().contains_key(q) == old(self).map().insert(k, value).contains_key(
                        q,
                    ) by {
                    if has_key(before, q) && q != k {
                        let i = choose|i: int|
                            0 <= i < before.len() && #[trigger] before[i].0.sort_key() == q;
                        assert(self.entries()[i].0.sort_key() == q);
                    }
                    if has_key(self.entries(), q) && q != k {
                        let i = choose|i: int|
                            0 <= i < self.entries().len() && #[trigger] self.entries()[i].0.sort_key()
                                == q;
                        assert(before[i].0.sort_key() == q);
                    }
                    assert(self.entries()[index as int].0.sort_key() == k);
                }
                assert forall|q: Seq<u8>|
                    #[trigger] self.map().contains_key(q) implies self.map()[q] == old(
                        self,
                    ).map().insert(k, value)[q] by {
                    let i = choose|i: int|
                        0 <= i < self.entries().len() && #[trigger] self.entries()[i].0.sort_key()
                            == q;
                    lemma_entries_map_at(self.entries(), i);
                    if q != k {
                        lemma_entries_map_at(before, i);
                    }
                }
                assert(self.map() =~= old(self).map().insert(k, value));
            }
            Some(old_value)
        } else {
            self.entries.insert(index, (key, value));
            proof {
                assert(self.entries() =~= before.insert(index as int, (key, value)));
                assert forall|i: int, j: int|
                    0 <= i < j < self.entries().len() implies bytes_lt(
                    #[trigger] self.entries()[i].0.sort_key(),
                    #[trigger] self.entries()[j].0.sort_key(),
                ) by {
                    if j == index {
                        assert(bytes_lt(before[i].0.sort_key(), k));
                    } else if i == index {
                        let b = before[j - 1].0.sort_key();
                        assert(!bytes_lt(b, k));
                        assert(b != k);
                        lemma_bytes_lt_total(b, k);
                    } else if i < index && j > index {
                        assert(bytes_lt(before[i].0.sort_key(), before[j - 1].0.sort_key()));
                    } else if i > index {
                        assert(bytes_lt(before[i - 1].0.sort_key(), before[j - 1].0.sort_key()));
                    }
                }
                assert forall|q: Seq<u8>|
                    #![trigger self.map().contains_key(q)]
                    self.map().contains_key(q) == old(self).map().insert(k, value).contains_key(
                        q,
                    ) by {
                    if has_key(before, q) {
                        let i = choose|i: int|
                            0 <= i < before.len() && #[trigger] before[i].0.sort_key() == q;
                        if i < index {
                            assert(self.entries()[i].0.sort_key() == q);
                        } else {
                            assert(self.entries()[i + 1].0.sort_key() == q);
                        }
                    }
                    if has_key(self.entries(), q) && q != k {
                        let i = choose|i: int|
                            0 <= i < self.entries().len() && #[trigger] self.entries()[i].0.sort_key()
                                == q;
                        if i < index {
                            assert(before[i].0.sort_key() == q);
                        } else {
                            assert(before[i - 1].0.sort_key() == q);
                        }
                    }
                    assert(self.entries()[index as int].0.sort_key() == k);
                }
                assert forall|q: Seq<u8>|
                    #[trigger] self.map().contains_key(q) implies self.map()[q] == old(
                        self,
                    ).map().insert(k, value)[q] by {
                    let i = choose|i: int|
                        0 <= i < self.entries().len() && #[trigger] self.entries()[i].0.sort_key()
                            == q;
                    lemma_entries_map_at(self.entries(), i);
                    if i < index {
                        lemma_entries_map_at(before, i);
                    } else if i > index {
                        lemma_entries_map_at(before, i - 1);
                    }
                }
                assert(self.map() =~= old(self).map().insert(k, value));
            }
            None
        }
    }

    /// Removes `key`, returning what it held.
    pub fn remove(&mut self, key: &K) -> (previous: Option<V>)
        requires
            old(self).wf(),
        ensures
            final(self).wf(),
            final(self).map() == old(self).map().remove(key.sort_key()),
            final(self).entries().len() == old(self).entries().len() - if old(self).map().contains_key(
                key.sort_key(),
            ) {
                1int
            } else {
                0int
            },
            old(self).map().contains_key(key.sort_key()) ==> previous == Some(
                old(self).map()[key.sort_key()],
            ),
            !old(self).map().contains_key(key.sort_key()) ==> previous is None,
    {
        let bytes = key.sort_bytes();
        let (index, found) = self.locate(bytes.as_slice());
        let ghost k = key.sort_key();
        let ghost before = self.entries();
        if !found {
            proof {
                assert(self.map() =~= old(self).map().remove(k));
            }
            return None;
        }
        proof {
            lemma_entries_map_at(before, index as int);
        }
        let (_, old_value) = self.entries.remove(index);
        proof {
            assert(self.entries() =~= before.remove(index as int));
            assert forall|i: int, j: int|
                0 <= i < j < self.entries().len() implies bytes_lt(
                #[trigger] self.entries()[i].0.sort_key(),
                #[trigger] self.entries()[j].0.sort_key(),
            ) by {
                if i < index && j >= index {
                    assert(bytes_lt(before[i].0.sort_key(), before[j + 1].0.sort_key()));
                } else if i >= index {
                    assert(bytes_lt(before[i + 1].0.sort_key(), before[j + 1].0.sort_key()));
                }
            }
            lemma_bytes_lt_irreflexive(k);
            assert forall|q: Seq<u8>|
                #![trigger self.map().contains_key(q)]
                self.map().contains_key(q) == old(self).map().remove(k).contains_key(q) by {
                if has_key(before, q) && q != k {
                    let i = choose|i: int| 0 <= i < before.len() && #[trigger] before[i].0.sort_key() == q;
                    if i < index {
                        assert(self.entries()[i].0.sort_key() == q);
                    } else {
                        assert(i != index);
                        assert(self.entries()[i - 1].0.sort_key() == q);
                    }
                }
                if has_key(self.entries(), q) {
                    let i = choose|i: int|
                        0 <= i < self.entries().len() && #[trigger] self.entries()[i].0.sort_key() == q;
                    if i < index {
                        assert(before[i].0.sort_key() == q);
                        assert(bytes_lt(before[i].0.sort_key(), before[index as int].0.sort_key()));
                    } else {
                        assert(before[i + 1].0.sort_key() == q);
                        assert(bytes_lt(before[index as int].0.sort_key(), before[i + 1].0.sort_key()));
                    }
                }
            }
            assert forall|q: Seq<u8>|
                #[trigger] self.map().contains_key(q) implies self.map()[q] == old(self).map().remove(
                    k,
                )[q] by {
                let i = choose|i: int|
                    0 <= i < self.entries().len() && #[trigger] self.entries()[i].0.sort_key() == q;
                lemma_entries_map_at(self.entries(), i);
                if i < index {
                    lemma_entries_map_at(before, i);
                } else {
                    lemma_entries_map_at(before, i + 1);
                }
            }
            assert(self.map() =~= old(self).map().remove(k));
        }
        Some(old_value)
    }
}

/// The keys of `entries`, in order.
pub open spec fn entry_keys<K, V>(entries: Seq<(K, V)>) -> Seq<K> {
    entries.map_values(|entry: (K, V)| entry.0)
}

/// Keys in strictly ascending byte order whose encodings are those bytes
/// are already a canonical set.
proof fn lemma_sorted_keys_in_order<T: Encode + SortKey>(keys: Seq<T>)
    requires
        forall|i: int, j: int|
            #![trigger keys[i], keys[j]]
            0 <= i < j < keys.len() ==> bytes_lt(keys[i].sort_key(), keys[j].sort_key()),
        forall|i: int| 0 <= i < keys.len() ==> #[trigger] keys[i].spec_encode() == keys[i].sort_key(),
    ensures
        first_unordered(keys) is None,
    decreases keys.len(),
{
    if keys.len() >= 2 {
        let shorter = keys.drop_last();
        assert forall|i: int, j: int|
            #![trigger shorter[i], shorter[j]]
            0 <= i < j < shorter.len() implies bytes_lt(shorter[i].sort_key(), shorter[j].sort_key()) by {
            assert(keys[i] == shorter[i] && keys[j] == shorter[j]);
        }
        assert forall|i: int| 0 <= i < shorter.len() implies #[trigger] shorter[i].spec_encode()
            == shorter[i].sort_key() by {
            assert(keys[i] == shorter[i]);
        }
        lemma_sorted_keys_in_order(shorter);
        let last = keys.len() - 1;
        assert(bytes_lt(keys[last - 1].sort_key(), keys[last].sort_key()));
        assert(keys[last - 1].spec_encode() == keys[last - 1].sort_key());
        assert(keys[last].spec_encode() == keys[last].sort_key());
    }
}

impl Encoder {
    /// Writes the keys of a set held in key order: their count, then each
    /// key's encoding in ascending key order.
    ///
    /// Where each key's encoding is its key bytes, as for every fixed-width
    /// identifier, what is written is a canonical set: nothing is left to
    /// check, and nothing can fail.
    pub fn write_ordered_set<T: Encode + SortKey>(&mut self, items: &SortedMap<T, ()>)
        ensures
            final(self)@ == old(self)@ + varint_bytes(items.entries().len()) + concat_encodings(
                entry_keys(items.entries()),
            ),
            items.wf() && (forall|i: int|
                0 <= i < items.entries().len() ==> #[trigger] items.entries()[i].0.spec_encode()
                    == items.entries()[i].0.sort_key()) ==> first_unordered(
                entry_keys(items.entries()),
            ) is None,
    {
        let entries = items.as_slice();
        let ghost keys = entry_keys(items.entries());
        self.write_len(entries.len());
        let ghost start = self@;
        let mut index: usize = 0;
        while index < entries.len()
            invariant
                index <= entries@.len(),
                entries@ == items.entries(),
                keys == entry_keys(items.entries()),
                self@ == start + concat_encodings(keys.take(index as int)),
            decreases entries@.len() - index,
        {
            entries[index].0.encode(self);
            assert(keys.take(index + 1).drop_last() =~= keys.take(index as int));
            assert(keys[index as int] == entries@[index as int].0);
            index = index + 1;
        }
        assert(keys.take(keys.len() as int) =~= keys);
        proof {
            if items.wf() && (forall|i: int|
                0 <= i < items.entries().len() ==> #[trigger] items.entries()[i].0.spec_encode()
                    == items.entries()[i].0.sort_key()) {
                let e = items.entries();
                assert forall|i: int, j: int|
                    #![trigger keys[i], keys[j]]
                    0 <= i < j < keys.len() implies bytes_lt(keys[i].sort_key(), keys[j].sort_key()) by {
                    assert(bytes_lt(e[i].0.sort_key(), e[j].0.sort_key()));
                }
                assert forall|i: int| 0 <= i < keys.len() implies #[trigger] keys[i].spec_encode()
                    == keys[i].sort_key() by {
                    assert(e[i].0.spec_encode() == e[i].0.sort_key());
                }
                lemma_sorted_keys_in_order(keys);
            }
        }
    }
}

} // verus!

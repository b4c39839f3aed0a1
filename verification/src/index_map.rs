//! A map that keeps its entries in the order in which they were inserted.
use crate::error::OutOfMemory;
use crate::intern::{KeyEq, TryClone};
use vstd::prelude::*;

verus! {

/// The keys of `entries`, in order.
pub open spec fn keys<K, V>(entries: Seq<(K, V)>) -> Seq<K> {
    Seq::new(entries.len(), |i: int| entries[i].0)
}

/// The index of the first of `entries` with the key `key`, if there is one.
pub open spec fn index_of<K, V>(entries: Seq<(K, V)>, key: K) -> Option<int> {
    keys(entries).index_of_first(key)
}

/// The value of `key` in `entries`, if it is there.
pub open spec fn value_of<K, V>(entries: Seq<(K, V)>, key: K) -> Option<V> {
    match index_of(entries, key) {
        Some(i) => Some(entries[i].1),
        None => None,
    }
}

/// The entries after `key` has been given the value `value`: in the place that
/// `key` has, or at the end if it is not there.
pub open spec fn put<K, V>(entries: Seq<(K, V)>, key: K, value: V) -> Seq<(K, V)> {
    match index_of(entries, key) {
        Some(i) => entries.update(i, (key, value)),
        None => entries.push((key, value)),
    }
}

/// The entries after each of `entries` has been put in, one after the other.
pub open spec fn put_all<K, V>(entries: Seq<(K, V)>) -> Seq<(K, V)>
    decreases entries.len(),
{
    if entries.len() == 0 {
        Seq::empty()
    } else {
        put(put_all(entries.drop_last()), entries.last().0, entries.last().1)
    }
}

/// Whether no key occurs twice in `entries`.
pub open spec fn distinct<K, V>(entries: Seq<(K, V)>) -> bool {
    forall|i: int, j: int|
        0 <= i < j < entries.len() ==> (#[trigger] entries[i]).0 != (#[trigger] entries[j]).0
}

/// What `index_of` finds.
pub proof fn lemma_index_of<K, V>(entries: Seq<(K, V)>, key: K)
    ensures
        match index_of(entries, key) {
            Some(i) => {
                &&& 0 <= i < entries.len()
                &&& entries[i].0 == key
                &&& forall|j: int| 0 <= j < i ==> (#[trigger] entries[j]).0 != key
            },
            None => forall|j: int| 0 <= j < entries.len() ==> (#[trigger] entries[j]).0 != key,
        },
{
    let ks = keys(entries);
    ks.index_of_first_ensures(key);
    match index_of(entries, key) {
        Some(i) => {
            assert forall|j: int| 0 <= j < i implies (#[trigger] entries[j]).0 != key by {
                assert(ks[j] != key);
            }
        },
        None => {
            assert forall|j: int| 0 <= j < entries.len() implies (#[trigger] entries[j]).0
                != key by {
                assert(ks[j] != key);
            }
        },
    }
}

/// The first entry with a key is the one that `index_of` finds.
pub proof fn lemma_index_of_first<K, V>(entries: Seq<(K, V)>, key: K, i: int)
    requires
        0 <= i < entries.len(),
        entries[i].0 == key,
        forall|j: int| 0 <= j < i ==> (#[trigger] entries[j]).0 != key,
    ensures
        index_of(entries, key) == Some(i),
{
    lemma_index_of(entries, key);
}

/// A key that was given a value has it afterwards. All other keys keep theirs
/// and their place, and keys that were distinct still are.
pub proof fn lemma_put<K, V>(entries: Seq<(K, V)>, key: K, value: V)
    ensures
        value_of(put(entries, key, value), key) == Some(value),
        forall|other: K|
            other != key ==> #[trigger] index_of(put(entries, key, value), other) == index_of(
                entries,
                other,
            ),
        forall|other: K|
            other != key ==> #[trigger] value_of(put(entries, key, value), other) == value_of(
                entries,
                other,
            ),
        index_of(entries, key) is Some ==> index_of(put(entries, key, value), key) == index_of(
            entries,
            key,
        ),
        index_of(entries, key) is None ==> index_of(put(entries, key, value), key) == Some(
            entries.len() as int,
        ),
        distinct(entries) ==> distinct(put(entries, key, value)),
{
    let after = put(entries, key, value);
    lemma_index_of(entries, key);
    lemma_index_of(after, key);
    match index_of(entries, key) {
        Some(i) => {
            lemma_index_of_first(after, key, i);
        },
        None => {
            lemma_index_of_first(after, key, entries.len() as int);
        },
    }
    assert forall|other: K| other != key implies #[trigger] index_of(after, other) == index_of(
        entries,
        other,
    ) by {
        lemma_index_of(entries, other);
        lemma_index_of(after, other);
        if let Some(i) = index_of(entries, other) {
            assert(after[i].0 == other);
            lemma_index_of_first(after, other, i);
        } else if let Some(i) = index_of(after, other) {
            assert(entries[i].0 == other);
        }
    }
    assert forall|other: K| other != key implies #[trigger] value_of(after, other) == value_of(
        entries,
        other,
    ) by {
        lemma_index_of(entries, other);
        assert(index_of(after, other) == index_of(entries, other));
    }
}

/// Putting in entries with distinct keys gives these entries, and putting in
/// any entries gives distinct keys.
pub proof fn lemma_put_all<K, V>(entries: Seq<(K, V)>)
    ensures
        distinct(put_all(entries)),
        distinct(entries) ==> put_all(entries) == entries,
    decreases entries.len(),
{
    if entries.len() > 0 {
        let init = entries.drop_last();
        let (key, value) = entries.last();
        lemma_put_all(init);
        lemma_put(put_all(init), key, value);
        if distinct(entries) {
            assert(distinct(init)) by {
                assert forall|i: int, j: int| 0 <= i < j < init.len() implies (#[trigger] init[i]).0
                    != (#[trigger] init[j]).0 by {
                    assert(entries[i].0 != entries[j].0);
                }
            }
            lemma_index_of(init, key);
            if let Some(i) = index_of(init, key) {
                assert(entries[i].0 != entries[entries.len() - 1].0);
            }
            assert(put(init, key, value) =~= entries);
        }
    } else {
        assert(put_all(entries) =~= entries);
    }
}

/// Giving a key a value and then another in its place is giving it the other.
pub proof fn lemma_put_then_update<K, V>(entries: Seq<(K, V)>, key: K, value: V, new_value: V)
    ensures
        index_of(put(entries, key, value), key) matches Some(i) && put(entries, key, value).update(
            i,
            (key, new_value),
        ) == put(entries, key, new_value),
{
    lemma_index_of(entries, key);
    lemma_put(entries, key, value);
    let i = index_of(put(entries, key, value), key).unwrap();
    assert(put(entries, key, value).update(i, (key, new_value)) =~= put(entries, key, new_value));
}

/// Giving a key another value and then the value that it had changes nothing.
pub proof fn lemma_put_back<K, V>(entries: Seq<(K, V)>, key: K, value: V, prev: V)
    requires
        value_of(entries, key) == Some(prev),
    ensures
        put(put(entries, key, value), key, prev) == entries,
{
    lemma_index_of(entries, key);
    lemma_put(entries, key, value);
    assert(put(put(entries, key, value), key, prev) =~= entries);
}

/// A map that keeps its entries in the order in which they were inserted.
#[derive(Debug)]
pub struct IndexMap<K, V> {
    entries: Vec<(K, V)>,
}

impl<K: View, V> View for IndexMap<K, V> {
    type V = Seq<(<K as View>::V, V)>;

    closed spec fn view(&self) -> Seq<(<K as View>::V, V)> {
        Seq::new(self.entries@.len(), |i: int| (self.entries@[i].0@, self.entries@[i].1))
    }
}

impl<K: TryClone + KeyEq<K>, V> IndexMap<K, V> {
    /// Creates an empty map.
    pub fn new() -> (r: IndexMap<K, V>)
        ensures
            r@ == Seq::<(<K as View>::V, V)>::empty(),
    {
        let map = IndexMap { entries: Vec::new() };
        assert(map@ =~= Seq::empty());
        map
    }

    /// The number of entries.
    pub fn len(&self) -> (r: usize)
        ensures
            r == self@.len(),
    {
        self.entries.len()
    }

    /// The index of the entry with the key `key`, if there is one.
    pub fn get_index_of<Q: ?Sized + View<V = <K as View>::V> + KeyEq<K>>(&self, key: &Q) -> (r:
        Option<usize>)
        ensures
            match r {
                Some(i) => index_of(self@, key@) == Some(i as int),
                None => index_of(self@, key@) is None,
            },
    {
        let mut i: usize = 0;
        while i < self.entries.len()
            invariant
                i <= self.entries@.len(),
                forall|j: int| 0 <= j < i ==> (#[trigger] self@[j]).0 != key@,
            decreases self.entries@.len() - i,
        {
            if key.key_eq(&self.entries[i].0) {
                proof {
                    lemma_index_of_first(self@, key@, i as int);
                }
                return Some(i);
            }
            i += 1;
        }
        proof {
            lemma_index_of(self@, key@);
        }
        None
    }

    /// Whether there is an entry with the key `key`.
    pub fn contains_key(&self, key: &K) -> (r: bool)
        ensures
            r == index_of(self@, key@) is Some,
    {
        self.get_index_of(key).is_some()
    }

    /// The value at `index`.
    pub fn get_index(&self, index: usize) -> (r: &V)
        requires
            index < self@.len(),
        ensures
            *r == self@[index as int].1,
    {
        &self.entries[index].1
    }

    /// The value at `index`, to be changed.
    pub fn get_index_mut(&mut self, index: usize) -> (r: &mut V)
        requires
            index < old(self)@.len(),
        ensures
            *r == old(self)@[index as int].1,
            final(self)@ == old(self)@.update(
                index as int,
                (old(self)@[index as int].0, *final(r)),
            ),
    {
        &mut self.entries[index].1
    }

    /// The value of `key`, if it is there.
    pub fn get<Q: ?Sized + View<V = <K as View>::V> + KeyEq<K>>(&self, key: &Q) -> (r: Option<&V>)
        ensures
            match r {
                Some(v) => value_of(self@, key@) == Some(*v),
                None => value_of(self@, key@) is None,
            },
    {
        proof {
            lemma_index_of(self@, key@);
        }
        match self.get_index_of(key) {
            Some(i) => Some(self.get_index(i)),
            None => None,
        }
    }

    /// Gives `key` the value `value`, in the place that `key` has, or at the
    /// end if it is not there. Returns the value that it had.
    pub fn insert(&mut self, key: K, value: V) -> (r: Option<V>)
        ensures
            final(self)@ == put(old(self)@, key@, value),
            r == value_of(old(self)@, key@),
    {
        proof {
            lemma_index_of(self@, key@);
        }
        match self.get_index_of(&key) {
            Some(i) => {
                let mut prev = value;
                core::mem::swap(&mut self.entries[i].1, &mut prev);
                assert(self@ =~= put(old(self)@, key@, value));
                Some(prev)
            },
            None => {
                self.entries.push((key, value));
                assert(self@ =~= put(old(self)@, key@, value));
                None
            },
        }
    }

    /// Replaces the key at `index` with `key` and returns the key that was
    /// there, unless `key` is at another index, in which case `key` itself is
    /// returned as the error.
    pub fn replace_index(&mut self, index: usize, key: K) -> (r: Result<K, K>)
        requires
            index < old(self)@.len(),
        ensures
            match r {
                Ok(prev) => {
                    &&& prev@ == old(self)@[index as int].0
                    &&& index_of(old(self)@, key@) is None || index_of(old(self)@, key@) == Some(
                        index as int,
                    )
                    &&& final(self)@ == old(self)@.update(
                        index as int,
                        (key@, old(self)@[index as int].1),
                    )
                },
                Err(same) => {
                    &&& same@ == key@
                    &&& index_of(old(self)@, key@) is Some
                    &&& index_of(old(self)@, key@) != Some(index as int)
                    &&& final(self)@ == old(self)@
                },
            },
    {
        if let Some(i) = self.get_index_of(&key) {
            if i != index {
                return Err(key);
            }
        }
        let ghost replaced = self@.update(index as int, (key@, self@[index as int].1));
        let mut prev = key;
        core::mem::swap(&mut self.entries[index].0, &mut prev);
        assert(self@ =~= replaced);
        Ok(prev)
    }

    /// The entries, in order.
    pub fn iter(&self) -> (r: Vec<(&K, &V)>)
        ensures
            r@.len() == self@.len(),
            forall|i: int|
                0 <= i < r@.len() ==> (#[trigger] r@[i]).0@ == self@[i].0 && *r@[i].1 == self@[i].1,
    {
        let mut items: Vec<(&K, &V)> = Vec::new();
        let mut i: usize = 0;
        while i < self.entries.len()
            invariant
                i <= self.entries@.len(),
                items@.len() == i,
                forall|j: int|
                    0 <= j < i ==> (#[trigger] items@[j]).0@ == self@[j].0 && *items@[j].1
                        == self@[j].1,
            decreases self.entries@.len() - i,
        {
            items.push((&self.entries[i].0, &self.entries[i].1));
            i += 1;
        }
        items
    }

    /// Inserts `entries` into an empty map, one after the other.
    pub fn from_entries(entries: Vec<(K, V)>) -> (r: IndexMap<K, V>)
        ensures
            r@ == put_all(
                Seq::new(entries@.len(), |i: int| (entries@[i].0@, entries@[i].1)),
            ),
    {
        let ghost all = Seq::new(entries@.len(), |i: int| (entries@[i].0@, entries@[i].1));
        let mut map: IndexMap<K, V> = IndexMap::new();
        for entry in it: entries
            invariant
                all == Seq::new(it.seq().len(), |i: int| (it.seq()[i].0@, it.seq()[i].1)),
                map@ == put_all(all.take(it.index() as int)),
        {
            proof {
                let n = it.index() as int;
                assert(all.take(n + 1).drop_last() =~= all.take(n));
            }
            map.insert(entry.0, entry.1);
        }
        assert(all.take(all.len() as int) =~= all);
        map
    }
}

impl<K: TryClone + KeyEq<K>, V: TryClone> IndexMap<K, V> {
    /// Clones the map, entry by entry.
    pub fn try_clone(&self) -> (r: Result<IndexMap<K, V>, OutOfMemory>)
        ensures
            r matches Ok(clone) ==> {
                &&& clone@.len() == self@.len()
                &&& forall|i: int|
                    0 <= i < clone@.len() ==> (#[trigger] clone@[i]).0 == self@[i].0 && clone@[i].1@
                        == self@[i].1@
            },
            K::never_fails() && V::never_fails() ==> r is Ok,
    {
        let mut entries: Vec<(K, V)> = Vec::new();
        let mut i: usize = 0;
        while i < self.entries.len()
            invariant
                i <= self.entries@.len(),
                entries@.len() == i,
                forall|j: int|
                    0 <= j < i ==> (#[trigger] entries@[j]).0@ == self@[j].0 && entries@[j].1@
                        == self@[j].1@,
            decreases self.entries@.len() - i,
        {
            let entry = &self.entries[i];
            let (key, value) = match (entry.0.try_clone(), entry.1.try_clone()) {
                (Ok(key), Ok(value)) => (key, value),
                _ => return Err(OutOfMemory),
            };
            entries.push((key, value));
            i += 1;
        }
        Ok(IndexMap { entries })
    }
}

} // verus!

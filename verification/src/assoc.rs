//! Association lists: small maps kept as vectors of entries in insertion order.

use vstd::prelude::*;

verus! {

/// No key occurs twice among the entries.
pub open spec fn distinct_keys<K, V>(items: Seq<(K, V)>) -> bool {
    forall|i: int, j: int|
        0 <= i < items.len() && 0 <= j < items.len() && i != j ==> items[i].0 != items[j].0
}

/// Some entry has the key.
pub open spec fn has_key<K, V>(items: Seq<(K, V)>, key: K) -> bool {
    exists|i: int| 0 <= i < items.len() && #[trigger] items[i].0 == key
}

/// The position of an entry with the key, where there is one.
pub open spec fn key_index<K, V>(items: Seq<(K, V)>, key: K) -> int {
    choose|i: int| 0 <= i < items.len() && #[trigger] items[i].0 == key
}

/// The map that the entries spell: each key to the value of its entry.
pub open spec fn assoc_map<K, V>(items: Seq<(K, V)>) -> Map<K, V> {
    Map::new(|key: K| has_key(items, key), |key: K| items[key_index(items, key)].1)
}

/// With distinct keys, every entry is found under its key.
pub proof fn lemma_assoc_entry<K, V>(items: Seq<(K, V)>, i: int)
    requires
        distinct_keys(items),
        0 <= i < items.len(),
    ensures
        has_key(items, items[i].0),
        key_index(items, items[i].0) == i,
        assoc_map(items).contains_key(items[i].0),
        assoc_map(items)[items[i].0] == items[i].1,
{
    assert(items[i].0 == items[i].0);
}

/// Appending an entry under a new key inserts it into the map.
pub proof fn lemma_assoc_push<K, V>(items: Seq<(K, V)>, key: K, value: V)
    requires
        distinct_keys(items),
        !has_key(items, key),
    ensures
        distinct_keys(items.push((key, value))),
        assoc_map(items.push((key, value))) == assoc_map(items).insert(key, value),
{
    let after = items.push((key, value));
    assert forall|i: int, j: int|
        0 <= i < after.len() && 0 <= j < after.len() && i != j implies after[i].0 != after[j].0 by {
        if i < items.len() {
            assert(items[i].0 == after[i].0);
        }
        if j < items.len() {
            assert(items[j].0 == after[j].0);
        }
    }
    assert forall|k: K| #[trigger] has_key(after, k) == (k == key || has_key(items, k)) by {
        if has_key(after, k) {
            let i = key_index(after, k);
            if i < items.len() {
                assert(items[i].0 == k);
            }
        }
        if has_key(items, k) {
            let i = key_index(items, k);
            assert(after[i].0 == k);
        }
        if k == key {
            assert(after[items.len() as int].0 == k);
        }
    }
    assert forall|k: K| has_key(after, k) implies #[trigger] assoc_map(after)[k] == assoc_map(
        items,
    ).insert(key, value)[k] by {
        let i = key_index(after, k);
        lemma_assoc_entry(after, i);
        if i < items.len() {
            assert(items[i].0 == k);
            lemma_assoc_entry(items, i);
        }
    }
    assert(assoc_map(after) =~= assoc_map(items).insert(key, value));
}

/// Replacing the value of an entry replaces it in the map.
pub proof fn lemma_assoc_update<K, V>(items: Seq<(K, V)>, i: int, value: V)
    requires
        distinct_keys(items),
        0 <= i < items.len(),
    ensures
        distinct_keys(items.update(i, (items[i].0, value))),
        assoc_map(items.update(i, (items[i].0, value))) == assoc_map(items).insert(
            items[i].0,
            value,
        ),
{
    let key = items[i].0;
    let after = items.update(i, (key, value));
    assert forall|a: int, b: int|
        0 <= a < after.len() && 0 <= b < after.len() && a != b implies after[a].0 != after[b].0 by {
        assert(after[a].0 == items[a].0);
        assert(after[b].0 == items[b].0);
    }
    assert forall|k: K| #[trigger] has_key(after, k) == has_key(items, k) by {
        if has_key(after, k) {
            let j = key_index(after, k);
            assert(items[j].0 == k);
        }
        if has_key(items, k) {
            let j = key_index(items, k);
            assert(after[j].0 == k);
        }
    }
    lemma_assoc_entry(items, i);
    assert forall|k: K| has_key(after, k) implies #[trigger] assoc_map(after)[k] == assoc_map(
        items,
    ).insert(key, value)[k] by {
        let j = key_index(after, k);
        lemma_assoc_entry(after, j);
        assert(items[j].0 == k);
        lemma_assoc_entry(items, j);
    }
    assert(assoc_map(after) =~= assoc_map(items).insert(key, value));
}

/// Taking an entry out removes its key from the map.
pub proof fn lemma_assoc_remove<K, V>(items: Seq<(K, V)>, i: int)
    requires
        distinct_keys(items),
        0 <= i < items.len(),
    ensures
        distinct_keys(items.remove(i)),
        assoc_map(items.remove(i)) == assoc_map(items).remove(items[i].0),
{
    let key = items[i].0;
    let after = items.remove(i);
    assert forall|a: int, b: int|
        0 <= a < after.len() && 0 <= b < after.len() && a != b implies after[a].0 != after[b].0 by {
        let a0 = if a < i { a } else { a + 1 };
        let b0 = if b < i { b } else { b + 1 };
        assert(after[a] == items[a0]);
        assert(after[b] == items[b0]);
    }
    assert forall|k: K| #[trigger] has_key(after, k) == (k != key && has_key(items, k)) by {
        if has_key(after, k) {
            let j = key_index(after, k);
            let j0 = if j < i { j } else { j + 1 };
            assert(items[j0].0 == k);
        }
        if k != key && has_key(items, k) {
            let j = key_index(items, k);
            let j1 = if j < i { j } else { j - 1 };
            assert(after[j1].0 == k);
        }
    }
    assert forall|k: K| has_key(after, k) implies #[trigger] assoc_map(after)[k] == assoc_map(
        items,
    ).remove(key)[k] by {
        let j = key_index(after, k);
        lemma_assoc_entry(after, j);
        let j0 = if j < i { j } else { j + 1 };
        assert(items[j0].0 == k);
        lemma_assoc_entry(items, j0);
    }
    assert(assoc_map(after) =~= assoc_map(items).remove(key));
}

/// A key of an association list: a value that can be compared with another for
/// equality of what the two stand for.
pub trait MapKey: View + Sized {
    /// Whether the two keys are the same key.
    fn key_eq(&self, other: &Self) -> (same: bool)
        ensures
            same == (self@ == other@),
    ;

    /// Another value for the same key.
    fn key_copy(&self) -> (copy: Self)
        ensures
            copy@ == self@,
    ;
}

/// Whether two byte strings hold the same bytes.
pub fn bytes_eq(a: &[u8], b: &[u8]) -> (same: bool)
    ensures
        same == (a@ == b@),
{
    if a.len() != b.len() {
        return false;
    }
    let mut i: usize = 0;
    while i < a.len()
        invariant
            i <= a.len(),
            a.len() == b.len(),
            forall|j: int| 0 <= j < i ==> a@[j] == b@[j],
        decreases a.len() - i,
    {
        if a[i] != b[i] {
            return false;
        }
        i += 1;
    }
    assert(a@ =~= b@);
    true
}

impl MapKey for Vec<u8> {
    fn key_eq(&self, other: &Self) -> (same: bool) {
        bytes_eq(self.as_slice(), other.as_slice())
    }

    fn key_copy(&self) -> (copy: Self) {
        crate::term::copy_bytes(self.as_slice())
    }
}

impl MapKey for u16 {
    fn key_eq(&self, other: &Self) -> (same: bool) {
        *self == *other
    }

    fn key_copy(&self) -> (copy: Self) {
        *self
    }
}

impl MapKey for (u16, u32) {
    fn key_eq(&self, other: &Self) -> (same: bool) {
        self.0 == other.0 && self.1 == other.1
    }

    fn key_copy(&self) -> (copy: Self) {
        (self.0, self.1)
    }
}

impl MapKey for (u16, usize) {
    fn key_eq(&self, other: &Self) -> (same: bool) {
        self.0 == other.0 && self.1 == other.1
    }

    fn key_copy(&self) -> (copy: Self) {
        (self.0, self.1)
    }
}

/// A map kept as a vector of entries, in the order in which the keys came.
pub struct AssocVec<K, V> {
    entries: Vec<(K, V)>,
}

impl<K: MapKey, V> AssocVec<K, V> {
    /// The entries in order, each key by its view.
    pub closed spec fn items(&self) -> Seq<(K::V, V)> {
        Seq::new(self.entries@.len(), |i: int| (self.entries@[i].0@, self.entries@[i].1))
    }

    /// No key occurs twice.
    pub open spec fn wf(&self) -> bool {
        distinct_keys(self.items())
    }

    /// The map from each key to its value.
    pub open spec fn as_map(&self) -> Map<K::V, V> {
        assoc_map(self.items())
    }

    /// An empty list.
    pub fn new() -> (list: Self)
        ensures
            list.items() == Seq::<(K::V, V)>::empty(),
            list.wf(),
    {
        let list = AssocVec { entries: Vec::new() };
        assert(list.items() =~= Seq::<(K::V, V)>::empty());
        list
    }

    /// The number of entries.
    pub fn len(&self) -> (n: usize)
        ensures
            n == self.items().len(),
    {
        self.entries.len()
    }

    /// The key of the entry at a place.
    pub fn key_at(&self, i: usize) -> (key: &K)
        requires
            i < self.items().len(),
        ensures
            key@ == self.items()[i as int].0,
    {
        &self.entries[i].0
    }

    /// The value of the entry at a place.
    pub fn value_at(&self, i: usize) -> (value: &V)
        requires
            i < self.items().len(),
        ensures
            *value == self.items()[i as int].1,
    {
        &self.entries[i].1
    }

    /// Hands out the value of entry `i` for changing; the key stays.
    pub fn value_mut(&mut self, i: usize) -> (value: &mut V)
        requires
            i < old(self).items().len(),
        ensures
            *value == old(self).items()[i as int].1,
            final(self).items() == old(self).items().update(
                i as int,
                (old(self).items()[i as int].0, *final(value)),
            ),
    {
        &mut self.entries[i].1
    }

    /// The position of the entry with the key, if there is one.
    pub fn position(&self, key: &K) -> (found: Option<usize>)
        ensures
            match found {
                Some(i) => i < self.items().len() && self.items()[i as int].0 == key@,
                None => !has_key(self.items(), key@),
            },
    {
        let mut i: usize = 0;
        while i < self.entries.len()
            invariant
                i <= self.entries.len(),
                forall|j: int| 0 <= j < i ==> self.items()[j].0 != key@,
            decreases self.entries.len() - i,
        {
            if self.entries[i].0.key_eq(key) {
                return Some(i);
            }
            i += 1;
        }
        None
    }

    /// Appends an entry under a key that the list does not hold yet.
    pub fn push(&mut self, key: K, value: V)
        requires
            old(self).wf(),
            !has_key(old(self).items(), key@),
        ensures
            final(self).items() == old(self).items().push((key@, value)),
            final(self).wf(),
            final(self).as_map() == old(self).as_map().insert(key@, value),
    {
        proof {
            lemma_assoc_push(self.items(), key@, value);
        }
        self.entries.push((key, value));
        assert(self.items() =~= old(self).items().push((key@, value)));
    }

    /// Takes entry `i` out; the entries behind it move up.
    pub fn remove_at(&mut self, i: usize) -> (entry: (K, V))
        requires
            old(self).wf(),
            i < old(self).items().len(),
        ensures
            (entry.0@, entry.1) == old(self).items()[i as int],
            final(self).items() == old(self).items().remove(i as int),
            final(self).wf(),
            final(self).as_map() == old(self).as_map().remove(entry.0@),
    {
        proof {
            lemma_assoc_remove(self.items(), i as int);
        }
        let entry = self.entries.remove(i);
        assert(self.items() =~= old(self).items().remove(i as int));
        entry
    }
}

impl<K: MapKey, V: Copy> AssocVec<K, V> {
    /// Another list of the same entries.
    pub fn duplicate(&self) -> (copy: Self)
        ensures
            copy.items() == self.items(),
    {
        let mut entries: Vec<(K, V)> = Vec::new();
        let mut i: usize = 0;
        while i < self.entries.len()
            invariant
                i <= self.entries@.len(),
                entries@.len() == i,
                forall|j: int|
                    0 <= j < i ==> (#[trigger] entries@[j]).0@ == self.entries@[j].0@
                        && entries@[j].1 == self.entries@[j].1,
            decreases self.entries.len() - i,
        {
            entries.push((self.entries[i].0.key_copy(), self.entries[i].1));
            i += 1;
        }
        let copy = AssocVec { entries };
        assert(copy.items() =~= self.items());
        copy
    }
}

} // verus!

//! A map keyed by hash that remembers the order in which its keys came.
//!
//! Look-ups go through a hash table; walking the map goes through the
//! entries in insertion order, so that what the engine does never depends
//! on how a hash table happens to be laid out.
use crate::hash::H256;
use crate::index::{index_entries, index_get, index_insert, index_new, index_remove, HashIndex};
use vstd::prelude::*;

verus! {

/// What an `OrderedMap` holds: the value under each key, and the keys in
/// the order in which they were inserted.
pub struct Entries<V> {
    pub map: Map<H256, V>,
    pub order: Seq<H256>,
}

impl<V> Entries<V> {
    /// Every key stands exactly once in `order`.
    pub open spec fn wf(self) -> bool {
        &&& self.order.no_duplicates()
        &&& forall|k: H256| self.map.contains_key(k) <==> #[trigger] self.order.contains(k)
    }

    /// The entries of a map that holds nothing.
    pub open spec fn empty() -> Entries<V> {
        Entries { map: Map::empty(), order: Seq::empty() }
    }

    /// Whether there is an entry for `key`.
    pub open spec fn contains(self, key: H256) -> bool {
        self.map.contains_key(key)
    }

    /// The value under `key`, if there is one.
    pub open spec fn get(self, key: H256) -> Option<V> {
        self.map.get(key)
    }

    /// The number of entries.
    pub open spec fn len(self) -> nat {
        self.order.len()
    }

    /// A new key goes to the end; a key that is present keeps its place.
    pub open spec fn insert(self, key: H256, value: V) -> Entries<V> {
        Entries {
            map: self.map.insert(key, value),
            order: if self.map.contains_key(key) {
                self.order
            } else {
                self.order.push(key)
            },
        }
    }

    /// The keys behind the removed one move up by one place.
    pub open spec fn remove(self, key: H256) -> Entries<V> {
        if self.map.contains_key(key) {
            Entries {
                map: self.map.remove(key),
                order: self.order.remove(self.order.index_of(key)),
            }
        } else {
            self
        }
    }

    /// Inserting keeps the entries well formed.
    pub proof fn lemma_insert_wf(self, key: H256, value: V)
        requires
            self.wf(),
        ensures
            self.insert(key, value).wf(),
    {
        let after = self.insert(key, value);
        if !self.map.contains_key(key) {
            assert forall|k: H256| after.map.contains_key(k) <==> #[trigger] after.order.contains(
                k,
            ) by {
                if after.order.contains(k) {
                    let i = choose|i: int| 0 <= i < after.order.len() && after.order[i] == k;
                    if i < self.order.len() {
                        assert(self.order[i] == k);
                        assert(self.order.contains(k));
                    }
                }
                if after.map.contains_key(k) {
                    if k == key {
                        assert(after.order[self.order.len() as int] == key);
                    } else {
                        assert(self.order.contains(k));
                        let i = choose|i: int| 0 <= i < self.order.len() && self.order[i] == k;
                        assert(after.order[i] == k);
                    }
                }
            }
            assert forall|i: int, j: int|
                0 <= i < after.order.len() && 0 <= j < after.order.len() && i != j
                    implies after.order[i]
                != after.order[j] by {
                if i == self.order.len() {
                    assert(self.order[j] == after.order[j]);
                    assert(self.order.contains(after.order[j]));
                } else if j == self.order.len() {
                    assert(self.order[i] == after.order[i]);
                    assert(self.order.contains(after.order[i]));
                } else {
                }
            }
        }
    }

    /// Removing keeps the entries well formed.
    pub proof fn lemma_remove_wf(self, key: H256)
        requires
            self.wf(),
        ensures
            self.remove(key).wf(),
    {
        let after = self.remove(key);
        if self.map.contains_key(key) {
            assert(self.order.contains(key));
            let at = self.order.index_of(key);
            assert(0 <= at < self.order.len() && self.order[at] == key);
            assert forall|i: int, j: int|
                0 <= i < after.order.len() && 0 <= j < after.order.len() && i != j
                    implies after.order[i]
                != after.order[j] by {
                let oi = if i < at { i } else { i + 1 };
                let oj = if j < at { j } else { j + 1 };
                assert(after.order[i] == self.order[oi]);
                assert(after.order[j] == self.order[oj]);
            }
            assert forall|k: H256| after.map.contains_key(k) <==> #[trigger] after.order.contains(
                k,
            ) by {
                if after.order.contains(k) {
                    let i = choose|i: int| 0 <= i < after.order.len() && after.order[i] == k;
                    let oi = if i < at { i } else { i + 1 };
                    assert(self.order[oi] == k);
                    assert(self.order.contains(k));
                    assert(oi != at);
                }
                if after.map.contains_key(k) {
                    assert(self.order.contains(k));
                    let oi = choose|i: int| 0 <= i < self.order.len() && self.order[i] == k;
                    assert(oi != at);
                    let i = if oi < at { oi } else { oi - 1 };
                    assert(after.order[i] == k);
                }
            }
        }
    }
}

/// A map from hashes to values of type `V`.
pub struct OrderedMap<V> {
    slots: Vec<(H256, V)>,
    index: HashIndex,
}

impl<V> View for OrderedMap<V> {
    type V = Entries<V>;

    closed spec fn view(&self) -> Entries<V> {
        Entries {
            map: Map::new(
                |k: H256| index_entries(self.index).contains_key(k),
                |k: H256| self.slots@[index_entries(self.index)[k] as int].1,
            ),
            order: Seq::new(self.slots@.len(), |i: int| self.slots@[i].0),
        }
    }
}

impl<V> OrderedMap<V> {
    /// The hash table knows exactly the keys of the entries, each with its
    /// place.
    pub closed spec fn wf(&self) -> bool {
        &&& forall|i: int|
            0 <= i < self.slots@.len() ==> {
                &&& index_entries(self.index).contains_key(#[trigger] self.slots@[i].0)
                &&& index_entries(self.index)[self.slots@[i].0] == i
            }
        &&& forall|k: H256| #[trigger]
            index_entries(self.index).contains_key(k) ==> {
                &&& index_entries(self.index)[k] < self.slots@.len()
                &&& self.slots@[index_entries(self.index)[k] as int].0 == k
            }
    }

    /// The entries of a well-formed map are well formed.
    pub proof fn lemma_wf(&self)
        requires
            self.wf(),
        ensures
            self@.wf(),
    {
        let v = self@;
        assert forall|i: int, j: int|
            0 <= i < v.order.len() && 0 <= j < v.order.len() && i != j implies v.order[i]
            != v.order[j] by {
            assert(index_entries(self.index)[self.slots@[i].0] == i);
            assert(index_entries(self.index)[self.slots@[j].0] == j);
        }
        assert forall|k: H256| v.map.contains_key(k) <==> #[trigger] v.order.contains(k) by {
            if v.map.contains_key(k) {
                assert(index_entries(self.index).contains_key(k));
                assert(v.order[index_entries(self.index)[k] as int] == k);
            }
            if v.order.contains(k) {
                let i = choose|i: int| 0 <= i < v.order.len() && v.order[i] == k;
                assert(self.slots@[i].0 == k);
            }
        }
    }

    /// A map that holds nothing.
    pub fn new() -> (m: OrderedMap<V>)
        ensures
            m.wf(),
            m@ == Entries::<V>::empty(),
    {
        let m = OrderedMap { slots: Vec::new(), index: index_new() };
        assert(m@.map =~= Map::empty());
        assert(m@.order =~= Seq::empty());
        m
    }

    /// The number of entries.
    pub fn len(&self) -> (n: usize)
        ensures
            n == self@.order.len(),
    {
        self.slots.len()
    }

    /// Whether the map holds nothing.
    pub fn is_empty(&self) -> (empty: bool)
        ensures
            empty == (self@.order.len() == 0),
    {
        self.slots.len() == 0
    }

    /// The place of `key` in the insertion order.
    pub fn position(&self, key: &H256) -> (place: Option<usize>)
        requires
            self.wf(),
        ensures
            match place {
                Some(i) => self@.map.contains_key(*key) && i < self@.order.len()
                    && self@.order[i as int]
                    == *key && self@.order.index_of(*key) == i,
                None => !self@.map.contains_key(*key),
            },
    {
        let place = index_get(&self.index, key);
        proof {
            self.lemma_wf();
            if let Some(i) = place {
                assert(self@.order[i as int] == *key);
                assert(self@.order.contains(*key));
                let j = self@.order.index_of(*key);
                assert(0 <= j < self@.order.len() && self@.order[j] == *key);
            }
        }
        place
    }

    /// Whether the map holds a value under `key`.
    pub fn contains_key(&self, key: &H256) -> (present: bool)
        ensures
            present == self@.map.contains_key(*key),
    {
        index_get(&self.index, key).is_some()
    }

    /// The value under `key`, if there is one.
    pub fn get(&self, key: &H256) -> (value: Option<&V>)
        requires
            self.wf(),
        ensures
            match value {
                Some(v) => self@.map.contains_key(*key) && *v == self@.map[*key],
                None => !self@.map.contains_key(*key),
            },
    {
        match index_get(&self.index, key) {
            Some(i) => Some(&self.slots[i].1),
            None => None,
        }
    }

    /// The key at place `i` of the insertion order.
    pub fn key_at(&self, i: usize) -> (key: H256)
        requires
            self.wf(),
            i < self@.order.len(),
        ensures
            key == self@.order[i as int],
            self@.map.contains_key(key),
    {
        self.slots[i].0
    }

    /// The value at place `i` of the insertion order.
    pub fn value_at(&self, i: usize) -> (value: &V)
        requires
            self.wf(),
            i < self@.order.len(),
        ensures
            self@.map.contains_key(self@.order[i as int]),
            *value == self@.map[self@.order[i as int]],
    {
        &self.slots[i].1
    }

    /// Puts `value` at place `i` and hands back what was there.
    pub fn replace_at(&mut self, i: usize, value: V) -> (previous: V)
        requires
            old(self).wf(),
            i < old(self)@.order.len(),
        ensures
            old(self)@.map.contains_key(old(self)@.order[i as int]),
            previous == old(self)@.map[old(self)@.order[i as int]],
            final(self).wf(),
            final(self)@ == old(self)@.insert(old(self)@.order[i as int], value),
    {
        let ghost before = *self;
        let mut held = value;
        std::mem::swap(&mut self.slots[i].1, &mut held);
        proof {
            let key = before@.order[i as int];
            assert(self.slots@ == before.slots@.update(i as int, (key, value)));
            assert(self@.order =~= before@.order);
            assert(self@.map =~= before@.map.insert(key, value));
        }
        held
    }

    /// Stores `value` under `key`.
    pub fn insert(&mut self, key: H256, value: V)
        requires
            old(self).wf(),
        ensures
            final(self).wf(),
            final(self)@ == old(self)@.insert(key, value),
    {
        let ghost before = *self;
        match index_get(&self.index, &key) {
            Some(i) => {
                self.slots.set(i, (key, value));
                proof {
                    assert(self@.order =~= before@.order);
                    assert(self@.map =~= before@.map.insert(key, value));
                }
            },
            None => {
                let n = self.slots.len();
                self.slots.push((key, value));
                index_insert(&mut self.index, &key, n);
                proof {
                    assert(self@.order =~= before@.order.push(key));
                    assert(self@.map =~= before@.map.insert(key, value));
                }
            },
        }
    }

    /// Takes the entry of `key` out, if there is one.
    pub fn remove(&mut self, key: &H256) -> (value: Option<V>)
        requires
            old(self).wf(),
        ensures
            final(self).wf(),
            final(self)@ == old(self)@.remove(*key),
            value == old(self)@.map.get(*key),
    {
        let ghost before = *self;
        match self.position(key) {
            None => None,
            Some(at) => {
                index_remove(&mut self.index, key);
                let taken = self.slots.remove(at);
                let n = self.slots.len();
                let mut j: usize = at;
                while j < n
                    invariant
                        before.wf(),
                        at <= j <= n,
                        n == self.slots@.len(),
                        n + 1 == before.slots@.len(),
                        self.slots@ == before.slots@.remove(at as int),
                        before.slots@[at as int].0 == *key,
                        index_entries(self.index).dom() =~= index_entries(before.index).dom().remove(
                            *key,
                        ),
                        forall|p: int|
                            0 <= p < j ==> index_entries(self.index)[#[trigger] self.slots@[p].0]
                                == p,
                        forall|p: int|
                            j <= p < n ==> index_entries(self.index)[#[trigger] self.slots@[p].0]
                                == p + 1,
                    decreases n - j,
                {
                    let k = self.slots[j].0;
                    let ghost prior = index_entries(self.index);
                    proof {
                        assert(before.slots@[j + 1].0 == k);
                        assert(index_entries(before.index).contains_key(before.slots@[j + 1].0));
                        assert(k != *key) by {
                            assert(index_entries(before.index)[before.slots@[j + 1].0] == j + 1);
                            assert(index_entries(before.index)[before.slots@[at as int].0] == at);
                        }
                    }
                    index_insert(&mut self.index, &k, j);
                    proof {
                        assert forall|p: int| 0 <= p < j + 1
                            implies index_entries(self.index)[#[trigger] self.slots@[p].0]
                            == p by {
                            if p < j {
                                assert(prior[self.slots@[p].0] == p);
                                assert(self.slots@[p].0 != k) by {
                                    let op = if p < at { p } else { p + 1 };
                                    assert(before.slots@[op].0 == self.slots@[p].0);
                                    assert(index_entries(before.index)[before.slots@[op].0] == op);
                                    assert(index_entries(before.index)[before.slots@[j + 1].0] == j
                                        + 1);
                                }
                            }
                        }
                        assert forall|p: int| j + 1 <= p < n
                            implies index_entries(self.index)[#[trigger] self.slots@[p].0]
                            == p + 1 by {
                            assert(prior[self.slots@[p].0] == p + 1);
                            assert(self.slots@[p].0 != k) by {
                                assert(before.slots@[p + 1].0 == self.slots@[p].0);
                                assert(index_entries(before.index)[before.slots@[p + 1].0]
                                    == p + 1);
                                assert(index_entries(before.index)[before.slots@[j + 1].0]
                                    == j + 1);
                            }
                        }
                    }
                    j += 1;
                }
                proof {
                    before.lemma_wf();
                    assert(before@.order[at as int] == *key);
                    assert forall|k: H256| #[trigger]
                        index_entries(self.index).contains_key(k) implies index_entries(
                        self.index,
                    )[k] < self.slots@.len() && self.slots@[index_entries(self.index)[k] as int].0
                        == k by {
                        assert(index_entries(before.index).contains_key(k));
                        let op = index_entries(before.index)[k] as int;
                        assert(before.slots@[op].0 == k);
                        assert(op != at);
                        let p = if op < at { op } else { op - 1 };
                        assert(self.slots@[p].0 == k);
                    }
                    assert forall|i: int| 0 <= i < self.slots@.len() implies index_entries(
                        self.index,
                    ).contains_key(#[trigger] self.slots@[i].0) by {
                        let oi = if i < at { i } else { i + 1 };
                        assert(before.slots@[oi].0 == self.slots@[i].0);
                        assert(index_entries(before.index).contains_key(before.slots@[oi].0));
                        assert(index_entries(before.index)[before.slots@[oi].0] == oi);
                        assert(index_entries(before.index)[before.slots@[at as int].0] == at);
                    }
                    assert(self@.order =~= before@.order.remove(at as int));
                    assert(self@.map =~= before@.map.remove(*key)) by {
                        assert forall|k: H256| self@.map.contains_key(k) implies self@.map[k]
                            == before@.map[k] by {
                            let op = index_entries(before.index)[k] as int;
                            assert(before.slots@[op].0 == k);
                            let p = if op < at { op } else { op - 1 };
                            assert(self.slots@[p].0 == k);
                            assert(index_entries(self.index)[self.slots@[p].0] == p);
                        }
                    }
                }
                Some(taken.1)
            },
        }
    }
}

/// A set of hashes that remembers the order in which its members came.
pub type OrderedSet = OrderedMap<()>;

} // verus!

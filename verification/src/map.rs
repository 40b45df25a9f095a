use vstd::prelude::*;
use core::marker::PhantomData;
use core::hash::{Hash, Hasher};
use std::collections::hash_map::DefaultHasher;
use crate::entry::{Entry, OccupiedEntry, VacantEntry};
use crate::model::{
    key_eq, obeys_key_eq, keys_distinct, has_key, position, lookup, view_of, set_value,
    insert_equiv, remove_equiv, live_keys, lemma_position, lemma_lookup_absent, lemma_view_lookup,
    lemma_update, lemma_set_value,
};

verus! {

/// A key and its value; the value is `None` once it was taken out.
pub(crate) struct Node<K, V> {
    pub(crate) key: K,
    pub(crate) value: Option<V>,
}

/// A map that keeps its keys in the order of their first insertion.
/// Removing a key leaves its node in place without a value; giving the key a
/// value again puts it back in that place.
///
/// Keys are found by `==`. `H` names the hasher type that the map and its
/// entries carry in their types; lookups do not depend on it.
pub struct OrderedMap<K, V, H = DefaultHasher> {
    store: Vec<Node<K, V>>,
    hasher: PhantomData<H>,
}

impl<K: PartialEq, V, H> View for OrderedMap<K, V, H> {
    type V = Map<K, V>;

    /// The key-value mapping: every key maps to what looking it up finds.
    open spec fn view(&self) -> Map<K, V> {
        view_of(self.nodes())
    }
}

impl<K, V, H> OrderedMap<K, V, H> {
    /// The nodes, in order.
    pub closed spec fn nodes(self) -> Seq<(K, Option<V>)> {
        self.store@.map_values(|n: Node<K, V>| (n.key, n.value))
    }

    /// The keys that hold a value, in the order in which they were first inserted.
    pub fn keys(&self) -> (r: Vec<&K>)
        ensures
            r@.map_values(|k: &K| *k) == live_keys(self.nodes()),
    {
        let mut r: Vec<&K> = Vec::new();
        let n: usize = self.store.len();
        let mut i: usize = 0;
        while i < n
            invariant
                n == self.nodes().len(),
                i <= n,
                r@.map_values(|k: &K| *k) == live_keys(self.nodes().take(i as int)),
            decreases n - i,
        {
            proof {
                assert(self.nodes().take(i + 1).drop_last() =~= self.nodes().take(i as int));
            }
            if self.store[i].value.is_some() {
                r.push(&self.store[i].key);
            }
            proof {
                assert(r@.map_values(|k: &K| *k) =~= live_keys(self.nodes().take(i + 1)));
            }
            i = i + 1;
        }
        proof {
            assert(self.nodes().take(n as int) =~= self.nodes());
        }
        r
    }

    /// The number of nodes, including those whose value was taken out.
    pub fn len(&self) -> (n: usize)
        ensures
            n == self.nodes().len(),
    {
        self.store.len()
    }

    /// The key of the node at `i`.
    pub(crate) fn key_at(&self, i: usize) -> (r: &K)
        requires
            i < self.nodes().len(),
        ensures
            *r == self.nodes()[i as int].0,
    {
        &self.store[i].key
    }

    /// The value of the node at `i`, which holds one.
    pub(crate) fn value_at(&self, i: usize) -> (r: &V)
        requires
            i < self.nodes().len(),
            self.nodes()[i as int].1 is Some,
        ensures
            *r == self.nodes()[i as int].1.unwrap(),
    {
        self.store[i].value.as_ref().unwrap()
    }

    /// Mutable access to the value of the node at `i`, which holds one.
    pub(crate) fn value_mut_at(&mut self, i: usize) -> (r: &mut V)
        requires
            i < old(self).nodes().len(),
            old(self).nodes()[i as int].1 is Some,
        ensures
            *r == old(self).nodes()[i as int].1.unwrap(),
            final(self).nodes() == old(self).nodes().update(
                i as int,
                (old(self).nodes()[i as int].0, Some(*final(r))),
            ),
    {
        let r = self.store[i].value.as_mut().unwrap();
        r
    }

    /// Takes the value out of the node at `i`, which holds one; the node stays.
    pub(crate) fn take_at(&mut self, i: usize) -> (r: V)
        requires
            i < old(self).nodes().len(),
            old(self).nodes()[i as int].1 is Some,
        ensures
            r == old(self).nodes()[i as int].1.unwrap(),
            final(self).nodes() == old(self).nodes().update(
                i as int,
                (old(self).nodes()[i as int].0, None),
            ),
    {
        let r = self.store[i].value.take().unwrap();
        assert(self.nodes() =~= old(self).nodes().update(i as int, (old(self).nodes()[i as int].0, None)));
        r
    }

    /// Puts `key` in place of the key of the node at `i`, and returns the key it held.
    pub(crate) fn replace_key_at(&mut self, i: usize, key: K) -> (r: K)
        requires
            i < old(self).nodes().len(),
        ensures
            r == old(self).nodes()[i as int].0,
            final(self).nodes() == old(self).nodes().update(
                i as int,
                (key, old(self).nodes()[i as int].1),
            ),
    {
        let mut k = key;
        std::mem::swap(&mut self.store[i].key, &mut k);
        assert(self.nodes() =~= old(self).nodes().update(i as int, (key, old(self).nodes()[i as int].1)));
        k
    }
}

impl<K: PartialEq, V, H> OrderedMap<K, V, H> {
    /// Well-formedness: no two nodes hold keys equal to each other.
    pub open spec fn wf(self) -> bool {
        keys_distinct(self.nodes())
    }

    /// Creates an empty map.
    pub fn new() -> (m: Self)
        ensures
            m.nodes() == Seq::<(K, Option<V>)>::empty(),
            m.wf(),
            m@ == Map::<K, V>::empty(),
    {
        let m = OrderedMap { store: Vec::new(), hasher: PhantomData };
        assert(m.nodes() =~= Seq::<(K, Option<V>)>::empty());
        assert(m@ =~= Map::<K, V>::empty());
        m
    }

    /// The position of the node whose key is equal to `key`, if there is one.
    fn find(&self, key: &K) -> (r: Option<usize>)
        requires
            obeys_key_eq::<K>(),
        ensures
            match r {
                Some(i) => i < self.nodes().len() && key_eq(self.nodes()[i as int].0, *key),
                None => !has_key(self.nodes(), *key),
            },
    {
        let n: usize = self.store.len();
        let mut i: usize = 0;
        while i < n
            invariant
                n == self.store@.len(),
                i <= n,
                obeys_key_eq::<K>(),
                forall|j: int| 0 <= j < i ==> !key_eq(self.nodes()[j].0, *key),
            decreases n - i,
        {
            if self.store[i].key == *key {
                return Some(i);
            }
            i = i + 1;
        }
        None
    }

    /// Gives `key` the value `value`: a node whose key is equal to `key` keeps its
    /// key and gets the value; otherwise a node is appended. Returns that node's
    /// position and the value it held before.
    pub(crate) fn insert_at(&mut self, key: K, value: V) -> (r: (usize, Option<V>))
        requires
            obeys_key_eq::<K>(),
            old(self).wf(),
        ensures
            final(self).wf(),
            final(self)@ == insert_equiv(old(self)@, key, value),
            final(self).nodes() == set_value(old(self).nodes(), key, value),
            r.0 < final(self).nodes().len(),
            final(self).nodes()[r.0 as int].1 == Some(value),
            r.1 == lookup(old(self).nodes(), key),
            has_key(old(self).nodes(), key) ==> r.0 == position(old(self).nodes(), key),
            !has_key(old(self).nodes(), key) ==> r.0 == old(self).nodes().len(),
    {
        proof {
            lemma_set_value(old(self).nodes(), key, value);
        }
        match self.find(&key) {
            Some(i) => {
                proof {
                    lemma_position(old(self).nodes(), i as int, key);
                }
                let mut old_value = Some(value);
                std::mem::swap(&mut self.store[i].value, &mut old_value);
                assert(self.nodes() =~= old(self).nodes().update(
                    i as int,
                    (old(self).nodes()[i as int].0, Some(value)),
                ));
                (i, old_value)
            },
            None => {
                let n: usize = self.store.len();
                self.store.push(Node { key, value: Some(value) });
                assert(self.nodes() =~= old(self).nodes().push((key, Some(value))));
                (n, None)
            },
        }
    }
}

impl<K: Eq + Hash, V, H> OrderedMap<K, V, H> {
    /// Inserts a key-value pair and returns the value the key had before, if any.
    /// A key equal to one that has a node keeps that node (and its stored key);
    /// a key new to the map goes after all others.
    pub fn insert(&mut self, key: K, value: V) -> (r: Option<V>)
        requires
            obeys_key_eq::<K>(),
            old(self).wf(),
        ensures
            final(self).wf(),
            final(self)@ == insert_equiv(old(self)@, key, value),
            final(self).nodes() == set_value(old(self).nodes(), key, value),
            r == old(self)@.get(key),
    {
        proof {
            lemma_view_lookup(old(self).nodes(), key);
        }
        let (_, r) = self.insert_at(key, value);
        r
    }

    /// A reference to the value of `key`, if it has one.
    pub fn get(&self, key: &K) -> (r: Option<&V>)
        requires
            obeys_key_eq::<K>(),
            self.wf(),
        ensures
            match r {
                Some(v) => self@.contains_key(*key) && *v == self@[*key],
                None => !self@.contains_key(*key),
            },
    {
        proof {
            lemma_view_lookup(self.nodes(), *key);
        }
        match self.find(key) {
            Some(i) => {
                proof {
                    lemma_position(self.nodes(), i as int, *key);
                }
                self.store[i].value.as_ref()
            },
            None => None,
        }
    }

    /// Whether `key` has a value in the map.
    pub fn contains_key(&self, key: &K) -> (r: bool)
        requires
            obeys_key_eq::<K>(),
            self.wf(),
        ensures
            r == self@.contains_key(*key),
    {
        match self.get(key) {
            Some(_) => true,
            None => false,
        }
    }

    /// Removes the value of `key` and returns it; the key keeps its node.
    pub fn remove(&mut self, key: &K) -> (r: Option<V>)
        requires
            obeys_key_eq::<K>(),
            old(self).wf(),
        ensures
            final(self).wf(),
            final(self)@ == remove_equiv(old(self)@, *key),
            r == old(self)@.get(*key),
            final(self).nodes() == (if old(self)@.contains_key(*key) {
                old(self).nodes().update(
                    position(old(self).nodes(), *key),
                    (old(self).nodes()[position(old(self).nodes(), *key)].0, None),
                )
            } else {
                old(self).nodes()
            }),
    {
        proof {
            lemma_view_lookup(old(self).nodes(), *key);
        }
        match self.find(key) {
            Some(i) => {
                proof {
                    crate::model::lemma_key_eq::<K>();
                    lemma_position(old(self).nodes(), i as int, *key);
                    lemma_update(old(self).nodes(), i as int, old(self).nodes()[i as int].0, None);
                    assert(remove_equiv(old(self)@, old(self).nodes()[i as int].0) =~= remove_equiv(
                        old(self)@,
                        *key,
                    ));
                }
                if self.store[i].value.is_some() {
                    let v = self.take_at(i);
                    Some(v)
                } else {
                    proof {
                        assert(old(self).nodes().update(
                            i as int,
                            (old(self).nodes()[i as int].0, None),
                        ) =~= old(self).nodes());
                    }
                    None
                }
            },
            None => {
                proof {
                    crate::model::lemma_key_eq::<K>();
                    let s = old(self).nodes();
                    assert forall|k2: K| key_eq(k2, *key) implies !old(self)@.contains_key(k2) by {
                        lemma_view_lookup(s, k2);
                        if has_key(s, k2) {
                            let j = position(s, k2);
                            assert(key_eq(s[j].0, k2));
                            assert(key_eq(s[j].0, *key));
                        }
                    }
                    assert(remove_equiv(old(self)@, *key) =~= old(self)@);
                }
                None
            },
        }
    }
}

impl<K: Eq + Hash + Clone, V, H: Hasher + Default> OrderedMap<K, V, H> {
    /// Gets the entry of `key` for in-place manipulation: occupied when a key
    /// equal to it has a value, vacant otherwise.
    pub fn entry<'a>(&'a mut self, key: K) -> (e: Entry<'a, K, V, H>)
        requires
            obeys_key_eq::<K>(),
            old(self).wf(),
        ensures
            e.wf(),
            e.lookup_key() == key,
            e is Occupied == old(self)@.contains_key(key),
            e.value() == old(self)@.get(key),
            e matches Entry::Occupied(o) ==> o.index() == position(old(self).nodes(), key),
            *e.map_ref() == *old(self),
            *final(e.map_ref()) == *final(self),
    {
        proof {
            lemma_view_lookup(self.nodes(), key);
        }
        match self.find(&key) {
            Some(i) => {
                proof {
                    lemma_position(self.nodes(), i as int, key);
                }
                if self.store[i].value.is_some() {
                    Entry::Occupied(OccupiedEntry::new(i, key, self))
                } else {
                    Entry::Vacant(VacantEntry::new(key, self))
                }
            },
            None => {
                proof {
                    lemma_lookup_absent(self.nodes(), key);
                }
                Entry::Vacant(VacantEntry::new(key, self))
            },
        }
    }
}

}

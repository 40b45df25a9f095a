use vstd::prelude::*;
use core::hash::{Hash, Hasher};
use crate::map::OrderedMap;
use crate::model::{
    key_eq, obeys_key_eq, keys_distinct, lookup, view_of, set_value, insert_equiv, remove_equiv,
    lemma_key_eq, lemma_position, lemma_update, lemma_set_value, lemma_view_from_lookup,
};

verus! {

/// A view into a single entry in a map, which may either be vacant or occupied.
///
/// The entry borrows the map mutably. Its contracts speak of the map as it is
/// now (`*e.map_ref()`) and of the map as it will be once the borrow ends
/// (`*final(e.map_ref())`). When an entry ends without handing out a reference
/// that outlives it, the map is what the entry last held:
/// `group_entry_resolved` states this.
pub enum Entry<'a, K, V, H> {
    /// An occupied entry.
    Occupied(OccupiedEntry<'a, K, V, H>),
    /// A vacant entry.
    Vacant(VacantEntry<'a, K, V, H>),
}

/// A view into an occupied entry: a key of the map that holds a value.
pub struct OccupiedEntry<'a, K, V, H> {
    idx: usize,
    key: Option<K>,
    map: &'a mut OrderedMap<K, V, H>,
}

/// A view into a vacant entry: a key that has no value in the map.
pub struct VacantEntry<'a, K, V, H> {
    key: K,
    map: &'a mut OrderedMap<K, V, H>,
}

impl<'a, K, V, H> OccupiedEntry<'a, K, V, H> {
    /// The position of the entry's node in the map.
    pub closed spec fn index(self) -> int {
        self.idx as int
    }

    /// The key with which the entry was looked up.
    pub closed spec fn lookup_key(self) -> Option<K> {
        self.key
    }

    /// The borrowed map.
    pub closed spec fn map_ref(self) -> &'a mut OrderedMap<K, V, H> {
        self.map
    }

    /// The key as stored in the map.
    pub open spec fn spec_key(self) -> K {
        (*self.map_ref()).nodes()[self.index()].0
    }

    /// The value the key holds now.
    pub open spec fn value(self) -> V {
        (*self.map_ref()).nodes()[self.index()].1.unwrap()
    }
}

impl<'a, K: PartialEq, V, H> OccupiedEntry<'a, K, V, H> {
    /// The entry points at a node of a well-formed map that holds a value, under
    /// a key equal to the one it was looked up with.
    pub open spec fn wf(self) -> bool {
        &&& obeys_key_eq::<K>()
        &&& (*self.map_ref()).wf()
        &&& 0 <= self.index() < (*self.map_ref()).nodes().len()
        &&& (*self.map_ref()).nodes()[self.index()].1 is Some
        &&& self.lookup_key() is Some
        &&& key_eq(self.spec_key(), self.lookup_key().unwrap())
    }
}

/// Once an occupied entry has ended, the map is what the entry last held.
pub broadcast proof fn lemma_occupied_resolved<'a, K, V, H>(e: OccupiedEntry<'a, K, V, H>)
    ensures
        #[trigger] has_resolved(e) ==> *e.map_ref() == *final(e.map_ref()),
{
}

impl<'a, K, V, H> VacantEntry<'a, K, V, H> {
    /// The key that a value would be inserted under.
    pub closed spec fn spec_key(self) -> K {
        self.key
    }

    /// The borrowed map.
    pub closed spec fn map_ref(self) -> &'a mut OrderedMap<K, V, H> {
        self.map
    }
}

impl<'a, K: PartialEq, V, H> VacantEntry<'a, K, V, H> {
    /// The map is well formed and the key has no value in it.
    pub open spec fn wf(self) -> bool {
        &&& obeys_key_eq::<K>()
        &&& (*self.map_ref()).wf()
        &&& !(*self.map_ref())@.contains_key(self.spec_key())
    }
}

/// Once a vacant entry has ended, the map is what the entry last held.
pub broadcast proof fn lemma_vacant_resolved<'a, K, V, H>(e: VacantEntry<'a, K, V, H>)
    ensures
        #[trigger] has_resolved(e) ==> *e.map_ref() == *final(e.map_ref()),
{
}

impl<'a, K, V, H> Entry<'a, K, V, H> {
    /// The key of the entry: the stored key when occupied, the given key when vacant.
    pub open spec fn spec_key(self) -> K {
        match self {
            Entry::Occupied(o) => o.spec_key(),
            Entry::Vacant(v) => v.spec_key(),
        }
    }

    /// The key with which the entry was looked up.
    pub open spec fn lookup_key(self) -> K {
        match self {
            Entry::Occupied(o) => o.lookup_key().unwrap(),
            Entry::Vacant(v) => v.spec_key(),
        }
    }

    /// The value the key holds now, if any.
    pub open spec fn value(self) -> Option<V> {
        match self {
            Entry::Occupied(o) => Some(o.value()),
            Entry::Vacant(_) => None,
        }
    }

    /// The borrowed map.
    pub open spec fn map_ref(self) -> &'a mut OrderedMap<K, V, H> {
        match self {
            Entry::Occupied(o) => o.map_ref(),
            Entry::Vacant(v) => v.map_ref(),
        }
    }
}

impl<'a, K: PartialEq, V, H> Entry<'a, K, V, H> {
    /// The entry is well formed.
    pub open spec fn wf(self) -> bool {
        match self {
            Entry::Occupied(o) => o.wf(),
            Entry::Vacant(v) => v.wf(),
        }
    }
}

/// Once an entry has ended, the map is what the entry last held.
pub broadcast proof fn lemma_entry_resolved<'a, K, V, H>(e: Entry<'a, K, V, H>)
    ensures
        #[trigger] has_resolved(e) ==> *e.map_ref() == *final(e.map_ref()),
{
    match e {
        Entry::Occupied(o) => lemma_occupied_resolved(o),
        Entry::Vacant(v) => lemma_vacant_resolved(v),
    }
}

/// What holds of every entry once it has ended.
pub broadcast group group_entry_resolved {
    lemma_occupied_resolved,
    lemma_vacant_resolved,
    lemma_entry_resolved,
}

impl<'a, K, V, H> OccupiedEntry<'a, K, V, H> where K: Clone + PartialEq {
    /// Creates the entry for the node at `idx`, which holds a value under a key
    /// equal to `key`.
    pub fn new(idx: usize, key: K, map: &'a mut OrderedMap<K, V, H>) -> (r: Self)
        requires
            obeys_key_eq::<K>(),
            old(map).wf(),
            idx < old(map).nodes().len(),
            old(map).nodes()[idx as int].1 is Some,
            key_eq(old(map).nodes()[idx as int].0, key),
        ensures
            r.wf(),
            r.index() == idx,
            r.lookup_key() == Some(key),
            *r.map_ref() == *old(map),
            *final(r.map_ref()) == *final(map),
    {
        Self { idx, key: Some(key), map }
    }

    /// Gets a reference to the key as stored in the map.
    pub fn key(&self) -> (r: &K)
        requires
            self.wf(),
        ensures
            *r == self.spec_key(),
    {
        self.map.key_at(self.idx)
    }

    /// Takes the key and the value out of the map: the key is a clone of the
    /// stored one, the value is the one the key held. The node stays, without
    /// a value.
    pub fn remove_entry(self) -> (r: (K, V))
        requires
            self.wf(),
        ensures
            cloned(self.spec_key(), r.0),
            r.1 == self.value(),
            (*final(self.map_ref())).wf(),
            (*final(self.map_ref()))@ == remove_equiv((*old(self.map_ref()))@, self.spec_key()),
            (*final(self.map_ref())).nodes() == (*old(self.map_ref())).nodes().update(
                self.index(),
                (self.spec_key(), None),
            ),
    {
        proof {
            lemma_update((*self.map).nodes(), self.idx as int, self.spec_key(), None);
        }
        let k = self.map.key_at(self.idx).clone();
        let v = self.map.take_at(self.idx);
        (k, v)
    }

    /// Gets a reference to the value in the entry.
    pub fn get(&self) -> (r: &V)
        requires
            self.wf(),
        ensures
            *r == self.value(),
    {
        self.map.value_at(self.idx)
    }

    /// Gets a mutable reference to the value in the entry; the entry stays usable.
    pub fn get_mut(&mut self) -> (r: &mut V)
        requires
            old(self).wf(),
        ensures
            *r == old(self).value(),
            final(self).wf(),
            final(self).index() == old(self).index(),
            final(self).lookup_key() == old(self).lookup_key(),
            (*final(self).map_ref()).nodes() == (*old(self).map_ref()).nodes().update(
                old(self).index(),
                (old(self).spec_key(), Some(*final(r))),
            ),
            final(self).value() == *final(r),
            (*final(self).map_ref())@ == insert_equiv(
                (*old(self).map_ref())@,
                old(self).spec_key(),
                *final(r),
            ),
            *final(final(self).map_ref()) == *final(old(self).map_ref()),
    {
        let ghost nodes = (*self.map).nodes();
        let ghost i = self.idx as int;
        let r = self.map.value_mut_at(self.idx);
        proof {
            lemma_update(nodes, i, nodes[i].0, Some(*final(r)));
        }
        r
    }

    /// Converts the entry into a mutable reference to its value, which lives
    /// as long as the borrow of the map.
    pub fn into_mut(self) -> (r: &'a mut V)
        requires
            self.wf(),
        ensures
            *r == self.value(),
            (*final(self.map_ref())).wf(),
            (*final(self.map_ref()))@ == insert_equiv(
                (*old(self.map_ref()))@,
                self.spec_key(),
                *final(r),
            ),
            (*final(self.map_ref())).nodes() == (*old(self.map_ref())).nodes().update(
                self.index(),
                (self.spec_key(), Some(*final(r))),
            ),
    {
        let ghost nodes = (*self.map).nodes();
        let ghost i = self.idx as int;
        let r = self.map.value_mut_at(self.idx);
        proof {
            lemma_update(nodes, i, nodes[i].0, Some(*final(r)));
        }
        r
    }

    /// Sets the value of the entry, and returns the entry's old value.
    pub fn insert(&mut self, value: V) -> (r: V)
        requires
            old(self).wf(),
        ensures
            r == old(self).value(),
            final(self).wf(),
            final(self).value() == value,
            final(self).index() == old(self).index(),
            final(self).lookup_key() == old(self).lookup_key(),
            (*final(self).map_ref())@ == insert_equiv(
                (*old(self).map_ref())@,
                old(self).spec_key(),
                value,
            ),
            (*final(self).map_ref()).nodes() == (*old(self).map_ref()).nodes().update(
                old(self).index(),
                (old(self).spec_key(), Some(value)),
            ),
            *final(final(self).map_ref()) == *final(old(self).map_ref()),
    {
        let mut value = value;
        let old_value = self.get_mut();
        std::mem::swap(&mut value, old_value);
        value
    }

    /// Takes the value out of the entry, and returns it.
    pub fn remove(self) -> (r: V)
        requires
            self.wf(),
        ensures
            r == self.value(),
            (*final(self.map_ref())).wf(),
            (*final(self.map_ref()))@ == remove_equiv((*old(self.map_ref()))@, self.spec_key()),
            (*final(self.map_ref())).nodes() == (*old(self.map_ref())).nodes().update(
                self.index(),
                (self.spec_key(), None),
            ),
    {
        self.remove_entry().1
    }

    /// Replaces the entry, returning the old key and value. The key in the map
    /// becomes the key the entry was looked up with.
    pub fn replace_entry(self, value: V) -> (r: (K, V))
        requires
            self.wf(),
        ensures
            r == (self.spec_key(), self.value()),
            (*final(self.map_ref())).wf(),
            (*final(self.map_ref()))@ == insert_equiv(
                (*old(self.map_ref()))@,
                self.spec_key(),
                value,
            ),
            (*final(self.map_ref())).nodes() == (*old(self.map_ref())).nodes().update(
                self.index(),
                (self.lookup_key().unwrap(), Some(value)),
            ),
    {
        let ghost nodes = (*self.map).nodes();
        let ghost new_value = value;
        let ghost new_key = self.key.unwrap();
        proof {
            lemma_key_eq::<K>();
            lemma_update(nodes, self.idx as int, new_key, Some(value));
        }
        let OccupiedEntry { idx, key, map } = self;
        let mut value = value;
        let cur_val = map.value_mut_at(idx);
        std::mem::swap(cur_val, &mut value);
        let old_key = map.replace_key_at(idx, key.unwrap());
        proof {
            assert(map.nodes() == nodes.update(idx as int, (new_key, Some(new_value))));
        }
        (old_key, value)
    }

    /// Replaces the key in the map with the key the entry was looked up with,
    /// and returns the key it held. The mapping is unchanged.
    pub fn replace_key(self) -> (r: K)
        requires
            self.wf(),
        ensures
            r == self.spec_key(),
            (*final(self.map_ref())).nodes() == (*old(self.map_ref())).nodes().update(
                self.index(),
                (self.lookup_key().unwrap(), Some(self.value())),
            ),
            (*final(self.map_ref())).wf(),
            (*final(self.map_ref()))@ == (*old(self.map_ref()))@,
    {
        let ghost nodes = (*self.map).nodes();
        let ghost i = self.idx as int;
        let ghost new_key = self.key.unwrap();
        proof {
            lemma_key_eq::<K>();
            lemma_update(nodes, i, new_key, nodes[i].1);
            assert forall|k: K| #[trigger] lookup(nodes.update(i, (new_key, nodes[i].1)), k)
                == view_of(nodes).get(k) by {
                if key_eq(k, nodes[i].0) {
                    assert(key_eq(nodes[i].0, k));
                    lemma_position(nodes, i, k);
                }
            }
            lemma_view_from_lookup(nodes.update(i, (new_key, nodes[i].1)), view_of(nodes));
        }
        let OccupiedEntry { idx, key, map } = self;
        let old_key = map.replace_key_at(idx, key.unwrap());
        old_key
    }
}

impl<'a, K, V, H> VacantEntry<'a, K, V, H> where H: Hasher + Default {
    /// Gets a reference to the key that would be used when inserting a value
    /// through the entry.
    pub fn key(&self) -> (r: &K)
        ensures
            *r == self.spec_key(),
    {
        &self.key
    }

    /// Takes ownership of the key; the map is left as it was.
    pub fn into_key(self) -> (r: K)
        ensures
            r == self.spec_key(),
            *final(self.map_ref()) == *old(self.map_ref()),
    {
        self.key
    }
}

impl<'a, K, V, H> VacantEntry<'a, K, V, H> where K: PartialEq, H: Hasher + Default {
    /// Creates the entry for `key`, which has no value in `map`.
    pub fn new(key: K, map: &'a mut OrderedMap<K, V, H>) -> (r: Self)
        requires
            obeys_key_eq::<K>(),
            old(map).wf(),
            !old(map)@.contains_key(key),
        ensures
            r.wf(),
            r.spec_key() == key,
            *r.map_ref() == *old(map),
            *final(r.map_ref()) == *final(map),
    {
        Self { key, map }
    }

    /// Sets the value of the entry with the entry's key, and returns a mutable
    /// reference to it. Where a node with an equal key is left from a removal,
    /// that node gets the value; otherwise a node is appended.
    pub fn insert(self, value: V) -> (r: &'a mut V)
        where K: Eq + Hash,
        requires
            self.wf(),
        ensures
            *r == value,
            (*final(self.map_ref())).wf(),
            (*final(self.map_ref())).nodes() == set_value(
                (*old(self.map_ref())).nodes(),
                self.spec_key(),
                *final(r),
            ),
            (*final(self.map_ref()))@ == insert_equiv(
                (*old(self.map_ref()))@,
                self.spec_key(),
                *final(r),
            ),
    {
        let ghost nodes = (*self.map).nodes();
        let VacantEntry { key, map } = self;
        let (i, _) = map.insert_at(key, value);
        let r = map.value_mut_at(i);
        proof {
            let fr = *final(r);
            lemma_set_value(nodes, key, fr);
            assert(set_value(nodes, key, value).update(
                i as int,
                (set_value(nodes, key, value)[i as int].0, Some(fr)),
            ) =~= set_value(nodes, key, fr));
        }
        r
    }
}

impl<'a, K, V, H> Entry<'a, K, V, H> where K: Clone + PartialEq, H: Hasher + Default {
    /// Ensures a value is in the entry by inserting `default` if empty, and
    /// returns a mutable reference to the value in the entry.
    pub fn or_insert(self, default: V) -> (r: &'a mut V)
        where K: Eq + Hash,
        requires
            self.wf(),
        ensures
            *r == (match self.value() {
                Some(v) => v,
                None => default,
            }),
            (*final(self.map_ref())).wf(),
            (*final(self.map_ref())).nodes() == set_value(
                (*old(self.map_ref())).nodes(),
                self.spec_key(),
                *final(r),
            ),
            (*final(self.map_ref()))@ == insert_equiv(
                (*old(self.map_ref()))@,
                self.spec_key(),
                *final(r),
            ),
    {
        match self {
            Entry::Occupied(entry) => {
                let ghost nodes = (*entry.map_ref()).nodes();
                let ghost i = entry.index();
                let r = entry.into_mut();
                proof {
                    Self::lemma_occupied_set_value(nodes, i, *final(r));
                }
                r
            },
            Entry::Vacant(entry) => entry.insert(default),
        }
    }

    /// Ensures a value is in the entry by inserting the result of `default` if
    /// empty, and returns a mutable reference to the value in the entry.
    /// `default` is called only when the entry is vacant.
    pub fn or_insert_with<F: FnOnce() -> V>(self, default: F) -> (r: &'a mut V)
        where K: Eq + Hash,
        requires
            self.wf(),
            self.value() is None ==> default.requires(()),
        ensures
            match self.value() {
                Some(v) => *r == v,
                None => default.ensures((), *r),
            },
            (*final(self.map_ref())).wf(),
            (*final(self.map_ref())).nodes() == set_value(
                (*old(self.map_ref())).nodes(),
                self.spec_key(),
                *final(r),
            ),
            (*final(self.map_ref()))@ == insert_equiv(
                (*old(self.map_ref()))@,
                self.spec_key(),
                *final(r),
            ),
    {
        match self {
            Entry::Occupied(entry) => {
                let ghost nodes = (*entry.map_ref()).nodes();
                let ghost i = entry.index();
                let r = entry.into_mut();
                proof {
                    Self::lemma_occupied_set_value(nodes, i, *final(r));
                }
                r
            },
            Entry::Vacant(entry) => entry.insert(default()),
        }
    }

    /// Returns a reference to this entry's key: the stored key when occupied,
    /// the given key when vacant.
    pub fn key(&self) -> (r: &K)
        requires
            self.wf(),
        ensures
            *r == self.spec_key(),
    {
        match self {
            Entry::Occupied(entry) => entry.key(),
            Entry::Vacant(entry) => entry.key(),
        }
    }

    /// Provides in-place mutable access to an occupied entry before any
    /// potential inserts into the map. A vacant entry is returned as it is.
    pub fn and_modify<F>(self, f: F) -> (r: Self)
        where F: FnOnce(&mut V),
        requires
            self.wf(),
            self is Occupied ==> forall|m: &mut V| Some(*m) == self.value() ==> f.requires((m,)),
        ensures
            r.wf(),
            r.spec_key() == self.spec_key(),
            r.lookup_key() == self.lookup_key(),
            r is Occupied == self is Occupied,
            *final(r.map_ref()) == *final(self.map_ref()),
            self is Vacant ==> r == self,
            self is Occupied ==> exists|m: &mut V|
                #![trigger f.ensures((m,), ())]
                Some(*m) == self.value() && Some(*final(m)) == r.value() && f.ensures((m,), ()),
            self is Occupied ==> (*r.map_ref()).nodes() == (*self.map_ref()).nodes().update(
                self->Occupied_0.index(),
                (self.spec_key(), r.value()),
            ),
            self is Occupied ==> (*r.map_ref())@ == insert_equiv(
                (*self.map_ref())@,
                self.spec_key(),
                r.value().unwrap(),
            ),
    {
        match self {
            Entry::Occupied(mut entry) => {
                f(entry.get_mut());
                Entry::Occupied(entry)
            },
            Entry::Vacant(entry) => Entry::Vacant(entry),
        }
    }

    /// Writing a new value into the node at `i` is giving its key that value.
    proof fn lemma_occupied_set_value(nodes: Seq<(K, Option<V>)>, i: int, v: V)
        requires
            obeys_key_eq::<K>(),
            keys_distinct(nodes),
            0 <= i < nodes.len(),
        ensures
            nodes.update(i, (nodes[i].0, Some(v))) == set_value(nodes, nodes[i].0, v),
            keys_distinct(set_value(nodes, nodes[i].0, v)),
            view_of(set_value(nodes, nodes[i].0, v)) == insert_equiv(view_of(nodes), nodes[i].0, v),
    {
        lemma_position(nodes, i, nodes[i].0);
        lemma_set_value(nodes, nodes[i].0, v);
    }
}

}

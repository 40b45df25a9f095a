use vstd::prelude::*;
use vstd::std_specs::cmp::PartialEqSpec;
use vstd::laws_eq::{obeys_eq, obeys_eq_spec_properties, obeys_concrete_eq};

verus! {

/// Two keys are equal as the executable `==` judges them.
pub open spec fn key_eq<K: PartialEq>(a: K, b: K) -> bool {
    a.eq_spec(&b)
}

/// `==` on `K` has a specification and is an equivalence relation
/// (reflexive, symmetric and transitive), as `Eq` documents.
pub open spec fn obeys_key_eq<K: PartialEq>() -> bool {
    &&& obeys_eq::<K>()
    &&& forall|x: K| #[trigger] key_eq(x, x)
}

/// The equivalence laws of `key_eq`, as quantified facts.
pub proof fn lemma_key_eq<K: PartialEq>()
    requires
        obeys_key_eq::<K>(),
    ensures
        forall|x: K| #[trigger] key_eq(x, x),
        forall|x: K, y: K| #[trigger] key_eq(x, y) ==> key_eq(y, x),
        forall|x: K, y: K, z: K| #[trigger] key_eq(x, y) && #[trigger] key_eq(y, z) ==> key_eq(x, z),
{
    reveal(obeys_eq_spec_properties);
}

/// Where `==` on `K` is equality of values (as for the integer types), it is an
/// equivalence relation.
pub proof fn lemma_concrete_key_eq<K: PartialEq>()
    requires
        obeys_concrete_eq::<K>(),
    ensures
        obeys_key_eq::<K>(),
        forall|x: K, y: K| #[trigger] key_eq(x, y) <==> x == y,
{
    reveal(obeys_concrete_eq);
    reveal(obeys_eq_spec_properties);
}

/// No two nodes hold keys that are equal to each other.
pub open spec fn keys_distinct<K: PartialEq, V>(s: Seq<(K, Option<V>)>) -> bool {
    forall|i: int, j: int|
        0 <= i < s.len() && 0 <= j < s.len() && i != j ==> !key_eq(s[i].0, s[j].0)
}

/// Some node holds a key equal to `k`, with or without a value.
pub open spec fn has_key<K: PartialEq, V>(s: Seq<(K, Option<V>)>, k: K) -> bool {
    exists|i: int| 0 <= i < s.len() && key_eq(s[i].0, k)
}

/// The position of the node whose key is equal to `k` (meaningful when
/// `has_key(s, k)`).
pub open spec fn position<K: PartialEq, V>(s: Seq<(K, Option<V>)>, k: K) -> int {
    choose|i: int| 0 <= i < s.len() && key_eq(s[i].0, k)
}

/// The value that looking up `k` finds.
pub open spec fn lookup<K: PartialEq, V>(s: Seq<(K, Option<V>)>, k: K) -> Option<V> {
    if has_key(s, k) {
        s[position(s, k)].1
    } else {
        None
    }
}

/// The key-value mapping that the nodes describe: every key maps to what
/// looking it up finds.
pub open spec fn view_of<K: PartialEq, V>(s: Seq<(K, Option<V>)>) -> Map<K, V> {
    Map::new(|k: K| lookup(s, k) is Some, |k: K| lookup(s, k).unwrap())
}

/// The nodes after giving key `k` the value `v`: a node whose key is equal to
/// `k` keeps its key and gets the value; otherwise a node is appended.
pub open spec fn set_value<K: PartialEq, V>(s: Seq<(K, Option<V>)>, k: K, v: V) -> Seq<(K, Option<V>)> {
    if has_key(s, k) {
        s.update(position(s, k), (s[position(s, k)].0, Some(v)))
    } else {
        s.push((k, Some(v)))
    }
}

/// The mapping `m` with every key equal to `k` mapped to `v`.
pub open spec fn insert_equiv<K: PartialEq, V>(m: Map<K, V>, k: K, v: V) -> Map<K, V> {
    Map::new(
        |k2: K| key_eq(k2, k) || m.contains_key(k2),
        |k2: K| if key_eq(k2, k) { v } else { m[k2] },
    )
}

/// The mapping `m` without the keys equal to `k`.
pub open spec fn remove_equiv<K: PartialEq, V>(m: Map<K, V>, k: K) -> Map<K, V> {
    Map::new(|k2: K| !key_eq(k2, k) && m.contains_key(k2), |k2: K| m[k2])
}

/// The keys that hold a value, in the order of their nodes.
pub open spec fn live_keys<K, V>(s: Seq<(K, Option<V>)>) -> Seq<K>
    decreases s.len(),
{
    if s.len() == 0 {
        Seq::empty()
    } else if s.last().1 is Some {
        live_keys(s.drop_last()).push(s.last().0)
    } else {
        live_keys(s.drop_last())
    }
}

/// Where `==` is equality of values, inserting and removing up to `==` are the
/// plain map operations.
pub proof fn lemma_concrete_map_ops<K: PartialEq, V>(m: Map<K, V>, k: K, v: V)
    requires
        obeys_concrete_eq::<K>(),
    ensures
        insert_equiv(m, k, v) == m.insert(k, v),
        remove_equiv(m, k) == m.remove(k),
{
    lemma_concrete_key_eq::<K>();
    assert(insert_equiv(m, k, v) =~= m.insert(k, v));
    assert(remove_equiv(m, k) =~= m.remove(k));
}

/// The node at `i` is the one found for every key equal to its key.
pub proof fn lemma_position<K: PartialEq, V>(s: Seq<(K, Option<V>)>, i: int, k: K)
    requires
        obeys_key_eq::<K>(),
        keys_distinct(s),
        0 <= i < s.len(),
        key_eq(s[i].0, k),
    ensures
        has_key(s, k),
        position(s, k) == i,
        lookup(s, k) == s[i].1,
{
    lemma_key_eq::<K>();
    let p = position(s, k);
    assert(key_eq(s[p].0, k));
    assert(key_eq(k, s[i].0));
    if p != i {
        assert(key_eq(s[p].0, s[i].0));
    }
}

/// A key that no node holds is not found.
pub proof fn lemma_lookup_absent<K: PartialEq, V>(s: Seq<(K, Option<V>)>, k: K)
    requires
        !has_key(s, k),
    ensures
        lookup(s, k) == None::<V>,
        !view_of(s).contains_key(k),
{
}

/// Whether a key is in the mapping, and what it maps to, is what looking it up finds.
pub proof fn lemma_view_lookup<K: PartialEq, V>(s: Seq<(K, Option<V>)>, k: K)
    ensures
        view_of(s).contains_key(k) == lookup(s, k) is Some,
        view_of(s).get(k) == lookup(s, k),
{
}

/// Two node sequences that agree on every lookup describe the same mapping.
pub proof fn lemma_view_from_lookup<K: PartialEq, V>(t: Seq<(K, Option<V>)>, m: Map<K, V>)
    requires
        forall|k: K| #[trigger] lookup(t, k) == m.get(k),
    ensures
        view_of(t) == m,
{
    assert forall|k: K| #[trigger] view_of(t).contains_key(k) == m.contains_key(k) by {
        assert(lookup(t, k) == m.get(k));
    }
    assert forall|k: K| view_of(t).contains_key(k) implies #[trigger] view_of(t)[k] == m[k] by {
        assert(lookup(t, k) == m.get(k));
    }
    assert(view_of(t) =~= m);
}

/// Putting at position `i` a key equal to the one there, with value `v`, keeps
/// the keys distinct, and changes only what the keys equal to it find.
pub proof fn lemma_update<K: PartialEq, V>(s: Seq<(K, Option<V>)>, i: int, key: K, v: Option<V>)
    requires
        obeys_key_eq::<K>(),
        keys_distinct(s),
        0 <= i < s.len(),
        key_eq(key, s[i].0),
    ensures
        keys_distinct(s.update(i, (key, v))),
        forall|k: K| #[trigger] lookup(s.update(i, (key, v)), k) == (if key_eq(k, s[i].0) {
            v
        } else {
            lookup(s, k)
        }),
        view_of(s.update(i, (key, v))) == (match v {
            Some(x) => insert_equiv(view_of(s), s[i].0, x),
            None => remove_equiv(view_of(s), s[i].0),
        }),
{
    lemma_key_eq::<K>();
    let t = s.update(i, (key, v));
    assert forall|a: int, b: int| 0 <= a < t.len() && 0 <= b < t.len() && a != b implies !key_eq(
        t[a].0,
        t[b].0,
    ) by {
        if a == i {
            if key_eq(key, s[b].0) {
                assert(key_eq(s[i].0, key));
                assert(key_eq(s[i].0, s[b].0));
            }
        } else if b == i {
            if key_eq(s[a].0, key) {
                assert(key_eq(s[a].0, s[i].0));
            }
        }
    }
    assert forall|k: K| #[trigger] lookup(t, k) == (if key_eq(k, s[i].0) {
        v
    } else {
        lookup(s, k)
    }) by {
        if key_eq(k, s[i].0) {
            assert(key_eq(key, k));
            lemma_position(t, i, k);
        } else {
            if has_key(s, k) {
                let j = position(s, k);
                assert(key_eq(s[j].0, k));
                if j == i {
                    assert(key_eq(k, s[i].0));
                }
                lemma_position(s, j, k);
                lemma_position(t, j, k);
            }
            if has_key(t, k) {
                let j = position(t, k);
                assert(key_eq(t[j].0, k));
                if j == i {
                    assert(key_eq(s[i].0, key));
                    assert(key_eq(s[i].0, k));
                    assert(key_eq(k, s[i].0));
                }
                lemma_position(t, j, k);
                lemma_position(s, j, k);
            }
        }
    }
    match v {
        Some(x) => {
            let m = insert_equiv(view_of(s), s[i].0, x);
            assert forall|k: K| #[trigger] lookup(t, k) == m.get(k) by {
                lemma_view_lookup(s, k);
            }
            lemma_view_from_lookup(t, m);
        },
        None => {
            let m = remove_equiv(view_of(s), s[i].0);
            assert forall|k: K| #[trigger] lookup(t, k) == m.get(k) by {
                lemma_view_lookup(s, k);
            }
            lemma_view_from_lookup(t, m);
        },
    }
}

/// Appending a node for a key that no node holds keeps the keys distinct and
/// maps the keys equal to it to `v`.
pub proof fn lemma_push<K: PartialEq, V>(s: Seq<(K, Option<V>)>, k: K, v: V)
    requires
        obeys_key_eq::<K>(),
        keys_distinct(s),
        !has_key(s, k),
    ensures
        keys_distinct(s.push((k, Some(v)))),
        forall|k2: K| #[trigger] lookup(s.push((k, Some(v))), k2) == (if key_eq(k2, k) {
            Some(v)
        } else {
            lookup(s, k2)
        }),
        view_of(s.push((k, Some(v)))) == insert_equiv(view_of(s), k, v),
{
    lemma_key_eq::<K>();
    let t = s.push((k, Some(v)));
    let n = s.len() as int;
    assert forall|a: int, b: int| 0 <= a < t.len() && 0 <= b < t.len() && a != b implies !key_eq(
        t[a].0,
        t[b].0,
    ) by {
        if a == n {
            if key_eq(k, s[b].0) {
                assert(key_eq(s[b].0, k));
            }
        } else if b == n {
            if key_eq(s[a].0, k) {
                assert(has_key(s, k));
            }
        }
    }
    assert forall|k2: K| #[trigger] lookup(t, k2) == (if key_eq(k2, k) {
        Some(v)
    } else {
        lookup(s, k2)
    }) by {
        if key_eq(k2, k) {
            assert(key_eq(k, k2));
            lemma_position(t, n, k2);
        } else {
            if has_key(s, k2) {
                let j = position(s, k2);
                lemma_position(s, j, k2);
                lemma_position(t, j, k2);
            }
            if has_key(t, k2) {
                let j = position(t, k2);
                if j == n {
                    assert(key_eq(k, k2));
                    assert(key_eq(k2, k));
                }
                lemma_position(t, j, k2);
                lemma_position(s, j, k2);
            }
        }
    }
    let m = insert_equiv(view_of(s), k, v);
    assert forall|k2: K| #[trigger] lookup(t, k2) == m.get(k2) by {
        lemma_view_lookup(s, k2);
    }
    lemma_view_from_lookup(t, m);
}

/// Giving `k` a value keeps the keys distinct; looking up a key equal to `k`
/// then finds `v`, and every other key finds what it found before.
pub proof fn lemma_set_value<K: PartialEq, V>(s: Seq<(K, Option<V>)>, k: K, v: V)
    requires
        obeys_key_eq::<K>(),
        keys_distinct(s),
    ensures
        keys_distinct(set_value(s, k, v)),
        forall|k2: K| #[trigger] lookup(set_value(s, k, v), k2) == (if key_eq(k2, k) {
            Some(v)
        } else {
            lookup(s, k2)
        }),
        view_of(set_value(s, k, v)) == insert_equiv(view_of(s), k, v),
{
    lemma_key_eq::<K>();
    if has_key(s, k) {
        let p = position(s, k);
        assert(key_eq(s[p].0, k));
        lemma_update(s, p, s[p].0, Some(v));
        assert forall|k2: K| key_eq(k2, k) == key_eq(k2, s[p].0) by {
            if key_eq(k2, k) {
                assert(key_eq(k, s[p].0));
            }
        }
        assert(insert_equiv(view_of(s), s[p].0, v) =~= insert_equiv(view_of(s), k, v));
    } else {
        lemma_push(s, k, v);
    }
}

}

use vstd::prelude::*;
use crate::model::{
    key_eq, obeys_key_eq, keys_distinct, has_key, position, lookup, view_of, set_value, live_keys,
    lemma_key_eq, lemma_position, lemma_update, lemma_set_value, lemma_view_lookup,
    lemma_view_from_lookup,
};

verus! {

/// Giving a key a value (what `or_insert`, `or_insert_with`, `VacantEntry::insert`
/// and `OrderedMap::insert` do to the nodes) keeps every stored key at its
/// position, and places a key that no node holds after all others.
pub proof fn law_insertion_order<K: PartialEq, V>(s: Seq<(K, Option<V>)>, k: K, v: V)
    requires
        obeys_key_eq::<K>(),
        keys_distinct(s),
    ensures
        set_value(s, k, v).len() == s.len() + (if has_key(s, k) { 0int } else { 1int }),
        forall|i: int| 0 <= i < s.len() ==> #[trigger] set_value(s, k, v)[i].0 == s[i].0,
        !has_key(s, k) ==> set_value(s, k, v)[s.len() as int] == (k, Some(v)),
        has_key(s, k) ==> set_value(s, k, v)[position(s, k)].1 == Some(v),
{
}

/// Taking a value out of the map (what `remove`, `remove_entry` and
/// `OrderedMap::remove` do) keeps every key at its position: only the value
/// goes, and the key is no longer mapped.
pub proof fn law_removal_keeps_order<K: PartialEq, V>(s: Seq<(K, Option<V>)>, i: int)
    requires
        obeys_key_eq::<K>(),
        keys_distinct(s),
        0 <= i < s.len(),
    ensures
        s.update(i, (s[i].0, None)).len() == s.len(),
        forall|j: int| 0 <= j < s.len() ==> #[trigger] s.update(i, (s[i].0, None))[j].0 == s[j].0,
        keys_distinct(s.update(i, (s[i].0, None))),
        !view_of(s.update(i, (s[i].0, None))).contains_key(s[i].0),
{
    lemma_update(s, i, s[i].0, None);
    lemma_view_lookup(s.update(i, (s[i].0, None)), s[i].0);
}

/// A key whose value was taken out gets its old position back when it is given a
/// value again.
pub proof fn law_reinsert_keeps_position<K: PartialEq, V>(s: Seq<(K, Option<V>)>, i: int, v: V)
    requires
        obeys_key_eq::<K>(),
        keys_distinct(s),
        0 <= i < s.len(),
    ensures
        set_value(s.update(i, (s[i].0, None)), s[i].0, v) == s.update(i, (s[i].0, Some(v))),
{
    let t = s.update(i, (s[i].0, None));
    lemma_update(s, i, s[i].0, None);
    lemma_position(t, i, s[i].0);
    assert(set_value(t, s[i].0, v) =~= s.update(i, (s[i].0, Some(v))));
}

/// Giving a key the value it already has changes nothing: `or_insert` on an
/// occupied entry leaves the map as it was unless the returned reference is
/// written through.
pub proof fn law_occupied_or_insert_unchanged<K: PartialEq, V>(s: Seq<(K, Option<V>)>, k: K)
    requires
        obeys_key_eq::<K>(),
        keys_distinct(s),
        view_of(s).contains_key(k),
    ensures
        set_value(s, k, view_of(s)[k]) == s,
{
    lemma_view_lookup(s, k);
    let p = position(s, k);
    lemma_position(s, p, k);
    assert(set_value(s, k, view_of(s)[k]) =~= s);
}

/// What is read back of a key after it was given a value is that value, and
/// every key not equal to it reads as before.
pub proof fn law_read_after_write<K: PartialEq, V>(s: Seq<(K, Option<V>)>, k: K, v: V, other: K)
    requires
        obeys_key_eq::<K>(),
        keys_distinct(s),
        !key_eq(other, k),
    ensures
        view_of(set_value(s, k, v)).get(k) == Some(v),
        view_of(set_value(s, k, v)).get(other) == view_of(s).get(other),
{
    lemma_key_eq::<K>();
    lemma_set_value(s, k, v);
    lemma_view_lookup(set_value(s, k, v), k);
    lemma_view_lookup(set_value(s, k, v), other);
    lemma_view_lookup(s, other);
}

/// A key whose value was taken out is vacant; giving it a value again maps it
/// to that value, and every other key reads as before the removal.
pub proof fn law_remove_then_insert<K: PartialEq, V>(s: Seq<(K, Option<V>)>, i: int, d: V, other: K)
    requires
        obeys_key_eq::<K>(),
        keys_distinct(s),
        0 <= i < s.len(),
        !key_eq(other, s[i].0),
    ensures
        !view_of(s.update(i, (s[i].0, None))).contains_key(s[i].0),
        view_of(set_value(s.update(i, (s[i].0, None)), s[i].0, d)).get(s[i].0) == Some(d),
        view_of(set_value(s.update(i, (s[i].0, None)), s[i].0, d)).get(other) == view_of(s).get(
            other,
        ),
{
    let t = s.update(i, (s[i].0, None));
    law_removal_keeps_order(s, i);
    lemma_update(s, i, s[i].0, None);
    law_read_after_write(t, s[i].0, d, other);
    lemma_view_lookup(t, other);
    lemma_view_lookup(s, other);
}

/// Inserting a value under a vacant key and then taking it out again leaves the
/// mapping as it was.
pub proof fn law_insert_then_remove<K: PartialEq, V>(s: Seq<(K, Option<V>)>, k: K, x: V)
    requires
        obeys_key_eq::<K>(),
        keys_distinct(s),
        !view_of(s).contains_key(k),
    ensures
        has_key(set_value(s, k, x), k),
        lookup(set_value(s, k, x), k) == Some(x),
        view_of(set_value(s, k, x).update(
            position(set_value(s, k, x), k),
            (set_value(s, k, x)[position(set_value(s, k, x), k)].0, None),
        )) == view_of(s),
{
    lemma_key_eq::<K>();
    let t = set_value(s, k, x);
    lemma_set_value(s, k, x);
    assert(lookup(t, k) == Some(x));
    let p = position(t, k);
    let u = t.update(p, (t[p].0, None));
    lemma_view_lookup(s, k);
    lemma_update(t, p, t[p].0, None);
    assert forall|k2: K| #[trigger] lookup(u, k2) == view_of(s).get(k2) by {
        lemma_view_lookup(s, k2);
        if key_eq(k2, t[p].0) {
            assert(key_eq(t[p].0, k));
            assert(key_eq(k2, k));
            if lookup(s, k2) is Some {
                let j = position(s, k2);
                assert(key_eq(s[j].0, k2));
                lemma_position(s, j, k);
            }
        } else {
            if key_eq(k2, k) {
                assert(key_eq(k, t[p].0)) by {
                    assert(key_eq(t[p].0, k));
                }
            }
        }
    }
    lemma_view_from_lookup(u, view_of(s));
}

/// Replacing the value of a node that holds one leaves the keys and their order
/// as they were.
proof fn lemma_live_keys_replace<K, V>(s: Seq<(K, Option<V>)>, i: int, v: V)
    requires
        0 <= i < s.len(),
        s[i].1 is Some,
    ensures
        live_keys(s.update(i, (s[i].0, Some(v)))) == live_keys(s),
    decreases s.len(),
{
    let t = s.update(i, (s[i].0, Some(v)));
    if i == s.len() - 1 {
        assert(t.drop_last() =~= s.drop_last());
    } else {
        lemma_live_keys_replace(s.drop_last(), i, v);
        assert(t.drop_last() =~= s.drop_last().update(i, (s[i].0, Some(v))));
    }
}

/// Seen through the keys that hold a value: giving a value to a key that holds
/// one keeps the keys and their order, and a key new to the map comes last.
pub proof fn law_keys_order<K: PartialEq, V>(s: Seq<(K, Option<V>)>, k: K, v: V)
    requires
        obeys_key_eq::<K>(),
        keys_distinct(s),
    ensures
        view_of(s).contains_key(k) ==> live_keys(set_value(s, k, v)) == live_keys(s),
        !has_key(s, k) ==> live_keys(set_value(s, k, v)) == live_keys(s).push(k),
{
    lemma_view_lookup(s, k);
    if view_of(s).contains_key(k) {
        let p = position(s, k);
        lemma_position(s, p, k);
        lemma_live_keys_replace(s, p, v);
    } else if !has_key(s, k) {
        assert(s.push((k, Some(v))).drop_last() =~= s);
    }
}

}

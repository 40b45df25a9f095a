use ordnung::{Entry, OrderedMap};
use std::rc::Rc;

fn value_of(map: &OrderedMap<&'static str, u32>, key: &'static str) -> u32 {
    *map.get(&key).unwrap()
}

#[test]
fn or_insert_inserts_then_keeps() {
    let mut map: OrderedMap<&str, u32> = OrderedMap::new();
    map.entry("poneyland").or_insert(3);
    assert_eq!(value_of(&map, "poneyland"), 3);
    *map.entry("poneyland").or_insert(10) *= 2;
    assert_eq!(value_of(&map, "poneyland"), 6);
}

#[test]
fn or_insert_with_calls_default_when_vacant() {
    let mut map: OrderedMap<&str, String> = OrderedMap::new();
    let s = "hoho".to_string();
    map.entry("poneyland").or_insert_with(|| s);
    assert_eq!(map.get(&"poneyland"), Some(&"hoho".to_string()));
}

#[test]
fn or_insert_with_keeps_occupied_value() {
    let mut map: OrderedMap<&str, String> = OrderedMap::new();
    map.insert("poneyland", "first".to_string());
    let r = map.entry("poneyland").or_insert_with(|| "second".to_string());
    assert_eq!(r, "first");
    assert_eq!(map.get(&"poneyland"), Some(&"first".to_string()));
}

#[test]
fn entry_key_of_vacant_and_occupied() {
    let mut map: OrderedMap<&str, u32> = OrderedMap::new();
    assert_eq!(map.entry("poneyland").key(), &"poneyland");
    map.entry("poneyland").or_insert(12);
    assert_eq!(map.entry("poneyland").key(), &"poneyland");
}

#[test]
fn and_modify_then_or_insert() {
    let mut map: OrderedMap<&str, u32> = OrderedMap::new();
    map.entry("poneyland").and_modify(|e| *e += 1).or_insert(42);
    assert_eq!(value_of(&map, "poneyland"), 42);
    map.entry("poneyland").and_modify(|e| *e += 1).or_insert(42);
    assert_eq!(value_of(&map, "poneyland"), 43);
}

#[test]
fn occupied_remove_entry() {
    let mut map: OrderedMap<&str, u32> = OrderedMap::new();
    map.entry("poneyland").or_insert(12);
    if let Entry::Occupied(o) = map.entry("poneyland") {
        assert_eq!(o.remove_entry(), ("poneyland", 12));
    } else {
        panic!("entry should be occupied");
    }
    assert_eq!(map.contains_key(&"poneyland"), false);
}

#[test]
fn occupied_get() {
    let mut map: OrderedMap<&str, u32> = OrderedMap::new();
    map.entry("poneyland").or_insert(12);
    if let Entry::Occupied(o) = map.entry("poneyland") {
        assert_eq!(o.get(), &12);
    } else {
        panic!("entry should be occupied");
    }
}

#[test]
fn occupied_get_mut_twice() {
    let mut map: OrderedMap<&str, u32> = OrderedMap::new();
    map.entry("poneyland").or_insert(12);
    assert_eq!(value_of(&map, "poneyland"), 12);
    if let Entry::Occupied(mut o) = map.entry("poneyland") {
        *o.get_mut() += 10;
        assert_eq!(*o.get(), 22);
        *o.get_mut() += 2;
    } else {
        panic!("entry should be occupied");
    }
    assert_eq!(value_of(&map, "poneyland"), 24);
}

#[test]
fn occupied_into_mut() {
    let mut map: OrderedMap<&str, u32> = OrderedMap::new();
    map.entry("poneyland").or_insert(12);
    assert_eq!(value_of(&map, "poneyland"), 12);
    if let Entry::Occupied(o) = map.entry("poneyland") {
        *o.into_mut() += 10;
    } else {
        panic!("entry should be occupied");
    }
    assert_eq!(value_of(&map, "poneyland"), 22);
}

#[test]
fn occupied_insert_returns_old_value() {
    let mut map: OrderedMap<&str, u32> = OrderedMap::new();
    map.entry("poneyland").or_insert(12);
    if let Entry::Occupied(mut o) = map.entry("poneyland") {
        assert_eq!(o.insert(15), 12);
        assert_eq!(o.get(), &15);
    } else {
        panic!("entry should be occupied");
    }
    assert_eq!(value_of(&map, "poneyland"), 15);
}

#[test]
fn occupied_remove() {
    let mut map: OrderedMap<&str, u32> = OrderedMap::new();
    map.entry("poneyland").or_insert(12);
    if let Entry::Occupied(o) = map.entry("poneyland") {
        assert_eq!(o.remove(), 12);
    } else {
        panic!("entry should be occupied");
    }
    assert_eq!(map.contains_key(&"poneyland"), false);
}

#[test]
fn occupied_replace_entry() {
    let mut map: OrderedMap<Rc<String>, u32> = OrderedMap::new();
    let stored = Rc::new("Stringthing".to_string());
    map.insert(stored.clone(), 15);
    let my_key = Rc::new("Stringthing".to_string());
    if let Entry::Occupied(entry) = map.entry(my_key.clone()) {
        let (old_key, old_value): (Rc<String>, u32) = entry.replace_entry(16);
        assert!(Rc::ptr_eq(&old_key, &stored));
        assert_eq!(old_value, 15);
    } else {
        panic!("entry should be occupied");
    }
    assert_eq!(map.get(&my_key), Some(&16));
    if let Entry::Occupied(entry) = map.entry(Rc::new("Stringthing".to_string())) {
        assert!(Rc::ptr_eq(entry.key(), &my_key));
    } else {
        panic!("entry should be occupied");
    }
}

#[test]
fn occupied_replace_key() {
    let mut map: OrderedMap<Rc<String>, u32> = OrderedMap::new();
    let stored = Rc::new("Stringthing".to_string());
    map.insert(stored.clone(), 15);
    let known = Rc::new("Stringthing".to_string());
    if let Entry::Occupied(entry) = map.entry(known.clone()) {
        let old_key = entry.replace_key();
        assert!(Rc::ptr_eq(&old_key, &stored));
    } else {
        panic!("entry should be occupied");
    }
    if let Entry::Occupied(entry) = map.entry(Rc::new("Stringthing".to_string())) {
        assert!(Rc::ptr_eq(entry.key(), &known));
        assert_eq!(entry.get(), &15);
    } else {
        panic!("entry should be occupied");
    }
}

#[test]
fn vacant_key_and_into_key() {
    let mut map: OrderedMap<&str, u32> = OrderedMap::new();
    if let Entry::Vacant(v) = map.entry("poneyland") {
        assert_eq!(v.key(), &"poneyland");
        assert_eq!(v.into_key(), "poneyland");
    } else {
        panic!("entry should be vacant");
    }
    assert_eq!(map.contains_key(&"poneyland"), false);
    assert_eq!(map.len(), 0);
}

#[test]
fn vacant_insert() {
    let mut map: OrderedMap<&str, u32> = OrderedMap::new();
    if let Entry::Vacant(o) = map.entry("poneyland") {
        let r = o.insert(37);
        assert_eq!(*r, 37);
    } else {
        panic!("entry should be vacant");
    }
    assert_eq!(value_of(&map, "poneyland"), 37);
}

#[test]
fn vacant_insert_after_removal_reuses_position() {
    let mut map: OrderedMap<&str, u32> = OrderedMap::new();
    map.insert("a", 1);
    map.insert("b", 2);
    map.insert("c", 3);
    assert_eq!(map.remove(&"b"), Some(2));
    assert_eq!(map.len(), 3);
    assert_eq!(map.keys(), vec![&"a", &"c"]);
    match map.entry("b") {
        Entry::Vacant(v) => {
            *v.insert(20) += 1;
        }
        Entry::Occupied(_) => panic!("entry should be vacant"),
    }
    assert_eq!(map.len(), 3);
    assert_eq!(map.keys(), vec![&"a", &"b", &"c"]);
    assert_eq!(value_of(&map, "b"), 21);
    assert_eq!(value_of(&map, "a"), 1);
    assert_eq!(value_of(&map, "c"), 3);
}

#[test]
fn or_insert_after_removal() {
    let mut map: OrderedMap<&str, u32> = OrderedMap::new();
    map.insert("x", 5);
    if let Entry::Occupied(o) = map.entry("x") {
        o.remove();
    }
    assert!(matches!(map.entry("x"), Entry::Vacant(_)));
    assert_eq!(*map.entry("x").or_insert(9), 9);
    assert_eq!(map.len(), 1);
    assert_eq!(value_of(&map, "x"), 9);
}

#[test]
fn new_key_goes_last() {
    let mut map: OrderedMap<&str, u32> = OrderedMap::new();
    map.entry("one").or_insert(1);
    map.entry("two").or_insert(2);
    assert_eq!(map.len(), 2);
    assert_eq!(map.keys(), vec![&"one", &"two"]);
    map.entry("one").or_insert(100);
    assert_eq!(map.len(), 2);
    assert_eq!(map.keys(), vec![&"one", &"two"]);
    map.entry("three").or_insert(3);
    assert_eq!(map.keys(), vec![&"one", &"two", &"three"]);
    assert_eq!(value_of(&map, "one"), 1);
    assert_eq!(value_of(&map, "two"), 2);
}

#[test]
fn map_insert_returns_previous() {
    let mut map: OrderedMap<&str, u32> = OrderedMap::new();
    assert_eq!(map.insert("k", 1), None);
    assert_eq!(map.insert("k", 2), Some(1));
    assert_eq!(map.remove(&"k"), Some(2));
    assert_eq!(map.remove(&"k"), None);
    assert_eq!(map.get(&"k"), None);
    assert_eq!(map.insert("k", 3), None);
    assert_eq!(map.get(&"k"), Some(&3));
}

#[test]
fn entry_is_occupied_exactly_when_key_has_value() {
    let mut map: OrderedMap<u64, u64> = OrderedMap::new();
    assert!(matches!(map.entry(1), Entry::Vacant(_)));
    map.insert(1, 10);
    assert!(matches!(map.entry(1), Entry::Occupied(_)));
    map.remove(&1);
    assert!(matches!(map.entry(1), Entry::Vacant(_)));
}

#[test]
fn removal_keeps_order_of_other_keys() {
    let mut map: OrderedMap<u64, u64> = OrderedMap::new();
    for k in [5u64, 3, 9, 1] {
        map.entry(k).or_insert(k * 10);
    }
    if let Entry::Occupied(o) = map.entry(9) {
        assert_eq!(o.remove_entry(), (9, 90));
    }
    assert_eq!(map.keys(), vec![&5, &3, &1]);
    assert_eq!(map.len(), 4);
    assert_eq!(map.get(&9), None);
}

#[test]
fn write_through_or_insert_reference_changes_only_that_key() {
    let mut map: OrderedMap<u64, u64> = OrderedMap::new();
    map.insert(1, 10);
    map.insert(2, 20);
    *map.entry(2).or_insert(0) += 5;
    assert_eq!(map.get(&1), Some(&10));
    assert_eq!(map.get(&2), Some(&25));
}

#[test]
fn or_insert_on_occupied_without_write_changes_nothing() {
    let mut map: OrderedMap<u64, u64> = OrderedMap::new();
    map.insert(4, 40);
    map.insert(8, 80);
    let r = map.entry(4).or_insert(0);
    assert_eq!(*r, 40);
    assert_eq!(map.get(&4), Some(&40));
    assert_eq!(map.keys(), vec![&4, &8]);
    assert_eq!(map.len(), 2);
}

#[test]
fn empty_map_has_no_keys() {
    let map: OrderedMap<u64, u64> = OrderedMap::new();
    assert_eq!(map.len(), 0);
    assert!(map.keys().is_empty());
    assert!(!map.contains_key(&0));
}

#[test]
fn entry_key_is_stored_key_when_occupied_and_given_key_when_vacant() {
    let k0 = Rc::new("a".to_string());
    let k1 = Rc::new("a".to_string());
    let k2 = Rc::new("b".to_string());
    let mut map: OrderedMap<Rc<String>, u32> = OrderedMap::new();
    map.insert(k0.clone(), 1);
    assert!(Rc::ptr_eq(map.entry(k1.clone()).key(), &k0));
    assert!(Rc::ptr_eq(map.entry(k2.clone()).key(), &k2));
    assert_eq!(map.get(&k0), Some(&1));
    assert!(!map.contains_key(&k2));
}

#[test]
fn insert_twice_through_occupied_entry_restores_map() {
    let mut map: OrderedMap<u64, u64> = OrderedMap::new();
    map.insert(3, 30);
    map.insert(4, 40);
    if let Entry::Occupied(mut o) = map.entry(3) {
        let old = o.insert(99);
        assert_eq!(old, 30);
        assert_eq!(o.insert(old), 99);
    } else {
        panic!("entry should be occupied");
    }
    assert_eq!(map.get(&3), Some(&30));
    assert_eq!(map.get(&4), Some(&40));
    assert_eq!(map.keys(), vec![&3, &4]);
}

#[test]
fn dropped_entries_leave_map_unchanged() {
    let mut map: OrderedMap<u64, u64> = OrderedMap::new();
    map.insert(1, 10);
    {
        let _occupied = map.entry(1);
    }
    {
        let vacant = map.entry(2);
        assert_eq!(vacant.key(), &2);
    }
    assert_eq!(map.get(&1), Some(&10));
    assert!(!map.contains_key(&2));
    assert_eq!(map.len(), 1);
}

#[test]
fn vacant_insert_then_remove_restores_map() {
    let mut map: OrderedMap<u64, u64> = OrderedMap::new();
    map.insert(1, 10);
    if let Entry::Vacant(v) = map.entry(7) {
        v.insert(70);
    } else {
        panic!("entry should be vacant");
    }
    if let Entry::Occupied(o) = map.entry(7) {
        assert_eq!(o.remove(), 70);
    } else {
        panic!("entry should be occupied");
    }
    assert!(!map.contains_key(&7));
    assert_eq!(map.get(&1), Some(&10));
    assert_eq!(map.keys(), vec![&1]);
}

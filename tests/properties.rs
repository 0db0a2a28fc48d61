use agb_hashmap::{Entry, HashKey, HashMap};

#[test]
fn round_trip_keeps_last_value() {
    let mut map = HashMap::new();
    for i in 0..40 {
        map.insert(i, i * 3);
    }
    map.insert(7, 1000);
    for i in 0..40 {
        let expected = if i == 7 { 1000 } else { i * 3 };
        assert_eq!(map.get(&i), Some(&expected));
    }
    assert_eq!(map.len(), 40);
}

#[test]
fn remove_after_insert_and_absent_remove() {
    let mut map = HashMap::new();
    map.insert(5, 50);
    map.insert(6, 60);
    assert_eq!(map.len(), 2);
    assert_eq!(map.remove(&5), Some(50));
    assert_eq!(map.get(&5), None);
    assert_eq!(map.len(), 1);
    assert_eq!(map.remove(&5), None);
    assert_eq!(map.len(), 1);
    assert!(!map.contains_key(&5));
    assert!(map.contains_key(&6));
}

#[test]
fn overwrite_returns_old_value_and_keeps_len() {
    let mut map = HashMap::new();
    assert_eq!(map.insert(String::from("k"), 1), None);
    assert_eq!(map.insert(String::from("k"), 2), Some(1));
    assert_eq!(map.len(), 1);
    assert_eq!(map.get(&String::from("k")), Some(&2));
    let (stored, value) = map.get_key_value(&String::from("k")).unwrap();
    assert_eq!(stored.as_str(), "k");
    assert_eq!(*value, 2);
}

#[test]
fn capacity_grows_and_never_shrinks() {
    let mut map = HashMap::with_size(2);
    assert_eq!(map.capacity(), 1);
    let mut last = map.capacity();
    for i in 0..200 {
        map.insert(i, -i);
        assert!(map.capacity() >= last);
        last = map.capacity();
    }
    for i in 0..200 {
        assert_eq!(map.get(&i), Some(&-i));
    }
    for i in 0..200 {
        map.remove(&i);
        assert_eq!(map.capacity(), last);
    }
    assert!(map.is_empty());
}

#[test]
fn single_position_table_grows() {
    let mut map = HashMap::with_size(1);
    assert_eq!(map.capacity(), 0);
    map.insert(1u32, 1u32);
    map.insert(2u32, 2u32);
    assert_eq!(map.len(), 2);
    assert_eq!(map.get(&1), Some(&1));
    assert_eq!(map.get(&2), Some(&2));
}

#[test]
fn threshold_values() {
    let map: HashMap<i32, i32> = HashMap::new();
    assert_eq!(map.capacity(), 13);
    let map: HashMap<i32, i32> = HashMap::with_size(64);
    assert_eq!(map.capacity(), 54);
    let map: HashMap<i32, i32> = HashMap::with_capacity(12);
    assert_eq!(map.capacity(), 13);
    let map: HashMap<i32, i32> = HashMap::with_capacity(13);
    assert_eq!(map.capacity(), 27);
    let map: HashMap<i32, i32> = HashMap::with_capacity(0);
    assert_eq!(map.capacity(), 1);
}

#[test]
fn with_capacity_holds_that_many_without_growing() {
    let mut map = HashMap::with_capacity(100);
    let before = map.capacity();
    for i in 0..100 {
        map.insert(i, i);
    }
    assert_eq!(map.capacity(), before);
}

#[test]
fn iterator_hint_matches_yield() {
    let mut map = HashMap::new();
    for i in 0..30 {
        map.insert(i, i);
    }
    for i in 0..10 {
        map.remove(&(i * 3));
    }
    let mut iter = map.iter();
    let mut seen = Vec::new();
    loop {
        let (lower, upper) = iter.size_hint();
        assert_eq!(upper, Some(lower));
        match iter.next() {
            Some((k, v)) => {
                assert_eq!(k, v);
                seen.push(*k);
                assert_eq!(iter.size_hint().0 + 1, lower);
            }
            None => {
                assert_eq!(lower, 0);
                break;
            }
        }
    }
    seen.sort();
    let expected: Vec<i32> = (0..30).filter(|i| i % 3 != 0).collect();
    assert_eq!(seen, expected);
}

#[test]
fn owning_iterator_yields_every_entry_once() {
    let mut map = HashMap::new();
    for i in 0..20 {
        map.insert(i, i * 2);
    }
    let mut iter = map.into_iter();
    let mut seen = Vec::new();
    while let Some((k, v)) = iter.next() {
        assert_eq!(v, k * 2);
        seen.push(k);
    }
    assert_eq!(iter.size_hint(), (0, Some(0)));
    seen.sort();
    assert_eq!(seen, (0..20).collect::<Vec<i32>>());
}

#[test]
fn equality_ignores_order_and_size() {
    let mut a = HashMap::with_size(2);
    let mut b = HashMap::with_size(128);
    for i in 0..20 {
        a.insert(i, i + 1);
    }
    for i in (0..20).rev() {
        b.insert(i, i + 1);
    }
    assert!(a.eq(&b));
    assert!(b.eq(&a));
    b.remove(&3);
    assert!(!a.eq(&b));
    b.insert(3, 0);
    assert!(!a.eq(&b));
    b.insert(3, 4);
    assert!(a.eq(&b));
}

#[test]
fn remove_then_lookups_after_shift() {
    let mut map = HashMap::new();
    for i in 0..8 {
        map.insert(i, i % 4);
    }
    for i in 0..8 {
        assert_eq!(map.get(&i), Some(&(i % 4)));
    }
    assert_eq!(map.len(), 8);
    for i in 0..4 {
        map.remove(&i);
    }
    assert_eq!(map.len(), 4);
    assert_eq!(map.get(&3), None);
    assert_eq!(map.get(&7), Some(&(7 % 4)));
}

#[test]
fn entry_or_insert_keeps_existing() {
    let mut map = HashMap::from_iter(vec![(1, 10), (2, 20), (3, 30)]);
    match map.entry(1) {
        Entry::Occupied(e) => assert_eq!(*e.get(), 10),
        Entry::Vacant(_) => panic!(),
    }
    {
        let v = map.entry(1).or_insert(999);
        assert_eq!(*v, 10);
    }
    assert_eq!(map.get(&1), Some(&10));
    {
        let v = map.entry(4).or_insert(40);
        assert_eq!(*v, 40);
    }
    assert_eq!(map.get(&4), Some(&40));
    assert_eq!(map.len(), 4);
}

#[test]
fn entry_variants() {
    let mut map: HashMap<u32, u32> = HashMap::new();
    *map.entry(1).or_default() += 5;
    assert_eq!(map.get(&1), Some(&5));
    map.entry(1).and_modify(|v| *v += 1).or_insert(100);
    assert_eq!(map.get(&1), Some(&6));
    map.entry(2).and_modify(|v| *v += 1).or_insert(100);
    assert_eq!(map.get(&2), Some(&100));
    map.entry(3).or_insert_with(|| 33);
    assert_eq!(map.get(&3), Some(&33));
    map.entry(4).or_insert_with_key(|k| k * 11);
    assert_eq!(map.get(&4), Some(&44));
    assert_eq!(*map.entry(9).key(), 9);
    match map.entry(4) {
        Entry::Occupied(e) => {
            assert_eq!(e.remove_entry(), (4, 44));
        }
        Entry::Vacant(_) => panic!(),
    }
    assert_eq!(map.get(&4), None);
    match map.entry(5) {
        Entry::Vacant(e) => assert_eq!(e.into_key(), 5),
        Entry::Occupied(_) => panic!(),
    }
    assert_eq!(map.len(), 3);
    match map.entry(3) {
        Entry::Occupied(e) => {
            *e.into_mut() = 7;
        }
        Entry::Vacant(_) => panic!(),
    }
    assert_eq!(map.get(&3), Some(&7));
}

#[test]
fn retain_keeps_even_keys() {
    let mut map = HashMap::new();
    for i in 0..100 {
        map.insert(i, i);
    }
    map.retain(|k, _| k % 2 == 0);
    assert_eq!(map.len(), 50);
    for i in 0..100 {
        if i % 2 == 0 {
            assert_eq!(map.get(&i), Some(&i));
        } else {
            assert_eq!(map.get(&i), None);
        }
    }
}

#[test]
fn retain_on_a_full_wrapping_table() {
    let mut map = HashMap::with_size(16);
    for i in 0..13 {
        map.insert(i, i);
    }
    map.retain(|_, v| *v >= 7);
    assert_eq!(map.len(), 6);
    for i in 0..13 {
        assert_eq!(map.contains_key(&i), i >= 7);
    }
}

#[test]
fn clear_keeps_size() {
    let mut map = HashMap::new();
    for i in 0..100 {
        map.insert(i, i);
    }
    let capacity = map.capacity();
    map.clear();
    assert!(map.is_empty());
    assert_eq!(map.capacity(), capacity);
    assert_eq!(map.get(&5), None);
}

#[test]
fn get_mut_changes_value() {
    let mut map = HashMap::new();
    map.insert(String::from("a"), 1);
    if let Some(x) = map.get_mut(&String::from("a")) {
        *x = 2;
    }
    assert_eq!(*map.index(&String::from("a")), 2);
    assert!(map.get_mut(&String::from("b")).is_none());
}

#[test]
fn extend_inserts_in_order() {
    let mut map = HashMap::new();
    map.extend(vec![(1, 1), (2, 2), (1, 3)]);
    assert_eq!(map.len(), 2);
    assert_eq!(map.get(&1), Some(&3));
}

#[test]
fn many_keys_with_removals() {
    let mut map = HashMap::new();
    for i in 0..1000u32 {
        map.insert(i, i);
    }
    for i in (0..1000u32).step_by(3) {
        assert_eq!(map.remove(&i), Some(i));
    }
    for i in 0..1000u32 {
        assert_eq!(map.get(&i).is_some(), i % 3 != 0);
    }
}

#[test]
fn word_hash_is_fx_hash() {
    assert_eq!(5u32.hash_key(), 3282711785);
    assert_eq!(5i32.hash_key(), 3282711785);
}

#[test]
fn text_hash_is_fx_hash() {
    assert_eq!("hello there".hash_key(), 2961613711);
    assert_eq!(String::from("hello there").hash_key(), 2961613711);
    assert_eq!("".hash_key(), 4209543787);
}

#[test]
fn text_keys_compare_by_content() {
    assert!("abc".key_eq(&"abc"));
    assert!(!"abc".key_eq(&"abd"));
    assert!(String::from("x").key_eq(&String::from("x")));
    assert!(!String::from("x").key_eq(&String::from("y")));
}

#[test]
fn iter_mut_changes_every_value() {
    let mut map = HashMap::new();
    for i in 0..20 {
        map.insert(i, i);
    }
    let pairs = map.iter_mut();
    assert_eq!(pairs.len(), 20);
    for (k, v) in pairs {
        *v = *k * 10;
    }
    for i in 0..20 {
        assert_eq!(map.get(&i), Some(&(i * 10)));
    }
}

#[test]
fn values_mut_changes_every_value() {
    let mut map = HashMap::new();
    for i in 0..20 {
        map.insert(i, i);
    }
    for v in map.values_mut() {
        *v += 1;
    }
    for i in 0..20 {
        assert_eq!(map.get(&i), Some(&(i + 1)));
    }
    let mut keys: Vec<i32> = map.keys().into_iter().copied().collect();
    keys.sort();
    assert_eq!(keys, (0..20).collect::<Vec<i32>>());
    let mut values: Vec<i32> = map.values().into_iter().copied().collect();
    values.sort();
    assert_eq!(values, (1..21).collect::<Vec<i32>>());
}

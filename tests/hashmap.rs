use std::cell::RefCell;

use agb_hashmap::{Entry, HashKey, HashMap};

#[test]
fn can_store_and_retrieve_8_elements() {
    let mut map = HashMap::new();

    for i in 0..8 {
        map.insert(i, i % 4);
    }

    for i in 0..8 {
        assert_eq!(map.get(&i), Some(&(i % 4)));
    }
}

#[test]
fn can_get_the_length() {
    let mut map = HashMap::new();

    for i in 0..8 {
        map.insert(i / 2, true);
    }

    assert_eq!(map.len(), 4);
}

#[test]
fn returns_none_if_element_does_not_exist() {
    let mut map = HashMap::new();

    for i in 0..8 {
        map.insert(i, i % 3);
    }

    assert_eq!(map.get(&12), None);
}

#[test]
fn can_delete_entries() {
    let mut map = HashMap::new();

    for i in 0..8 {
        map.insert(i, i % 3);
    }

    for i in 0..4 {
        map.remove(&i);
    }

    assert_eq!(map.len(), 4);
    assert_eq!(map.get(&3), None);
    assert_eq!(map.get(&7), Some(&1));
}

#[test]
fn can_iterate_through_all_entries() {
    let mut map = HashMap::new();

    for i in 0..8 {
        map.insert(i, i);
    }

    let mut max_found = -1;
    let mut num_found = 0;

    let mut iter = map.into_iter();
    while let Some((_, value)) = iter.next() {
        max_found = max_found.max(value);
        num_found += 1;
    }

    assert_eq!(num_found, 8);
    assert_eq!(max_found, 7);
}

#[test]
fn can_insert_more_than_initial_capacity() {
    let mut map = HashMap::new();

    for i in 0..65 {
        map.insert(i, i % 4);
    }

    for i in 0..65 {
        assert_eq!(map.get(&i), Some(&(i % 4)));
    }
}

#[derive(Clone)]
struct Droppable<'a> {
    id: usize,
    drop_registry: &'a DropRegistry,
}

impl HashKey for Droppable<'_> {
    type Identity = usize;

    fn identity(&self) -> usize {
        self.id
    }

    fn hash_of(id: usize) -> u32 {
        (id as u32).wrapping_mul(0x9e37_79b9)
    }

    fn hash_key(&self) -> u32 {
        Self::hash_of(self.id)
    }

    fn key_eq(&self, other: &Self) -> bool {
        self.id == other.id
    }
}

impl Drop for Droppable<'_> {
    fn drop(&mut self) {
        self.drop_registry.dropped(self.id);
    }
}

struct DropRegistry {
    are_dropped: RefCell<Vec<i32>>,
}

impl DropRegistry {
    fn new() -> Self {
        Self {
            are_dropped: Default::default(),
        }
    }

    fn new_droppable(&self) -> Droppable<'_> {
        self.are_dropped.borrow_mut().push(0);
        Droppable {
            id: self.are_dropped.borrow().len() - 1,
            drop_registry: self,
        }
    }

    fn dropped(&self, id: usize) {
        self.are_dropped.borrow_mut()[id] += 1;
    }

    fn assert_dropped_once(&self, id: usize) {
        assert_eq!(self.are_dropped.borrow()[id], 1);
    }

    fn assert_not_dropped(&self, id: usize) {
        assert_eq!(self.are_dropped.borrow()[id], 0);
    }

    fn assert_dropped_n_times(&self, id: usize, num_drops: i32) {
        assert_eq!(self.are_dropped.borrow()[id], num_drops);
    }
}

#[test]
fn correctly_drops_on_remove_and_overall_drop() {
    let drop_registry = DropRegistry::new();

    let droppable1 = drop_registry.new_droppable();
    let droppable2 = drop_registry.new_droppable();

    let id1 = droppable1.id;
    let id2 = droppable2.id;

    {
        let mut map = HashMap::new();

        map.insert(1, droppable1);
        map.insert(2, droppable2);

        drop_registry.assert_not_dropped(id1);
        drop_registry.assert_not_dropped(id2);

        map.remove(&1);
        drop_registry.assert_dropped_once(id1);
        drop_registry.assert_not_dropped(id2);
    }

    drop_registry.assert_dropped_once(id2);
}

#[test]
fn correctly_drop_on_override() {
    let drop_registry = DropRegistry::new();

    let droppable1 = drop_registry.new_droppable();
    let droppable2 = drop_registry.new_droppable();

    let id1 = droppable1.id;
    let id2 = droppable2.id;

    {
        let mut map = HashMap::new();

        map.insert(1, droppable1);
        drop_registry.assert_not_dropped(id1);
        map.insert(1, droppable2);

        drop_registry.assert_dropped_once(id1);
        drop_registry.assert_not_dropped(id2);
    }

    drop_registry.assert_dropped_once(id2);
}

#[test]
fn correctly_drops_key_on_override() {
    let drop_registry = DropRegistry::new();

    let droppable1 = drop_registry.new_droppable();
    let droppable1a = droppable1.clone();

    let id1 = droppable1.id;

    {
        let mut map = HashMap::new();

        map.insert(droppable1, 1);
        drop_registry.assert_not_dropped(id1);
        map.insert(droppable1a, 2);

        drop_registry.assert_dropped_once(id1);
    }

    drop_registry.assert_dropped_n_times(id1, 2);
}

#[test]
fn test_retain() {
    let mut map = HashMap::new();

    for i in 0..100 {
        map.insert(i, i);
    }

    map.retain(|k, _| k % 2 == 0);

    assert_eq!(*map.index(&2), 2);
    assert_eq!(map.get(&3), None);

    let mut iter = map.iter();
    let mut count = 0;
    while iter.next().is_some() {
        count += 1;
    }
    assert_eq!(count, 50); // force full iteration
}

#[test]
fn test_size_hint_iter() {
    let mut map = HashMap::new();

    for i in 0..100 {
        map.insert(i, i);
    }

    let mut iter = map.iter();
    assert_eq!(iter.size_hint(), (100, Some(100)));

    iter.next();

    assert_eq!(iter.size_hint(), (99, Some(99)));
}

#[test]
fn test_size_hint_into_iter() {
    let mut map = HashMap::new();

    for i in 0..100 {
        map.insert(i, i);
    }

    let mut iter = map.into_iter();
    assert_eq!(iter.size_hint(), (100, Some(100)));

    iter.next();

    assert_eq!(iter.size_hint(), (99, Some(99)));
}

#[test]
fn test_entry() {
    let xs = [(1, 10), (2, 20), (3, 30), (4, 40), (5, 50), (6, 60)];

    let mut map: HashMap<_, _> = HashMap::from_iter(xs.to_vec());

    // Existing key (insert)
    match map.entry(1) {
        Entry::Vacant(_) => unreachable!(),
        Entry::Occupied(mut view) => {
            assert_eq!(view.get(), &10);
            assert_eq!(view.insert(100), 10);
        }
    }
    assert_eq!(map.get(&1).unwrap(), &100);
    assert_eq!(map.len(), 6);

    // Existing key (update)
    match map.entry(2) {
        Entry::Vacant(_) => unreachable!(),
        Entry::Occupied(mut view) => {
            let v = view.get_mut();
            let new_v = (*v) * 10;
            *v = new_v;
        }
    }
    assert_eq!(map.get(&2).unwrap(), &200);
    assert_eq!(map.len(), 6);

    // Existing key (take)
    match map.entry(3) {
        Entry::Vacant(_) => unreachable!(),
        Entry::Occupied(view) => {
            assert_eq!(view.remove(), 30);
        }
    }
    assert_eq!(map.get(&3), None);
    assert_eq!(map.len(), 5);

    // Inexistent key (insert)
    match map.entry(10) {
        Entry::Occupied(_) => unreachable!(),
        Entry::Vacant(view) => {
            assert_eq!(*view.insert(1000), 1000);
        }
    }
    assert_eq!(map.get(&10).unwrap(), &1000);
    assert_eq!(map.len(), 6);
}

#[test]
fn test_occupied_entry_key() {
    let mut a = HashMap::new();
    let key = "hello there";
    let value = "value goes here";
    assert!(a.is_empty());
    a.insert(key, value);
    assert_eq!(a.len(), 1);
    assert_eq!(*a.index(&key), value);

    match a.entry(key) {
        Entry::Vacant(_) => panic!(),
        Entry::Occupied(e) => assert_eq!(key, *e.key()),
    }
    assert_eq!(a.len(), 1);
    assert_eq!(*a.index(&key), value);
}

#[test]
fn test_vacant_entry_key() {
    let mut a = HashMap::new();
    let key = "hello there";
    let value = "value goes here";

    assert!(a.is_empty());
    match a.entry(key) {
        Entry::Occupied(_) => panic!(),
        Entry::Vacant(e) => {
            assert_eq!(key, *e.key());
            e.insert(value);
        }
    }
    assert_eq!(a.len(), 1);
    assert_eq!(*a.index(&key), value);
}

#[test]
fn test_index() {
    let mut map = HashMap::new();

    map.insert(1, 2);
    map.insert(2, 1);
    map.insert(3, 4);

    assert_eq!(*map.index(&2), 1);
}

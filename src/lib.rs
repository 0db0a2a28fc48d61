//! A hash map built on Robin Hood hashing with backward-shift deletion.
//!
//! Entries live in a ring of positions. Each entry sits some number of steps
//! (its distance to the initial bucket) past the position its hash selects,
//! and the ring is kept in Robin Hood order: an entry that sits past its
//! initial bucket always follows an occupied position whose entry is at most
//! one step less far from its own. Lookups can therefore stop at the first
//! empty position or at the first entry nearer its bucket than the probe, and
//! removal shifts the following entries back instead of leaving tombstones.
//! The ring doubles once the table is 85% full.
mod hash_key;
pub mod laws;
mod node;
mod node_storage;
pub mod vram_manager;

pub use hash_key::HashKey;

use node::Node;
use node_storage::NodeStorage;
use vstd::prelude::*;
use vstd::std_specs::cmp::PartialEqSpec;

verus! {

/// How many entries a table of `size` positions takes before it grows.
pub open spec fn threshold(size: int) -> int {
    size * 85 / 100
}

/// How many entries a table of `capacity` positions takes before it grows.
fn number_before_resize(capacity: usize) -> (r: usize)
    ensures
        r == threshold(capacity as int),
{
    let hundreds = capacity / 100;
    let rest = capacity % 100;
    proof {
        let c = capacity as int;
        let a = hundreds as int;
        let b = rest as int;
        assert(c == 100 * a + b && 0 <= b < 100) by (nonlinear_arith)
            requires
                a == c / 100,
                b == c % 100,
                c >= 0,
        ;
        assert(c * 85 / 100 == 85 * a + (85 * b) / 100) by (nonlinear_arith)
            requires
                c == 100 * a + b,
                0 <= b < 100,
                a >= 0,
        ;
        assert(85 * a <= c) by (nonlinear_arith)
            requires
                c == 100 * a + b,
                0 <= b,
                a >= 0,
        ;
    }
    hundreds * 85 + rest * 85 / 100
}

/// A table that is at its threshold is at most about twice as large as the
/// threshold.
proof fn lemma_threshold_bounds(size: int)
    requires
        size >= 1,
    ensures
        0 <= threshold(size) < size,
        size <= 2 * threshold(size) + 1,
{
    let q = size * 85 / 100;
    assert(100 * q <= 85 * size < 100 * q + 100) by (nonlinear_arith)
        requires
            q == size * 85 / 100,
            size >= 1,
    ;
}

/// The view that inserting each pair of `kvs` in turn leaves, from `m`.
pub open spec fn after_inserts<K: HashKey, V>(m: Map<K::Identity, V>, kvs: Seq<(K, V)>) -> Map<
    K::Identity,
    V,
>
    decreases kvs.len(),
{
    if kvs.len() == 0 {
        m
    } else {
        after_inserts(m, kvs.drop_last()).insert(kvs.last().0.identity(), kvs.last().1)
    }
}

/// Two views hold the same identities, with values that `V`'s `==` calls equal.
pub open spec fn maps_match<I, V: PartialEq>(a: Map<I, V>, b: Map<I, V>) -> bool {
    &&& a.dom() == b.dom()
    &&& forall|id: I| #[trigger] a.contains_key(id) ==> a[id].eq_spec(&b[id])
}

/// A hash map implemented with Robin Hood hashing.
///
/// Keys are told apart by their identity (see [`HashKey`]); the map's view
/// sends each identity it holds to its value.
#[derive(Clone)]
pub struct HashMap<K, V> {
    nodes: NodeStorage<K, V>,
}

impl<K: HashKey, V> View for HashMap<K, V> {
    type V = Map<K::Identity, V>;

    closed spec fn view(&self) -> Map<K::Identity, V> {
        self.nodes@.map_values(|e: (K, V)| e.1)
    }
}

impl<K: HashKey, V> HashMap<K, V> {
    /// The map's internal order holds.
    pub closed spec fn wf(&self) -> bool {
        self.nodes.wf()
    }

    /// For each identity held, the key that was stored with it.
    pub closed spec fn stored_keys(&self) -> Map<K::Identity, K> {
        self.nodes@.map_values(|e: (K, V)| e.0)
    }

    /// The number of positions of the ring.
    pub closed spec fn size(&self) -> nat {
        self.nodes.nodes@.len()
    }

    proof fn lemma_view(&self)
        requires
            self.wf(),
        ensures
            self@.dom() == self.nodes@.dom(),
            self@.dom().finite(),
            self@.len() == self.nodes.number_of_items,
            self.stored_keys().dom() == self.nodes@.dom(),
            forall|id: K::Identity| #[trigger]
                self.nodes@.contains_key(id) ==> self@[id] == self.nodes@[id].1
                    && self.stored_keys()[id] == self.nodes@[id].0,
    {
        assert(self@.dom() =~= self.nodes@.dom());
        assert(self.stored_keys().dom() =~= self.nodes@.dom());
    }

    /// The view of a well-formed map is finite.
    pub proof fn lemma_view_finite(&self)
        requires
            self.wf(),
        ensures
            self@.dom().finite(),
            self.stored_keys().dom() == self@.dom(),
    {
        self.lemma_view();
    }

    /// Creates an empty `HashMap` of 16 positions.
    pub fn new() -> (r: Self)
        ensures
            r.wf(),
            r@ == Map::<K::Identity, V>::empty(),
            r.size() == 16,
    {
        Self::with_size(16)
    }

    /// Creates an empty `HashMap` with `size` positions; `size` is meant to be
    /// a power of two.
    pub fn with_size(size: usize) -> (r: Self)
        requires
            size > 0,
        ensures
            r.wf(),
            r@ == Map::<K::Identity, V>::empty(),
            r.size() == size,
    {
        let r = HashMap { nodes: NodeStorage::with_size(size) };
        proof {
            assert(r@ =~= Map::<K::Identity, V>::empty());
        }
        r
    }

    /// Creates an empty `HashMap` that holds at least `capacity` elements
    /// before it grows: its size is the smallest power of two whose threshold
    /// exceeds `capacity`.
    pub fn with_capacity(capacity: usize) -> (r: Self)
        requires
            capacity < threshold(vstd::arithmetic::power2::pow2(31) as int),
        ensures
            r.wf(),
            r@ == Map::<K::Identity, V>::empty(),
            threshold(r.size() as int) > capacity,
            exists|i: nat|
                i < 32 && r.size() == vstd::arithmetic::power2::pow2(i) && forall|j: nat|
                    j < i ==> threshold(#[trigger] vstd::arithmetic::power2::pow2(j) as int)
                        <= capacity,
    {
        let mut attempted_size: usize = 1;
        let mut i: usize = 0;
        proof {
            vstd::arithmetic::power2::lemma2_to64();
        }
        while i < 32
            invariant
                i <= 32,
                attempted_size as nat == vstd::arithmetic::power2::pow2(i as nat),
                capacity < threshold(vstd::arithmetic::power2::pow2(31) as int),
                forall|j: nat|
                    j < i ==> threshold(#[trigger] vstd::arithmetic::power2::pow2(j) as int)
                        <= capacity,
            decreases 32 - i,
        {
            if number_before_resize(attempted_size) > capacity {
                return Self::with_size(attempted_size);
            }
            if i == 31 {
                proof {
                    assert(false);
                }
            }
            proof {
                vstd::arithmetic::power2::lemma_pow2_unfold((i + 1) as nat);
                vstd::arithmetic::power2::lemma2_to64();
            }
            attempted_size = attempted_size * 2;
            i = i + 1;
        }
        proof {
            assert(threshold(vstd::arithmetic::power2::pow2(31) as int) <= capacity);
        }
        vstd::pervasive::unreached()
    }

    /// Returns the number of elements in the map.
    pub fn len(&self) -> (r: usize)
        requires
            self.wf(),
        ensures
            r == self@.len(),
    {
        proof {
            self.lemma_view();
        }
        self.nodes.number_of_items
    }

    /// Returns the number of elements the map can hold before it grows.
    pub fn capacity(&self) -> (r: usize)
        requires
            self.wf(),
        ensures
            r == threshold(self.size() as int),
    {
        number_before_resize(self.nodes.nodes.len())
    }

    /// Returns `true` if the map contains no elements.
    pub fn is_empty(&self) -> (r: bool)
        requires
            self.wf(),
        ensures
            r == (self@.len() == 0),
    {
        self.len() == 0
    }

    /// Removes all elements from the map, keeping its size.
    pub fn clear(&mut self)
        requires
            old(self).wf(),
        ensures
            final(self).wf(),
            final(self)@ == Map::<K::Identity, V>::empty(),
            final(self).size() == old(self).size(),
    {
        self.nodes = NodeStorage::with_size(self.nodes.nodes.len());
        proof {
            assert(self@ =~= Map::<K::Identity, V>::empty());
        }
    }

    fn hash(&self, key: &K) -> (r: u32)
        ensures
            r == K::hash_of(key.identity()),
    {
        key.hash_key()
    }

    fn resize(&mut self, new_size: usize)
        requires
            old(self).wf(),
            new_size >= old(self).size(),
        ensures
            final(self).wf(),
            final(self).nodes@ == old(self).nodes@,
            final(self).size() == new_size,
            final(self).nodes.number_of_items == old(self).nodes.number_of_items,
    {
        if new_size == self.nodes.nodes.len() {
            return ;
        }
        let mut nodes = NodeStorage::with_size(1);
        core::mem::swap(&mut self.nodes, &mut nodes);
        self.nodes = nodes.resized_to(new_size);
    }

    /// Inserts a key-value pair into the map.
    ///
    /// If the map did not have this key present, [`None`] is returned.
    ///
    /// If the map did have this key present, the value is updated and the old
    /// value is returned. The key is not updated: the stored key stays.
    pub fn insert(&mut self, key: K, value: V) -> (r: Option<V>)
        requires
            old(self).wf(),
            old(self)@.len() < usize::MAX / 4,
        ensures
            final(self).wf(),
            final(self)@ == old(self)@.insert(key.identity(), value),
            r == (if old(self)@.contains_key(key.identity()) {
                Some(old(self)@[key.identity()])
            } else {
                None
            }),
            final(self).stored_keys() == old(self).stored_keys().insert(
                key.identity(),
                if old(self)@.contains_key(key.identity()) {
                    old(self).stored_keys()[key.identity()]
                } else {
                    key
                },
            ),
            final(self).size() == if !old(self)@.contains_key(key.identity()) && old(self)@.len()
                >= threshold(old(self).size() as int) {
                2 * old(self).size()
            } else {
                old(self).size()
            },
    {
        let (r, _) = self.insert_at(key, value);
        r
    }

    /// Inserts as `insert` does and also says where the key now sits.
    fn insert_at(&mut self, key: K, value: V) -> (r: (Option<V>, usize))
        requires
            old(self).wf(),
            old(self)@.len() < usize::MAX / 4,
        ensures
            final(self).wf(),
            final(self)@ == old(self)@.insert(key.identity(), value),
            r.0 == (if old(self)@.contains_key(key.identity()) {
                Some(old(self)@[key.identity()])
            } else {
                None
            }),
            final(self).stored_keys() == old(self).stored_keys().insert(
                key.identity(),
                if old(self)@.contains_key(key.identity()) {
                    old(self).stored_keys()[key.identity()]
                } else {
                    key
                },
            ),
            final(self).size() == if !old(self)@.contains_key(key.identity()) && old(self)@.len()
                >= threshold(old(self).size() as int) {
                2 * old(self).size()
            } else {
                old(self).size()
            },
            node_storage::holds(final(self).nodes.nodes@, r.1 as int, key.identity()),
    {
        proof {
            self.lemma_view();
        }
        let ghost id = key.identity();
        let hash = self.hash(&key);
        match self.nodes.location(&key, hash) {
            Some(location) => {
                proof {
                    node_storage::lemma_contents_at(self.nodes.nodes@, location as int);
                }
                let old_value = self.nodes.replace_value_at(location, value);
                proof {
                    self.lemma_view();
                    assert(self@ =~= old(self)@.insert(id, value));
                    assert(self.stored_keys() =~= old(self).stored_keys().insert(
                        id,
                        old(self).stored_keys()[id],
                    ));
                }
                (Some(old_value), location)
            },
            None => {
                let size = self.nodes.nodes.len();
                if number_before_resize(size) <= self.nodes.number_of_items {
                    proof {
                        lemma_threshold_bounds(size as int);
                    }
                    self.resize(size * 2);
                }
                proof {
                    lemma_threshold_bounds(self.nodes.nodes@.len() as int);
                }
                let location = self.nodes.insert_new(key, value, hash);
                proof {
                    self.lemma_view();
                    assert(self@ =~= old(self)@.insert(id, value));
                    assert(self.stored_keys() =~= old(self).stored_keys().insert(id, key));
                }
                (None, location)
            },
        }
    }

    /// Returns `true` if the map contains a value for the specified key.
    pub fn contains_key(&self, key: &K) -> (r: bool)
        requires
            self.wf(),
        ensures
            r == self@.contains_key(key.identity()),
    {
        proof {
            self.lemma_view();
        }
        let hash = self.hash(key);
        match self.nodes.location(key, hash) {
            Some(location) => {
                proof {
                    node_storage::lemma_contents_at(self.nodes.nodes@, location as int);
                }
                true
            },
            None => false,
        }
    }

    /// Returns the stored key and the value corresponding to the supplied key.
    pub fn get_key_value(&self, key: &K) -> (r: Option<(&K, &V)>)
        requires
            self.wf(),
        ensures
            match r {
                Some((k, v)) => self@.contains_key(key.identity()) && *k == self.stored_keys()[key.identity()]
                    && *v == self@[key.identity()],
                None => !self@.contains_key(key.identity()),
            },
    {
        proof {
            self.lemma_view();
        }
        let hash = self.hash(key);
        match self.nodes.location(key, hash) {
            Some(location) => {
                proof {
                    node_storage::lemma_contents_at(self.nodes.nodes@, location as int);
                }
                self.nodes.nodes[location].key_value_ref()
            },
            None => None,
        }
    }

    /// Returns a reference to the value corresponding to the key, or [`None`]
    /// if the map holds no element with that key.
    pub fn get(&self, key: &K) -> (r: Option<&V>)
        requires
            self.wf(),
        ensures
            match r {
                Some(v) => self@.contains_key(key.identity()) && *v == self@[key.identity()],
                None => !self@.contains_key(key.identity()),
            },
    {
        match self.get_key_value(key) {
            Some((_, v)) => Some(v),
            None => None,
        }
    }

    /// Removes the given key from the map. Returns the value it had, or
    /// [`None`] if it was absent.
    pub fn remove(&mut self, key: &K) -> (r: Option<V>)
        requires
            old(self).wf(),
        ensures
            final(self).wf(),
            final(self)@ == old(self)@.remove(key.identity()),
            final(self).stored_keys() == old(self).stored_keys().remove(key.identity()),
            r == (if old(self)@.contains_key(key.identity()) {
                Some(old(self)@[key.identity()])
            } else {
                None
            }),
            final(self).size() == old(self).size(),
    {
        proof {
            self.lemma_view();
        }
        let ghost id = key.identity();
        let hash = self.hash(key);
        match self.nodes.location(key, hash) {
            Some(location) => {
                proof {
                    node_storage::lemma_contents_at(self.nodes.nodes@, location as int);
                }
                let (_, value) = self.nodes.remove_from_location(location);
                proof {
                    self.lemma_view();
                    assert(self@ =~= old(self)@.remove(id));
                    assert(self.stored_keys() =~= old(self).stored_keys().remove(id));
                }
                Some(value)
            },
            None => {
                proof {
                    assert(self@ =~= old(self)@.remove(id));
                    assert(self.stored_keys() =~= old(self).stored_keys().remove(id));
                }
                None
            },
        }
    }

    /// Returns a mutable reference to the value corresponding to the key, or
    /// [`None`] if the map holds no element with that key.
    pub fn get_mut(&mut self, key: &K) -> (r: Option<&mut V>)
        requires
            old(self).wf(),
        ensures
            match r {
                Some(v) => {
                    &&& old(self)@.contains_key(key.identity())
                    &&& *v == old(self)@[key.identity()]
                    &&& final(self).wf()
                    &&& final(self)@ == old(self)@.insert(key.identity(), *final(v))
                    &&& final(self).stored_keys() == old(self).stored_keys()
                    &&& final(self).size() == old(self).size()
                },
                None => !old(self)@.contains_key(key.identity()) && *final(self) == *old(self),
            },
    {
        proof {
            self.lemma_view();
        }
        let hash = self.hash(key);
        match self.nodes.location(key, hash) {
            Some(location) => Some(self.value_at_mut(location)),
            None => None,
        }
    }

    /// The value at an occupied position, for mutation.
    fn value_at_mut(&mut self, p: usize) -> (r: &mut V)
        requires
            old(self).wf(),
            node_storage::occupied(old(self).nodes.nodes@, p as int),
        ensures
            *r == old(self)@[old(self).nodes.nodes@[p as int]->key.identity()],
            final(self).wf(),
            final(self)@ == old(self)@.insert(old(self).nodes.nodes@[p as int]->key.identity(), *final(r)),
            final(self).stored_keys() == old(self).stored_keys(),
            final(self).size() == old(self).size(),
            final(self).nodes.nodes@.len() == old(self).nodes.nodes@.len(),
            node_storage::holds(final(self).nodes.nodes@, p as int, old(self).nodes.nodes@[p as int]->key.identity()),
    {
        proof {
            self.lemma_view();
            node_storage::lemma_contents_at(self.nodes.nodes@, p as int);
        }
        let ghost s = self.nodes.nodes@;
        let ghost id = s[p as int]->key.identity();
        match &mut self.nodes.nodes[p] {
            Node::Occupied { value, .. } => {
                proof {
                    node_storage::lemma_value_update(s, p as int, *final(value));
                }
                value
            },
            Node::Empty => vstd::pervasive::unreached(),
        }
    }

    /// Inserts as `insert` does and returns a mutable reference to the value
    /// now stored under the key.
    fn insert_and_get(&mut self, key: K, value: V) -> (r: &mut V)
        requires
            old(self).wf(),
            old(self)@.len() < usize::MAX / 4,
        ensures
            *r == value,
            final(self).wf(),
            final(self)@ == old(self)@.insert(key.identity(), *final(r)),
            final(self).stored_keys() == old(self).stored_keys().insert(
                key.identity(),
                if old(self)@.contains_key(key.identity()) {
                    old(self).stored_keys()[key.identity()]
                } else {
                    key
                },
            ),
    {
        let ghost id = key.identity();
        let ghost old_keys = self.stored_keys();
        let ghost old_view = self@;
        let (_, location) = self.insert_at(key, value);
        proof {
            self.lemma_view();
            node_storage::lemma_contents_at(self.nodes.nodes@, location as int);
        }
        let ghost mid = self@;
        let r = self.value_at_mut(location);
        proof {
            assert(mid.insert(id, *final(r)) =~= old_view.insert(id, *final(r)));
        }
        r
    }

    /// Keeps only the entries for which `f` returns `true`.
    ///
    /// Positions are visited in order; a position that an entry shifted back
    /// into after a removal is visited again.
    pub fn retain<F: Fn(&K, &V) -> bool>(&mut self, f: F)
        requires
            old(self).wf(),
            forall|k: &K, v: &V| f.requires((k, v)),
        ensures
            final(self).wf(),
            final(self).size() == old(self).size(),
            final(self)@.submap_of(old(self)@),
            final(self).stored_keys().submap_of(old(self).stored_keys()),
            forall|id: K::Identity| #[trigger]
                old(self)@.contains_key(id) ==> f.ensures(
                    (&old(self).stored_keys()[id], &old(self)@[id]),
                    final(self)@.contains_key(id),
                ),
    {
        proof {
            self.lemma_view();
        }
        let mut i: usize = 0;
        while i < self.nodes.nodes.len()
            invariant
                forall|k: &K, v: &V| f.requires((k, v)),
                self.wf(),
                self.size() == old(self).size(),
                old(self).wf(),
                self.nodes@.dom().subset_of(old(self).nodes@.dom()),
                forall|id: K::Identity| #[trigger]
                    self.nodes@.contains_key(id) ==> self.nodes@[id] == old(self).nodes@[id],
                forall|id: K::Identity| #[trigger]
                    old(self).nodes@.contains_key(id) && !self.nodes@.contains_key(id) ==> f.ensures(
                        (&old(self).nodes@[id].0, &old(self).nodes@[id].1),
                        false,
                    ),
                forall|q: int|
                    0 <= q < i && node_storage::occupied(self.nodes.nodes@, q) ==> f.ensures(
                        (&(#[trigger] self.nodes.nodes@[q])->key, &self.nodes.nodes@[q]->value),
                        true,
                    ),
            decreases self.nodes.number_of_items + self.nodes.nodes@.len() - i,
        {
            let ghost s = self.nodes.nodes@;
            let keep = match &self.nodes.nodes[i] {
                Node::Occupied { key, value, .. } => f(key, value),
                Node::Empty => true,
            };
            if keep {
                i = i + 1;
            } else {
                proof {
                    node_storage::lemma_contents_at(s, i as int);
                }
                let ghost before = self.nodes@;
                self.nodes.remove_from_location(i);
                proof {
                    let s2 = self.nodes.nodes@;
                    let n = s.len() as int;
                    assert forall|q: int|
                        0 <= q < i && node_storage::occupied(s2, q) implies f.ensures(
                        (&(#[trigger] s2[q])->key, &s2[q]->value),
                        true,
                    ) by {
                        assert(node_storage::shifted(s2, s, q, i as int));
                        if s2[q] != s[q] {
                            assert(node_storage::next_pos(q, n) == q + 1);
                            assert(node_storage::occupied(s, q + 1));
                        }
                    }
                    assert forall|id: K::Identity| #[trigger]
                        old(self).nodes@.contains_key(id) && !self.nodes@.contains_key(id) implies f.ensures(
                        (&old(self).nodes@[id].0, &old(self).nodes@[id].1),
                        false,
                    ) by {
                        if before.contains_key(id) {
                            assert(id == s[i as int]->key.identity());
                        }
                    }
                }
            }
        }
        proof {
            self.lemma_view();
            let s = self.nodes.nodes@;
            assert forall|id: K::Identity| #[trigger]
                old(self)@.contains_key(id) implies f.ensures(
                (&old(self).stored_keys()[id], &old(self)@[id]),
                self@.contains_key(id),
            ) by {
                old(self).lemma_view();
                if self.nodes@.contains_key(id) {
                    let q = choose|q: int| node_storage::holds(s, q, id);
                    assert(node_storage::holds(s, q, id));
                    node_storage::lemma_contents_at(s, q);
                }
            }
        }
    }

    /// Returns the value for `key`, which the map must hold.
    pub fn index(&self, key: &K) -> (r: &V)
        requires
            self.wf(),
            self@.contains_key(key.identity()),
        ensures
            *r == self@[key.identity()],
    {
        match self.get(key) {
            Some(v) => v,
            None => vstd::pervasive::unreached(),
        }
    }

    /// Inserts each pair of `pairs` in turn.
    pub fn extend(&mut self, pairs: Vec<(K, V)>)
        requires
            old(self).wf(),
            old(self)@.len() + pairs@.len() < usize::MAX / 4,
        ensures
            final(self).wf(),
            final(self)@ == after_inserts(old(self)@, pairs@),
            final(self).size() >= old(self).size(),
    {
        let ghost all = pairs@;
        let n = pairs.len();
        let mut pairs = pairs;
        let mut reversed: Vec<(K, V)> = Vec::new();
        while pairs.len() > 0
            invariant
                pairs@.len() + reversed@.len() == n,
                n == all.len(),
                pairs@ == all.subrange(0, pairs@.len() as int),
                forall|i: int| 0 <= i < reversed@.len() ==> #[trigger] reversed@[i] == all[n - 1 - i],
            decreases pairs@.len(),
        {
            let pair = pairs.pop().unwrap();
            reversed.push(pair);
            proof {
                assert(pairs@ =~= all.subrange(0, pairs@.len() as int));
            }
        }
        let mut done: usize = 0;
        while reversed.len() > 0
            invariant
                done + reversed@.len() == n,
                n == all.len(),
                forall|i: int| 0 <= i < reversed@.len() ==> #[trigger] reversed@[i] == all[n - 1 - i],
                self.wf(),
                self@ == after_inserts(old(self)@, all.subrange(0, done as int)),
                self@.len() <= old(self)@.len() + done,
                old(self)@.len() + n < usize::MAX / 4,
                self.size() >= old(self).size(),
            decreases reversed@.len(),
        {
            let (key, value) = reversed.pop().unwrap();
            proof {
                assert(all[done as int] == (key, value));
                assert(all.subrange(0, done + 1).drop_last() =~= all.subrange(0, done as int));
                self.lemma_view();
            }
            self.insert(key, value);
            done = done + 1;
        }
        proof {
            assert(all.subrange(0, n as int) =~= all);
        }
    }

    /// A map holding the pairs of `pairs`, inserted in turn.
    pub fn from_iter(pairs: Vec<(K, V)>) -> (r: Self)
        requires
            pairs@.len() < usize::MAX / 4,
        ensures
            r.wf(),
            r@ == after_inserts(Map::<K::Identity, V>::empty(), pairs@),
    {
        let mut map = Self::new();
        map.extend(pairs);
        map
    }

    /// Whether two maps hold the same keys with equal values, whatever their
    /// sizes and the order in which the keys came.
    pub fn eq(&self, other: &Self) -> (r: bool)
        where
            V: PartialEq,
        requires
            self.wf(),
            other.wf(),
        ensures
            self@.len() != other@.len() ==> !r,
            V::obeys_eq_spec() ==> (r == maps_match(self@, other@)),
    {
        proof {
            self.lemma_view();
            other.lemma_view();
        }
        if self.len() != other.len() {
            return false;
        }
        let n = self.nodes.nodes.len();
        let mut i: usize = 0;
        while i < n
            invariant
                self.wf(),
                other.wf(),
                n == self.nodes.nodes@.len(),
                i <= n,
                self@.len() == other@.len(),
                forall|q: int|
                    0 <= q < i && node_storage::occupied(self.nodes.nodes@, q) ==> {
                        let id = #[trigger] self.nodes.nodes@[q]->key.identity();
                        &&& other@.contains_key(id)
                        &&& V::obeys_eq_spec() ==> self@[id].eq_spec(&other@[id])
                    },
            decreases n - i,
        {
            match &self.nodes.nodes[i] {
                Node::Occupied { key, value, .. } => {
                    proof {
                        self.lemma_view();
                        node_storage::lemma_contents_at(self.nodes.nodes@, i as int);
                    }
                    match other.get(key) {
                        Some(v) => {
                            if !(*value == *v) {
                                return false;
                            }
                        },
                        None => {
                            return false;
                        },
                    }
                },
                Node::Empty => {},
            }
            i = i + 1;
        }
        proof {
            self.lemma_view();
            other.lemma_view();
            let s = self.nodes.nodes@;
            assert forall|id: K::Identity| self@.contains_key(id) implies other@.contains_key(id)
                && (V::obeys_eq_spec() ==> self@[id].eq_spec(&other@[id])) by {
                let q = choose|q: int| node_storage::holds(s, q, id);
                assert(node_storage::holds(s, q, id));
            }
            vstd::set_lib::lemma_subset_equality(self@.dom(), other@.dom());
        }
        true
    }
}


/// A borrowing iterator over the entries of a [`HashMap`], in position order.
pub struct Iter<'a, K, V> {
    map: &'a HashMap<K, V>,
    at: usize,
    num_found: usize,
}

impl<'a, K: HashKey, V> Iter<'a, K, V> {
    /// The map the iterator walks.
    pub closed spec fn map_view(&self) -> Map<K::Identity, V> {
        self.map@
    }

    /// The keys the map stores, by identity.
    pub closed spec fn map_keys(&self) -> Map<K::Identity, K> {
        self.map.stored_keys()
    }

    /// The identities the iterator has yet to yield.
    pub closed spec fn unseen(&self) -> Set<K::Identity> {
        Set::new(
            |id: K::Identity|
                exists|i: int| self.at <= i && node_storage::holds(self.map.nodes.nodes@, i, id),
        )
    }

    /// How many entries the iterator has yet to yield.
    pub open spec fn remaining(&self) -> nat {
        self.unseen().len()
    }

    pub closed spec fn wf(&self) -> bool {
        &&& self.map.wf()
        &&& self.at <= self.map.nodes.nodes@.len()
        &&& self.unseen().finite()
        &&& self.unseen().subset_of(self.map@.dom())
        &&& self.num_found + self.unseen().len() == self.map@.len()
    }

    /// The next entry, if any is left.
    pub fn next(&mut self) -> (r: Option<(&'a K, &'a V)>)
        requires
            old(self).wf(),
        ensures
            final(self).wf(),
            final(self).map_view() == old(self).map_view(),
            final(self).map_keys() == old(self).map_keys(),
            match r {
                Some((k, v)) => {
                    &&& old(self).unseen().contains(k.identity())
                    &&& final(self).unseen() == old(self).unseen().remove(k.identity())
                    &&& final(self).remaining() + 1 == old(self).remaining()
                    &&& *v == old(self).map_view()[k.identity()]
                    &&& *k == old(self).map_keys()[k.identity()]
                },
                None => old(self).remaining() == 0 && final(self).unseen() == old(self).unseen(),
            },
    {
        let map: &'a HashMap<K, V> = self.map;
        let n = map.nodes.nodes.len();
        let ghost s = map.nodes.nodes@;
        proof {
            map.lemma_view();
        }
        while self.at < n
            invariant
                self.map == map,
                s == map.nodes.nodes@,
                n == s.len(),
                self.wf(),
                self.unseen() == old(self).unseen(),
                self.num_found == old(self).num_found,
                old(self).map == map,
            decreases n - self.at,
        {
            let at = self.at;
            let node: &'a Node<K, V> = &map.nodes.nodes[at];
            let ghost before = self.unseen();
            self.at = at + 1;
            match node {
                Node::Occupied { key, value, .. } => {
                    proof {
                        let id = key.identity();
                        node_storage::lemma_contents_at(s, at as int);
                        assert(node_storage::holds(s, at as int, id));
                        assert(before.contains(id));
                        assert forall|x: K::Identity| #[trigger] self.unseen().contains(x)
                            == before.remove(id).contains(x) by {
                            if before.contains(x) && x != id {
                                let i = choose|i: int| at <= i && node_storage::holds(s, i, x);
                                assert(i != at);
                                assert(self.at <= i && node_storage::holds(
                                    self.map.nodes.nodes@,
                                    i,
                                    x,
                                ));
                            }
                            if self.unseen().contains(x) {
                                let i = choose|i: int|
                                    at + 1 <= i && node_storage::holds(s, i, x);
                                assert(node_storage::holds(s, i, x));
                                assert(at <= i && node_storage::holds(s, i, x));
                                if x == id {
                                    assert(node_storage::holds(s, at as int, x));
                                }
                            }
                        }
                        assert(self.unseen() =~= before.remove(id));
                        assert(before.len() >= 1);
                        map.lemma_view();
                    }
                    self.num_found = self.num_found + 1;
                    return Some((key, value));
                },
                Node::Empty => {
                    proof {
                        assert(self.unseen() =~= before) by {
                            assert forall|x: K::Identity| #[trigger] self.unseen().contains(x)
                                == before.contains(x) by {
                                if before.contains(x) {
                                    let i = choose|i: int| at <= i && node_storage::holds(s, i, x);
                                    assert(i != at);
                                }
                                if self.unseen().contains(x) {
                                    let i = choose|i: int| at + 1 <= i && node_storage::holds(s, i, x);
                                    assert(node_storage::holds(s, i, x));
                                }
                            }
                        }
                    }
                },
            }
        }
        proof {
            assert(self.unseen() =~= Set::<K::Identity>::empty()) by {
                assert forall|x: K::Identity| !self.unseen().contains(x) by {
                    if self.unseen().contains(x) {
                        let i = choose|i: int| self.at <= i && node_storage::holds(s, i, x);
                    }
                }
            }
        }
        None
    }

    /// The exact number of entries left, as a lower and an upper bound.
    pub fn size_hint(&self) -> (r: (usize, Option<usize>))
        requires
            self.wf(),
        ensures
            r.0 == self.remaining(),
            r.1 == Some(r.0),
    {
        let left = self.map.len() - self.num_found;
        (left, Some(left))
    }
}

/// An iterator that takes the entries out of a [`HashMap`], in position order.
pub struct IterOwned<K, V> {
    map: HashMap<K, V>,
    at: usize,
    num_found: usize,
}

impl<K: HashKey, V> IterOwned<K, V> {
    /// The entries the iterator has yet to yield, by identity.
    pub closed spec fn rest(&self) -> Map<K::Identity, (K, V)> {
        node_storage::contents(self.map.nodes.nodes@)
    }

    /// How many entries the iterator has yet to yield.
    pub open spec fn remaining(&self) -> nat {
        self.rest().len()
    }

    pub closed spec fn wf(&self) -> bool {
        let s = self.map.nodes.nodes@;
        &&& node_storage::unique(s)
        &&& node_storage::contents(s).dom().finite()
        &&& self.at <= s.len()
        &&& forall|i: int| 0 <= i < self.at ==> (#[trigger] s[i]) is Empty
        &&& self.num_found + node_storage::contents(s).len() == self.map.nodes.number_of_items
    }

    /// The next entry, if any is left.
    pub fn next(&mut self) -> (r: Option<(K, V)>)
        requires
            old(self).wf(),
        ensures
            final(self).wf(),
            match r {
                Some((k, v)) => {
                    &&& old(self).rest().contains_key(k.identity())
                    &&& old(self).rest()[k.identity()] == (k, v)
                    &&& final(self).rest() == old(self).rest().remove(k.identity())
                    &&& final(self).remaining() + 1 == old(self).remaining()
                },
                None => old(self).remaining() == 0 && final(self).rest() == old(self).rest(),
            },
    {
        let n = self.map.nodes.nodes.len();
        while self.at < n
            invariant
                self.wf(),
                n == self.map.nodes.nodes@.len(),
                self.rest() == old(self).rest(),
                self.num_found == old(self).num_found,
                self.map.nodes.number_of_items == old(self).map.nodes.number_of_items,
            decreases n - self.at,
        {
            let at = self.at;
            let ghost s = self.map.nodes.nodes@;
            let node = self.map.nodes.nodes[at].take();
            self.at = at + 1;
            match node {
                Node::Occupied { key, value, .. } => {
                    proof {
                        assert(node_storage::occupied(s, at as int));
                        node_storage::lemma_contents_at(s, at as int);
                        node_storage::lemma_contents_take(s, at as int);
                    }
                    self.num_found = self.num_found + 1;
                    return Some((key, value));
                },
                Node::Empty => {
                    proof {
                        assert(self.map.nodes.nodes@ =~= s);
                    }
                },
            }
        }
        proof {
            let s = self.map.nodes.nodes@;
            assert(self.rest() =~= Map::<K::Identity, (K, V)>::empty()) by {
                assert forall|x: K::Identity| !self.rest().contains_key(x) by {
                    if self.rest().contains_key(x) {
                        let i = choose|i: int| node_storage::holds(s, i, x);
                        assert(s[i] is Empty);
                    }
                }
            }
        }
        None
    }

    /// The exact number of entries left, as a lower and an upper bound.
    pub fn size_hint(&self) -> (r: (usize, Option<usize>))
        requires
            self.wf(),
        ensures
            r.0 == self.remaining(),
            r.1 == Some(r.0),
    {
        let left = self.map.nodes.number_of_items - self.num_found;
        (left, Some(left))
    }
}

impl<K: HashKey, V> HashMap<K, V> {
    /// An iterator over the entries, in position order.
    pub fn iter(&self) -> (r: Iter<'_, K, V>)
        requires
            self.wf(),
        ensures
            r.wf(),
            r.unseen() == self@.dom(),
            r.remaining() == self@.len(),
            r.map_view() == self@,
            r.map_keys() == self.stored_keys(),
    {
        let r = Iter { map: self, at: 0, num_found: 0 };
        proof {
            self.lemma_view();
            let s = self.nodes.nodes@;
            assert(r.unseen() =~= self@.dom()) by {
                assert forall|x: K::Identity| #[trigger] r.unseen().contains(x) == self@.dom().contains(x) by {
                    if self.nodes@.contains_key(x) {
                        let i = choose|i: int| node_storage::holds(s, i, x);
                        assert(0 <= i && node_storage::holds(s, i, x));
                    }
                }
            }
        }
        r
    }

    /// The stored keys, in position order.
    pub fn keys(&self) -> (r: Vec<&K>)
        requires
            self.wf(),
        ensures
            r@.len() == self@.len(),
            forall|i: int|
                0 <= i < r@.len() ==> self@.contains_key(#[trigger] r@[i].identity())
                    && self.stored_keys()[r@[i].identity()] == *r@[i],
            forall|i: int, j: int|
                0 <= i < j < r@.len() ==> #[trigger] r@[i].identity() != #[trigger] r@[j].identity(),
    {
        let mut out: Vec<&K> = Vec::new();
        let mut iter = self.iter();
        loop
            invariant
                iter.wf(),
                iter.map_view() == self@,
                iter.map_keys() == self.stored_keys(),
                out@.len() + iter.remaining() == self@.len(),
                forall|i: int|
                    0 <= i < out@.len() ==> self@.contains_key(#[trigger] out@[i].identity())
                        && !iter.unseen().contains(out@[i].identity())
                        && self.stored_keys()[out@[i].identity()] == *out@[i],
                forall|i: int, j: int|
                    0 <= i < j < out@.len() ==> #[trigger] out@[i].identity() != #[trigger] out@[j].identity(),
                iter.unseen().subset_of(self@.dom()),
            ensures
                out@.len() == self@.len(),
                forall|i: int|
                    0 <= i < out@.len() ==> self@.contains_key(#[trigger] out@[i].identity())
                        && self.stored_keys()[out@[i].identity()] == *out@[i],
                forall|i: int, j: int|
                    0 <= i < j < out@.len() ==> #[trigger] out@[i].identity() != #[trigger] out@[j].identity(),
            decreases iter.remaining(),
        {
            match iter.next() {
                Some((k, _)) => {
                    out.push(k);
                },
                None => {
                    break;
                },
            }
        }
        out
    }

    /// The values, in position order: one for each stored key, in the order
    /// `keys` gives.
    pub fn values(&self) -> (r: Vec<&V>)
        requires
            self.wf(),
        ensures
            r@.len() == self@.len(),
            exists|ids: Seq<K::Identity>|
                {
                    &&& ids.len() == r@.len()
                    &&& ids.no_duplicates()
                    &&& forall|i: int|
                        0 <= i < ids.len() ==> self@.contains_key(#[trigger] ids[i]) && *r@[i]
                            == self@[ids[i]]
                },
    {
        let mut out: Vec<&V> = Vec::new();
        let ghost mut ids: Seq<K::Identity> = Seq::empty();
        let mut iter = self.iter();
        loop
            invariant
                iter.wf(),
                iter.map_view() == self@,
                out@.len() + iter.remaining() == self@.len(),
                ids.len() == out@.len(),
                ids.no_duplicates(),
                forall|i: int|
                    0 <= i < ids.len() ==> self@.contains_key(#[trigger] ids[i]) && !iter.unseen().contains(
                        ids[i],
                    ) && *out@[i] == self@[ids[i]],
            ensures
                out@.len() == self@.len(),
                ids.len() == out@.len(),
                ids.no_duplicates(),
                forall|i: int|
                    0 <= i < ids.len() ==> self@.contains_key(#[trigger] ids[i]) && *out@[i] == self@[ids[i]],
            decreases iter.remaining(),
        {
            match iter.next() {
                Some((k, v)) => {
                    proof {
                        ids = ids.push(k.identity());
                    }
                    out.push(v);
                },
                None => {
                    break;
                },
            }
        }
        out
    }

    /// Each stored key with a mutable reference to its value, in position
    /// order.
    pub fn iter_mut(&mut self) -> (r: Vec<(&K, &mut V)>)
        requires
            old(self).wf(),
        ensures
            final(self).wf(),
            final(self).size() == old(self).size(),
            final(self).stored_keys() == old(self).stored_keys(),
            final(self)@.dom() == old(self)@.dom(),
            r@.len() == old(self)@.len(),
            forall|i: int|
                #![trigger r@[i]]
                0 <= i < r@.len() ==> {
                    let id = r@[i].0.identity();
                    &&& old(self)@.contains_key(id)
                    &&& *r@[i].0 == old(self).stored_keys()[id]
                    &&& *r@[i].1 == old(self)@[id]
                    &&& final(self)@[id] == *final(r@[i].1)
                },
            forall|i: int, j: int|
                0 <= i < j < r@.len() ==> #[trigger] r@[i].0.identity() != #[trigger] r@[j].0.identity(),
    {
        proof {
            self.lemma_view();
        }
        let ghost s = self.nodes.nodes@;
        let ghost after = *final(self);
        let ghost fin = after.nodes.nodes@;
        let slice = self.nodes.nodes.as_mut_slice();
        let ghost fin_slice = final(slice)@;
        proof {
            assert(fin == fin_slice);
        }
        let r = node_storage::collect_mut(slice);
        proof {
            node_storage::lemma_same_but_values(fin, s);
            assert forall|i: int| #![trigger r@[i]] 0 <= i < r@.len() implies {
                let id = r@[i].0.identity();
                &&& old(self)@.contains_key(id)
                &&& *r@[i].0 == old(self).stored_keys()[id]
                &&& *r@[i].1 == old(self)@[id]
                &&& fin[node_storage::position_of(s, id)]->value == *final(r@[i].1)
            } by {
                assert(node_storage::sourced(s, i, *r@[i].0, *r@[i].1));
                let q = choose|q: int|
                    node_storage::occupied(s, q) && #[trigger] node_storage::rank(s, q) == i
                        && *r@[i].0 == s[q]->key && *r@[i].1 == s[q]->value;
                node_storage::lemma_contents_at(s, q);
                node_storage::lemma_position_of(s, q);
                let k = node_storage::rank(s, q);
                assert(fin[q]->value == *final(r@[k].1));
            }
            assert forall|i: int, j: int|
                0 <= i < j < r@.len() implies #[trigger] r@[i].0.identity() != #[trigger] r@[j].0.identity() by {
                assert(node_storage::sourced(s, i, *r@[i].0, *r@[i].1));
                assert(node_storage::sourced(s, j, *r@[j].0, *r@[j].1));
                let qi = choose|q: int|
                    node_storage::occupied(s, q) && #[trigger] node_storage::rank(s, q) == i
                        && *r@[i].0 == s[q]->key && *r@[i].1 == s[q]->value;
                let qj = choose|q: int|
                    node_storage::occupied(s, q) && #[trigger] node_storage::rank(s, q) == j
                        && *r@[j].0 == s[q]->key && *r@[j].1 == s[q]->value;
                if r@[i].0.identity() == r@[j].0.identity() {
                    assert(node_storage::holds(s, qi, r@[i].0.identity()));
                    assert(node_storage::holds(s, qj, r@[i].0.identity()));
                }
            }
            assert forall|id: K::Identity| #[trigger] after.nodes@.contains_key(id) implies after.nodes@[id].0
                == old(self).nodes@[id].0 by {
                assert(node_storage::contents(s).contains_key(id));
                let q = choose|q: int| node_storage::holds(s, q, id);
                assert(node_storage::holds(s, q, id));
                node_storage::lemma_contents_at(s, q);
                assert(fin[q] == fin[q]);
                assert(s[q]->key.identity() == id);
                assert(node_storage::contents(fin)[id] == (s[q]->key, fin[q]->value));
                assert(after.nodes@ == node_storage::contents(fin));
                assert(old(self).nodes@ == node_storage::contents(s));
                assert(node_storage::contents(s)[id].0 == s[q]->key);
            }
            assert(after.stored_keys() =~= old(self).stored_keys());
        }
        r
    }

    /// A mutable reference to each value, in no particular order.
    pub fn values_mut(&mut self) -> (r: Vec<&mut V>)
        requires
            old(self).wf(),
        ensures
            final(self).wf(),
            final(self).size() == old(self).size(),
            final(self).stored_keys() == old(self).stored_keys(),
            final(self)@.dom() == old(self)@.dom(),
            r@.len() == old(self)@.len(),
            exists|ids: Seq<K::Identity>|
                {
                    &&& ids.len() == r@.len()
                    &&& ids.no_duplicates()
                    &&& forall|i: int|
                        #![trigger ids[i]]
                        0 <= i < ids.len() ==> {
                            &&& old(self)@.contains_key(ids[i])
                            &&& *r@[i] == old(self)@[ids[i]]
                            &&& final(self)@[ids[i]] == *final(r@[i])
                        }
                },
    {
        let ghost after = *final(self);
        let mut pairs = self.iter_mut();
        let ghost all = pairs@;
        let ghost n = all.len();
        let mut out: Vec<&mut V> = Vec::new();
        while pairs.len() > 0
            invariant
                n == all.len(),
                pairs@ == all.subrange(0, pairs@.len() as int),
                out@.len() + pairs@.len() == n,
                forall|i: int|
                    0 <= i < out@.len() ==> {
                        let o = #[trigger] out@[i];
                        &&& *o == *all[n - 1 - i].1
                        &&& *final(o) == *final(all[n - 1 - i].1)
                    },
            decreases pairs@.len(),
        {
            let ghost last = pairs@.last();
            let (_, v) = pairs.pop().unwrap();
            out.push(v);
            proof {
                assert(pairs@ =~= all.subrange(0, pairs@.len() as int));
                assert(last == all[pairs@.len() as int]);
                let o = out@.last();
                assert(*o == *last.1);
                assert(*final(o) == *final(last.1));
            }
        }
        proof {
            let ids = Seq::new(n, |i: int| all[n - 1 - i].0.identity());
            assert(ids.no_duplicates()) by {
                assert forall|a: int, b: int| 0 <= a < b < ids.len() implies ids[a] != ids[b] by {
                    let x = n - 1 - b;
                    let y = n - 1 - a;
                    assert(all[x].0.identity() != all[y].0.identity());
                }
            }
            assert forall|i: int| #![trigger ids[i]] 0 <= i < ids.len() implies {
                &&& old(self)@.contains_key(ids[i])
                &&& *out@[i] == old(self)@[ids[i]]
                &&& after@[ids[i]] == *final(out@[i])
            } by {
                assert(*out@[i] == *all[n - 1 - i].1);
                assert(all[n - 1 - i] == all[n - 1 - i]);
            }
        }
        out
    }

    /// An iterator that takes every entry out of the map.
    pub fn into_iter(self) -> (r: IterOwned<K, V>)
        requires
            self.wf(),
        ensures
            r.wf(),
            r.rest().dom() == self@.dom(),
            forall|id: K::Identity| #[trigger] r.rest().contains_key(id) ==> r.rest()[id] == (
                self.stored_keys()[id],
                self@[id],
            ),
            r.remaining() == self@.len(),
    {
        proof {
            self.lemma_view();
        }
        IterOwned { map: self, at: 0, num_found: 0 }
    }
}

/// A view into an occupied entry of a [`HashMap`]: the key it was looked up
/// with, and where the stored entry sits.
pub struct OccupiedEntry<'a, K, V> {
    key: K,
    map: &'a mut HashMap<K, V>,
    location: usize,
}

/// A view into a vacant entry of a [`HashMap`]: the key it was looked up with.
pub struct VacantEntry<'a, K, V> {
    key: K,
    map: &'a mut HashMap<K, V>,
}

/// A view into a single entry of a map, which may be vacant or occupied.
pub enum Entry<'a, K, V> {
    /// An occupied entry.
    Occupied(OccupiedEntry<'a, K, V>),
    /// A vacant entry.
    Vacant(VacantEntry<'a, K, V>),
}

impl<'a, K: HashKey, V> OccupiedEntry<'a, K, V> {
    /// The key the entry was looked up with.
    pub closed spec fn entry_key(&self) -> K {
        self.key
    }

    /// The map, as it stands now.
    pub closed spec fn current(&self) -> HashMap<K, V> {
        *self.map
    }

    /// The borrow of the map that the entry holds.
    pub closed spec fn map_ref(&self) -> &'a mut HashMap<K, V> {
        self.map
    }

    pub closed spec fn wf(&self) -> bool {
        &&& self.map.wf()
        &&& node_storage::holds(self.map.nodes.nodes@, self.location as int, self.key.identity())
    }

    /// Sets the value of the entry and returns the old one.
    pub fn insert(&mut self, value: V) -> (r: V)
        requires
            old(self).wf(),
        ensures
            final(self).wf(),
            r == old(self).current()@[old(self).entry_key().identity()],
            final(self).current()@ == old(self).current()@.insert(old(self).entry_key().identity(), value),
            final(self).current().stored_keys() == old(self).current().stored_keys(),
            final(self).entry_key() == old(self).entry_key(),
            *final(final(self).map_ref()) == *final(old(self).map_ref()),
    {
        proof {
            self.map.lemma_view();
            node_storage::lemma_contents_at(self.map.nodes.nodes@, self.location as int);
        }
        let r = self.map.nodes.replace_value_at(self.location, value);
        proof {
            self.map.lemma_view();
            assert(self.map.stored_keys() =~= old(self).current().stored_keys());
            assert(self.map@ =~= old(self).current()@.insert(old(self).entry_key().identity(), value));
        }
        r
    }
}

impl<'a, K: HashKey, V> OccupiedEntry<'a, K, V> {
    /// Gets a reference to the key the entry was looked up with.
    pub fn key(&self) -> (r: &K)
        ensures
            *r == self.entry_key(),
    {
        &self.key
    }

    /// Gets a reference to the value in the entry.
    pub fn get(&self) -> (r: &V)
        requires
            self.wf(),
        ensures
            *r == self.current()@[self.entry_key().identity()],
    {
        proof {
            self.map.lemma_view();
            node_storage::lemma_contents_at(self.map.nodes.nodes@, self.location as int);
        }
        match &self.map.nodes.nodes[self.location] {
            Node::Occupied { value, .. } => value,
            Node::Empty => vstd::pervasive::unreached(),
        }
    }

    /// Gets a mutable reference to the value in the entry.
    pub fn get_mut(&mut self) -> (r: &mut V)
        requires
            old(self).wf(),
        ensures
            *r == old(self).current()@[old(self).entry_key().identity()],
            final(self).wf(),
            final(self).current()@ == old(self).current()@.insert(
                old(self).entry_key().identity(),
                *final(r),
            ),
            final(self).current().stored_keys() == old(self).current().stored_keys(),
            final(self).entry_key() == old(self).entry_key(),
            *final(final(self).map_ref()) == *final(old(self).map_ref()),
    {
        proof {
            node_storage::lemma_contents_at(self.map.nodes.nodes@, self.location as int);
        }
        self.map.value_at_mut(self.location)
    }

    /// Turns the entry into a mutable reference to its value, which lives as
    /// long as the borrow of the map.
    pub fn into_mut(self) -> (r: &'a mut V)
        requires
            self.wf(),
        ensures
            *r == self.current()@[self.entry_key().identity()],
            final(self.map_ref()).wf(),
            final(self.map_ref())@ == self.current()@.insert(self.entry_key().identity(), *final(r)),
            final(self.map_ref()).stored_keys() == self.current().stored_keys(),
    {
        proof {
            node_storage::lemma_contents_at(self.map.nodes.nodes@, self.location as int);
        }
        self.map.value_at_mut(self.location)
    }

    /// Takes the entry out of the map; hands back the key the entry was
    /// looked up with and the value.
    pub fn remove_entry(self) -> (r: (K, V))
        requires
            self.wf(),
        ensures
            r.0 == self.entry_key(),
            r.1 == self.current()@[self.entry_key().identity()],
            final(self.map_ref()).wf(),
            final(self.map_ref())@ == self.current()@.remove(self.entry_key().identity()),
            final(self.map_ref()).stored_keys() == self.current().stored_keys().remove(
                self.entry_key().identity(),
            ),
    {
        proof {
            self.map.lemma_view();
            node_storage::lemma_contents_at(self.map.nodes.nodes@, self.location as int);
        }
        let ghost id = self.key.identity();
        let (_, value) = self.map.nodes.remove_from_location(self.location);
        proof {
            self.map.lemma_view();
            assert(self.map@ =~= self.current()@.remove(id));
            assert(self.map.stored_keys() =~= self.current().stored_keys().remove(id));
        }
        (self.key, value)
    }

    /// Takes the value out of the map.
    pub fn remove(self) -> (r: V)
        requires
            self.wf(),
        ensures
            r == self.current()@[self.entry_key().identity()],
            final(self.map_ref()).wf(),
            final(self.map_ref())@ == self.current()@.remove(self.entry_key().identity()),
            final(self.map_ref()).stored_keys() == self.current().stored_keys().remove(
                self.entry_key().identity(),
            ),
    {
        let (_, value) = self.remove_entry();
        value
    }
}

impl<'a, K: HashKey, V> VacantEntry<'a, K, V> {
    /// Gets a reference to the key the entry was looked up with.
    pub fn key(&self) -> (r: &K)
        ensures
            *r == self.entry_key(),
    {
        &self.key
    }

    /// Takes back the key, leaving the map as it was.
    pub fn into_key(self) -> (r: K)
        ensures
            r == self.entry_key(),
            *final(self.map_ref()) == self.current(),
    {
        self.key
    }

    /// Inserts `value` under the entry's key and returns a mutable reference
    /// to it, which lives as long as the borrow of the map.
    pub fn insert(self, value: V) -> (r: &'a mut V)
        requires
            self.wf(),
            self.current()@.len() < usize::MAX / 4,
        ensures
            *r == value,
            final(self.map_ref()).wf(),
            final(self.map_ref())@ == self.current()@.insert(self.entry_key().identity(), *final(r)),
            final(self.map_ref()).stored_keys() == self.current().stored_keys().insert(
                self.entry_key().identity(),
                self.entry_key(),
            ),
    {
        self.map.insert_and_get(self.key, value)
    }
}

impl<'a, K: HashKey, V> Entry<'a, K, V> {
    /// The key the entry was looked up with.
    pub open spec fn entry_key(&self) -> K {
        match self {
            Entry::Occupied(e) => e.entry_key(),
            Entry::Vacant(e) => e.entry_key(),
        }
    }

    /// The map, as it stands now.
    pub open spec fn current(&self) -> HashMap<K, V> {
        match self {
            Entry::Occupied(e) => e.current(),
            Entry::Vacant(e) => e.current(),
        }
    }

    /// The borrow of the map that the entry holds.
    pub open spec fn map_ref(&self) -> &'a mut HashMap<K, V> {
        match self {
            Entry::Occupied(e) => e.map_ref(),
            Entry::Vacant(e) => e.map_ref(),
        }
    }

    pub open spec fn wf(&self) -> bool {
        match self {
            Entry::Occupied(e) => e.wf(),
            Entry::Vacant(e) => e.wf(),
        }
    }

    /// Whether the entry's key is in the map.
    pub open spec fn is_held(&self) -> bool {
        self.current()@.contains_key(self.entry_key().identity())
    }

    /// Ensures a value is in the entry by inserting `value` if it is vacant,
    /// and returns a mutable reference to the value in the entry.
    pub fn or_insert(self, value: V) -> (r: &'a mut V)
        requires
            self.wf(),
            self.current()@.len() < usize::MAX / 4,
        ensures
            *r == if self.is_held() {
                self.current()@[self.entry_key().identity()]
            } else {
                value
            },
            final(self.map_ref()).wf(),
            final(self.map_ref())@ == self.current()@.insert(self.entry_key().identity(), *final(r)),
    {
        match self {
            Entry::Occupied(e) => e.into_mut(),
            Entry::Vacant(e) => e.insert(value),
        }
    }

    /// Ensures a value is in the entry by inserting what `f` returns if it is
    /// vacant, and returns a mutable reference to the value in the entry.
    pub fn or_insert_with<F: FnOnce() -> V>(self, f: F) -> (r: &'a mut V)
        requires
            self.wf(),
            self.current()@.len() < usize::MAX / 4,
            f.requires(()),
        ensures
            self.is_held() ==> *r == self.current()@[self.entry_key().identity()],
            !self.is_held() ==> f.ensures((), *r),
            final(self.map_ref()).wf(),
            final(self.map_ref())@ == self.current()@.insert(self.entry_key().identity(), *final(r)),
    {
        match self {
            Entry::Occupied(e) => e.into_mut(),
            Entry::Vacant(e) => e.insert(f()),
        }
    }

    /// Ensures a value is in the entry by inserting what `f` returns for the
    /// key if it is vacant, and returns a mutable reference to the value.
    pub fn or_insert_with_key<F: FnOnce(&K) -> V>(self, f: F) -> (r: &'a mut V)
        requires
            self.wf(),
            self.current()@.len() < usize::MAX / 4,
            f.requires((&self.entry_key(),)),
        ensures
            self.is_held() ==> *r == self.current()@[self.entry_key().identity()],
            !self.is_held() ==> f.ensures((&self.entry_key(),), *r),
            final(self.map_ref()).wf(),
            final(self.map_ref())@ == self.current()@.insert(self.entry_key().identity(), *final(r)),
    {
        match self {
            Entry::Occupied(e) => e.into_mut(),
            Entry::Vacant(e) => {
                let value = f(&e.key);
                e.insert(value)
            },
        }
    }

    /// Ensures a value is in the entry by inserting `V`'s default if it is
    /// vacant, and returns a mutable reference to the value in the entry.
    pub fn or_default(self) -> (r: &'a mut V)
        where
            V: Default,
        requires
            self.wf(),
            self.current()@.len() < usize::MAX / 4,
        ensures
            self.is_held() ==> *r == self.current()@[self.entry_key().identity()],
            !self.is_held() ==> call_ensures(V::default, (), *r),
            final(self.map_ref()).wf(),
            final(self.map_ref())@ == self.current()@.insert(self.entry_key().identity(), *final(r)),
    {
        match self {
            Entry::Occupied(e) => e.into_mut(),
            Entry::Vacant(e) => e.insert(V::default()),
        }
    }

    /// Lets `f` change the value of an occupied entry, before any insert;
    /// a vacant entry passes through unchanged.
    pub fn and_modify<F: FnOnce(&mut V)>(self, f: F) -> (r: Self)
        requires
            self.wf(),
            forall|v: &mut V| f.requires((v,)),
        ensures
            r.wf(),
            r.entry_key() == self.entry_key(),
            r is Occupied == self is Occupied,
            *final(r.map_ref()) == *final(self.map_ref()),
            r.current().stored_keys() == self.current().stored_keys(),
            self is Vacant ==> r.current() == self.current(),
            self is Occupied ==> exists|v: &mut V|
                {
                    &&& *v == self.current()@[self.entry_key().identity()]
                    &&& #[trigger] f.ensures((v,), ())
                    &&& r.current()@ == self.current()@.insert(
                        self.entry_key().identity(),
                        *final(v),
                    )
                },
    {
        match self {
            Entry::Occupied(mut e) => {
                let v = e.get_mut();
                f(v);
                Entry::Occupied(e)
            },
            Entry::Vacant(e) => Entry::Vacant(e),
        }
    }

    /// Returns a reference to the key the entry was looked up with.
    pub fn key(&self) -> (r: &K)
        ensures
            *r == self.entry_key(),
    {
        match self {
            Entry::Occupied(e) => &e.key,
            Entry::Vacant(e) => &e.key,
        }
    }
}

impl<K: HashKey, V> HashMap<K, V> {
    /// Gets the given key's entry in the map for in-place manipulation.
    pub fn entry(&mut self, key: K) -> (r: Entry<'_, K, V>)
        requires
            old(self).wf(),
        ensures
            match r {
                Entry::Occupied(e) => {
                    &&& e.wf()
                    &&& old(self)@.contains_key(key.identity())
                    &&& e.entry_key() == key
                    &&& e.current() == *old(self)
                    &&& *final(e.map_ref()) == *final(self)
                },
                Entry::Vacant(e) => {
                    &&& !old(self)@.contains_key(key.identity())
                    &&& e.wf()
                    &&& e.entry_key() == key
                    &&& e.current() == *old(self)
                    &&& *final(e.map_ref()) == *final(self)
                },
            },
    {
        proof {
            self.lemma_view();
        }
        let hash = self.hash(&key);
        match self.nodes.location(&key, hash) {
            Some(location) => {
                proof {
                    node_storage::lemma_contents_at(self.nodes.nodes@, location as int);
                }
                Entry::Occupied(OccupiedEntry { key, map: self, location })
            },
            None => Entry::Vacant(VacantEntry { key, map: self }),
        }
    }
}

impl<'a, K: HashKey, V> VacantEntry<'a, K, V> {
    /// The key the entry was looked up with.
    pub closed spec fn entry_key(&self) -> K {
        self.key
    }

    /// The map, as it stands now.
    pub closed spec fn current(&self) -> HashMap<K, V> {
        *self.map
    }

    /// The borrow of the map that the entry holds.
    pub closed spec fn map_ref(&self) -> &'a mut HashMap<K, V> {
        self.map
    }

    pub closed spec fn wf(&self) -> bool {
        &&& self.map.wf()
        &&& !self.map@.contains_key(self.key.identity())
    }
}

impl<K: HashKey, V> Default for HashMap<K, V> {
    fn default() -> (r: Self)
        ensures
            r.wf(),
            r@ == Map::<K::Identity, V>::empty(),
    {
        Self::new()
    }
}

} // verus!

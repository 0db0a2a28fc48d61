//! What holds of runs of map operations, stated over the views that the
//! operations' contracts speak of.
use crate::{after_inserts, threshold, HashKey, HashMap};
use vstd::prelude::*;

verus! {

/// After a run of inserts, a key that is not inserted again later maps to
/// the value it was inserted with.
pub proof fn lemma_round_trip<K: HashKey, V>(m: Map<K::Identity, V>, kvs: Seq<(K, V)>, i: int)
    requires
        0 <= i < kvs.len(),
        forall|j: int| i < j < kvs.len() ==> #[trigger] kvs[j].0.identity() != kvs[i].0.identity(),
    ensures
        after_inserts(m, kvs).contains_key(kvs[i].0.identity()),
        after_inserts(m, kvs)[kvs[i].0.identity()] == kvs[i].1,
    decreases kvs.len(),
{
    if i < kvs.len() - 1 {
        assert(kvs.last() == kvs[kvs.len() - 1]);
        assert forall|j: int| i < j < kvs.drop_last().len() implies #[trigger] kvs.drop_last()[j].0.identity()
            != kvs.drop_last()[i].0.identity() by {
            assert(kvs.drop_last()[j] == kvs[j]);
        }
        lemma_round_trip(m, kvs.drop_last(), i);
    }
}

/// No entry is lost in a run of inserts: whatever the map's size, every key
/// inserted is held afterwards, and so is every key held before.
pub proof fn lemma_no_entry_lost<K: HashKey, V>(m: Map<K::Identity, V>, kvs: Seq<(K, V)>)
    ensures
        forall|i: int| 0 <= i < kvs.len() ==> after_inserts(m, kvs).contains_key(
            #[trigger] kvs[i].0.identity(),
        ),
        forall|id: K::Identity| m.contains_key(id) ==> #[trigger] after_inserts(m, kvs).contains_key(id),
    decreases kvs.len(),
{
    if kvs.len() > 0 {
        lemma_no_entry_lost(m, kvs.drop_last());
        assert forall|id: K::Identity| m.contains_key(id) implies #[trigger] after_inserts(
            m,
            kvs,
        ).contains_key(id) by {
            assert(after_inserts(m, kvs.drop_last()).contains_key(id));
        }
        assert forall|i: int| 0 <= i < kvs.len() implies after_inserts(m, kvs).contains_key(
            #[trigger] kvs[i].0.identity(),
        ) by {
            if i < kvs.len() - 1 {
                assert(kvs.drop_last()[i] == kvs[i]);
            }
        }
    }
}

/// The threshold of a table never shrinks as the table grows, so a capacity
/// that only sees sizes grow (inserts) or stay (removes) only increases.
pub proof fn lemma_capacity_monotone(a: int, b: int)
    requires
        0 <= a <= b,
    ensures
        threshold(a) <= threshold(b),
{
    assert(a * 85 / 100 <= b * 85 / 100) by (nonlinear_arith)
        requires
            0 <= a <= b,
    ;
}

/// Inserting a key and then removing it leaves the key absent and the
/// length one less than after the insert; removing an absent key leaves the
/// view, and so the length, as it was.
pub proof fn lemma_remove_after_insert<K: HashKey, V>(map: HashMap<K, V>, key: K, value: V)
    requires
        map.wf(),
    ensures
        ({
            let inserted = map@.insert(key.identity(), value);
            &&& !inserted.remove(key.identity()).contains_key(key.identity())
            &&& inserted.remove(key.identity()).len() + 1 == inserted.len()
        }),
        !map@.contains_key(key.identity()) ==> map@.remove(key.identity()) == map@ && map@.remove(
            key.identity(),
        ).len() == map@.len(),
{
    map.lemma_view_finite();
    if !map@.contains_key(key.identity()) {
        assert(map@.remove(key.identity()) =~= map@);
    }
}

/// Inserting a second key with the identity of a first keeps the length,
/// hands back the first value, makes the second value current, and keeps the
/// key that the first insert stored.
pub proof fn lemma_overwrite<K: HashKey, V>(map: HashMap<K, V>, k1: K, v1: V, k2: K, v2: V)
    requires
        map.wf(),
        k1.identity() == k2.identity(),
    ensures
        ({
            let id = k1.identity();
            let m1 = map@.insert(id, v1);
            let keys1 = map.stored_keys().insert(
                id,
                if map@.contains_key(id) {
                    map.stored_keys()[id]
                } else {
                    k1
                },
            );
            let m2 = m1.insert(k2.identity(), v2);
            let keys2 = keys1.insert(
                k2.identity(),
                if m1.contains_key(k2.identity()) {
                    keys1[k2.identity()]
                } else {
                    k2
                },
            );
            &&& m1.contains_key(k2.identity()) && m1[k2.identity()] == v1
            &&& m2.len() == m1.len()
            &&& m2[id] == v2
            &&& keys2 == keys1
            &&& (!map@.contains_key(id) ==> keys2[id] == k1)
        }),
{
    map.lemma_view_finite();
    let id = k1.identity();
    let m1 = map@.insert(id, v1);
    let keys1 = map.stored_keys().insert(
        id,
        if map@.contains_key(id) {
            map.stored_keys()[id]
        } else {
            k1
        },
    );
    assert(m1.insert(id, v2).dom() =~= m1.dom());
    assert(keys1.insert(id, keys1[id]) =~= keys1);
}

/// With keys that differ in identity, the view after a run of inserts holds
/// exactly the identities of the run, each with the value it came with.
pub proof fn lemma_inserts_hold<K: HashKey, V>(kvs: Seq<(K, V)>)
    requires
        forall|i: int, j: int|
            0 <= i < j < kvs.len() ==> #[trigger] kvs[i].0.identity() != #[trigger] kvs[j].0.identity(),
    ensures
        forall|id: K::Identity| #[trigger]
            after_inserts(Map::<K::Identity, V>::empty(), kvs).contains_key(id) <==> exists|i: int|
                0 <= i < kvs.len() && kvs[i].0.identity() == id,
        forall|i: int|
            0 <= i < kvs.len() ==> after_inserts(Map::<K::Identity, V>::empty(), kvs)[#[trigger] kvs[
                i
            ].0.identity()] == kvs[i].1,
    decreases kvs.len(),
{
    let m = Map::<K::Identity, V>::empty();
    if kvs.len() > 0 {
        let rest = kvs.drop_last();
        assert forall|i: int, j: int|
            0 <= i < j < rest.len() implies #[trigger] rest[i].0.identity() != #[trigger] rest[j].0.identity() by {
            assert(rest[i] == kvs[i] && rest[j] == kvs[j]);
        }
        lemma_inserts_hold(rest);
        assert forall|id: K::Identity| #[trigger]
            after_inserts(m, kvs).contains_key(id) <==> exists|i: int|
                0 <= i < kvs.len() && kvs[i].0.identity() == id by {
            if after_inserts(m, kvs).contains_key(id) && id != kvs.last().0.identity() {
                assert(after_inserts(m, rest).contains_key(id));
                let i = choose|i: int| 0 <= i < rest.len() && rest[i].0.identity() == id;
                assert(kvs[i] == rest[i]);
            }
            if exists|i: int| 0 <= i < kvs.len() && kvs[i].0.identity() == id {
                let i = choose|i: int| 0 <= i < kvs.len() && kvs[i].0.identity() == id;
                if i < kvs.len() - 1 {
                    assert(rest[i] == kvs[i]);
                    assert(after_inserts(m, rest).contains_key(rest[i].0.identity()));
                }
            }
        }
        assert forall|i: int| 0 <= i < kvs.len() implies after_inserts(m, kvs)[#[trigger] kvs[
            i
        ].0.identity()] == kvs[i].1 by {
            if i < kvs.len() - 1 {
                assert(rest[i] == kvs[i]);
                assert(after_inserts(m, rest)[rest[i].0.identity()] == rest[i].1);
            }
        }
    }
}

/// Two runs of inserts of the same pairs, with keys that differ in identity,
/// in any two orders, leave the same view; so the maps compare equal however
/// their sizes came about.
pub proof fn lemma_insert_order<K: HashKey, V>(kvs1: Seq<(K, V)>, kvs2: Seq<(K, V)>)
    requires
        forall|i: int, j: int|
            0 <= i < j < kvs1.len() ==> #[trigger] kvs1[i].0.identity() != #[trigger] kvs1[j].0.identity(),
        forall|i: int, j: int|
            0 <= i < j < kvs2.len() ==> #[trigger] kvs2[i].0.identity() != #[trigger] kvs2[j].0.identity(),
        forall|i: int| 0 <= i < kvs1.len() ==> #[trigger] kvs2.contains(kvs1[i]),
        forall|i: int| 0 <= i < kvs2.len() ==> #[trigger] kvs1.contains(kvs2[i]),
    ensures
        after_inserts(Map::<K::Identity, V>::empty(), kvs1) == after_inserts(
            Map::<K::Identity, V>::empty(),
            kvs2,
        ),
{
    let m = Map::<K::Identity, V>::empty();
    lemma_inserts_hold(kvs1);
    lemma_inserts_hold(kvs2);
    let a = after_inserts(m, kvs1);
    let b = after_inserts(m, kvs2);
    assert forall|id: K::Identity| #[trigger] a.contains_key(id) == b.contains_key(id) by {
        if a.contains_key(id) {
            let i = choose|i: int| 0 <= i < kvs1.len() && kvs1[i].0.identity() == id;
            assert(kvs2.contains(kvs1[i]));
            let j = choose|j: int| 0 <= j < kvs2.len() && kvs2[j] == kvs1[i];
            assert(kvs2[j].0.identity() == id);
        }
        if b.contains_key(id) {
            let j = choose|j: int| 0 <= j < kvs2.len() && kvs2[j].0.identity() == id;
            assert(kvs1.contains(kvs2[j]));
            let i = choose|i: int| 0 <= i < kvs1.len() && kvs1[i] == kvs2[j];
            assert(kvs1[i].0.identity() == id);
        }
    }
    assert forall|id: K::Identity| #[trigger] a.contains_key(id) implies a[id] == b[id] by {
        let i = choose|i: int| 0 <= i < kvs1.len() && kvs1[i].0.identity() == id;
        assert(kvs2.contains(kvs1[i]));
        let j = choose|j: int| 0 <= j < kvs2.len() && kvs2[j] == kvs1[i];
        assert(a[kvs1[i].0.identity()] == kvs1[i].1);
        assert(b[kvs2[j].0.identity()] == kvs2[j].1);
    }
    assert(a =~= b);
}

} // verus!

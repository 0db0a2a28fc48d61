//! The table proper: a ring of positions kept in Robin Hood order, with
//! insertion by displacement and removal by backward shift.
use crate::hash_key::HashKey;
use crate::node::Node;
use vstd::prelude::*;

verus! {

/// The position after `p` on a ring of `n` positions.
pub open spec fn next_pos(p: int, n: int) -> int {
    if p + 1 >= n {
        0
    } else {
        p + 1
    }
}

/// The position before `p` on a ring of `n` positions.
pub open spec fn prev_pos(p: int, n: int) -> int {
    if p == 0 {
        n - 1
    } else {
        p - 1
    }
}

/// The position `j` steps before `p` on a ring of `n` positions.
pub open spec fn back(p: int, j: int, n: int) -> int {
    if p >= j {
        p - j
    } else {
        p - j + n
    }
}

/// How many steps forward lead from `p` to `e` on a ring of `n` positions.
pub open spec fn ahead(p: int, e: int, n: int) -> int {
    if p <= e {
        e - p
    } else {
        e - p + n
    }
}

/// The initial bucket that hash `h` selects among `n` positions.
pub open spec fn home(h: u32, n: int) -> int {
    h as int % n
}

pub open spec fn occupied<K, V>(s: Seq<Node<K, V>>, i: int) -> bool {
    0 <= i < s.len() && s[i] is Occupied
}

/// Position `i` holds the key with identity `id`.
pub open spec fn holds<K: HashKey, V>(s: Seq<Node<K, V>>, i: int, id: K::Identity) -> bool {
    occupied(s, i) && s[i]->key.identity() == id
}

/// An entry at `i` sits `dib` steps past the bucket its (correct) hash selects.
pub open spec fn placed<K: HashKey, V>(s: Seq<Node<K, V>>, i: int) -> bool {
    occupied(s, i) ==> {
        &&& (s[i]->dib as int) < s.len()
        &&& back(i, s[i]->dib as int, s.len() as int) == home(s[i]->hash, s.len() as int)
        &&& s[i]->hash == K::hash_of(s[i]->key.identity())
    }
}

/// Robin Hood order: an entry past its initial bucket follows an occupied
/// position whose entry is at most one step less far from its own.
pub open spec fn linked<K, V>(s: Seq<Node<K, V>>, i: int) -> bool {
    occupied(s, i) && s[i]->dib > 0 ==> {
        let q = prev_pos(i, s.len() as int);
        occupied(s, q) && s[q]->dib + 1 >= s[i]->dib
    }
}

/// No identity is held at two positions.
pub open spec fn unique<K: HashKey, V>(s: Seq<Node<K, V>>) -> bool {
    forall|i: int, j: int, id: K::Identity|
        #[trigger] holds(s, i, id) && #[trigger] holds(s, j, id) ==> i == j
}

pub open spec fn table_ok<K: HashKey, V>(s: Seq<Node<K, V>>) -> bool {
    &&& s.len() > 0
    &&& forall|i: int| 0 <= i < s.len() ==> #[trigger] placed(s, i)
    &&& forall|i: int| 0 <= i < s.len() ==> #[trigger] linked(s, i)
    &&& unique(s)
}

/// The entries of a table, by identity.
pub open spec fn contents<K: HashKey, V>(s: Seq<Node<K, V>>) -> Map<K::Identity, (K, V)> {
    Map::new(
        |id: K::Identity| exists|i: int| holds(s, i, id),
        |id: K::Identity|
            {
                let i = choose|i: int| holds(s, i, id);
                (s[i]->key, s[i]->value)
            },
    )
}

/// How many positions are occupied.
pub open spec fn occ_count<K, V>(s: Seq<Node<K, V>>) -> nat
    decreases s.len(),
{
    if s.len() == 0 {
        0
    } else {
        occ_count(s.drop_last()) + if s.last() is Occupied {
            1nat
        } else {
            0nat
        }
    }
}

pub proof fn lemma_contents_at<K: HashKey, V>(s: Seq<Node<K, V>>, i: int)
    requires
        unique(s),
        occupied(s, i),
    ensures
        contents(s).contains_key(s[i]->key.identity()),
        contents(s)[s[i]->key.identity()] == (s[i]->key, s[i]->value),
{
    let id = s[i]->key.identity();
    assert(holds(s, i, id));
    let j = choose|j: int| holds(s, j, id);
    assert(holds(s, j, id));
}

pub proof fn lemma_occ_count_update<K, V>(s: Seq<Node<K, V>>, i: int, x: Node<K, V>)
    requires
        0 <= i < s.len(),
    ensures
        occ_count(s.update(i, x)) + (if s[i] is Occupied {
            1int
        } else {
            0int
        }) == occ_count(s) + (if x is Occupied {
            1int
        } else {
            0int
        }),
    decreases s.len(),
{
    if i == s.len() - 1 {
        assert(s.update(i, x).drop_last() =~= s.drop_last());
    } else {
        lemma_occ_count_update(s.drop_last(), i, x);
        assert(s.update(i, x).drop_last() =~= s.drop_last().update(i, x));
    }
}

pub proof fn lemma_occ_count_bound<K, V>(s: Seq<Node<K, V>>)
    ensures
        occ_count(s) <= s.len(),
    decreases s.len(),
{
    if s.len() > 0 {
        lemma_occ_count_bound(s.drop_last());
    }
}

pub proof fn lemma_empty_slot_exists<K, V>(s: Seq<Node<K, V>>)
    requires
        occ_count(s) < s.len(),
    ensures
        exists|e: int| 0 <= e < s.len() && s[e] is Empty,
    decreases s.len(),
{
    if !(s.last() is Empty) {
        lemma_empty_slot_exists(s.drop_last());
        let e = choose|e: int| 0 <= e < s.drop_last().len() && s.drop_last()[e] is Empty;
        assert(s[e] is Empty);
    } else {
        assert(s[s.len() - 1] is Empty);
    }
}

pub proof fn lemma_all_empty<K: HashKey, V>(s: Seq<Node<K, V>>)
    requires
        forall|i: int| 0 <= i < s.len() ==> s[i] is Empty,
    ensures
        occ_count(s) == 0,
        contents(s) == Map::<K::Identity, (K, V)>::empty(),
    decreases s.len(),
{
    if s.len() > 0 {
        lemma_all_empty::<K, V>(s.drop_last());
    }
    assert(contents(s) =~= Map::<K::Identity, (K, V)>::empty());
}

/// Emptying an occupied position removes its entry.
pub proof fn lemma_contents_take<K: HashKey, V>(s: Seq<Node<K, V>>, p: int)
    requires
        unique(s),
        occupied(s, p),
    ensures
        unique(s.update(p, Node::Empty)),
        contents(s.update(p, Node::Empty)) == contents(s).remove(s[p]->key.identity()),
{
    let t = s.update(p, Node::Empty);
    let id = s[p]->key.identity();
    assert forall|i: int, j: int, x: K::Identity| #[trigger] holds(t, i, x) && #[trigger] holds(
        t,
        j,
        x,
    ) implies i == j by {
        assert(holds(s, i, x) && holds(s, j, x));
    }
    assert forall|x: K::Identity| #[trigger]
        contents(t).contains_key(x) == contents(s).remove(id).contains_key(x) by {
        if contents(t).contains_key(x) {
            let i = choose|i: int| holds(t, i, x);
            assert(holds(s, i, x));
            assert(holds(s, p, id));
        }
        if contents(s).remove(id).contains_key(x) {
            let i = choose|i: int| holds(s, i, x);
            assert(holds(t, i, x));
        }
    }
    assert forall|x: K::Identity| #[trigger] contents(t).contains_key(x) implies contents(t)[x]
        == contents(s)[x] by {
        let i = choose|i: int| holds(t, i, x);
        assert(holds(t, i, x));
        assert(holds(s, i, x));
        lemma_contents_at(t, i);
        lemma_contents_at(s, i);
    }
    assert(contents(t) =~= contents(s).remove(id));
}

/// Filling an empty position with a key not yet held adds its entry.
pub proof fn lemma_contents_put<K: HashKey, V>(s: Seq<Node<K, V>>, p: int, x: Node<K, V>)
    requires
        unique(s),
        0 <= p < s.len(),
        s[p] is Empty,
        x is Occupied,
        !contents(s).contains_key(x->key.identity()),
    ensures
        unique(s.update(p, x)),
        contents(s.update(p, x)) == contents(s).insert(x->key.identity(), (x->key, x->value)),
{
    let t = s.update(p, x);
    let id = x->key.identity();
    assert forall|i: int, j: int, y: K::Identity| #[trigger] holds(t, i, y) && #[trigger] holds(
        t,
        j,
        y,
    ) implies i == j by {
        if i != p && j != p {
            assert(holds(s, i, y) && holds(s, j, y));
        } else if i != p {
            assert(holds(s, i, y));
        } else if j != p {
            assert(holds(s, j, y));
        }
    }
    assert(holds(t, p, id));
    lemma_contents_at(t, p);
    assert forall|y: K::Identity| #[trigger]
        contents(t).contains_key(y) == contents(s).insert(id, (x->key, x->value)).contains_key(
            y,
        ) by {
        if contents(t).contains_key(y) && y != id {
            let i = choose|i: int| holds(t, i, y);
            assert(holds(s, i, y));
        }
        if contents(s).contains_key(y) {
            let i = choose|i: int| holds(s, i, y);
            assert(holds(t, i, y));
        }
    }
    assert forall|y: K::Identity| #[trigger] contents(t).contains_key(y) && y != id implies contents(
        t,
    )[y] == contents(s)[y] by {
        let i = choose|i: int| holds(t, i, y);
        assert(holds(t, i, y));
        assert(holds(s, i, y));
        lemma_contents_at(t, i);
        lemma_contents_at(s, i);
    }
    assert(contents(t) =~= contents(s).insert(id, (x->key, x->value)));
}

/// Walking back from an entry towards its initial bucket meets only
/// occupied positions whose entries are far enough from their own.
pub proof fn lemma_chain<K: HashKey, V>(s: Seq<Node<K, V>>, q: int, j: int)
    requires
        table_ok(s),
        occupied(s, q),
        0 <= j <= s[q]->dib,
    ensures
        occupied(s, back(q, j, s.len() as int)),
        s[back(q, j, s.len() as int)]->dib + j >= s[q]->dib,
    decreases j,
{
    let n = s.len() as int;
    assert(placed(s, q));
    if j > 0 {
        lemma_chain(s, q, j - 1);
        let r = back(q, j - 1, n);
        assert(linked(s, r));
        assert(prev_pos(r, n) == back(q, j, n));
    }
}

/// A probe `t` steps past the initial bucket of an entry that sits at least
/// `t` steps past it finds an occupied position with an entry at least as far.
pub proof fn lemma_probe<K: HashKey, V>(s: Seq<Node<K, V>>, p: int, t: int, q: int)
    requires
        table_ok(s),
        0 <= p < s.len(),
        0 <= t,
        occupied(s, q),
        t <= s[q]->dib,
        back(p, t, s.len() as int) == home(s[q]->hash, s.len() as int),
    ensures
        p == back(q, s[q]->dib - t, s.len() as int),
        occupied(s, p),
        s[p]->dib >= t,
{
    let n = s.len() as int;
    assert(placed(s, q));
    let d = s[q]->dib as int;
    assert(p == back(q, d - t, n));
    lemma_chain(s, q, d - t);
}

/// A travelling entry behind an occupied position leaves room ahead: the
/// ring holds an empty position beyond its walk.
pub proof fn lemma_room<K: HashKey, V>(s: Seq<Node<K, V>>, p: int, td: int, e: int)
    requires
        table_ok(s),
        occupied(s, p),
        0 <= td < s.len(),
        td > 0 ==> occupied(s, prev_pos(p, s.len() as int)) && s[prev_pos(
            p,
            s.len() as int,
        )]->dib + 1 >= td,
        0 <= e < s.len(),
        s[e] is Empty,
    ensures
        td + 1 < s.len(),
{
    let n = s.len() as int;
    let j = ahead(e, p, n);
    assert(e == back(p, j, n));
    if j <= td {
        assert(j > 0);
        let q = prev_pos(p, n);
        assert(back(q, j - 1, n) == e);
        lemma_chain(s, q, j - 1);
    }
}

/// Changing the value at an occupied position keeps the table in order and
/// changes that entry's value alone.
pub proof fn lemma_value_update<K: HashKey, V>(s: Seq<Node<K, V>>, p: int, w: V)
    requires
        table_ok(s),
        occupied(s, p),
    ensures
        ({
            let t = s.update(
                p,
                Node::Occupied { key: s[p]->key, value: w, hash: s[p]->hash, dib: s[p]->dib },
            );
            &&& table_ok(t)
            &&& occ_count(t) == occ_count(s)
            &&& contents(t) == contents(s).insert(s[p]->key.identity(), (s[p]->key, w))
        }),
{
    let x = Node::Occupied { key: s[p]->key, value: w, hash: s[p]->hash, dib: s[p]->dib };
    let t = s.update(p, x);
    let e = s.update(p, Node::Empty);
    lemma_contents_at(s, p);
    lemma_contents_take(s, p);
    lemma_contents_put(e, p, x);
    lemma_occ_count_update(s, p, x);
    assert(e.update(p, x) == t);
    assert forall|i: int| 0 <= i < s.len() implies #[trigger] placed(t, i) by {
        assert(placed(s, i));
    }
    assert forall|i: int| 0 <= i < s.len() implies #[trigger] linked(t, i) by {
        assert(linked(s, i));
    }
    assert(contents(s).remove(s[p]->key.identity()).insert(s[p]->key.identity(), (s[p]->key, w))
        =~= contents(s).insert(s[p]->key.identity(), (s[p]->key, w)));
}

/// After a removal at `p`, position `q` of `t` is empty, as it was in `s`, or
/// holds the entry that followed it in `s` (never the removed one).
pub open spec fn shifted<K, V>(t: Seq<Node<K, V>>, s: Seq<Node<K, V>>, q: int, p: int) -> bool {
    let nq = next_pos(q, s.len() as int);
    ||| t[q] is Empty
    ||| t[q] == s[q]
    ||| (nq != p && occupied(s, nq) && t[q] is Occupied && t[q]->key == s[nq]->key && t[q]->value
        == s[nq]->value)
}

/// How many of the positions before `q` are occupied.
pub open spec fn rank<K, V>(s: Seq<Node<K, V>>, q: int) -> int {
    occ_count(s.subrange(0, q)) as int
}

/// `t` differs from `s` at most in the values of occupied positions.
pub open spec fn same_but_values<K, V>(t: Seq<Node<K, V>>, s: Seq<Node<K, V>>) -> bool {
    &&& t.len() == s.len()
    &&& forall|q: int|
        0 <= q < s.len() ==> {
            &&& (#[trigger] t[q] is Occupied) == (s[q] is Occupied)
            &&& s[q] is Occupied ==> t[q]->key == s[q]->key && t[q]->hash == s[q]->hash && t[q]->dib
                == s[q]->dib
        }
}

/// The pair `(k, v)` is what the occupied position of rank `i` in `s` holds.
pub open spec fn sourced<K, V>(s: Seq<Node<K, V>>, i: int, k: K, v: V) -> bool {
    exists|q: int|
        occupied(s, q) && #[trigger] rank(s, q) == i && k == s[q]->key && v == s[q]->value
}

pub proof fn lemma_rank_bound<K, V>(s: Seq<Node<K, V>>, q: int)
    requires
        occupied(s, q),
    ensures
        rank(s, q) < occ_count(s),
    decreases s.len(),
{
    if q == s.len() - 1 {
        assert(s.subrange(0, q) =~= s.drop_last());
    } else {
        lemma_rank_bound(s.drop_last(), q);
        assert(s.drop_last().subrange(0, q) =~= s.subrange(0, q));
    }
}

/// Hands out, in position order, each stored key with a mutable reference
/// to its value: entry `i` comes from the occupied position of rank `i`.
pub fn collect_mut<'b, K, V>(nodes: &'b mut [Node<K, V>]) -> (r: Vec<(&'b K, &'b mut V)>)
    ensures
        r@.len() == occ_count(old(nodes)@),
        same_but_values(final(nodes)@, old(nodes)@),
        forall|i: int|
            0 <= i < r@.len() ==> #[trigger] sourced(old(nodes)@, i, *r@[i].0, *r@[i].1),
        forall|q: int|
            #![trigger rank(old(nodes)@, q)]
            occupied(old(nodes)@, q) ==> {
                let k = rank(old(nodes)@, q);
                final(nodes)@[q]->value == *final(r@[k].1)
            },
    decreases old(nodes)@.len(),
{
    let n = nodes.len();
    if n == 0 {
        return Vec::new();
    }
    let ghost s = nodes@;
    let ghost fin = final(nodes)@;
    proof {
        assert(s == old(nodes)@);
    }
    let (front, back) = nodes.split_at_mut(n - 1);
    let ghost f0 = front@;
    let ghost fin_front = final(front)@;
    let ghost fin_back = final(back)@;
    proof {
        assert(fin == fin_front + fin_back);
    }
    let mut r = collect_mut(front);
    proof {
        assert(f0 =~= s.drop_last());
        assert forall|q: int| 0 <= q < n - 1 implies rank(f0, q) == rank(s, q) by {
            assert(f0.subrange(0, q) =~= s.subrange(0, q));
        }
        assert(s.subrange(0, n - 1) =~= f0);
    }
    let ghost r0 = r@;
    match back.first_mut() {
        Some(node) => match node {
            Node::Occupied { key, value, .. } => {
                r.push((&*key, value));
            },
            Node::Empty => {},
        },
        None => {},
    }
    proof {
        assert forall|i: int| 0 <= i < r@.len() implies #[trigger] sourced(
            s,
            i,
            *r@[i].0,
            *r@[i].1,
        ) by {
            if i < r0.len() {
                assert(r@[i] == r0[i]);
                assert(sourced(f0, i, *r0[i].0, *r0[i].1));
                let q = choose|q: int|
                    occupied(f0, q) && #[trigger] rank(f0, q) == i && *r0[i].0 == f0[q]->key
                        && *r0[i].1 == f0[q]->value;
                assert(rank(s, q) == i);
            } else {
                assert(rank(s, n - 1) == i);
            }
        }
        assert forall|q: int| #![trigger rank(s, q)] occupied(s, q) implies {
            let k = rank(s, q);
            fin[q]->value == *final(r@[k].1)
        } by {
            if q < n - 1 {
                assert(occupied(f0, q));
                assert(rank(f0, q) == rank(s, q));
                lemma_rank_bound(f0, q);
                let k = rank(f0, q);
                assert(fin_front[q]->value == *final(r0[k].1));
                assert(fin[q] == fin_front[q]);
            } else {
                assert(fin[n - 1] == fin_back[0]);
            }
        }
    }
    r
}

/// A table whose values alone changed is still in order, with the same
/// keys and the new values.
pub proof fn lemma_same_but_values<K: HashKey, V>(t: Seq<Node<K, V>>, s: Seq<Node<K, V>>)
    requires
        table_ok(s),
        same_but_values(t, s),
    ensures
        table_ok(t),
        occ_count(t) == occ_count(s),
        contents(t).dom() == contents(s).dom(),
        forall|q: int|
            #![trigger t[q]]
            occupied(s, q) ==> contents(t)[s[q]->key.identity()] == (s[q]->key, t[q]->value),
{
    assert forall|i: int| 0 <= i < t.len() implies #[trigger] placed(t, i) by {
        assert(placed(s, i));
    }
    assert forall|i: int| 0 <= i < t.len() implies #[trigger] linked(t, i) by {
        assert(linked(s, i));
    }
    assert forall|i: int, j: int, id: K::Identity| #[trigger] holds(t, i, id) && #[trigger] holds(
        t,
        j,
        id,
    ) implies i == j by {
        assert(holds(s, i, id) && holds(s, j, id));
    }
    lemma_occ_count_same(t, s);
    assert forall|id: K::Identity| #[trigger] contents(t).dom().contains(id) == contents(s).dom().contains(id) by {
        if contents(t).dom().contains(id) {
            let i = choose|i: int| holds(t, i, id);
            assert(holds(s, i, id));
        }
        if contents(s).dom().contains(id) {
            let i = choose|i: int| holds(s, i, id);
            assert(holds(t, i, id));
        }
    }
    assert(contents(t).dom() =~= contents(s).dom());
    assert forall|q: int| #![trigger t[q]] occupied(s, q) implies contents(t)[s[q]->key.identity()] == (
        s[q]->key,
        t[q]->value,
    ) by {
        lemma_contents_at(t, q);
    }
}

pub proof fn lemma_occ_count_same<K, V>(t: Seq<Node<K, V>>, s: Seq<Node<K, V>>)
    requires
        same_but_values(t, s),
    ensures
        occ_count(t) == occ_count(s),
    decreases s.len(),
{
    if s.len() > 0 {
        assert(t.drop_last().len() == s.drop_last().len());
        assert forall|q: int| 0 <= q < s.drop_last().len() implies (#[trigger] t.drop_last()[q] is Occupied)
            == (s.drop_last()[q] is Occupied) && (s.drop_last()[q] is Occupied ==> t.drop_last()[q]->key
            == s.drop_last()[q]->key && t.drop_last()[q]->hash == s.drop_last()[q]->hash
            && t.drop_last()[q]->dib == s.drop_last()[q]->dib) by {
            assert(t[q] is Occupied == s[q] is Occupied);
        }
        lemma_occ_count_same(t.drop_last(), s.drop_last());
        assert(t[t.len() - 1] is Occupied == s[s.len() - 1] is Occupied);
    }
}

/// The position that holds identity `id`, when one does.
pub open spec fn position_of<K: HashKey, V>(s: Seq<Node<K, V>>, id: K::Identity) -> int {
    choose|q: int| holds(s, q, id)
}

pub proof fn lemma_position_of<K: HashKey, V>(s: Seq<Node<K, V>>, q: int)
    requires
        unique(s),
        occupied(s, q),
    ensures
        position_of(s, s[q]->key.identity()) == q,
{
    let id = s[q]->key.identity();
    assert(holds(s, q, id));
    let p = position_of(s, id);
    assert(holds(s, p, id));
}

/// The storage of a table: its positions and the number of entries.
#[derive(Clone)]
pub(crate) struct NodeStorage<K, V> {
    pub(crate) nodes: Vec<Node<K, V>>,
    pub(crate) number_of_items: usize,
}

impl<K: HashKey, V> NodeStorage<K, V> {
    pub(crate) open spec fn wf(&self) -> bool {
        &&& table_ok(self.nodes@)
        &&& self.number_of_items == occ_count(self.nodes@)
        &&& contents(self.nodes@).dom().finite()
        &&& self.number_of_items == contents(self.nodes@).len()
        &&& self.number_of_items < self.nodes@.len()
    }

    pub(crate) open spec fn view(&self) -> Map<K::Identity, (K, V)> {
        contents(self.nodes@)
    }

    /// An empty table of `size` positions.
    pub(crate) fn with_size(size: usize) -> (r: Self)
        requires
            size > 0,
        ensures
            r.wf(),
            r@ == Map::<K::Identity, (K, V)>::empty(),
            r.nodes@.len() == size,
            r.number_of_items == 0,
    {
        let mut nodes: Vec<Node<K, V>> = Vec::new();
        let mut i: usize = 0;
        while i < size
            invariant
                i <= size,
                nodes@.len() == i,
                forall|k: int| 0 <= k < i ==> nodes@[k] is Empty,
            decreases size - i,
        {
            nodes.push(Node::Empty);
            i = i + 1;
        }
        proof {
            lemma_all_empty::<K, V>(nodes@);
            assert forall|k: int| 0 <= k < nodes@.len() implies #[trigger] placed(nodes@, k) && linked(
                nodes@,
                k,
            ) by {}
        }
        NodeStorage { nodes, number_of_items: 0 }
    }

    /// Where the key with `key`'s identity sits, if anywhere.
    pub(crate) fn location(&self, key: &K, hash: u32) -> (r: Option<usize>)
        requires
            self.wf(),
            hash == K::hash_of(key.identity()),
        ensures
            match r {
                Some(p) => holds(self.nodes@, p as int, key.identity()),
                None => !self@.contains_key(key.identity()),
            },
    {
        let n = self.nodes.len();
        let ghost s = self.nodes@;
        let ghost id = key.identity();
        let mut p: usize = (hash as usize) % n;
        let mut t: usize = 0;
        while t < n
            invariant
                n == s.len(),
                s == self.nodes@,
                self.wf(),
                id == key.identity(),
                hash == K::hash_of(id),
                p < n,
                t <= n,
                t < n ==> back(p as int, t as int, n as int) == home(hash, n as int),
                forall|q: int| #[trigger] holds(s, q, id) ==> t <= s[q]->dib,
            decreases n - t,
        {
            match &self.nodes[p] {
                Node::Empty => {
                    proof {
                        assert forall|q: int| #[trigger] holds(s, q, id) implies false by {
                            assert(placed(s, q));
                            lemma_probe(s, p as int, t as int, q);
                        }
                        assert(!self@.contains_key(id));
                    }
                    return None;
                },
                Node::Occupied { key: stored, dib, .. } => {
                    if *dib < t {
                        proof {
                            assert forall|q: int| #[trigger] holds(s, q, id) implies false by {
                                assert(placed(s, q));
                                lemma_probe(s, p as int, t as int, q);
                            }
                            assert(!self@.contains_key(id));
                        }
                        return None;
                    }
                    if stored.key_eq(key) {
                        return Some(p);
                    }
                    proof {
                        assert forall|q: int| #[trigger] holds(s, q, id) implies t + 1 <= s[q]->dib by {
                            assert(placed(s, q));
                            lemma_probe(s, p as int, t as int, q);
                        }
                    }
                },
            }
            p = if p + 1 == n {
                0
            } else {
                p + 1
            };
            t = t + 1;
        }
        proof {
            assert forall|q: int| #[trigger] holds(s, q, id) implies false by {
                assert(placed(s, q));
            }
            assert(!self@.contains_key(id));
        }
        None
    }

    /// Places a key that the table does not hold, displacing on the way every
    /// resident entry that sits nearer its initial bucket than the travelling
    /// one; returns where the new key ends up.
    pub(crate) fn insert_new(&mut self, key: K, value: V, hash: u32) -> (r: usize)
        requires
            old(self).wf(),
            hash == K::hash_of(key.identity()),
            !old(self)@.contains_key(key.identity()),
            old(self).number_of_items + 1 < old(self).nodes@.len(),
        ensures
            final(self).wf(),
            final(self)@ == old(self)@.insert(key.identity(), (key, value)),
            final(self).nodes@.len() == old(self).nodes@.len(),
            final(self).number_of_items == old(self).number_of_items + 1,
            holds(final(self).nodes@, r as int, key.identity()),
    {
        let n = self.nodes.len();
        let ghost s0 = self.nodes@;
        let ghost id0 = key.identity();
        let ghost target = contents(s0).insert(id0, (key, value));
        proof {
            lemma_empty_slot_exists(s0);
        }
        let ghost e = choose|e: int| 0 <= e < n && s0[e] is Empty;
        let mut p: usize = (hash as usize) % n;
        let mut trav: Node<K, V> = Node::Occupied { key, value, hash, dib: 0 };
        let mut pos: usize = p;
        let mut placed_new: bool = false;
        loop
            invariant
                n == self.nodes@.len(),
                n == s0.len(),
                p < n,
                pos < n,
                0 <= e < n,
                self.nodes@[e] is Empty,
                table_ok(self.nodes@),
                occ_count(self.nodes@) == occ_count(s0),
                self.number_of_items == old(self).number_of_items,
                old(self).number_of_items + 1 < n,
                old(self).wf(),
                s0 == old(self).nodes@,
                id0 == key.identity(),
                target == contents(s0).insert(id0, (key, value)),
                !contents(s0).contains_key(id0),
                trav is Occupied,
                (trav->dib as int) < n,
                back(p as int, trav->dib as int, n as int) == home(trav->hash, n as int),
                trav->hash == K::hash_of(trav->key.identity()),
                trav->dib > 0 ==> occupied(self.nodes@, prev_pos(p as int, n as int))
                    && self.nodes@[prev_pos(p as int, n as int)]->dib + 1 >= trav->dib,
                !contents(self.nodes@).contains_key(trav->key.identity()),
                contents(self.nodes@).insert(trav->key.identity(), (trav->key, trav->value))
                    == target,
                placed_new ==> holds(self.nodes@, pos as int, id0) && ahead(pos as int, e, n as int)
                    > ahead(p as int, e, n as int),
                !placed_new ==> trav->key.identity() == id0 && trav->key == key && trav->value
                    == value,
            decreases ahead(p as int, e, n as int),
        {
            let ghost s = self.nodes@;
            if !self.nodes[p].has_value() {
                proof {
                    lemma_contents_put(s, p as int, trav);
                    lemma_occ_count_update(s, p as int, trav);
                }
                core::mem::swap(&mut self.nodes[p], &mut trav);
                self.number_of_items = self.number_of_items + 1;
                proof {
                    let s2 = self.nodes@;
                    assert(s2 == s.update(p as int, s2[p as int]));
                    assert forall|i: int| 0 <= i < n implies #[trigger] placed(s2, i) by {
                        assert(placed(s, i));
                    }
                    assert forall|i: int| 0 <= i < n implies #[trigger] linked(s2, i) by {
                        assert(linked(s, i));
                        if i != p && prev_pos(i, n as int) == p {
                            assert(!occupied(s, p as int));
                        }
                    }
                    assert(contents(s2) == target);
                    assert(table_ok(s2));
                    assert(self.number_of_items == occ_count(s2));
                    assert(target.dom().finite());
                    assert(self.number_of_items == target.len());
                    assert(self.number_of_items < n);
                }
                if placed_new {
                    return pos;
                } else {
                    return p;
                }
            }
            let resident_dib: usize = match &self.nodes[p] {
                Node::Occupied { dib, .. } => *dib,
                Node::Empty => 0,
            };
            let trav_dib: usize = match &trav {
                Node::Occupied { dib, .. } => *dib,
                Node::Empty => 0,
            };
            if resident_dib < trav_dib {
                proof {
                    assert(occupied(s, p as int));
                    lemma_contents_take(s, p as int);
                    lemma_contents_at(s, p as int);
                    lemma_contents_put(s.update(p as int, Node::Empty), p as int, trav);
                    lemma_occ_count_update(s, p as int, trav);
                    assert(s.update(p as int, Node::Empty).update(p as int, trav) == s.update(p as int, trav));
                }
                core::mem::swap(&mut self.nodes[p], &mut trav);
                proof {
                    let s2 = self.nodes@;
                    assert(s2 == s.update(p as int, s2[p as int]));
                    assert(placed(s, p as int));
                    assert forall|i: int| 0 <= i < n implies #[trigger] placed(s2, i) by {
                        assert(placed(s, i));
                    }
                    assert forall|i: int| 0 <= i < n implies #[trigger] linked(s2, i) by {
                        assert(linked(s, i));
                    }
                    assert(contents(s2).insert(trav->key.identity(), (trav->key, trav->value)) =~= target);
                }
                if !placed_new {
                    pos = p;
                    placed_new = true;
                }
            } else {
                proof {
                    lemma_room(s, p as int, trav_dib as int, e);
                }
            }
            trav = match trav {
                Node::Occupied { key, value, hash, dib } => Node::Occupied {
                    key,
                    value,
                    hash,
                    dib: dib + 1,
                },
                Node::Empty => Node::Empty,
            };
            p = if p + 1 == n {
                0
            } else {
                p + 1
            };
        }
    }

    /// Takes the entry at `p` out of the table, then shifts each following
    /// entry that sits past its initial bucket one position back, stopping at
    /// an empty position or at an entry in its initial bucket.
    pub(crate) fn remove_from_location(&mut self, p: usize) -> (r: (K, V))
        requires
            old(self).wf(),
            occupied(old(self).nodes@, p as int),
        ensures
            final(self).wf(),
            r == (old(self).nodes@[p as int]->key, old(self).nodes@[p as int]->value),
            old(self)@.contains_key(r.0.identity()),
            final(self)@ == old(self)@.remove(r.0.identity()),
            final(self).nodes@.len() == old(self).nodes@.len(),
            final(self).number_of_items + 1 == old(self).number_of_items,
            forall|q: int|
                0 <= q < old(self).nodes@.len() ==> #[trigger] shifted(
                    final(self).nodes@,
                    old(self).nodes@,
                    q,
                    p as int,
                ),
    {
        let n = self.nodes.len();
        let ghost s0 = self.nodes@;
        let ghost rid = s0[p as int]->key.identity();
        proof {
            lemma_empty_slot_exists(s0);
            lemma_contents_at(s0, p as int);
            lemma_contents_take(s0, p as int);
            lemma_occ_count_update(s0, p as int, Node::Empty);
        }
        let ghost e = choose|e: int| 0 <= e < n && s0[e] is Empty;
        let removed = self.nodes[p].take();
        self.number_of_items = self.number_of_items - 1;
        let mut hole: usize = p;
        let mut j: usize = if p + 1 == n {
            0
        } else {
            p + 1
        };
        proof {
            let s = self.nodes@;
            assert(s == s0.update(p as int, Node::Empty));
            assert(n >= 2);
            assert forall|i: int| 0 <= i < n implies #[trigger] placed(s, i) by {
                assert(placed(s0, i));
            }
            assert forall|i: int| 0 <= i < n && i != j implies #[trigger] linked(s, i) by {
                assert(linked(s0, i));
            }
            assert(linked(s0, j as int));
            assert(linked(s0, p as int));
            assert forall|q: int| 0 <= q < n implies #[trigger] shifted(s, s0, q, p as int) by {
                if q != p {
                    assert(s[q] == s0[q]);
                }
            }
        }
        loop
            invariant
                n == self.nodes@.len(),
                n >= 2,
                hole < n,
                j as int == next_pos(hole as int, n as int),
                self.nodes@[hole as int] is Empty,
                0 <= e < n,
                e != hole,
                self.nodes@[e] is Empty,
                forall|i: int| 0 <= i < n ==> #[trigger] placed(self.nodes@, i),
                forall|i: int| 0 <= i < n && i != j ==> #[trigger] linked(self.nodes@, i),
                unique(self.nodes@),
                occupied(self.nodes@, j as int) && self.nodes@[j as int]->dib >= 2 ==> occupied(
                    self.nodes@,
                    prev_pos(hole as int, n as int),
                ) && self.nodes@[prev_pos(hole as int, n as int)]->dib + 2
                    >= self.nodes@[j as int]->dib,
                contents(self.nodes@) == contents(s0).remove(rid),
                occ_count(self.nodes@) + 1 == occ_count(s0),
                self.number_of_items + 1 == old(self).number_of_items,
                old(self).wf(),
                s0 == old(self).nodes@,
                s0.len() == n,
                p < n,
                forall|q: int| 0 <= q < n ==> #[trigger] shifted(self.nodes@, s0, q, p as int),
                forall|q: int|
                    0 <= q < n && ahead(q, e, n as int) <= ahead(j as int, e, n as int) ==> #[trigger] self.nodes@[q]
                        == s0[q],
                ahead(j as int, e, n as int) < ahead(p as int, e, n as int),
            ensures
                n == self.nodes@.len(),
                forall|q: int| 0 <= q < n ==> #[trigger] shifted(self.nodes@, s0, q, p as int),
                forall|i: int| 0 <= i < n ==> #[trigger] placed(self.nodes@, i),
                forall|i: int| 0 <= i < n ==> #[trigger] linked(self.nodes@, i),
                unique(self.nodes@),
                contents(self.nodes@) == contents(s0).remove(rid),
                occ_count(self.nodes@) + 1 == occ_count(s0),
                self.number_of_items + 1 == old(self).number_of_items,
            decreases ahead(j as int, e, n as int),
        {
            let ghost s = self.nodes@;
            let shift = match &self.nodes[j] {
                Node::Occupied { dib, .. } => *dib > 0,
                Node::Empty => false,
            };
            if !shift {
                proof {
                    assert(linked(s, j as int));
                    assert(forall|i: int| 0 <= i < n ==> #[trigger] linked(s, i));
                }
                break;
            }
            let moved = self.nodes[j].take();
            let mut moved = match moved {
                Node::Occupied { key, value, hash, dib } => Node::Occupied {
                    key,
                    value,
                    hash,
                    dib: dib - 1,
                },
                Node::Empty => Node::Empty,
            };
            proof {
                let t = s.update(j as int, Node::Empty);
                lemma_contents_at(s, j as int);
                lemma_contents_take(s, j as int);
                lemma_contents_put(t, hole as int, moved);
                lemma_occ_count_update(s, j as int, Node::Empty);
                lemma_occ_count_update(t, hole as int, moved);
                assert(contents(t.update(hole as int, moved)) =~= contents(s));
                assert(placed(s, j as int));
            }
            let ghost mv = moved;
            proof {
                assert(mv->key == s[j as int]->key && mv->value == s[j as int]->value);
            }
            core::mem::swap(&mut self.nodes[hole], &mut moved);
            proof {
                let s2 = self.nodes@;
                assert(s2[hole as int] == mv);
                let jn = next_pos(j as int, n as int);
                assert(s2 == s.update(j as int, Node::Empty).update(hole as int, s2[hole as int]));
                assert forall|i: int| 0 <= i < n implies #[trigger] placed(s2, i) by {
                    assert(placed(s, i));
                }
                assert forall|i: int| 0 <= i < n && i != jn implies #[trigger] linked(s2, i) by {
                    if i != j as int {
                        assert(linked(s, i));
                    }
                }
                assert(linked(s, jn));
                assert(s[j as int] == s0[j as int]);
                assert forall|q: int| 0 <= q < n implies #[trigger] shifted(s2, s0, q, p as int) by {
                    if q != hole && q != j {
                        assert(shifted(s, s0, q, p as int));
                    }
                    if q == hole as int {
                        assert(next_pos(q, n as int) == j as int);
                        assert(j != p);
                        assert(occupied(s0, j as int));
                    }
                }
                assert forall|q: int|
                    0 <= q < n && ahead(q, e, n as int) <= ahead(jn, e, n as int) implies #[trigger] s2[q]
                    == s0[q] by {
                    assert(s[q] == s0[q]);
                }
            }
            hole = j;
            j = if j + 1 == n {
                0
            } else {
                j + 1
            };
        }
        match removed {
            Node::Occupied { key, value, .. } => (key, value),
            Node::Empty => vstd::pervasive::unreached(),
        }
    }

    /// Puts `value` in place of the value at `p`, keeping the stored key, and
    /// hands back the value that was there.
    pub(crate) fn replace_value_at(&mut self, p: usize, value: V) -> (r: V)
        requires
            old(self).wf(),
            occupied(old(self).nodes@, p as int),
        ensures
            final(self).wf(),
            r == old(self).nodes@[p as int]->value,
            final(self)@ == old(self)@.insert(
                old(self).nodes@[p as int]->key.identity(),
                (old(self).nodes@[p as int]->key, value),
            ),
            final(self).nodes@.len() == old(self).nodes@.len(),
            final(self).number_of_items == old(self).number_of_items,
            holds(final(self).nodes@, p as int, old(self).nodes@[p as int]->key.identity()),
    {
        let ghost s = self.nodes@;
        let node = self.nodes[p].take();
        let (mut node, old_value) = match node {
            Node::Occupied { key, value: old_value, hash, dib } => (
                Node::Occupied { key, value, hash, dib },
                old_value,
            ),
            Node::Empty => vstd::pervasive::unreached(),
        };
        proof {
            let t = s.update(p as int, Node::Empty);
            lemma_contents_at(s, p as int);
            lemma_contents_take(s, p as int);
            lemma_contents_put(t, p as int, node);
            lemma_occ_count_update(s, p as int, node);
            assert(t.update(p as int, node) == s.update(p as int, node));
        }
        core::mem::swap(&mut self.nodes[p], &mut node);
        proof {
            let s2 = self.nodes@;
            assert(s2 == s.update(p as int, s2[p as int]));
            assert forall|i: int| 0 <= i < s.len() implies #[trigger] placed(s2, i) by {
                assert(placed(s, i));
            }
            assert forall|i: int| 0 <= i < s.len() implies #[trigger] linked(s2, i) by {
                assert(linked(s, i));
            }
            assert(contents(s).remove(s[p as int]->key.identity()).insert(
                s[p as int]->key.identity(),
                (s[p as int]->key, value),
            ) =~= contents(s).insert(s[p as int]->key.identity(), (s[p as int]->key, value)));
        }
        old_value
    }

    /// The same entries in a table of `new_size` positions.
    pub(crate) fn resized_to(self, new_size: usize) -> (r: Self)
        requires
            self.wf(),
            new_size >= self.nodes@.len(),
        ensures
            r.wf(),
            r@ == self@,
            r.nodes@.len() == new_size,
            r.number_of_items == self.number_of_items,
    {
        let ghost s0 = self.nodes@;
        let ghost c0 = self@;
        let ghost total = self.number_of_items;
        let mut new_storage: Self = Self::with_size(new_size);
        let mut old_nodes = self.nodes;
        while old_nodes.len() > 0
            invariant
                new_storage.wf(),
                new_storage.nodes@.len() == new_size,
                new_size >= s0.len(),
                table_ok(s0),
                c0 == contents(s0),
                total == occ_count(s0),
                total < s0.len(),
                old_nodes@.len() <= s0.len(),
                old_nodes@ == s0.subrange(0, old_nodes@.len() as int),
                new_storage.number_of_items + occ_count(old_nodes@) == total,
                forall|id: K::Identity| #[trigger]
                    new_storage@.contains_key(id) == (c0.contains_key(id) && !(exists|i: int|
                        holds(old_nodes@, i, id))),
                forall|id: K::Identity| #[trigger]
                    new_storage@.contains_key(id) ==> new_storage@[id] == c0[id],
            decreases old_nodes@.len(),
        {
            let ghost rest = old_nodes@;
            let last = old_nodes.len() - 1;
            let node = old_nodes.pop();
            proof {
                assert(old_nodes@ == rest.drop_last());
                assert(old_nodes@ =~= s0.subrange(0, old_nodes@.len() as int));
            }
            match node {
                Some(Node::Occupied { key, value, hash, dib }) => {
                    let ghost x = key.identity();
                    proof {
                        assert(rest[last as int] == s0[last as int]);
                        assert(holds(s0, last as int, x));
                        assert(holds(rest, last as int, x));
                        assert(placed(s0, last as int));
                        lemma_contents_at(s0, last as int);
                        lemma_occ_count_bound(old_nodes@);
                    }
                    let ghost before = new_storage@;
                    new_storage.insert_new(key, value, hash);
                    proof {
                        assert forall|id: K::Identity| #[trigger]
                            new_storage@.contains_key(id) == (c0.contains_key(id) && !(exists|i: int|
                                holds(old_nodes@, i, id))) by {
                            assert(before.contains_key(id) == (c0.contains_key(id) && !(exists|i: int|
                                holds(rest, i, id))));
                            if id == x {
                                assert(new_storage@.contains_key(id));
                                assert(c0.contains_key(id));
                                if exists|k: int| holds(old_nodes@, k, id) {
                                    let k = choose|k: int| holds(old_nodes@, k, id);
                                    assert(holds(s0, k, id));
                                    assert(holds(s0, last as int, id));
                                }
                            } else {
                                assert(new_storage@.contains_key(id) == before.contains_key(id));
                                if exists|i: int| holds(rest, i, id) {
                                    let i = choose|i: int| holds(rest, i, id);
                                    assert(i != last);
                                    assert(holds(old_nodes@, i, id));
                                }
                                if exists|k: int| holds(old_nodes@, k, id) {
                                    let k = choose|k: int| holds(old_nodes@, k, id);
                                    assert(holds(rest, k, id));
                                }
                            }
                        }
                        assert forall|id: K::Identity| #[trigger]
                            new_storage@.contains_key(id) implies new_storage@[id] == c0[id] by {
                            if id != x {
                                assert(before.contains_key(id));
                            }
                        }
                    }
                },
                _ => {
                    proof {
                        assert forall|id: K::Identity| #[trigger]
                            new_storage@.contains_key(id) == (c0.contains_key(id) && !(exists|i: int|
                                holds(old_nodes@, i, id))) by {
                            if exists|i: int| holds(rest, i, id) {
                                let i = choose|i: int| holds(rest, i, id);
                                assert(holds(old_nodes@, i, id));
                            }
                            if exists|k: int| holds(old_nodes@, k, id) {
                                let k = choose|k: int| holds(old_nodes@, k, id);
                                assert(holds(rest, k, id));
                            }
                        }
                    }
                },
            }
        }
        proof {
            assert(new_storage@ =~= c0);
        }
        new_storage
    }
}

} // verus!

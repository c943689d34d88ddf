//! A map kept as a vector of entries in strictly ascending key order.

use vstd::prelude::*;

use crate::key::IndexKey;

verus! {

/// The keys of `m` are strictly ascending.
pub open spec fn ascending<K: IndexKey, V>(m: Seq<(K::V, V)>) -> bool {
    forall|i: int, j: int| 0 <= i < j < m.len() ==> K::lt_spec(#[trigger] m[i].0, #[trigger] m[j].0)
}

/// `k` is a key of `m`.
pub open spec fn has_key<KV, V>(m: Seq<(KV, V)>, k: KV) -> bool {
    exists|i: int| 0 <= i < m.len() && #[trigger] m[i].0 == k
}

/// The entries of `m` as a mathematical map.
pub open spec fn as_map<KV, V>(m: Seq<(KV, V)>) -> Map<KV, V>
    decreases m.len(),
{
    if m.len() == 0 {
        Map::empty()
    } else {
        as_map(m.drop_last()).insert(m.last().0, m.last().1)
    }
}

/// The keys of `m`, in order.
pub open spec fn keys_of<KV, V>(m: Seq<(KV, V)>) -> Seq<KV> {
    m.map_values(|e: (KV, V)| e.0)
}

/// A map whose entries are kept in strictly ascending key order.
pub struct SortedMap<K, V> {
    entries: Vec<(K, V)>,
}

/// Putting an entry with a new key in front of `s` adds it to the map.
pub proof fn lemma_as_map_prepend<KV, V>(e: (KV, V), s: Seq<(KV, V)>)
    requires
        !has_key(s, e.0),
    ensures
        as_map(seq![e] + s) == as_map(s).insert(e.0, e.1),
    decreases s.len(),
{
    if s.len() == 0 {
        let one = seq![e];
        assert(one + s =~= one);
        assert(one.drop_last() =~= Seq::<(KV, V)>::empty());
        assert(one.last() == e);
        assert(as_map(one) == as_map(one.drop_last()).insert(e.0, e.1));
        assert(as_map(s) == Map::<KV, V>::empty());
        assert(as_map(one + s) =~= as_map(s).insert(e.0, e.1));
    } else {
        let d = s.drop_last();
        if has_key(d, e.0) {
            let j = choose|j: int| 0 <= j < d.len() && #[trigger] d[j].0 == e.0;
            assert(s[j].0 == e.0);
        }
        lemma_as_map_prepend(e, d);
        assert((seq![e] + s).drop_last() =~= seq![e] + d);
        assert((seq![e] + s).last() == s.last());
        assert(s[s.len() - 1].0 != e.0);
        assert(as_map(seq![e] + s) =~= as_map(s).insert(e.0, e.1));
    }
}

/// Appending an entry to `s` adds it to the map.
pub proof fn lemma_as_map_push<KV, V>(s: Seq<(KV, V)>, e: (KV, V))
    ensures
        as_map(s.push(e)) == as_map(s).insert(e.0, e.1),
{
    assert(s.push(e).drop_last() =~= s);
}

impl<K: IndexKey, V> View for SortedMap<K, V> {
    type V = Seq<(K::V, V)>;

    closed spec fn view(&self) -> Seq<(K::V, V)> {
        self.entries@.map_values(|e: (K, V)| (e.0@, e.1))
    }
}

pub proof fn lemma_as_map_has_key<KV, V>(m: Seq<(KV, V)>, k: KV)
    ensures
        as_map(m).dom().contains(k) == has_key(m, k),
    decreases m.len(),
{
    if m.len() > 0 {
        lemma_as_map_has_key(m.drop_last(), k);
        if has_key(m.drop_last(), k) {
            let i = choose|i: int| 0 <= i < m.drop_last().len() && #[trigger] m.drop_last()[i].0 == k;
            assert(m[i].0 == k);
        }
        if has_key(m, k) && m.last().0 != k {
            let i = choose|i: int| 0 <= i < m.len() && #[trigger] m[i].0 == k;
            assert(m.drop_last()[i].0 == k);
        }
    }
}

/// In a map with unique keys, the value that `as_map` gives a key is that of
/// its entry.
pub proof fn lemma_as_map_index<K: IndexKey, V>(m: Seq<(K::V, V)>, i: int)
    requires
        ascending::<K, V>(m),
        0 <= i < m.len(),
    ensures
        as_map(m).dom().contains(m[i].0),
        as_map(m)[m[i].0] == m[i].1,
    decreases m.len(),
{
    lemma_as_map_has_key(m, m[i].0);
    if i < m.len() - 1 {
        let d = m.drop_last();
        assert(ascending::<K, V>(d));
        lemma_as_map_index::<K, V>(d, i);
        assert(K::lt_spec(m[i].0, m[m.len() - 1].0));
        K::lemma_irreflexive(m[i].0);
    }
}

pub proof fn lemma_as_map_update<K: IndexKey, V>(m: Seq<(K::V, V)>, i: int, v: V)
    requires
        ascending::<K, V>(m),
        0 <= i < m.len(),
    ensures
        as_map(m.update(i, (m[i].0, v))) == as_map(m).insert(m[i].0, v),
    decreases m.len(),
{
    let k = m[i].0;
    let m2 = m.update(i, (k, v));
    if i == m.len() - 1 {
        assert(m2.drop_last() =~= m.drop_last());
        assert(as_map(m2) =~= as_map(m).insert(k, v));
    } else {
        let d = m.drop_last();
        assert(ascending::<K, V>(d));
        lemma_as_map_update::<K, V>(d, i, v);
        assert(m2.drop_last() =~= d.update(i, (k, v)));
        assert(K::lt_spec(m[i].0, m[m.len() - 1].0));
        K::lemma_irreflexive(k);
        assert(as_map(m2) =~= as_map(m).insert(k, v));
    }
}

pub proof fn lemma_as_map_insert_fresh<KV, V>(m: Seq<(KV, V)>, i: int, k: KV, v: V)
    requires
        !has_key(m, k),
        0 <= i <= m.len(),
    ensures
        as_map(m.insert(i, (k, v))) == as_map(m).insert(k, v),
    decreases m.len(),
{
    let m2 = m.insert(i, (k, v));
    if i == m.len() {
        assert(m2.drop_last() =~= m);
    } else {
        let d = m.drop_last();
        if has_key(d, k) {
            let j = choose|j: int| 0 <= j < d.len() && #[trigger] d[j].0 == k;
            assert(m[j].0 == k);
        }
        lemma_as_map_insert_fresh(d, i, k, v);
        assert(m2.drop_last() =~= d.insert(i, (k, v)));
        assert(m[m.len() - 1].0 != k);
        assert(as_map(m2) =~= as_map(m).insert(k, v));
    }
}

proof fn lemma_ascending_last_is_max<K: IndexKey, V>(m: Seq<(K::V, V)>, k: K::V)
    requires
        ascending::<K, V>(m),
        m.len() > 0,
        has_key(m, k),
        k != m.last().0,
    ensures
        K::lt_spec(k, m.last().0),
{
    let j = choose|j: int| 0 <= j < m.len() && #[trigger] m[j].0 == k;
    assert(j != m.len() - 1);
}

/// Two maps whose keys ascend and that hold the same keys with the same
/// values have the same entries in the same order.
pub proof fn lemma_same_map_same_entries<K: IndexKey, V>(a: Seq<(K::V, V)>, b: Seq<(K::V, V)>)
    requires
        ascending::<K, V>(a),
        ascending::<K, V>(b),
        as_map(a) == as_map(b),
    ensures
        a == b,
    decreases a.len(),
{
    if a.len() == 0 || b.len() == 0 {
        if a.len() > 0 {
            lemma_as_map_has_key(a, a.last().0);
            lemma_as_map_has_key(b, a.last().0);
            assert(a[a.len() - 1].0 == a.last().0);
        }
        if b.len() > 0 {
            lemma_as_map_has_key(b, b.last().0);
            lemma_as_map_has_key(a, b.last().0);
            assert(b[b.len() - 1].0 == b.last().0);
        }
        assert(a =~= b);
    } else {
        let la = a.last().0;
        let lb = b.last().0;
        assert(a[a.len() - 1].0 == la);
        assert(b[b.len() - 1].0 == lb);
        lemma_as_map_has_key(a, lb);
        lemma_as_map_has_key(b, la);
        if la != lb {
            lemma_ascending_last_is_max::<K, V>(a, lb);
            lemma_ascending_last_is_max::<K, V>(b, la);
            K::lemma_transitive(la, lb, la);
            K::lemma_irreflexive(la);
        }
        lemma_as_map_index::<K, V>(a, a.len() - 1);
        lemma_as_map_index::<K, V>(b, b.len() - 1);
        let da = a.drop_last();
        let db = b.drop_last();
        assert(ascending::<K, V>(da));
        assert(ascending::<K, V>(db));
        lemma_as_map_has_key(da, la);
        lemma_as_map_has_key(db, la);
        if has_key(da, la) {
            let j = choose|j: int| 0 <= j < da.len() && #[trigger] da[j].0 == la;
            assert(a[j].0 == la);
            K::lemma_irreflexive(la);
        }
        if has_key(db, la) {
            let j = choose|j: int| 0 <= j < db.len() && #[trigger] db[j].0 == la;
            assert(b[j].0 == la);
            K::lemma_irreflexive(la);
        }
        assert(as_map(da) =~= as_map(a).remove(la));
        assert(as_map(db) =~= as_map(b).remove(la));
        lemma_same_map_same_entries::<K, V>(da, db);
        assert(a =~= da.push(a.last()));
        assert(b =~= db.push(b.last()));
    }
}

impl<K: IndexKey, V> SortedMap<K, V> {
    /// The map holds its entries in strictly ascending key order.
    pub open spec fn wf(&self) -> bool {
        ascending::<K, V>(self@)
    }

    proof fn lemma_view_len(&self)
        ensures
            self@.len() == self.entries@.len(),
            forall|i: int|
                0 <= i < self.entries@.len() ==> #[trigger] self@[i] == (
                self.entries@[i].0@,
                self.entries@[i].1,
            ),
    {
    }

    /// An empty map.
    pub fn new() -> (r: Self)
        ensures
            r@ == Seq::<(K::V, V)>::empty(),
            r.wf(),
    {
        let r = SortedMap { entries: Vec::new() };
        proof {
            assert(r@ =~= Seq::<(K::V, V)>::empty());
        }
        r
    }

    /// The number of keys.
    pub fn len(&self) -> (r: usize)
        ensures
            r == self@.len(),
    {
        proof {
            self.lemma_view_len();
        }
        self.entries.len()
    }

    /// The key of entry `i`.
    pub fn key_at(&self, i: usize) -> (r: &K)
        requires
            i < self@.len(),
        ensures
            r@ == self@[i as int].0,
    {
        proof {
            self.lemma_view_len();
        }
        &self.entries[i].0
    }

    /// The value of entry `i`.
    pub fn value_at(&self, i: usize) -> (r: &V)
        requires
            i < self@.len(),
        ensures
            *r == self@[i as int].1,
    {
        proof {
            self.lemma_view_len();
        }
        &self.entries[i].1
    }

    /// Where `k` stands: `Ok(i)` when entry `i` has key `k`, `Err(i)` when
    /// `k` is absent and would be inserted at `i`.
    pub fn search(&self, k: &K) -> (r: Result<usize, usize>)
        requires
            self.wf(),
        ensures
            match r {
                Ok(i) => i < self@.len() && self@[i as int].0 == k@,
                Err(i) => i <= self@.len() && (forall|j: int|
                    0 <= j < i ==> K::lt_spec(#[trigger] self@[j].0, k@)) && (forall|j: int|
                    i <= j < self@.len() ==> K::lt_spec(k@, #[trigger] self@[j].0)),
            },
    {
        proof {
            self.lemma_view_len();
        }
        let mut lo: usize = 0;
        let mut hi: usize = self.entries.len();
        while lo < hi
            invariant
                self.wf(),
                self@.len() == self.entries@.len(),
                forall|i: int|
                    0 <= i < self.entries@.len() ==> #[trigger] self@[i] == (
                    self.entries@[i].0@,
                    self.entries@[i].1,
                ),
                0 <= lo <= hi <= self@.len(),
                forall|j: int| 0 <= j < lo ==> K::lt_spec(#[trigger] self@[j].0, k@),
                forall|j: int| hi <= j < self@.len() ==> K::lt_spec(k@, #[trigger] self@[j].0),
            decreases hi - lo,
        {
            let mid = lo + (hi - lo) / 2;
            let mk = &self.entries[mid].0;
            if mk.key_eq(k) {
                return Ok(mid);
            } else if mk.key_lt(k) {
                proof {
                    assert forall|j: int| 0 <= j <= mid implies K::lt_spec(
                        #[trigger] self@[j].0,
                        k@,
                    ) by {
                        if j < mid {
                            K::lemma_transitive(self@[j].0, self@[mid as int].0, k@);
                        }
                    }
                }
                lo = mid + 1;
            } else {
                proof {
                    K::lemma_total(mk@, k@);
                    assert forall|j: int| mid <= j < self@.len() implies K::lt_spec(
                        k@,
                        #[trigger] self@[j].0,
                    ) by {
                        if j > mid {
                            K::lemma_transitive(k@, self@[mid as int].0, self@[j].0);
                        }
                    }
                }
                hi = mid;
            }
        }
        Err(lo)
    }

    /// The value of key `k`, if the map has it.
    pub fn get(&self, k: &K) -> (r: Option<&V>)
        requires
            self.wf(),
        ensures
            r.is_some() == has_key(self@, k@),
            r.is_some() ==> as_map(self@)[k@] == *r.unwrap(),
    {
        proof {
            lemma_as_map_has_key(self@, k@);
        }
        match self.search(k) {
            Ok(i) => {
                proof {
                    self.lemma_view_len();
                    lemma_as_map_index::<K, V>(self@, i as int);
                }
                Some(&self.entries[i].1)
            },
            Err(i) => {
                proof {
                    if has_key(self@, k@) {
                        let j = choose|j: int| 0 <= j < self@.len() && #[trigger] self@[j].0 == k@;
                        K::lemma_irreflexive(k@);
                    }
                }
                None
            },
        }
    }

    /// Sets the value of key `k` to `v`, keeping the keys in order.
    pub fn insert(&mut self, k: K, v: V)
        requires
            old(self).wf(),
        ensures
            final(self).wf(),
            as_map(final(self)@) == as_map(old(self)@).insert(k@, v),
            final(self)@.len() == old(self)@.len() + if as_map(old(self)@).dom().contains(k@) {
                0int
            } else {
                1int
            },
    {
        proof {
            self.lemma_view_len();
        }
        match self.search(&k) {
            Ok(i) => {
                let ghost m = self@;
                self.entries.set(i, (k, v));
                proof {
                    self.lemma_view_len();
                    assert(self@ =~= m.update(i as int, (m[i as int].0, v)));
                    assert(has_key(m, k@));
                    lemma_as_map_has_key(m, k@);
                    lemma_as_map_update::<K, V>(m, i as int, v);
                }
            },
            Err(i) => {
                let ghost m = self@;
                let ghost kv = k@;
                self.entries.insert(i, (k, v));
                proof {
                    self.lemma_view_len();
                    assert(self@ =~= m.insert(i as int, (kv, v)));
                    if has_key(m, kv) {
                        let j = choose|j: int| 0 <= j < m.len() && #[trigger] m[j].0 == kv;
                        K::lemma_irreflexive(kv);
                    }
                    lemma_as_map_insert_fresh(m, i as int, kv, v);
                    lemma_as_map_has_key(m, kv);
                    assert forall|a: int, b: int| 0 <= a < b < self@.len() implies K::lt_spec(
                        #[trigger] self@[a].0,
                        #[trigger] self@[b].0,
                    ) by {
                        if b < i {
                        } else if b == i {
                        } else if a < i {
                            K::lemma_transitive(self@[a].0, kv, self@[b].0);
                        } else if a == i {
                        } else {
                            assert(self@[a] == m[a - 1]);
                            assert(self@[b] == m[b - 1]);
                        }
                    }
                }
            },
        }
    }

    /// Splits the map at entry `at`: the map keeps the entries before it and
    /// the entries from `at` on are returned.
    pub fn split_off(&mut self, at: usize) -> (r: Self)
        requires
            old(self).wf(),
            at <= old(self)@.len(),
        ensures
            final(self)@ == old(self)@.subrange(0, at as int),
            r@ == old(self)@.subrange(at as int, old(self)@.len() as int),
            final(self).wf(),
            r.wf(),
    {
        proof {
            self.lemma_view_len();
        }
        let ghost m = self@;
        let tail = self.entries.split_off(at);
        let r = SortedMap { entries: tail };
        proof {
            self.lemma_view_len();
            r.lemma_view_len();
            assert(self@ =~= m.subrange(0, at as int));
            assert(r@ =~= m.subrange(at as int, m.len() as int));
            assert forall|a: int, b: int| 0 <= a < b < r@.len() implies K::lt_spec(
                #[trigger] r@[a].0,
                #[trigger] r@[b].0,
            ) by {
                assert(r@[a] == m[a + at]);
                assert(r@[b] == m[b + at]);
            }
        }
        r
    }
    /// Inserts the entry `(k, v)` at position `i`, where `k` is absent and
    /// sorts between the keys before `i` and those from `i` on.
    pub fn insert_at(&mut self, i: usize, k: K, v: V)
        requires
            old(self).wf(),
            i <= old(self)@.len(),
            forall|j: int| 0 <= j < i ==> K::lt_spec(#[trigger] old(self)@[j].0, k@),
            forall|j: int| i <= j < old(self)@.len() ==> K::lt_spec(k@, #[trigger] old(self)@[j].0),
        ensures
            final(self)@ == old(self)@.insert(i as int, (k@, v)),
            final(self).wf(),
    {
        proof {
            self.lemma_view_len();
        }
        let ghost m = self@;
        let ghost kv = k@;
        self.entries.insert(i, (k, v));
        proof {
            self.lemma_view_len();
            assert(self@ =~= m.insert(i as int, (kv, v)));
            assert forall|a: int, b: int| 0 <= a < b < self@.len() implies K::lt_spec(
                #[trigger] self@[a].0,
                #[trigger] self@[b].0,
            ) by {
                if b < i {
                } else if b == i {
                } else if a < i {
                    K::lemma_transitive(self@[a].0, kv, self@[b].0);
                } else if a == i {
                } else {
                    assert(self@[a] == m[a - 1]);
                    assert(self@[b] == m[b - 1]);
                }
            }
        }
    }
    /// Removes and returns the entry with the largest key.
    pub fn pop(&mut self) -> (r: Option<(K, V)>)
        requires
            old(self).wf(),
        ensures
            final(self).wf(),
            match r {
                Some(e) => old(self)@.len() > 0 && final(self)@ == old(self)@.drop_last() && (
                e.0@,
                e.1,
                ) == old(self)@.last(),
                None => old(self)@.len() == 0 && final(self)@ == old(self)@,
            },
    {
        proof {
            self.lemma_view_len();
        }
        let ghost m = self@;
        let r = self.entries.pop();
        proof {
            self.lemma_view_len();
            if r.is_some() {
                assert(self@ =~= m.drop_last());
            } else {
                assert(self@ =~= m);
            }
        }
        r
    }
}

impl<K: IndexKey, T> SortedMap<K, Vec<T>> {
    /// Appends `x` to the list that entry `i` holds.
    pub fn push_at(&mut self, i: usize, x: T)
        requires
            old(self).wf(),
            i < old(self)@.len(),
        ensures
            final(self)@.len() == old(self)@.len(),
            final(self)@[i as int].0 == old(self)@[i as int].0,
            final(self)@[i as int].1@ == old(self)@[i as int].1@.push(x),
            forall|j: int|
                0 <= j < old(self)@.len() && j != i ==> #[trigger] final(self)@[j] == old(self)@[j],
            final(self).wf(),
    {
        proof {
            self.lemma_view_len();
        }
        let ghost m = self@;
        self.entries[i].1.push(x);
        proof {
            self.lemma_view_len();
            assert forall|a: int, b: int| 0 <= a < b < self@.len() implies K::lt_spec(
                #[trigger] self@[a].0,
                #[trigger] self@[b].0,
            ) by {
                assert(self@[a].0 == m[a].0);
                assert(self@[b].0 == m[b].0);
            }
        }
    }
}

} // verus!

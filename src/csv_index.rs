//! The index of one column: for each key, the addresses of the records that
//! hold it, in insertion order; and its three typed forms.

use vstd::prelude::*;
use vstd::string::StringSliceAdditionalSpecFns;

use crate::address::Address;
use crate::key::{float_key, total_order_key, IndexKey, NEG_INFINITY_BITS};
use crate::range::{in_range, range_contains, range_view, Bound, Range};
use crate::sorted_map::{
    as_map,
    ascending,
    has_key,
    keys_of,
    lemma_as_map_has_key,
    lemma_as_map_index,
    lemma_as_map_insert_fresh,
    lemma_as_map_prepend,
    lemma_as_map_push,
    lemma_as_map_update,
    lemma_same_map_same_entries,
    SortedMap,
};
use crate::text::{decimal_i64, parse_i64, to_upper, upper_of};

verus! {

/// The entries of a posting map with each list of addresses as a sequence.
pub open spec fn postings_view<K: IndexKey>(m: Seq<(K::V, Vec<Address>)>) -> Seq<
    (K::V, Seq<Address>),
> {
    m.map_values(|e: (K::V, Vec<Address>)| (e.0, e.1@))
}

/// The postings `p` with the address `a` appended to the list of key `k`.
pub open spec fn add_posting<KV>(p: Map<KV, Seq<Address>>, k: KV, a: Address) -> Map<
    KV,
    Seq<Address>,
> {
    p.insert(
        k,
        if p.dom().contains(k) {
            p[k].push(a)
        } else {
            seq![a]
        },
    )
}

/// The addresses of key `k` in `p`; none when `p` lacks the key.
pub open spec fn postings_of<KV>(p: Map<KV, Seq<Address>>, k: KV) -> Seq<Address> {
    if p.dom().contains(k) {
        p[k]
    } else {
        Seq::empty()
    }
}

/// The postings of `p` followed, key by key, by those of `q`.
pub open spec fn merge_postings<KV>(p: Map<KV, Seq<Address>>, q: Map<KV, Seq<Address>>) -> Map<
    KV,
    Seq<Address>,
> {
    Map::new(
        |k: KV| p.dom().contains(k) || q.dom().contains(k),
        |k: KV| postings_of(p, k) + postings_of(q, k),
    )
}

/// Appending an address after a merge appends it to the second map.
pub proof fn lemma_merge_add_posting<KV>(
    p: Map<KV, Seq<Address>>,
    q: Map<KV, Seq<Address>>,
    k: KV,
    a: Address,
)
    ensures
        add_posting(merge_postings(p, q), k, a) == merge_postings(p, add_posting(q, k, a)),
{
    let l = add_posting(merge_postings(p, q), k, a);
    let r = merge_postings(p, add_posting(q, k, a));
    assert forall|x: KV| #[trigger] l.dom().contains(x) implies l[x] == r[x] by {
        if x == k {
            assert(l[x] =~= r[x]);
        }
    }
    assert(l =~= r);
}

/// Merging with an empty map changes nothing.
pub proof fn lemma_merge_empty<KV>(p: Map<KV, Seq<Address>>)
    ensures
        merge_postings(p, Map::empty()) == p,
{
    let r = merge_postings(p, Map::empty());
    assert forall|x: KV| #[trigger] r.dom().contains(x) implies r[x] == p[x] by {
        assert(r[x] =~= p[x]);
    }
    assert(r =~= p);
}

/// Merging in a key that only the first map lacks.
pub proof fn lemma_merge_insert_left<KV>(
    p: Map<KV, Seq<Address>>,
    q: Map<KV, Seq<Address>>,
    k: KV,
    v: Seq<Address>,
)
    requires
        !p.dom().contains(k),
        !q.dom().contains(k),
    ensures
        merge_postings(p.insert(k, v), q) == merge_postings(p, q).insert(k, v),
        merge_postings(q, p.insert(k, v)) == merge_postings(q, p).insert(k, v),
{
    let l = merge_postings(p.insert(k, v), q);
    let r = merge_postings(p, q).insert(k, v);
    assert forall|x: KV| #[trigger] l.dom().contains(x) implies l[x] == r[x] by {
        if x == k {
            assert(l[x] =~= r[x]);
        }
    }
    assert(l =~= r);
    let l2 = merge_postings(q, p.insert(k, v));
    let r2 = merge_postings(q, p).insert(k, v);
    assert forall|x: KV| #[trigger] l2.dom().contains(x) implies l2[x] == r2[x] by {
        if x == k {
            assert(l2[x] =~= r2[x]);
        }
    }
    assert(l2 =~= r2);
}

/// Merging in a key that both maps lack, with addresses from both sides.
pub proof fn lemma_merge_insert_both<KV>(
    p: Map<KV, Seq<Address>>,
    q: Map<KV, Seq<Address>>,
    k: KV,
    v: Seq<Address>,
    w: Seq<Address>,
)
    requires
        !p.dom().contains(k),
        !q.dom().contains(k),
    ensures
        merge_postings(p.insert(k, v), q.insert(k, w)) == merge_postings(p, q).insert(k, v + w),
{
    let l = merge_postings(p.insert(k, v), q.insert(k, w));
    let r = merge_postings(p, q).insert(k, v + w);
    assert forall|x: KV| #[trigger] l.dom().contains(x) implies l[x] == r[x] by {
    }
    assert(l =~= r);
}

/// The addresses of the entries of `m` whose key lies in `r`, entry by entry
/// in key order, each list in its own order.
pub open spec fn postings_in_range<K: IndexKey>(
    m: Seq<(K::V, Seq<Address>)>,
    r: (Bound<K::V>, Bound<K::V>),
) -> Seq<Address>
    decreases m.len(),
{
    if m.len() == 0 {
        Seq::empty()
    } else {
        postings_in_range::<K>(m.drop_last(), r) + if in_range::<K>(r, m.last().0) {
            m.last().1
        } else {
            Seq::empty()
        }
    }
}

proof fn lemma_postings_ascending<K: IndexKey>(m: Seq<(K::V, Vec<Address>)>)
    requires
        ascending::<K, Vec<Address>>(m),
    ensures
        ascending::<K, Seq<Address>>(postings_view::<K>(m)),
{
    let p = postings_view::<K>(m);
    assert forall|i: int, j: int| 0 <= i < j < p.len() implies K::lt_spec(
        #[trigger] p[i].0,
        #[trigger] p[j].0,
    ) by {
        assert(p[i].0 == m[i].0);
        assert(p[j].0 == m[j].0);
    }
}

/// The entries of a list of (key, addresses) pairs, as views.
pub open spec fn entries_view<R: IndexKey>(v: Seq<(R, Vec<Address>)>) -> Seq<(R::V, Seq<Address>)> {
    v.map_values(|e: (R, Vec<Address>)| (e.0@, e.1@))
}

/// The keys of `m` strictly descend.
pub open spec fn descending<K: IndexKey, V>(m: Seq<(K::V, V)>) -> bool {
    forall|i: int, j: int| 0 <= i < j < m.len() ==> K::lt_spec(#[trigger] m[j].0, #[trigger] m[i].0)
}

proof fn lemma_skip_prepend<KV, V>(s: Seq<(KV, V)>, i: int)
    requires
        0 < i <= s.len(),
    ensures
        s.skip(i - 1) == seq![s[i - 1]] + s.skip(i),
{
    assert(s.skip(i - 1) =~= seq![s[i - 1]] + s.skip(i));
}

proof fn lemma_skip_lacks<K: IndexKey, V>(s: Seq<(K::V, V)>, i: int)
    requires
        ascending::<K, V>(s),
        0 < i <= s.len(),
    ensures
        !has_key(s.skip(i), s[i - 1].0),
{
    if has_key(s.skip(i), s[i - 1].0) {
        let j = choose|j: int| 0 <= j < s.skip(i).len() && #[trigger] s.skip(i)[j].0 == s[i - 1].0;
        assert(s[i + j].0 == s[i - 1].0);
        assert(K::lt_spec(s[i - 1].0, s[i + j].0));
        K::lemma_irreflexive(s[i - 1].0);
    }
}

/// The key `k`, above every key of `s` from `lo` on, is not among them.
proof fn lemma_above_lacks<K: IndexKey, V>(s: Seq<(K::V, V)>, k: K::V)
    requires
        forall|x: int| 0 <= x < s.len() ==> K::lt_spec(#[trigger] s[x].0, k),
    ensures
        !has_key(s, k),
{
    if has_key(s, k) {
        let j = choose|j: int| 0 <= j < s.len() && #[trigger] s[j].0 == k;
        assert(K::lt_spec(s[j].0, k));
        K::lemma_irreflexive(k);
    }
}

/// A posting map: keys in ascending order, each with the addresses of the
/// records that hold it.
pub struct CsvIndex<R> {
    map: SortedMap<R, Vec<Address>>,
}

impl<R: IndexKey> View for CsvIndex<R> {
    type V = Seq<(R::V, Seq<Address>)>;

    closed spec fn view(&self) -> Seq<(R::V, Seq<Address>)> {
        postings_view::<R>(self.map@)
    }
}

impl<R: IndexKey> CsvIndex<R> {
    /// The keys are strictly ascending.
    pub closed spec fn wf(&self) -> bool {
        self.map.wf()
    }

    /// Each key with its list of addresses.
    pub open spec fn postings(&self) -> Map<R::V, Seq<Address>> {
        as_map(self@)
    }

    /// A well-formed index has strictly ascending keys.
    pub proof fn lemma_wf_ascending(&self)
        requires
            self.wf(),
        ensures
            ascending::<R, Seq<Address>>(self@),
    {
        lemma_postings_ascending::<R>(self.map@);
    }

    /// The index of decoded entries, when their keys strictly ascend; `None`
    /// (a malformed chunk) otherwise.
    pub fn from_entries(entries: Vec<(R, Vec<Address>)>) -> (r: Option<Self>)
        ensures
            match r {
                Some(ix) => ix.wf() && ix@ == entries_view::<R>(entries@),
                None => !ascending::<R, Seq<Address>>(entries_view::<R>(entries@)),
            },
    {
        let ghost e0 = entries_view::<R>(entries@);
        let ghost n0: int = entries@.len() as int;
        let mut pending = entries;
        let mut rev: Vec<(R, Vec<Address>)> = Vec::new();
        while pending.len() > 0
            invariant
                e0 == entries_view::<R>(entries@),
                entries_view::<R>(pending@) == e0.take(pending@.len() as int),
                pending@.len() + rev@.len() == n0,
                e0.len() == n0,
                forall|j: int|
                    0 <= j < rev@.len() ==> #[trigger] entries_view::<R>(rev@)[j] == e0[n0 - 1 - j],
            decreases pending@.len(),
        {
            let ghost ev = entries_view::<R>(pending@);
            let ghost rv = rev@;
            if let Some(e) = pending.pop() {
                rev.push(e);
                proof {
                    assert(ev[ev.len() - 1] == (e.0@, e.1@));
                    assert(entries_view::<R>(pending@) =~= e0.take(pending@.len() as int));
                    assert forall|j: int| 0 <= j < rev@.len() implies #[trigger] entries_view::<R>(
                        rev@,
                    )[j] == e0[n0 - 1 - j] by {
                        if j < rv.len() {
                            assert(entries_view::<R>(rv)[j] == e0[n0 - 1 - j]);
                        }
                    }
                }
            }
        }
        let mut out: SortedMap<R, Vec<Address>> = SortedMap::new();
        proof {
            assert(postings_view::<R>(out@) =~= e0.take(0));
        }
        while rev.len() > 0
            invariant
                out.wf(),
                e0 == entries_view::<R>(entries@),
                rev@.len() <= n0,
                e0.len() == n0,
                postings_view::<R>(out@) == e0.take(n0 - rev@.len() as int),
                forall|j: int|
                    0 <= j < rev@.len() ==> #[trigger] entries_view::<R>(rev@)[j] == e0[n0 - 1 - j],
            decreases rev@.len(),
        {
            let ghost k: int = n0 - rev@.len() as int;
            let ghost rv = rev@;
            let ghost before = postings_view::<R>(out@);
            if let Some((key, list)) = rev.pop() {
                proof {
                    assert(entries_view::<R>(rv)[rv.len() - 1] == e0[k]);
                    assert((key@, list@) == e0[k]);
                }
                let len = out.len();
                proof {
                    assert(before.len() == out@.len());
                    assert(e0.take(k).len() == k);
                    assert(len == k);
                }
                if len > 0 {
                    if !out.key_at(len - 1).key_lt(&key) {
                        proof {
                            assert(before[len - 1] == e0[k - 1]);
                            assert(out@[len - 1].0 == before[len - 1].0);
                            assert(!R::lt_spec(e0[k - 1].0, e0[k].0));
                            if ascending::<R, Seq<Address>>(e0) {
                                assert(R::lt_spec(e0[k - 1].0, e0[k].0));
                            }
                        }
                        return None;
                    }
                }
                proof {
                    if len > 0 {
                        assert(before[len - 1] == e0[k - 1]);
                        assert forall|j: int| 0 <= j < out@.len() implies R::lt_spec(
                            #[trigger] out@[j].0,
                            key@,
                        ) by {
                            if j < len - 1 {
                                assert(out@[j].0 == before[j].0);
                                R::lemma_transitive(out@[j].0, out@[len - 1].0, key@);
                            }
                        }
                    }
                }
                let ghost kl = (key@, list@);
                out.insert_at(len, key, list);
                proof {
                    assert(postings_view::<R>(out@) =~= before.push(kl));
                    assert(e0.take(k + 1) =~= e0.take(k).push(e0[k]));
                    assert(postings_view::<R>(out@) =~= e0.take(k + 1));
                    assert forall|j: int| 0 <= j < rev@.len() implies #[trigger] entries_view::<R>(
                        rev@,
                    )[j] == e0[n0 - 1 - j] by {
                        assert(entries_view::<R>(rv)[j] == e0[n0 - 1 - j]);
                    }
                }
            }
        }
        proof {
            assert(e0.take(n0) =~= e0);
        }
        Some(CsvIndex { map: out })
    }

    /// An empty index.
    pub fn new() -> (r: Self)
        ensures
            r.wf(),
            r@ == Seq::<(R::V, Seq<Address>)>::empty(),
    {
        let r = CsvIndex { map: SortedMap::new() };
        proof {
            assert(r@ =~= Seq::<(R::V, Seq<Address>)>::empty());
        }
        r
    }

    /// The index of a sorted posting map.
    pub fn from(map: SortedMap<R, Vec<Address>>) -> (r: Self)
        requires
            map.wf(),
        ensures
            r.wf(),
            r@ == postings_view::<R>(map@),
    {
        CsvIndex { map }
    }

    /// The sorted posting map of this index.
    pub fn into_map(self) -> (r: SortedMap<R, Vec<Address>>)
        requires
            self.wf(),
        ensures
            r.wf(),
            postings_view::<R>(r@) == self@,
    {
        self.map
    }

    /// Appends `value` to the addresses of key `k`, adding the key if it is
    /// new.
    pub fn entry(&mut self, k: R, value: Address)
        requires
            old(self).wf(),
        ensures
            final(self).wf(),
            final(self).postings() == add_posting(old(self).postings(), k@, value),
    {
        let ghost m = self.map@;
        let ghost p = self@;
        let ghost kv = k@;
        proof {
            lemma_postings_ascending::<R>(m);
            lemma_as_map_has_key(p, kv);
        }
        match self.map.search(&k) {
            Ok(i) => {
                self.map.push_at(i, value);
                proof {
                    assert(self@ =~= p.update(i as int, (p[i as int].0, p[i as int].1.push(value))));
                    lemma_as_map_update::<R, Seq<Address>>(p, i as int, p[i as int].1.push(value));
                    lemma_as_map_index::<R, Seq<Address>>(p, i as int);
                }
            },
            Err(i) => {
                let mut list: Vec<Address> = Vec::new();
                list.push(value);
                proof {
                    assert(list@ =~= seq![value]);
                }
                self.map.insert_at(i, k, list);
                proof {
                    assert(self@ =~= p.insert(i as int, (kv, seq![value])));
                    if has_key(p, kv) {
                        let j = choose|j: int| 0 <= j < p.len() && #[trigger] p[j].0 == kv;
                        R::lemma_irreflexive(kv);
                    }
                    lemma_as_map_insert_fresh(p, i as int, kv, seq![value]);
                }
            },
        }
    }

    /// The index whose postings are those of `a` followed, key by key, by
    /// those of `b`; it takes time linear in the two sizes.
    pub fn merge(a: CsvIndex<R>, b: CsvIndex<R>) -> (r: CsvIndex<R>)
        requires
            a.wf(),
            b.wf(),
        ensures
            r.wf(),
            r.postings() == merge_postings(a.postings(), b.postings()),
    {
        let ghost a0 = a@;
        let ghost b0 = b@;
        let mut am = a.map;
        let mut bm = b.map;
        let mut desc: Vec<(R, Vec<Address>)> = Vec::new();
        proof {
            lemma_postings_ascending::<R>(am@);
            lemma_postings_ascending::<R>(bm@);
            assert(a0.take(a0.len() as int) =~= a0);
            assert(b0.take(b0.len() as int) =~= b0);
            assert(a0.skip(a0.len() as int) =~= Seq::<(R::V, Seq<Address>)>::empty());
            assert(b0.skip(b0.len() as int) =~= Seq::<(R::V, Seq<Address>)>::empty());
            assert(entries_view::<R>(desc@) =~= Seq::<(R::V, Seq<Address>)>::empty());
            lemma_merge_empty(Map::<R::V, Seq<Address>>::empty());
        }
        while am.len() > 0 || bm.len() > 0
            invariant
                am.wf(),
                bm.wf(),
                ascending::<R, Seq<Address>>(a0),
                ascending::<R, Seq<Address>>(b0),
                am@.len() <= a0.len(),
                bm@.len() <= b0.len(),
                postings_view::<R>(am@) == a0.take(am@.len() as int),
                postings_view::<R>(bm@) == b0.take(bm@.len() as int),
                descending::<R, Seq<Address>>(entries_view::<R>(desc@)),
                forall|x: int, y: int|
                    0 <= x < desc@.len() && 0 <= y < am@.len() ==> R::lt_spec(
                        #[trigger] a0[y].0,
                        #[trigger] entries_view::<R>(desc@)[x].0,
                    ),
                forall|x: int, y: int|
                    0 <= x < desc@.len() && 0 <= y < bm@.len() ==> R::lt_spec(
                        #[trigger] b0[y].0,
                        #[trigger] entries_view::<R>(desc@)[x].0,
                    ),
                as_map(entries_view::<R>(desc@)) == merge_postings(
                    as_map(a0.skip(am@.len() as int)),
                    as_map(b0.skip(bm@.len() as int)),
                ),
            decreases am@.len() + bm@.len(),
        {
            let na = am.len();
            let nb = bm.len();
            let ghost ev = entries_view::<R>(desc@);
            proof {
                if na > 0 {
                    assert(postings_view::<R>(am@)[na - 1] == a0[na - 1]);
                }
                if nb > 0 {
                    assert(postings_view::<R>(bm@)[nb - 1] == b0[nb - 1]);
                }
            }
            let take_a = if nb == 0 {
                true
            } else if na == 0 {
                false
            } else {
                bm.key_at(nb - 1).key_lt(am.key_at(na - 1))
            };
            let take_b = if take_a {
                false
            } else if na == 0 {
                true
            } else {
                am.key_at(na - 1).key_lt(bm.key_at(nb - 1))
            };
            if take_a {
                let ghost k = a0[na - 1].0;
                let ghost v = a0[na - 1].1;
                if let Some(e) = am.pop() {
                    desc.push(e);
                }
                proof {
                    let ev2 = entries_view::<R>(desc@);
                    assert(ev2 =~= ev.push(a0[na - 1]));
                    assert(postings_view::<R>(am@) =~= a0.take(na - 1));
                    let p = as_map(a0.skip(na as int));
                    let q = as_map(b0.skip(nb as int));
                    lemma_skip_prepend(a0, na as int);
                    lemma_skip_lacks::<R, Seq<Address>>(a0, na as int);
                    lemma_as_map_prepend(a0[na - 1], a0.skip(na as int));
                    lemma_as_map_has_key(a0.skip(na as int), k);
                    lemma_as_map_has_key(ev, k);
                    if has_key(ev, k) {
                        let x = choose|x: int| 0 <= x < ev.len() && #[trigger] ev[x].0 == k;
                        assert(R::lt_spec(a0[na - 1].0, ev[x].0));
                        R::lemma_irreflexive(k);
                    }
                    assert(!q.dom().contains(k));
                    lemma_merge_insert_left(p, q, k, v);
                    lemma_as_map_push(ev, a0[na - 1]);
                    assert forall|x: int, y: int|
                        0 <= x < desc@.len() && 0 <= y < bm@.len() implies R::lt_spec(
                        #[trigger] b0[y].0,
                        #[trigger] entries_view::<R>(desc@)[x].0,
                    ) by {
                        if x == desc@.len() - 1 {
                            if y < nb - 1 {
                                R::lemma_transitive(b0[y].0, b0[nb - 1].0, k);
                            }
                        } else {
                            assert(ev2[x] == ev[x]);
                        }
                    }
                    assert forall|x: int, y: int|
                        0 <= x < desc@.len() && 0 <= y < am@.len() implies R::lt_spec(
                        #[trigger] a0[y].0,
                        #[trigger] entries_view::<R>(desc@)[x].0,
                    ) by {
                        if x < desc@.len() - 1 {
                            assert(ev2[x] == ev[x]);
                        }
                    }
                    assert forall|x: int, y: int|
                        0 <= x < y < ev2.len() implies R::lt_spec(#[trigger] ev2[y].0, #[trigger] ev2[x].0) by {
                        if y == ev2.len() - 1 {
                            assert(ev2[x] == ev[x]);
                        } else {
                            assert(ev2[x] == ev[x]);
                            assert(ev2[y] == ev[y]);
                        }
                    }
                }
            } else if take_b {
                let ghost k = b0[nb - 1].0;
                let ghost v = b0[nb - 1].1;
                if let Some(e) = bm.pop() {
                    desc.push(e);
                }
                proof {
                    let ev2 = entries_view::<R>(desc@);
                    assert(ev2 =~= ev.push(b0[nb - 1]));
                    assert(postings_view::<R>(bm@) =~= b0.take(nb - 1));
                    let p = as_map(b0.skip(nb as int));
                    let q = as_map(a0.skip(na as int));
                    lemma_skip_prepend(b0, nb as int);
                    lemma_skip_lacks::<R, Seq<Address>>(b0, nb as int);
                    lemma_as_map_prepend(b0[nb - 1], b0.skip(nb as int));
                    lemma_as_map_has_key(b0.skip(nb as int), k);
                    lemma_as_map_has_key(ev, k);
                    if has_key(ev, k) {
                        let x = choose|x: int| 0 <= x < ev.len() && #[trigger] ev[x].0 == k;
                        assert(R::lt_spec(b0[nb - 1].0, ev[x].0));
                        R::lemma_irreflexive(k);
                    }
                    assert(!q.dom().contains(k));
                    lemma_merge_insert_left(p, q, k, v);
                    lemma_as_map_push(ev, b0[nb - 1]);
                    assert forall|x: int, y: int|
                        0 <= x < desc@.len() && 0 <= y < am@.len() implies R::lt_spec(
                        #[trigger] a0[y].0,
                        #[trigger] entries_view::<R>(desc@)[x].0,
                    ) by {
                        if x == desc@.len() - 1 {
                            if y < na - 1 {
                                R::lemma_transitive(a0[y].0, a0[na - 1].0, k);
                            }
                        } else {
                            assert(ev2[x] == ev[x]);
                        }
                    }
                    assert forall|x: int, y: int|
                        0 <= x < desc@.len() && 0 <= y < bm@.len() implies R::lt_spec(
                        #[trigger] b0[y].0,
                        #[trigger] entries_view::<R>(desc@)[x].0,
                    ) by {
                        if x < desc@.len() - 1 {
                            assert(ev2[x] == ev[x]);
                        }
                    }
                    assert forall|x: int, y: int|
                        0 <= x < y < ev2.len() implies R::lt_spec(#[trigger] ev2[y].0, #[trigger] ev2[x].0) by {
                        if y == ev2.len() - 1 {
                            assert(ev2[x] == ev[x]);
                        } else {
                            assert(ev2[x] == ev[x]);
                            assert(ev2[y] == ev[y]);
                        }
                    }
                }
            } else {
                let ghost k = a0[na - 1].0;
                let ghost v = a0[na - 1].1;
                let ghost w = b0[nb - 1].1;
                proof {
                    R::lemma_total(a0[na - 1].0, b0[nb - 1].0);
                }
                let ea = am.pop();
                let eb = bm.pop();
                if let (Some((key, mut list)), Some((_, mut more))) = (ea, eb) {
                    list.append(&mut more);
                    desc.push((key, list));
                }
                proof {
                    let ev2 = entries_view::<R>(desc@);
                    assert(ev2 =~= ev.push((k, v + w)));
                    assert(postings_view::<R>(am@) =~= a0.take(na - 1));
                    assert(postings_view::<R>(bm@) =~= b0.take(nb - 1));
                    let p = as_map(a0.skip(na as int));
                    let q = as_map(b0.skip(nb as int));
                    lemma_skip_prepend(a0, na as int);
                    lemma_skip_lacks::<R, Seq<Address>>(a0, na as int);
                    lemma_as_map_prepend(a0[na - 1], a0.skip(na as int));
                    lemma_as_map_has_key(a0.skip(na as int), k);
                    lemma_skip_prepend(b0, nb as int);
                    lemma_skip_lacks::<R, Seq<Address>>(b0, nb as int);
                    lemma_as_map_prepend(b0[nb - 1], b0.skip(nb as int));
                    lemma_as_map_has_key(b0.skip(nb as int), k);
                    lemma_merge_insert_both(p, q, k, v, w);
                    lemma_as_map_push(ev, (k, v + w));
                    assert forall|x: int, y: int|
                        0 <= x < desc@.len() && 0 <= y < am@.len() implies R::lt_spec(
                        #[trigger] a0[y].0,
                        #[trigger] entries_view::<R>(desc@)[x].0,
                    ) by {
                        if x < desc@.len() - 1 {
                            assert(ev2[x] == ev[x]);
                        }
                    }
                    assert forall|x: int, y: int|
                        0 <= x < desc@.len() && 0 <= y < bm@.len() implies R::lt_spec(
                        #[trigger] b0[y].0,
                        #[trigger] entries_view::<R>(desc@)[x].0,
                    ) by {
                        if x < desc@.len() - 1 {
                            assert(ev2[x] == ev[x]);
                        }
                    }
                    assert forall|x: int, y: int|
                        0 <= x < y < ev2.len() implies R::lt_spec(#[trigger] ev2[y].0, #[trigger] ev2[x].0) by {
                        if y == ev2.len() - 1 {
                            assert(ev2[x] == ev[x]);
                        } else {
                            assert(ev2[x] == ev[x]);
                            assert(ev2[y] == ev[y]);
                        }
                    }
                }
            }
        }
        let ghost d0 = entries_view::<R>(desc@);
        proof {
            assert(a0.skip(0) =~= a0);
            assert(b0.skip(0) =~= b0);
            assert(d0.take(d0.len() as int) =~= d0);
            assert(d0.skip(d0.len() as int) =~= Seq::<(R::V, Seq<Address>)>::empty());
        }
        let mut out: SortedMap<R, Vec<Address>> = SortedMap::new();
        proof {
            assert(postings_view::<R>(out@) =~= Seq::<(R::V, Seq<Address>)>::empty());
        }
        while desc.len() > 0
            invariant
                out.wf(),
                descending::<R, Seq<Address>>(d0),
                desc@.len() <= d0.len(),
                entries_view::<R>(desc@) == d0.take(desc@.len() as int),
                postings_view::<R>(out@).len() == d0.len() - desc@.len(),
                forall|j: int|
                    0 <= j < out@.len() ==> #[trigger] postings_view::<R>(out@)[j] == d0[d0.len() - 1 - j],
                as_map(postings_view::<R>(out@)) == as_map(d0.skip(desc@.len() as int)),
            decreases desc@.len(),
        {
            let n = desc.len();
            let ghost before = postings_view::<R>(out@);
            let ghost dv = desc@;
            proof {
                assert(entries_view::<R>(desc@)[n - 1] == d0[n - 1]);
            }
            if let Some((key, list)) = desc.pop() {
                proof {
                    assert((key, list) == dv[n - 1]);
                    assert(entries_view::<R>(dv)[n - 1] == (key@, list@));
                    assert(key@ == d0[n - 1].0);
                    assert forall|j: int| 0 <= j < out@.len() implies R::lt_spec(
                        #[trigger] out@[j].0,
                        key@,
                    ) by {
                        assert(before[j] == d0[d0.len() - 1 - j]);
                        assert(out@[j].0 == before[j].0);
                        assert(n - 1 < d0.len() - 1 - j);
                    }
                }
                let len = out.len();
                out.insert_at(len, key, list);
                proof {
                    let now = postings_view::<R>(out@);
                    assert(now =~= before.push(d0[n - 1]));
                    lemma_as_map_push(before, d0[n - 1]);
                    lemma_skip_prepend(d0, n as int);
                    lemma_above_lacks::<R, Seq<Address>>(d0.skip(n as int), d0[n - 1].0);
                    lemma_as_map_prepend(d0[n - 1], d0.skip(n as int));
                    assert(entries_view::<R>(desc@) =~= d0.take(n - 1));
                }
            }
        }
        proof {
            assert(d0.skip(0) =~= d0);
        }
        CsvIndex { map: out }
    }

    /// Appends the postings of `batch`, key by key, after those of this
    /// index.
    pub fn absorb(&mut self, batch: CsvIndex<R>)
        requires
            old(self).wf(),
            batch.wf(),
        ensures
            final(self).wf(),
            final(self).postings() == merge_postings(old(self).postings(), batch.postings()),
    {
        let ghost m = self.map@;
        let all = self.map.split_off(0);
        proof {
            assert(all@ =~= m);
        }
        let merged = CsvIndex::merge(CsvIndex { map: all }, batch);
        self.map = merged.map;
    }

    /// The keys, in ascending order.
    pub fn keys(&self) -> (r: Vec<R>)
        requires
            self.wf(),
        ensures
            r@.map_values(|k: R| k@) == keys_of(self@),
    {
        let n = self.map.len();
        let mut r: Vec<R> = Vec::new();
        let mut i: usize = 0;
        while i < n
            invariant
                n == self.map@.len(),
                self@.len() == n,
                0 <= i <= n,
                r@.len() == i,
                forall|j: int| 0 <= j < i ==> (#[trigger] r@[j])@ == self@[j].0,
            decreases n - i,
        {
            let k = self.map.key_at(i).key_clone();
            r.push(k);
            i = i + 1;
        }
        proof {
            assert(r@.map_values(|k: R| k@) =~= keys_of(self@));
        }
        r
    }

    /// The number of distinct keys.
    pub fn uniques(&self) -> (r: usize)
        ensures
            r == self@.len(),
    {
        self.map.len()
    }

    /// The addresses of every key in `bounds`, key by key in ascending order,
    /// each key's addresses in insertion order.
    pub fn matching_addresses(&self, bounds: &Range<R>) -> (r: Vec<Address>)
        ensures
            r@ == postings_in_range::<R>(self@, range_view(*bounds)),
    {
        let n = self.map.len();
        let mut out: Vec<Address> = Vec::new();
        let mut i: usize = 0;
        proof {
            assert(self@.take(0) =~= Seq::<(R::V, Seq<Address>)>::empty());
        }
        while i < n
            invariant
                n == self.map@.len(),
                self@.len() == n,
                0 <= i <= n,
                out@ == postings_in_range::<R>(self@.take(i as int), range_view(*bounds)),
            decreases n - i,
        {
            let ghost before = out@;
            if range_contains(bounds, self.map.key_at(i)) {
                let list = self.map.value_at(i);
                let mut j: usize = 0;
                while j < list.len()
                    invariant
                        0 <= j <= list@.len(),
                        out@ == before + list@.take(j as int),
                    decreases list@.len() - j,
                {
                    out.push(list[j]);
                    j = j + 1;
                    proof {
                        assert(out@ =~= before + list@.take(j as int));
                    }
                }
                proof {
                    assert(list@.take(list@.len() as int) =~= list@);
                }
            } else {
                proof {
                    assert(out@ =~= before + Seq::<Address>::empty());
                }
            }
            proof {
                assert(self@.take(i + 1).drop_last() =~= self@.take(i as int));
            }
            i = i + 1;
        }
        proof {
            assert(self@.take(n as int) =~= self@);
        }
        out
    }

    /// The smallest key other than `skip`, and the largest key.
    pub fn key_range(&self, skip: &Option<R>) -> (r: (Option<R>, Option<R>))
        requires
            self.wf(),
        ensures
            match r.0 {
                Some(k) => exists|i: int|
                    0 <= i < self@.len() && #[trigger] self@[i].0 == k@ && (match skip {
                        Some(s) => k@ != s@ && forall|j: int|
                            0 <= j < i ==> #[trigger] self@[j].0 == s@,
                        None => i == 0,
                    }),
                None => forall|i: int|
                    0 <= i < self@.len() ==> match skip {
                        Some(s) => #[trigger] self@[i].0 == s@,
                        None => false,
                    },
            },
            match r.1 {
                Some(k) => self@.len() > 0 && k@ == self@.last().0,
                None => self@.len() == 0,
            },
    {
        let n = self.map.len();
        if n == 0 {
            return (None, None);
        }
        let last = self.map.key_at(n - 1).key_clone();
        let first = self.map.key_at(0);
        proof {
            assert(self@[0].0 == first@);
        }
        match skip {
            None => (Some(first.key_clone()), Some(last)),
            Some(s) => {
                if !first.key_eq(s) {
                    (Some(first.key_clone()), Some(last))
                } else if n > 1 {
                    proof {
                        R::lemma_irreflexive(s@);
                        assert(self@[0].0 == s@);
                        assert(R::lt_spec(self.map@[0].0, self.map@[1].0));
                        assert(self@[1].0 == self.map@[1].0);
                        assert(self@[1].0 != s@);
                    }
                    (Some(self.map.key_at(1).key_clone()), Some(last))
                } else {
                    (None, Some(last))
                }
            },
        }
    }
}

/// Indexing is deterministic: two well-formed indexes that hold the same
/// postings hold them as the same entries in the same key order, so filing
/// the same pairs, in the same order, into equal indexes gives identical
/// contents.
pub proof fn lemma_indexing_deterministic<R: IndexKey>(a: CsvIndex<R>, b: CsvIndex<R>)
    requires
        a.wf(),
        b.wf(),
        a.postings() == b.postings(),
    ensures
        a@ == b@,
{
    lemma_postings_ascending::<R>(a.map@);
    lemma_postings_ascending::<R>(b.map@);
    lemma_same_map_same_entries::<R, Seq<Address>>(a@, b@);
}

/// A column index of one of three key types: byte strings, signed integers,
/// or floats filed under their total-order keys.
#[allow(non_camel_case_types)]
pub enum CsvIndexType {
    STR(CsvIndex<Vec<u8>>),
    I64(CsvIndex<i64>),
    F64(CsvIndex<u64>),
}

/// The upper-case name of the byte-string kind.
pub open spec fn is_str_name(u: Seq<u8>) -> bool {
    u == seq![83u8, 84u8, 82u8]
}

/// The upper-case name of the integer kind.
pub open spec fn is_int_name(u: Seq<u8>) -> bool {
    u == seq![73u8, 78u8, 84u8]
}

/// The upper-case name of the float kind.
pub open spec fn is_float_name(u: Seq<u8>) -> bool {
    u == seq![70u8, 76u8, 79u8, 65u8, 84u8]
}

/// The integer key of a field: its decimal value, or `i64::MIN` when it is
/// not a decimal integer.
pub open spec fn int_key(b: Seq<u8>) -> i64 {
    match decimal_i64(b) {
        Some(v) => v,
        None => i64::MIN,
    }
}

/// The float key of a field whose parse gave `bits`, or negative infinity
/// when it did not parse.
pub open spec fn float_field_key(bits: Option<u64>) -> u64 {
    match bits {
        Some(b) => total_order_key(b),
        None => total_order_key(NEG_INFINITY_BITS),
    }
}

/// The empty index of the kind whose upper-case name is `u`, if any.
pub open spec fn new_index_spec(u: Seq<u8>, r: Result<CsvIndexType, &'static str>) -> bool {
    match r {
        Ok(CsvIndexType::STR(i)) => is_str_name(u) && i.wf() && i@.len() == 0,
        Ok(CsvIndexType::I64(i)) => is_int_name(u) && i.wf() && i@.len() == 0,
        Ok(CsvIndexType::F64(i)) => is_float_name(u) && i.wf() && i@.len() == 0,
        Err(_) => !is_str_name(u) && !is_int_name(u) && !is_float_name(u),
    }
}

/// Two typed indexes have the same key type.
pub open spec fn same_kind(a: CsvIndexType, b: CsvIndexType) -> bool {
    match (a, b) {
        (CsvIndexType::STR(_), CsvIndexType::STR(_)) => true,
        (CsvIndexType::I64(_), CsvIndexType::I64(_)) => true,
        (CsvIndexType::F64(_), CsvIndexType::F64(_)) => true,
        _ => false,
    }
}

impl CsvIndexType {
    /// The inner index is well formed.
    pub open spec fn wf(&self) -> bool {
        match self {
            CsvIndexType::STR(i) => i.wf(),
            CsvIndexType::I64(i) => i.wf(),
            CsvIndexType::F64(i) => i.wf(),
        }
    }

    /// An empty index of the kind named `name` in upper case: `STR`, `INT`
    /// or `FLOAT`.
    pub fn from_upper_name(name: &Vec<u8>) -> (r: Result<Self, &'static str>)
        ensures
            new_index_spec(name@, r),
    {
        if name.key_eq(&vec![83u8, 84u8, 82u8]) {
            Ok(CsvIndexType::STR(CsvIndex::new()))
        } else if name.key_eq(&vec![73u8, 78u8, 84u8]) {
            Ok(CsvIndexType::I64(CsvIndex::new()))
        } else if name.key_eq(&vec![70u8, 76u8, 79u8, 65u8, 84u8]) {
            Ok(CsvIndexType::F64(CsvIndex::new()))
        } else {
            Err("Unknown type")
        }
    }

    /// An empty index of the kind named `csv_type`, in any case: `str`,
    /// `int` or `float`.
    pub fn try_new(csv_type: &str) -> (r: Result<Self, &'static str>)
        ensures
            new_index_spec(upper_of(csv_type.spec_bytes()), r),
    {
        let name = to_upper(csv_type);
        Self::from_upper_name(&name)
    }

    /// Files the record at `value` under the key of its field `key`: the
    /// bytes themselves for a byte-string index, their decimal value (or
    /// `i64::MIN` when they are not a decimal integer) for an integer index.
    pub fn insert(&mut self, key: Vec<u8>, value: Address)
        requires
            old(self).wf(),
            !(*old(self) is F64),
        ensures
            final(self).wf(),
            match (*old(self), *final(self)) {
                (CsvIndexType::STR(a), CsvIndexType::STR(b)) => b.postings() == add_posting(
                    a.postings(),
                    key@,
                    value,
                ),
                (CsvIndexType::I64(a), CsvIndexType::I64(b)) => b.postings() == add_posting(
                    a.postings(),
                    int_key(key@),
                    value,
                ),
                _ => false,
            },
    {
        match self {
            CsvIndexType::STR(index) => index.entry(key, value),
            CsvIndexType::I64(index) => {
                let k = match parse_i64(key.as_slice()) {
                    Some(v) => v,
                    None => i64::MIN,
                };
                index.entry(k, value)
            },
            CsvIndexType::F64(_) => {},
        }
    }

    /// Files the record at `value` in a float index, under the key of the
    /// float whose bit pattern the field parsed to, or under negative
    /// infinity when it did not parse.
    pub fn insert_float(&mut self, bits: Option<u64>, value: Address)
        requires
            old(self).wf(),
            *old(self) is F64,
        ensures
            final(self).wf(),
            match (*old(self), *final(self)) {
                (CsvIndexType::F64(a), CsvIndexType::F64(b)) => b.postings() == add_posting(
                    a.postings(),
                    float_field_key(bits),
                    value,
                ),
                _ => false,
            },
    {
        match self {
            CsvIndexType::F64(index) => {
                let k = match bits {
                    Some(b) => float_key(b),
                    None => float_key(NEG_INFINITY_BITS),
                };
                index.entry(k, value)
            },
            _ => {},
        }
    }

    /// Appends the postings of `batch`, an index of the same kind, key by
    /// key, after those of this index.
    pub fn absorb(&mut self, batch: CsvIndexType)
        requires
            old(self).wf(),
            batch.wf(),
            same_kind(*old(self), batch),
        ensures
            final(self).wf(),
            match (*old(self), batch, *final(self)) {
                (CsvIndexType::STR(a), CsvIndexType::STR(b), CsvIndexType::STR(c)) => c.postings()
                    == merge_postings(a.postings(), b.postings()),
                (CsvIndexType::I64(a), CsvIndexType::I64(b), CsvIndexType::I64(c)) => c.postings()
                    == merge_postings(a.postings(), b.postings()),
                (CsvIndexType::F64(a), CsvIndexType::F64(b), CsvIndexType::F64(c)) => c.postings()
                    == merge_postings(a.postings(), b.postings()),
                _ => false,
            },
    {
        match self {
            CsvIndexType::STR(ix) => match batch {
                CsvIndexType::STR(b) => ix.absorb(b),
                _ => {},
            },
            CsvIndexType::I64(ix) => match batch {
                CsvIndexType::I64(b) => ix.absorb(b),
                _ => {},
            },
            CsvIndexType::F64(ix) => match batch {
                CsvIndexType::F64(b) => ix.absorb(b),
                _ => {},
            },
        }
    }

    /// The number of distinct keys.
    pub fn uniques(&self) -> (r: usize)
        ensures
            r == match self {
                CsvIndexType::STR(i) => i@.len(),
                CsvIndexType::I64(i) => i@.len(),
                CsvIndexType::F64(i) => i@.len(),
            },
    {
        match self {
            CsvIndexType::STR(index) => index.uniques(),
            CsvIndexType::I64(index) => index.uniques(),
            CsvIndexType::F64(index) => index.uniques(),
        }
    }
}

} // verus!

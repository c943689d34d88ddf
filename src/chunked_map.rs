//! Splitting a sorted map into contiguous chunks of about equal population.

use vstd::prelude::*;

use vstd::arithmetic::div_mod::lemma_fundamental_div_mod;

use crate::key::IndexKey;
use crate::sorted_map::{ascending, SortedMap};

verus! {

/// The number of chunks that a map of `n` keys is split into when `pieces`
/// are asked for: never more than there are keys, and none for an empty map.
pub open spec fn clamped_pieces(n: int, pieces: int) -> int {
    if n == 0 {
        0
    } else if pieces < n {
        pieces
    } else {
        n
    }
}

/// The maps of a list of chunks, in order.
pub open spec fn chunk_maps<K: IndexKey, V>(c: Seq<(K, SortedMap<K, V>)>) -> Seq<Seq<(K::V, V)>> {
    c.map_values(|e: (K, SortedMap<K, V>)| e.1@)
}

/// Splits `map` into contiguous chunks, each labelled with its first key.
///
/// Every chunk but the last holds `n / pieces` keys and the last holds the
/// rest, where `pieces` is first clamped to the number of keys `n`; an empty
/// map gives no chunk. The chunks, concatenated in order, are the input
/// map, and `map` is left empty.
pub fn chunk_map<K: IndexKey, V>(map: &mut SortedMap<K, V>, pieces: usize) -> (r: Vec<
    (K, SortedMap<K, V>),
>)
    requires
        old(map).wf(),
        pieces >= 1,
    ensures
        final(map)@.len() == 0,
        r@.len() == clamped_pieces(old(map)@.len() as int, pieces as int),
        chunk_maps(r@).flatten() == old(map)@,
        forall|i: int|
            0 <= i < r@.len() ==> (#[trigger] r@[i]).1.wf() && r@[i].1@.len() > 0 && r@[i].0@
                == r@[i].1@[0].0,
        forall|i: int|
            0 <= i < r@.len() - 1 ==> (#[trigger] r@[i]).1@.len() as int == old(map)@.len() as int
                / clamped_pieces(old(map)@.len() as int, pieces as int),
        forall|a: int, b: int|
            0 <= a < b < r@.len() ==> K::lt_spec((#[trigger] r@[a]).0@, (#[trigger] r@[b]).0@),
{
    let ghost orig = map@;
    let n = map.len();
    let mut rest = map.split_off(0);
    let mut chunked_map: Vec<(K, SortedMap<K, V>)> = Vec::new();
    if n == 0 {
        proof {
            assert(chunk_maps(chunked_map@) =~= Seq::<Seq<(K::V, V)>>::empty());
            assert(orig =~= Seq::<(K::V, V)>::empty());
        }
        return chunked_map;
    }
    let count: usize = if pieces < n { pieces } else { n };
    let chunk_size = n / count;
    proof {
        assert(chunk_size >= 1) by (nonlinear_arith)
            requires count <= n, count >= 1, chunk_size == n / count;
        assert(chunk_maps(chunked_map@) =~= Seq::<Seq<(K::V, V)>>::empty());
        assert(rest@ =~= orig);
        assert(rest@ =~= orig.subrange(0 * chunk_size, n as int));
    }
    let mut i: usize = 0;
    while i + 1 < count
        invariant
            1 <= count <= n,
            n == orig.len(),
            chunk_size == n / count,
            chunk_size >= 1,
            0 <= i < count,
            chunked_map@.len() == i,
            rest.wf(),
            rest@.len() == n - i * chunk_size,
            chunk_maps(chunked_map@).flatten() + rest@ == orig,
            forall|j: int|
                0 <= j < i ==> (#[trigger] chunked_map@[j]).1.wf() && chunked_map@[j].1@.len()
                    == chunk_size && chunked_map@[j].0@ == chunked_map@[j].1@[0].0,
            ascending::<K, V>(orig),
            rest@ == orig.subrange(i * chunk_size, n as int),
            forall|j: int| 0 <= j < i ==> (#[trigger] chunked_map@[j]).0@ == orig[j * chunk_size].0,
        decreases count - i,
    {
        proof {
            assert((i + 1) * chunk_size <= n) by (nonlinear_arith)
                requires i + 1 < count, chunk_size == n / count, count >= 1;
            assert(i * chunk_size + chunk_size == (i + 1) * chunk_size) by (nonlinear_arith);
        }
        let tail = rest.split_off(chunk_size);
        let first = rest.key_at(0).key_clone();
        proof {
            assert(rest@[0] == orig[i * chunk_size]);
            assert(tail@ =~= orig.subrange((i + 1) * chunk_size, n as int));
        }
        let ghost before = chunk_maps(chunked_map@);
        let ghost head = rest@;
        chunked_map.push((first, rest));
        rest = tail;
        proof {
            assert(chunk_maps(chunked_map@) =~= before.push(head));
            before.lemma_flatten_push(head);
            assert(head + rest@ =~= head + rest@);
            assert(chunk_maps(chunked_map@).flatten() + rest@ =~= before.flatten() + (head
                + rest@));
            assert(i * chunk_size + chunk_size == (i + 1) * chunk_size) by (nonlinear_arith);
        }
        i = i + 1;
    }
    proof {
        lemma_fundamental_div_mod(n as int, count as int);
        assert(rest@.len() > 0) by (nonlinear_arith)
            requires
                rest@.len() == n - i * chunk_size,
                i + 1 == count,
                n == count * chunk_size + n % count,
                n % count >= 0,
                chunk_size >= 1,
        ;
    }
    let first = rest.key_at(0).key_clone();
    let ghost before = chunk_maps(chunked_map@);
    let ghost head = rest@;
    proof {
        assert(rest@[0] == orig[i * chunk_size]);
    }
    chunked_map.push((first, rest));
    proof {
        assert(chunk_maps(chunked_map@) =~= before.push(head));
        before.lemma_flatten_push(head);
        assert forall|a: int, b: int| 0 <= a < b < chunked_map@.len() implies K::lt_spec(
            (#[trigger] chunked_map@[a]).0@,
            (#[trigger] chunked_map@[b]).0@,
        ) by {
            assert(a * chunk_size < b * chunk_size) by (nonlinear_arith)
                requires a < b, chunk_size >= 1;
            assert(b * chunk_size < n) by (nonlinear_arith)
                requires b <= i, i * chunk_size < n, chunk_size >= 1;
            assert(chunked_map@[b].0@ == orig[b * chunk_size].0);
            assert(chunked_map@[a].0@ == orig[a * chunk_size].0);
        }
    }
    chunked_map
}

} // verus!

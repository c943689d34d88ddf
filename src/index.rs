//! The indexing pass: how a source is split among workers, and how the
//! pairs a worker stages are filed into the shared index.

use vstd::prelude::*;

use crate::address::Address;
use crate::csv_index::{
    add_posting,
    float_field_key,
    int_key,
    lemma_merge_add_posting,
    lemma_merge_empty,
    merge_postings,
    CsvIndex,
    CsvIndexType,
};
use crate::text::parse_i64;
use crate::csv_reader::{
    accepts,
    chained,
    lemma_first_newline_bounds,
    lemma_first_newline_min,
    line_start,
    scan_ends,
    scan_error,
    window_start,
    CsvReader,
};
use crate::error::IndexError;
use crate::key::float_key;
use crate::key::NEG_INFINITY_BITS;
use crate::key::IndexKey;

verus! {

/// The postings `p` with each staged `(key, address)` pair of `items`
/// appended, in order.
pub open spec fn add_postings<KV>(p: Map<KV, Seq<Address>>, items: Seq<(KV, Address)>) -> Map<
    KV,
    Seq<Address>,
>
    decreases items.len(),
{
    if items.len() == 0 {
        p
    } else {
        add_posting(add_postings(p, items.drop_last()), items.last().0, items.last().1)
    }
}

/// Staged fields of a byte-string index, keyed by their bytes.
pub open spec fn str_items(s: Seq<(Vec<u8>, Address)>) -> Seq<(Seq<u8>, Address)> {
    s.map_values(|e: (Vec<u8>, Address)| (e.0@, e.1))
}

/// Staged fields of an integer index, keyed by their decimal value.
pub open spec fn int_items(s: Seq<(Vec<u8>, Address)>) -> Seq<(i64, Address)> {
    s.map_values(|e: (Vec<u8>, Address)| (int_key(e.0@), e.1))
}

/// Staged parses of a float index, keyed by their total-order key.
pub open spec fn float_items(s: Seq<(Option<u64>, Address)>) -> Seq<(u64, Address)> {
    s.map_values(|e: (Option<u64>, Address)| (float_field_key(e.0), e.1))
}

/// Keyed pairs, as views.
pub open spec fn keyed_items<R: IndexKey>(s: Seq<(R, Address)>) -> Seq<(R::V, Address)> {
    s.map_values(|e: (R, Address)| (e.0@, e.1))
}

/// Filing `a` then `b` is filing `a + b`.
pub proof fn lemma_add_postings_concat<KV>(
    p: Map<KV, Seq<Address>>,
    a: Seq<(KV, Address)>,
    b: Seq<(KV, Address)>,
)
    ensures
        add_postings(p, a + b) == add_postings(add_postings(p, a), b),
    decreases b.len(),
{
    if b.len() == 0 {
        assert(a + b =~= a);
    } else {
        lemma_add_postings_concat(p, a, b.drop_last());
        assert((a + b).drop_last() =~= a + b.drop_last());
        assert((a + b).last() == b.last());
    }
}

/// Filing a list of pairs into `p` appends, key by key, what filing them
/// into an empty index gives.
pub proof fn lemma_add_postings_merge<KV>(p: Map<KV, Seq<Address>>, items: Seq<(KV, Address)>)
    ensures
        add_postings(p, items) == merge_postings(p, add_postings(Map::empty(), items)),
    decreases items.len(),
{
    if items.len() == 0 {
        lemma_merge_empty(p);
    } else {
        lemma_add_postings_merge(p, items.drop_last());
        lemma_merge_add_posting(
            p,
            add_postings(Map::empty(), items.drop_last()),
            items.last().0,
            items.last().1,
        );
    }
}

/// The index of the pairs `items[lo..hi]`, filed in order; built by
/// merging halves, in time `O(n log n)` for `n` pairs.
pub fn build_batch<R: IndexKey>(items: &Vec<(R, Address)>, lo: usize, hi: usize) -> (r: CsvIndex<R>)
    requires
        lo <= hi <= items@.len(),
    ensures
        r.wf(),
        r.postings() == add_postings(
            Map::empty(),
            keyed_items::<R>(items@).subrange(lo as int, hi as int),
        ),
    decreases hi - lo,
{
    let ghost s = keyed_items::<R>(items@);
    assert(s.len() == items@.len());
    if hi - lo == 0 {
        let r = CsvIndex::new();
        proof {
            assert(s.subrange(lo as int, hi as int) =~= Seq::<(R::V, Address)>::empty());
            assert(r.postings() =~= Map::<R::V, Seq<Address>>::empty());
        }
        r
    } else if hi - lo == 1 {
        let mut r = CsvIndex::new();
        proof {
            assert(r.postings() =~= Map::<R::V, Seq<Address>>::empty());
        }
        let k = items[lo].0.key_clone();
        r.entry(k, items[lo].1);
        proof {
            let one = s.subrange(lo as int, hi as int);
            assert(one.len() == 1);
            assert(one.drop_last() =~= Seq::<(R::V, Address)>::empty());
            assert(s[lo as int] == (items@[lo as int].0@, items@[lo as int].1));
            assert(one.last() == s[lo as int]);
            assert(add_postings(Map::<R::V, Seq<Address>>::empty(), one.drop_last())
                == Map::<R::V, Seq<Address>>::empty());
        }
        r
    } else {
        let mid = lo + (hi - lo) / 2;
        let left = build_batch(items, lo, mid);
        let right = build_batch(items, mid, hi);
        proof {
            let a = s.subrange(lo as int, mid as int);
            let b = s.subrange(mid as int, hi as int);
            assert(a + b =~= s.subrange(lo as int, hi as int));
            lemma_add_postings_concat(Map::empty(), a, b);
            lemma_add_postings_merge(add_postings(Map::empty(), a), b);
        }
        CsvIndex::merge(left, right)
    }
}

/// The offset of partition `i` of a source of `size` bytes among `t`
/// workers.
pub open spec fn part_offset(size: int, t: int, i: int) -> int {
    i * (size / t)
}

/// The length of partition `i`: `size / t`, and the rest for the last one.
pub open spec fn part_len(size: int, t: int, i: int) -> int {
    if i == t - 1 {
        size - (t - 1) * (size / t)
    } else {
        size / t
    }
}

/// The partitions of a source of `file_size` bytes among `threads` workers:
/// worker `i` scans `file_size / threads` bytes from `i * (file_size /
/// threads)` on, and the last worker also takes the remainder.
pub fn partitions(file_size: u64, threads: u64) -> (r: Vec<(u64, u64)>)
    requires
        threads >= 1,
    ensures
        r@.len() == threads,
        forall|i: int|
            0 <= i < threads ==> #[trigger] r@[i] == (
                part_offset(file_size as int, threads as int, i) as u64,
                part_len(file_size as int, threads as int, i) as u64,
            ),
{
    let chunk_size = file_size / threads;
    let mut r: Vec<(u64, u64)> = Vec::new();
    let mut i: u64 = 0;
    while i < threads
        invariant
            0 <= i <= threads,
            chunk_size == file_size / threads,
            r@.len() == i,
            forall|j: int|
                0 <= j < i ==> #[trigger] r@[j] == (
                    part_offset(file_size as int, threads as int, j) as u64,
                    part_len(file_size as int, threads as int, j) as u64,
                ),
        decreases threads - i,
    {
        proof {
            assert(i * chunk_size <= threads * chunk_size) by (nonlinear_arith)
                requires i < threads;
            assert(threads * chunk_size <= file_size) by (nonlinear_arith)
                requires chunk_size == file_size / threads, threads >= 1;
        }
        let len = if i + 1 == threads { file_size - i * chunk_size } else { chunk_size };
        r.push((i * chunk_size, len));
        i = i + 1;
    }
    r
}

proof fn lemma_window_after(input: Seq<u8>, o: int)
    requires
        0 <= o < input.len(),
    ensures
        window_start(input, o) > o,
{
    lemma_first_newline_bounds(input, o);
}

/// The partitions share out the records: every line start of `input` after
/// the first line is accepted by exactly one of the `t` partitions, so no
/// record that the scanners yield is yielded twice, and none that starts a
/// line is left to no worker.
pub proof fn lemma_partition_windows(input: Seq<u8>, t: int, s: int)
    requires
        t >= 1,
        0 < s <= input.len(),
        line_start(input, s),
    ensures
        exists|i: int|
            0 <= i < t && #[trigger] accepts(
                input,
                part_offset(input.len() as int, t, i),
                part_len(input.len() as int, t, i),
                s,
            ),
        forall|i: int, j: int|
            0 <= i < t && 0 <= j < t && #[trigger] accepts(
                input,
                part_offset(input.len() as int, t, i),
                part_len(input.len() as int, t, i),
                s,
            ) && #[trigger] accepts(
                input,
                part_offset(input.len() as int, t, j),
                part_len(input.len() as int, t, j),
                s,
            ) ==> i == j,
{
    let size = input.len() as int;
    let c = size / t;
    assert(t * c <= size && c >= 0) by (nonlinear_arith)
        requires c == size / t, t >= 1, size >= 0;
    if c == 0 {
        assert forall|i: int| 0 <= i < t implies #[trigger] (i * c) == 0 by {
            assert(i * c == 0) by (nonlinear_arith)
                requires c == 0;
        }
        assert((t - 1) * c == 0);
        assert(accepts(input, part_offset(size, t, t - 1), part_len(size, t, t - 1), s));
        assert forall|i: int, j: int|
            0 <= i < t && 0 <= j < t && #[trigger] accepts(
                input,
                part_offset(size, t, i),
                part_len(size, t, i),
                s,
            ) && #[trigger] accepts(
                input,
                part_offset(size, t, j),
                part_len(size, t, j),
                s,
            ) implies i == j by {
            assert(i * c == 0);
            assert(j * c == 0);
        }
    } else {
        // an accepting partition starts before s and ends at or after it
        assert forall|i: int| 0 <= i < t && #[trigger] accepts(
            input,
            part_offset(size, t, i),
            part_len(size, t, i),
            s,
        ) implies part_offset(size, t, i) < s <= part_offset(size, t, i) + part_len(size, t, i) by {
            assert(i * c <= (t - 1) * c && (t - 1) * c < t * c) by (nonlinear_arith)
                requires i < t, c >= 1;
            if i * c > 0 {
                lemma_window_after(input, i * c);
            }
        }
        let q = (s - 1) / c;
        let i = if q < t - 1 { q } else { t - 1 };
        assert(i * c <= s - 1 && 0 <= i < t) by (nonlinear_arith)
            requires q == (s - 1) / c, c >= 1, s >= 1, i == if q < t - 1 { q } else { t - 1 }, t >= 1;
        if q < t - 1 {
            assert(s <= i * c + c) by (nonlinear_arith)
                requires q == (s - 1) / c, c >= 1, i == q;
        }
        if i * c > 0 {
            lemma_first_newline_min(input, i * c, s - 1);
            lemma_first_newline_bounds(input, i * c);
        }
        assert(accepts(input, part_offset(size, t, i), part_len(size, t, i), s));
        assert forall|i: int, j: int|
            0 <= i < t && 0 <= j < t && #[trigger] accepts(
                input,
                part_offset(size, t, i),
                part_len(size, t, i),
                s,
            ) && #[trigger] accepts(
                input,
                part_offset(size, t, j),
                part_len(size, t, j),
                s,
            ) implies i == j by {
            if i < j {
                assert((i + 1) * c <= j * c) by (nonlinear_arith)
                    requires i < j, c >= 1;
                assert(i * c + c == (i + 1) * c) by (nonlinear_arith);
            } else if j < i {
                assert((j + 1) * c <= i * c) by (nonlinear_arith)
                    requires j < i, c >= 1;
                assert(j * c + c == (j + 1) * c) by (nonlinear_arith);
            }
        }
    }
}

/// A staged record: its field and its address.
pub open spec fn staged_view(s: Seq<(Vec<u8>, Address)>) -> Seq<(Seq<u8>, Address)> {
    s.map_values(|e: (Vec<u8>, Address)| (e.0@, e.1))
}

/// Reads records of the scanner's partition into `staged`, in order, until
/// the scan ends (`Ok(true)`) or `staged` holds at least `window` pairs
/// (`Ok(false)`). On an error, the records read so far stay staged and the
/// scanner stands at the record that failed.
pub fn stage_records<'a>(
    reader: &mut CsvReader<'a>,
    staged: &mut Vec<(Vec<u8>, Address)>,
    window: usize,
) -> (r: Result<bool, IndexError>)
    requires
        old(reader).wf(),
        window >= 1,
    ensures
        final(reader).wf(),
        final(reader).spec_input() == old(reader).spec_input(),
        final(reader).spec_column() == old(reader).spec_column(),
        final(reader).spec_offset() == old(reader).spec_offset(),
        final(reader).spec_chunk_size() == old(reader).spec_chunk_size(),
        final(staged)@.len() >= old(staged)@.len(),
        final(staged)@.subrange(0, old(staged)@.len() as int) == old(staged)@,
        chained(
            old(reader).spec_input(),
            old(reader).spec_column(),
            old(reader).spec_offset() as int,
            old(reader).spec_chunk_size() as int,
            old(reader).cursor(),
            staged_view(final(staged)@.skip(old(staged)@.len() as int)),
            final(reader).cursor(),
        ),
        match r {
            Ok(true) => final(reader).finished() && (old(reader).finished() || scan_ends(
                old(reader).spec_input(),
                old(reader).spec_column(),
                old(reader).spec_offset() as int,
                old(reader).spec_chunk_size() as int,
                final(reader).cursor(),
            )),
            Ok(false) => final(staged)@.len() >= window && !final(reader).finished(),
            Err(e) => !final(reader).finished() && scan_error(
                old(reader).spec_input(),
                old(reader).spec_column(),
                old(reader).spec_offset() as int,
                old(reader).spec_chunk_size() as int,
                final(reader).cursor(),
            ) == Some(e),
        },
{
    let ghost start = *reader;
    let ghost base = staged@;
    proof {
        assert(staged_view(staged@.skip(base.len() as int)) =~= Seq::<(Seq<u8>, Address)>::empty());
        assert(staged@.subrange(0, base.len() as int) =~= base);
        reader.lemma_cursor_in_input();
    }
    loop
        invariant
            start == *old(reader),
            base == old(staged)@,
            reader.wf(),
            reader.spec_input() == start.spec_input(),
            reader.spec_column() == start.spec_column(),
            reader.spec_offset() == start.spec_offset(),
            reader.spec_chunk_size() == start.spec_chunk_size(),
            reader.cursor() >= start.cursor(),
            reader.finished() ==> start.finished(),
            reader.cursor() <= reader.spec_input().len(),
            staged@.len() >= base.len(),
            staged@.subrange(0, base.len() as int) == base,
            chained(
                start.spec_input(),
                start.spec_column(),
                start.spec_offset() as int,
                start.spec_chunk_size() as int,
                start.cursor(),
                staged_view(staged@.skip(base.len() as int)),
                reader.cursor(),
            ),
        decreases reader.spec_input().len() - reader.cursor(),
    {
        let ghost before = *reader;
        let ghost items = staged@;
        let res = reader.next();
        proof {
            assert(reader.spec_input() == start.spec_input());
            assert(reader.spec_column() == start.spec_column());
            assert(reader.spec_offset() == start.spec_offset());
            assert(reader.spec_chunk_size() == start.spec_chunk_size());
            reader.lemma_cursor_in_input();
        }
        match res {
            Ok(Some((a, f))) => {
                staged.push((f, a));
                proof {
                    let v = staged_view(staged@.skip(base.len() as int));
                    assert(v.drop_last() =~= staged_view(items.skip(base.len() as int)));
                    assert(staged@.subrange(0, base.len() as int) =~= items.subrange(0, base.len() as int));
                }
                if staged.len() >= window {
                    return Ok(false);
                }
            },
            Ok(None) => {
                return Ok(true);
            },
            Err(e) => {
                return Err(e);
            },
        }
    }
}

/// The staged fields of an integer index keyed by their decimal value.
fn int_keyed(staged: &Vec<(Vec<u8>, Address)>) -> (r: Vec<(i64, Address)>)
    ensures
        keyed_items::<i64>(r@) == int_items(staged@),
{
    let mut r: Vec<(i64, Address)> = Vec::with_capacity(staged.len());
    let mut i: usize = 0;
    while i < staged.len()
        invariant
            0 <= i <= staged@.len(),
            keyed_items::<i64>(r@) == int_items(staged@).take(i as int),
        decreases staged@.len() - i,
    {
        let k = match parse_i64(staged[i].0.as_slice()) {
            Some(v) => v,
            None => i64::MIN,
        };
        let ghost prev = r@;
        proof {
            assert(keyed_items::<i64>(prev).len() == prev.len());
            assert(int_items(staged@).take(i as int).len() == i);
            assert(prev.len() == i);
        }
        r.push((k, staged[i].1));
        proof {
            assert(keyed_items::<i64>(prev) == int_items(staged@).take(i as int));
            assert(keyed_items::<i64>(r@)[i as int] == (k, staged@[i as int].1));
            assert(int_items(staged@).take(i + 1)[i as int] == (int_key(staged@[i as int].0@), staged@[i as int].1));
            assert forall|j: int| 0 <= j < i + 1 implies #[trigger] keyed_items::<i64>(r@)[j]
                == int_items(staged@).take(i + 1)[j] by {
                if j < i {
                    assert(keyed_items::<i64>(prev)[j] == int_items(staged@).take(i as int)[j]);
                    assert(r@[j] == prev[j]);
                }
            }
        }
        i = i + 1;
        proof {
            assert(keyed_items::<i64>(r@) =~= int_items(staged@).take(i as int));
        }
    }
    proof {
        assert(int_items(staged@).take(staged@.len() as int) =~= int_items(staged@));
    }
    r
}

/// The staged parses of a float index keyed by their total-order key.
fn float_keyed(staged: &Vec<(Option<u64>, Address)>) -> (r: Vec<(u64, Address)>)
    ensures
        keyed_items::<u64>(r@) == float_items(staged@),
{
    let mut r: Vec<(u64, Address)> = Vec::with_capacity(staged.len());
    let mut i: usize = 0;
    while i < staged.len()
        invariant
            0 <= i <= staged@.len(),
            keyed_items::<u64>(r@) == float_items(staged@).take(i as int),
        decreases staged@.len() - i,
    {
        let k = match staged[i].0 {
            Some(b) => float_key(b),
            None => float_key(NEG_INFINITY_BITS),
        };
        let ghost prev = r@;
        proof {
            assert(keyed_items::<u64>(prev).len() == prev.len());
            assert(float_items(staged@).take(i as int).len() == i);
            assert(prev.len() == i);
        }
        r.push((k, staged[i].1));
        proof {
            assert(keyed_items::<u64>(prev) == float_items(staged@).take(i as int));
            assert(r@[i as int] == (k, staged@[i as int].1));
            assert(keyed_items::<u64>(r@).len() == r@.len());
            assert(keyed_items::<u64>(r@)[i as int] == (r@[i as int].0@, r@[i as int].1));
            assert(float_items(staged@).len() == staged@.len());
            assert(float_items(staged@)[i as int] == (float_field_key(staged@[i as int].0), staged@[i as int].1));
            assert(k == float_field_key(staged@[i as int].0));
            assert forall|j: int| 0 <= j < i + 1 implies #[trigger] keyed_items::<u64>(r@)[j]
                == float_items(staged@).take(i + 1)[j] by {
                if j < i {
                    assert(keyed_items::<u64>(prev)[j] == float_items(staged@).take(i as int)[j]);
                    assert(r@[j] == prev[j]);
                }
            }
        }
        i = i + 1;
        proof {
            assert(keyed_items::<u64>(r@) =~= float_items(staged@).take(i as int));
        }
    }
    proof {
        assert(float_items(staged@).take(staged@.len() as int) =~= float_items(staged@));
    }
    r
}

/// The index of the staged fields, of the kind of `like` (byte strings or
/// integers), filed in staging order: built before the shared index is
/// locked, so that no key is decoded under the lock.
pub fn batch_of(like: &CsvIndexType, staged: &Vec<(Vec<u8>, Address)>) -> (r: CsvIndexType)
    requires
        !(*like is F64),
    ensures
        r.wf(),
        match (*like, r) {
            (CsvIndexType::STR(_), CsvIndexType::STR(b)) => b.postings() == add_postings(
                Map::empty(),
                str_items(staged@),
            ),
            (CsvIndexType::I64(_), CsvIndexType::I64(b)) => b.postings() == add_postings(
                Map::empty(),
                int_items(staged@),
            ),
            _ => false,
        },
{
    let n = staged.len();
    match like {
        CsvIndexType::I64(_) => {
            let keyed = int_keyed(staged);
            proof {
                assert(keyed_items::<i64>(keyed@).len() == keyed@.len());
            }
            let b = build_batch(&keyed, 0, n);
            proof {
                assert(keyed_items::<i64>(keyed@).subrange(0, n as int) =~= int_items(staged@));
            }
            CsvIndexType::I64(b)
        },
        _ => {
            let b = build_batch(staged, 0, n);
            proof {
                assert(keyed_items::<Vec<u8>>(staged@).subrange(0, n as int) =~= str_items(staged@));
            }
            CsvIndexType::STR(b)
        },
    }
}

/// The float index of the staged parses, filed in staging order, built
/// before the shared index is locked.
pub fn float_batch_of(staged: &Vec<(Option<u64>, Address)>) -> (r: CsvIndexType)
    ensures
        r.wf(),
        match r {
            CsvIndexType::F64(b) => b.postings() == add_postings(
                Map::empty(),
                float_items(staged@),
            ),
            _ => false,
        },
{
    let n = staged.len();
    let keyed = float_keyed(staged);
    proof {
        assert(keyed_items::<u64>(keyed@).len() == keyed@.len());
    }
    let b = build_batch(&keyed, 0, n);
    proof {
        assert(keyed_items::<u64>(keyed@).subrange(0, n as int) =~= float_items(staged@));
    }
    CsvIndexType::F64(b)
}

/// Files every staged pair of a byte-string or integer index, in staging
/// order, and empties the stage. The pairs are gathered into an index of
/// their own first, which is then merged in: `O(n log n + m)` for `n`
/// staged pairs and `m` keys.
pub fn drain_into(index: &mut CsvIndexType, staged: &mut Vec<(Vec<u8>, Address)>)
    requires
        old(index).wf(),
        !(*old(index) is F64),
    ensures
        final(index).wf(),
        final(staged)@.len() == 0,
        match (*old(index), *final(index)) {
            (CsvIndexType::STR(a), CsvIndexType::STR(b)) => b.postings() == add_postings(
                a.postings(),
                str_items(old(staged)@),
            ),
            (CsvIndexType::I64(a), CsvIndexType::I64(b)) => b.postings() == add_postings(
                a.postings(),
                int_items(old(staged)@),
            ),
            _ => false,
        },
{
    let ghost before = *index;
    let batch = batch_of(index, staged);
    index.absorb(batch);
    proof {
        match before {
            CsvIndexType::STR(a) => lemma_add_postings_merge(a.postings(), str_items(staged@)),
            CsvIndexType::I64(a) => lemma_add_postings_merge(a.postings(), int_items(staged@)),
            _ => {},
        }
    }
    staged.clear();
}

/// Files every staged float parse of a float index, in staging order, and
/// empties the stage, gathering and merging as `drain_into` does.
pub fn drain_floats_into(index: &mut CsvIndexType, staged: &mut Vec<(Option<u64>, Address)>)
    requires
        old(index).wf(),
        *old(index) is F64,
    ensures
        final(index).wf(),
        final(staged)@.len() == 0,
        match (*old(index), *final(index)) {
            (CsvIndexType::F64(a), CsvIndexType::F64(b)) => b.postings() == add_postings(
                a.postings(),
                float_items(old(staged)@),
            ),
            _ => false,
        },
{
    let ghost before = *index;
    let batch = float_batch_of(staged);
    index.absorb(batch);
    proof {
        match before {
            CsvIndexType::F64(a) => lemma_add_postings_merge(a.postings(), float_items(staged@)),
            _ => {},
        }
    }
    staged.clear();
}

} // verus!

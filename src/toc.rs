//! The table of contents of an index file and the layout of the file:
//! `[8-byte big-endian TOC length][TOC][chunk 0][chunk 1]...`, where the TOC
//! length counts the prefix and the TOC, and each TOC entry holds the first
//! key of a chunk and the chunk's byte range in the file.

use vstd::prelude::*;
use vstd::seq_lib::lemma_flatten_concat;

use crate::address::Address;
use crate::bits::{be_bytes, be_value, u64_to_u8s, u8s_to_u64};
use crate::compress::{gunzip, gunzip_of, gzip, gzip_of};
use crate::error::IndexError;
use crate::key::IndexKey;
use crate::range::{in_range, lemma_common_key_overlaps, overlap_spec, ranges_overlap, Bound, Range};
use crate::sorted_map::{ascending, SortedMap};

verus! {

/// A table of contents: the first key of each chunk, with the chunk's
/// byte range in the index file, in chunk order.
pub struct Toc<R> {
    addr: Vec<(R, Address)>,
}

impl<R: IndexKey> View for Toc<R> {
    type V = Seq<(R::V, Address)>;

    closed spec fn view(&self) -> Seq<(R::V, Address)> {
        self.addr@.map_values(|e: (R, Address)| (e.0@, e.1))
    }
}

/// The range of keys that chunk `i` of a table of contents covers: from its
/// first key, included, to the first key of the next chunk, excluded; the
/// last chunk has no upper end.
pub open spec fn chunk_range<R: IndexKey>(toc: Seq<(R::V, Address)>, i: int) -> (
    Bound<R::V>,
    Bound<R::V>,
) {
    (
        Bound::Included(toc[i].0),
        if i + 1 < toc.len() {
            Bound::Excluded(toc[i + 1].0)
        } else {
            Bound::Unbounded
        },
    )
}

/// The addresses of the chunks whose key range overlaps `q`, in chunk order.
pub open spec fn chunks_overlapping<R: IndexKey>(
    toc: Seq<(R::V, Address)>,
    q: (Bound<R::V>, Bound<R::V>),
) -> Seq<Address> {
    chunks_overlapping_upto::<R>(toc, q, toc.len() as int)
}

/// The addresses of the chunks before `n` whose key range overlaps `q`.
pub open spec fn chunks_overlapping_upto<R: IndexKey>(
    toc: Seq<(R::V, Address)>,
    q: (Bound<R::V>, Bound<R::V>),
    n: int,
) -> Seq<Address>
    decreases n,
{
    if n <= 0 {
        Seq::empty()
    } else {
        chunks_overlapping_upto::<R>(toc, q, n - 1) + if overlap_spec::<R>(
            q,
            chunk_range::<R>(toc, n - 1),
        ) {
            seq![toc[n - 1].1]
        } else {
            Seq::empty()
        }
    }
}

/// The views of a list of (chunk range, address) pairs.
pub open spec fn bounds_view<R: IndexKey>(b: Seq<(Address, Range<R>)>) -> Seq<
    (Address, (Bound<R::V>, Bound<R::V>)),
> {
    b.map_values(|e: (Address, Range<R>)| (e.0, (e.1.0@, e.1.1@)))
}

/// The gzip streams of the payloads of `chunks`, in order (empty for a
/// payload the encoder fails on).
pub open spec fn gz_payloads<R>(chunks: Seq<(R, Vec<u8>)>) -> Seq<Seq<u8>> {
    chunks.map_values(
        |c: (R, Vec<u8>)|
            match gzip_of(c.1@) {
                Some(v) => v,
                None => Seq::empty(),
            },
    )
}

/// The gzip encoder succeeds on every payload of `chunks`.
pub open spec fn all_compress<R>(chunks: Seq<(R, Vec<u8>)>) -> bool {
    forall|i: int| 0 <= i < chunks.len() ==> #[trigger] gzip_of(chunks[i].1@) is Some
}

/// The TOC entries of `chunks` laid out one after another from `offset` on:
/// each chunk's key with the byte range of its gzip stream.
pub open spec fn placed_entries<R: IndexKey>(chunks: Seq<(R, Vec<u8>)>, offset: int) -> Seq<
    (R::V, Address),
> {
    Seq::new(
        chunks.len(),
        |i: int|
            (
                chunks[i].0@,
                Address {
                    offset: (offset + gz_payloads(chunks).take(i).flatten().len()) as u64,
                    length: gz_payloads(chunks)[i].len() as u64,
                },
            ),
    )
}

/// The number of chunks an index of `uniques` distinct keys is split into.
pub open spec fn num_chunks_spec(uniques: int) -> int {
    2 + uniques / 50000
}

/// The number of chunks an index of `uniques` distinct keys is split into:
/// two, plus one for every 50,000 keys.
pub fn num_chunks(uniques: usize) -> (r: usize)
    ensures
        r == num_chunks_spec(uniques as int),
{
    2 + uniques / 50000
}

/// The file image `[prefix][toc][body]`, where the prefix is `toc_len` in
/// eight big-endian bytes; refused when `toc` does not take exactly the
/// `toc_len - 8` bytes that the phantom TOC took.
pub fn assemble_index(toc_len: u64, toc: &Vec<u8>, body: &Vec<u8>) -> (r: Result<
    Vec<u8>,
    IndexError,
>)
    ensures
        match r {
            Ok(out) => toc@.len() + 8 == toc_len && out@ == be_bytes(toc_len) + toc@ + body@,
            Err(e) => toc@.len() + 8 != toc_len && e == IndexError::TocSizeChanged,
        },
{
    if toc_len < 8 || toc.len() as u64 != toc_len - 8 {
        return Err(IndexError::TocSizeChanged);
    }
    let prefix = u64_to_u8s(toc_len);
    let mut out: Vec<u8> = Vec::new();
    let mut i: usize = 0;
    while i < 8
        invariant
            0 <= i <= 8,
            prefix@ == be_bytes(toc_len),
            out@ == prefix@.take(i as int),
        decreases 8 - i,
    {
        out.push(prefix[i]);
        i = i + 1;
        proof {
            assert(out@ =~= prefix@.take(i as int));
        }
    }
    proof {
        assert(prefix@.take(8) =~= prefix@);
    }
    append_bytes(&mut out, toc);
    append_bytes(&mut out, body);
    Ok(out)
}

/// Appends a copy of `src` to `dst`.
fn append_bytes(dst: &mut Vec<u8>, src: &Vec<u8>)
    ensures
        final(dst)@ == old(dst)@ + src@,
{
    let ghost start = dst@;
    let mut i: usize = 0;
    while i < src.len()
        invariant
            0 <= i <= src@.len(),
            dst@ == start + src@.take(i as int),
        decreases src@.len() - i,
    {
        dst.push(src[i]);
        i = i + 1;
        proof {
            assert(dst@ =~= start + src@.take(i as int));
        }
    }
    proof {
        assert(src@.take(src@.len() as int) =~= src@);
    }
}

/// The TOC length that an index file's first eight bytes give, when it is
/// plausible: at least the eight bytes of the prefix and at most the length
/// of the file.
pub fn read_toc_len(prefix: [u8; 8], file_len: u64) -> (r: Result<u64, IndexError>)
    ensures
        match r {
            Ok(v) => v == be_value(prefix@) && 8 <= v <= file_len,
            Err(e) => !(8 <= be_value(prefix@) <= file_len) && e
                == IndexError::TocLengthImplausible,
        },
{
    let v = u8s_to_u64(prefix);
    if v < 8 || v > file_len {
        Err(IndexError::TocLengthImplausible)
    } else {
        Ok(v)
    }
}

/// The serialized sub-map that a chunk's gzip stream holds: the chunk that
/// `write_maps` compressed comes back as it was given.
pub fn read_chunk(data: &Vec<u8>) -> (r: Result<Vec<u8>, IndexError>)
    ensures
        match r {
            Ok(v) => gunzip_of(data@) == Some(v@),
            Err(e) => gunzip_of(data@) is None && e == IndexError::Decompression,
        },
        forall|x: Seq<u8>| #[trigger] gzip_of(x) == Some(data@) ==> (r matches Ok(v) && v@ == x),
{
    match gunzip(data.as_slice()) {
        Some(v) => Ok(v),
        None => Err(IndexError::Decompression),
    }
}

/// In the file `prefix + toc + body` laid out by `assemble_index` and
/// `Toc::write_maps`, the bytes at the address of chunk `i` are exactly that
/// chunk's gzip stream.
pub proof fn lemma_chunk_located<R: IndexKey>(chunks: Seq<(R, Vec<u8>)>, toc: Seq<u8>, i: int)
    requires
        0 <= i < chunks.len(),
        toc.len() + 8 + gz_payloads(chunks).flatten().len() <= u64::MAX,
    ensures
        ({
            let file = be_bytes((toc.len() + 8) as u64) + toc + gz_payloads(chunks).flatten();
            let a = placed_entries::<R>(chunks, toc.len() + 8int)[i].1;
            &&& a.offset + a.length <= file.len()
            &&& file.subrange(a.offset as int, a.offset + a.length) == gz_payloads(chunks)[i]
        }),
{
    let g = gz_payloads(chunks);
    let p = g.take(i).flatten();
    assert(g.take(i + 1) =~= g.take(i).push(g[i]));
    g.take(i).lemma_flatten_push(g[i]);
    assert(g =~= g.take(i + 1) + g.skip(i + 1));
    lemma_flatten_concat(g.take(i + 1), g.skip(i + 1));
    let body = g.flatten();
    assert(body == p + g[i] + g.skip(i + 1).flatten());
    let file = be_bytes((toc.len() + 8) as u64) + toc + body;
    let off: int = toc.len() + 8int + p.len();
    assert(file.subrange(off, off + g[i].len() as int) =~= g[i]);
}

/// The addresses of the entries of a table, in order.
pub open spec fn toc_addresses<KV>(toc: Seq<(KV, Address)>) -> Seq<Address> {
    toc.map_values(|e: (KV, Address)| e.1)
}

/// A query with no bounds, which every key satisfies, selects every chunk of
/// a table whose first keys ascend, in order.
pub proof fn lemma_find_all<R: IndexKey>(toc: Seq<(R::V, Address)>)
    requires
        ascending::<R, Address>(toc),
    ensures
        chunks_overlapping::<R>(toc, (Bound::Unbounded, Bound::Unbounded)) == toc_addresses(toc),
{
    lemma_find_all_upto::<R>(toc, toc.len() as int);
    assert(toc_addresses(toc).take(toc.len() as int) =~= toc_addresses(toc));
}

proof fn lemma_find_all_upto<R: IndexKey>(toc: Seq<(R::V, Address)>, n: int)
    requires
        ascending::<R, Address>(toc),
        0 <= n <= toc.len(),
    ensures
        chunks_overlapping_upto::<R>(toc, (Bound::Unbounded, Bound::Unbounded), n)
            == toc_addresses(toc).take(n),
    decreases n,
{
    if n == 0 {
        assert(toc_addresses(toc).take(0) =~= Seq::<Address>::empty());
    } else {
        lemma_find_all_upto::<R>(toc, n - 1);
        let q = (Bound::<R::V>::Unbounded, Bound::<R::V>::Unbounded);
        assert(overlap_spec::<R>(q, chunk_range::<R>(toc, n - 1)));
        assert(toc_addresses(toc).take(n) =~= toc_addresses(toc).take(n - 1).push(toc[n - 1].1));
    }
}

/// A chunk whose key range holds a key that the query selects is among the
/// chunks that the query reads.
pub proof fn lemma_find_keeps_matching_chunk<R: IndexKey>(
    toc: Seq<(R::V, Address)>,
    q: (Bound<R::V>, Bound<R::V>),
    i: int,
    k: R::V,
)
    requires
        0 <= i < toc.len(),
        in_range::<R>(chunk_range::<R>(toc, i), k),
        in_range::<R>(q, k),
    ensures
        chunks_overlapping::<R>(toc, q).contains(toc[i].1),
{
    lemma_common_key_overlaps::<R>(q, chunk_range::<R>(toc, i), k);
    lemma_upto_keeps::<R>(toc, q, i, toc.len() as int);
}

proof fn lemma_upto_keeps<R: IndexKey>(
    toc: Seq<(R::V, Address)>,
    q: (Bound<R::V>, Bound<R::V>),
    i: int,
    n: int,
)
    requires
        0 <= i < n <= toc.len(),
        overlap_spec::<R>(q, chunk_range::<R>(toc, i)),
    ensures
        chunks_overlapping_upto::<R>(toc, q, n).contains(toc[i].1),
    decreases n,
{
    let prev = chunks_overlapping_upto::<R>(toc, q, n - 1);
    if i == n - 1 {
        let cur = chunks_overlapping_upto::<R>(toc, q, n);
        assert(cur == prev + seq![toc[i].1]);
        assert(cur[prev.len() as int] == toc[i].1);
    } else {
        lemma_upto_keeps::<R>(toc, q, i, n - 1);
        let j = choose|j: int| 0 <= j < prev.len() && prev[j] == toc[i].1;
        let cur = chunks_overlapping_upto::<R>(toc, q, n);
        assert(cur[j] == prev[j]);
    }
}

proof fn lemma_flatten_at<A>(c: Seq<Seq<A>>, i: int, j: int)
    requires
        0 <= i < c.len(),
        0 <= j < c[i].len(),
    ensures
        c.take(i).flatten().len() + j < c.flatten().len(),
        c.flatten()[c.take(i).flatten().len() + j] == c[i][j],
        c.take(i + 1).flatten().len() == c.take(i).flatten().len() + c[i].len(),
        c.take(i + 1).flatten().len() <= c.flatten().len(),
{
    assert(c.take(i + 1) =~= c.take(i).push(c[i]));
    c.take(i).lemma_flatten_push(c[i]);
    assert(c =~= c.take(i + 1) + c.skip(i + 1));
    lemma_flatten_concat(c.take(i + 1), c.skip(i + 1));
}

/// Each key of chunk `i` of a chunking of a map whose keys ascend lies in the
/// key range that a table of the chunks' first keys gives chunk `i`: a query
/// that selects the key therefore reads that chunk.
pub proof fn lemma_chunk_keys_in_range<K: IndexKey, V>(
    chunks: Seq<Seq<(K::V, V)>>,
    toc: Seq<(K::V, Address)>,
    i: int,
    j: int,
)
    requires
        ascending::<K, V>(chunks.flatten()),
        toc.len() == chunks.len(),
        forall|c: int| 0 <= c < chunks.len() ==> (#[trigger] chunks[c]).len() > 0,
        forall|c: int| 0 <= c < chunks.len() ==> #[trigger] toc[c].0 == chunks[c][0].0,
        0 <= i < chunks.len(),
        0 <= j < chunks[i].len(),
    ensures
        in_range::<K>(chunk_range::<K>(toc, i), chunks[i][j].0),
{
    let f = chunks.flatten();
    let off = chunks.take(i).flatten().len() as int;
    lemma_flatten_at(chunks, i, j);
    lemma_flatten_at(chunks, i, 0);
    if j > 0 {
        assert(K::lt_spec(f[off + 0].0, f[off + j].0));
    }
    if i + 1 < chunks.len() {
        lemma_flatten_at(chunks, i + 1, 0);
        assert(chunks.take(i + 1).flatten().len() + 0 == off + chunks[i].len());
        assert(K::lt_spec(f[off + j].0, f[off + chunks[i].len() as int].0));
    }
}

/// Filter coverage: an entry of a chunked map whose key the query selects
/// sits in a chunk whose address is among those that the query reads.
pub proof fn lemma_query_reads_matching_entry<K: IndexKey, V>(
    chunks: Seq<Seq<(K::V, V)>>,
    toc: Seq<(K::V, Address)>,
    q: (Bound<K::V>, Bound<K::V>),
    i: int,
    j: int,
)
    requires
        ascending::<K, V>(chunks.flatten()),
        toc.len() == chunks.len(),
        forall|c: int| 0 <= c < chunks.len() ==> (#[trigger] chunks[c]).len() > 0,
        forall|c: int| 0 <= c < chunks.len() ==> #[trigger] toc[c].0 == chunks[c][0].0,
        0 <= i < chunks.len(),
        0 <= j < chunks[i].len(),
        in_range::<K>(q, chunks[i][j].0),
    ensures
        chunks_overlapping::<K>(toc, q).contains(toc[i].1),
{
    lemma_chunk_keys_in_range::<K, V>(chunks, toc, i, j);
    lemma_find_keeps_matching_chunk::<K>(toc, q, i, chunks[i][j].0);
}

/// Index round trip at the chunk level: in the file laid out by
/// `write_maps` and `assemble_index`, the bytes at the address of chunk `i`
/// are the gzip stream of its payload, which `read_chunk` turns back into
/// that very payload.
pub proof fn lemma_chunk_round_trip<R: IndexKey>(chunks: Seq<(R, Vec<u8>)>, toc: Seq<u8>, i: int)
    requires
        0 <= i < chunks.len(),
        all_compress(chunks),
        toc.len() + 8 + gz_payloads(chunks).flatten().len() <= u64::MAX,
    ensures
        ({
            let file = be_bytes((toc.len() + 8) as u64) + toc + gz_payloads(chunks).flatten();
            let a = placed_entries::<R>(chunks, toc.len() + 8int)[i].1;
            gzip_of(chunks[i].1@) == Some(file.subrange(a.offset as int, a.offset + a.length))
        }),
{
    lemma_chunk_located::<R>(chunks, toc, i);
    assert(gzip_of(chunks[i].1@) is Some);
}

impl<R: IndexKey> Toc<R> {
    /// The first keys are strictly ascending.
    pub open spec fn wf(&self) -> bool {
        ascending::<R, Address>(self@)
    }

    /// An empty table with room for `num_chapters` entries.
    pub fn new(num_chapters: usize) -> (r: Self)
        ensures
            r@ == Seq::<(R::V, Address)>::empty(),
    {
        let r = Toc { addr: Vec::with_capacity(num_chapters) };
        proof {
            assert(r@ =~= Seq::<(R::V, Address)>::empty());
        }
        r
    }

    /// Appends an entry.
    pub fn push(&mut self, value: (R, Address))
        ensures
            final(self)@ == old(self)@.push((value.0@, value.1)),
    {
        let ghost before = self@;
        let ghost v = (value.0@, value.1);
        self.addr.push(value);
        proof {
            assert(self@ =~= before.push(v));
        }
    }

    /// The number of entries.
    pub fn len(&self) -> (r: usize)
        ensures
            r == self@.len(),
    {
        self.addr.len()
    }

    /// Entry `i`: a first key and a chunk address.
    pub fn entry_at(&self, i: usize) -> (r: (&R, Address))
        requires
            i < self@.len(),
        ensures
            r.0@ == self@[i as int].0,
            r.1 == self@[i as int].1,
    {
        (&self.addr[i].0, self.addr[i].1)
    }

    /// Each chunk's address with the range of keys it covers.
    pub fn bounds(&self) -> (r: Vec<(Address, Range<R>)>)
        ensures
            r@.len() == self@.len(),
            forall|i: int|
                0 <= i < self@.len() ==> #[trigger] bounds_view::<R>(r@)[i] == (
                    self@[i].1,
                    chunk_range::<R>(self@, i),
                ),
    {
        let n = self.addr.len();
        let mut bounds: Vec<(Address, Range<R>)> = Vec::new();
        let mut i: usize = 0;
        while i < n
            invariant
                n == self@.len(),
                0 <= i <= n,
                bounds@.len() == i,
                forall|j: int|
                    0 <= j < i ==> #[trigger] bounds_view::<R>(bounds@)[j] == (
                        self@[j].1,
                        chunk_range::<R>(self@, j),
                    ),
            decreases n - i,
        {
            let lower = Bound::Included(self.addr[i].0.key_clone());
            let upper = if i + 1 < n {
                Bound::Excluded(self.addr[i + 1].0.key_clone())
            } else {
                Bound::Unbounded
            };
            let ghost before = bounds@;
            bounds.push((self.addr[i].1, (lower, upper)));
            proof {
                assert(self@[i as int] == (self.addr@[i as int].0@, self.addr@[i as int].1));
                if i + 1 < n {
                    assert(self@[i + 1] == (self.addr@[i + 1].0@, self.addr@[i + 1].1));
                }
                assert(bounds_view::<R>(bounds@)[i as int] == (
                    self@[i as int].1,
                    chunk_range::<R>(self@, i as int),
                ));
                assert forall|j: int| 0 <= j < i + 1 implies #[trigger] bounds_view::<R>(
                    bounds@,
                )[j] == (self@[j].1, chunk_range::<R>(self@, j)) by {
                    if j < i {
                        assert(bounds@[j] == before[j]);
                        assert(bounds_view::<R>(before)[j] == (self@[j].1, chunk_range::<R>(self@, j)));
                    }
                }
            }
            i = i + 1;
        }
        bounds
    }

    /// The addresses of the chunks whose key range overlaps `bounds`, in
    /// chunk order.
    pub fn find(self, bounds: &Range<R>) -> (r: Vec<Address>)
        ensures
            r@ == chunks_overlapping::<R>(self@, (bounds.0@, bounds.1@)),
    {
        let toc_bounds = self.bounds();
        let ghost q = (bounds.0@, bounds.1@);
        let n = toc_bounds.len();
        let mut out: Vec<Address> = Vec::new();
        let mut i: usize = 0;
        while i < n
            invariant
                n == self@.len(),
                toc_bounds@.len() == n,
                forall|j: int|
                    0 <= j < n ==> #[trigger] bounds_view::<R>(toc_bounds@)[j] == (
                        self@[j].1,
                        chunk_range::<R>(self@, j),
                    ),
                q == (bounds.0@, bounds.1@),
                0 <= i <= n,
                out@ == chunks_overlapping_upto::<R>(self@, q, i as int),
            decreases n - i,
        {
            let entry = &toc_bounds[i];
            proof {
                assert(bounds_view::<R>(toc_bounds@)[i as int] == (
                    self@[i as int].1,
                    chunk_range::<R>(self@, i as int),
                ));
            }
            if ranges_overlap(bounds, &entry.1) {
                out.push(entry.0);
            }
            i = i + 1;
        }
        out
    }

    /// Compresses the payload of each chunk, appends its entry (its key and
    /// the byte range of its gzip stream, the streams laid out one after
    /// another from `offset` on) and returns the streams, concatenated.
    pub fn write_maps(&mut self, chunks: &Vec<(R, Vec<u8>)>, offset: u64) -> (r: Result<
        Vec<u8>,
        IndexError,
    >)
        ensures
            match r {
                Ok(body) => {
                    &&& all_compress(chunks@)
                    &&& final(self)@ == old(self)@ + placed_entries::<R>(chunks@, offset as int)
                    &&& body@ == gz_payloads(chunks@).flatten()
                    &&& offset + body@.len() <= u64::MAX
                },
                Err(e) => (e == IndexError::Compression && !all_compress(chunks@)) || (e
                    == IndexError::TooLarge && offset + gz_payloads(chunks@).flatten().len()
                    > u64::MAX),
            },
    {
        let ghost start = self@;
        let ghost g = gz_payloads(chunks@);
        let ghost placed = placed_entries::<R>(chunks@, offset as int);
        let mut body: Vec<u8> = Vec::new();
        let mut pos: u64 = offset;
        let mut i: usize = 0;
        proof {
            assert(g.take(0) =~= Seq::<Seq<u8>>::empty());
            assert(self@ =~= start + placed.take(0));
        }
        while i < chunks.len()
            invariant
                0 <= i <= chunks@.len(),
                g == gz_payloads(chunks@),
                placed == placed_entries::<R>(chunks@, offset as int),
                body@ == g.take(i as int).flatten(),
                forall|j: int| 0 <= j < i ==> #[trigger] gzip_of(chunks@[j].1@) is Some,
                pos == offset + body@.len(),
                self@ == start + placed.take(i as int),
            decreases chunks@.len() - i,
        {
            let gz = match gzip(chunks[i].1.as_slice()) {
                Some(v) => v,
                None => {
                    proof {
                        assert(gzip_of(chunks@[i as int].1@) is None);
                    }
                    return Err(IndexError::Compression);
                },
            };
            let ghost gzv = gz@;
            let len = gz.len() as u64;
            if len > u64::MAX - pos {
                proof {
                    assert(g[i as int] == gzv);
                    lemma_flatten_at(g, i as int, 0);
                    assert(g.take(i + 1) =~= g.take(i as int).push(g[i as int]));
                    g.take(i as int).lemma_flatten_push(g[i as int]);
                }
                return Err(IndexError::TooLarge);
            }
            let key = chunks[i].0.key_clone();
            self.push((key, Address { offset: pos, length: len }));
            let ghost before = body@;
            let mut gz = gz;
            body.append(&mut gz);
            proof {
                assert(g[i as int] == gzv);
                assert(g.take(i + 1) =~= g.take(i as int).push(g[i as int]));
                g.take(i as int).lemma_flatten_push(g[i as int]);
                assert(placed[i as int] == (chunks@[i as int].0@, Address { offset: pos, length: len }));
                assert(self@ =~= start + placed.take(i + 1));
            }
            pos = pos + len;
            i = i + 1;
        }
        proof {
            assert(g.take(chunks@.len() as int) =~= g);
            assert(placed.take(chunks@.len() as int) =~= placed);
        }
        Ok(body)
    }

    /// Appends, for each chunk of `chunked_map`, its first key with an empty
    /// address: the phantom table whose encoded size the real one will have.
    pub fn build_empty<V>(&mut self, chunked_map: &Vec<(R, SortedMap<R, V>)>)
        ensures
            final(self)@.len() == old(self)@.len() + chunked_map@.len(),
            forall|i: int| 0 <= i < old(self)@.len() ==> #[trigger] final(self)@[i] == old(self)@[i],
            forall|i: int|
                0 <= i < chunked_map@.len() ==> #[trigger] final(self)@[old(self)@.len() + i] == (
                    chunked_map@[i].0@,
                    Address { offset: 0, length: 0 },
                ),
    {
        let ghost start = self@;
        let mut i: usize = 0;
        while i < chunked_map.len()
            invariant
                0 <= i <= chunked_map@.len(),
                self@.len() == start.len() + i,
                forall|j: int| 0 <= j < start.len() ==> #[trigger] self@[j] == start[j],
                forall|j: int|
                    0 <= j < i ==> #[trigger] self@[start.len() + j] == (
                        chunked_map@[j].0@,
                        Address { offset: 0, length: 0 },
                    ),
            decreases chunked_map@.len() - i,
        {
            let key = chunked_map[i].0.key_clone();
            self.push((key, Address { offset: 0, length: 0 }));
            i = i + 1;
        }
    }
}

/// A table of contents of one of the three key types.
#[allow(non_camel_case_types)]
pub enum TypedToc {
    STR(Toc<Vec<u8>>),
    I64(Toc<i64>),
    F64(Toc<u64>),
}

} // verus!

//! A scanner over one partition of a delimited-text source: it realigns to a
//! record boundary and yields, for each record that starts in the partition,
//! its address and the bytes of one field.

use vstd::prelude::*;

use crate::address::Address;
use crate::error::IndexError;
use crate::text::bytes_to_vec;

verus! {

/// What the csv reader (no header row) makes of the start of `data`: `None`
/// when it fails; else whether it found a record, the number of bytes the
/// record takes up (its line terminator included), and the record's field
/// `column`, if it has one.
pub uninterp spec fn csv_first_record(data: Seq<u8>, column: usize) -> Option<
    (bool, u64, Option<Seq<u8>>),
>;

/// csv's `Error`, which `read_first_record` hands back as it is.
#[verifier::external_type_specification]
#[verifier::external_body]
pub struct ExCsvError(csv::Error);

/// Relies on csv's `ReaderBuilder::has_headers(false)`,
/// `Reader::read_byte_record`, `Reader::position` and `ByteRecord::get`:
/// reads one record from the start of `data`; the outcome, failure included,
/// depends on the bytes and the column alone.
#[verifier::external_body]
fn read_first_record(data: &[u8], column: usize) -> (r: Result<
    (bool, u64, Option<Vec<u8>>),
    csv::Error,
>)
    ensures
        match r {
            Ok((more, n, f)) => csv_first_record(data@, column) == Some(
                (
                    more,
                    n,
                    match f {
                        Some(v) => Some(v@),
                        None => None::<Seq<u8>>,
                    },
                ),
            ),
            Err(_) => csv_first_record(data@, column) is None,
        },
{
    let mut rdr = csv::ReaderBuilder::new().has_headers(false).from_reader(data);
    let mut record = csv::ByteRecord::new();
    let more = rdr.read_byte_record(&mut record)?;
    Ok((more, rdr.position().byte(), record.get(column).map(<[u8]>::to_vec)))
}

/// The first position at or after `o` that holds a newline, or the length of
/// `s` when there is none.
pub open spec fn first_newline_from(s: Seq<u8>, o: int) -> int
    decreases s.len() - o,
{
    if o >= s.len() {
        s.len() as int
    } else if s[o] == 10 {
        o
    } else {
        first_newline_from(s, o + 1)
    }
}

/// Where records start being read in a partition that begins at `o > 0`:
/// just past the first newline at or after `o`, or at the end of `s`.
pub open spec fn window_start(s: Seq<u8>, o: int) -> int {
    let nl = first_newline_from(s, o);
    if nl < s.len() {
        nl + 1
    } else {
        s.len() as int
    }
}

/// Where records start being read in the partition that begins at `o`: past
/// the header row when `o` is 0, else past the first newline at or after `o`.
pub open spec fn scan_start(s: Seq<u8>, o: int, column: usize) -> int {
    if o == 0 {
        match csv_first_record(s, column) {
            Some((true, n, _)) => n as int,
            _ => 0,
        }
    } else {
        window_start(s, o)
    }
}

/// The header row of `s` cannot be skipped: the csv reader fails on it, or
/// reports a record longer than `s`.
pub open spec fn header_fails(s: Seq<u8>, column: usize) -> bool {
    match csv_first_record(s, column) {
        None => true,
        Some((true, n, _)) => n > s.len(),
        Some((false, _, _)) => false,
    }
}

/// The partition `(o, l)` of `input` accepts a record that starts at `s`:
/// past the realignment point (any start, at offset 0) and no more than `l`
/// bytes past `o`.
pub open spec fn accepts(input: Seq<u8>, o: int, l: int, s: int) -> bool {
    (o == 0 || window_start(input, o) <= s) && s - o <= l
}

/// The scan of partition `(o, l)` yields, at `s`, a record of `n` bytes whose
/// field is `f`.
pub open spec fn yields(input: Seq<u8>, column: usize, o: int, l: int, s: int, n: u64, f: Seq<u8>) -> bool {
    &&& s - o <= l
    &&& csv_first_record(input.skip(s), column) == Some((true, n, Some(f)))
    &&& 0 < n
    &&& s + n <= input.len()
}

/// The scan of partition `(o, l)` ends at `s`: `s` lies more than `l` bytes
/// past `o`, or the csv reader finds no record there.
pub open spec fn scan_ends(input: Seq<u8>, column: usize, o: int, l: int, s: int) -> bool {
    s - o > l || csv_first_record(input.skip(s), column) matches Some((false, _, _))
}

/// The error that the scan of partition `(o, l)` meets at `s`, if any.
pub open spec fn scan_error(input: Seq<u8>, column: usize, o: int, l: int, s: int) -> Option<IndexError> {
    if s - o > l {
        None
    } else {
        match csv_first_record(input.skip(s), column) {
            None => Some(IndexError::Record),
            Some((false, _, _)) => None,
            Some((true, n, f)) => if n == 0 || s + n > input.len() {
                Some(IndexError::Record)
            } else if f is None {
                Some(IndexError::MissingColumn)
            } else {
                None
            },
        }
    }
}

/// The records `items` (field, address), in order, are what the scan of
/// partition `(o, l)` yields from `start` on, and the next one starts at `end`.
pub open spec fn chained(
    input: Seq<u8>,
    column: usize,
    o: int,
    l: int,
    start: int,
    items: Seq<(Seq<u8>, Address)>,
    end: int,
) -> bool
    decreases items.len(),
{
    if items.len() == 0 {
        start == end
    } else {
        let (f, a) = items.last();
        &&& chained(input, column, o, l, start, items.drop_last(), a.offset as int)
        &&& end == a.offset + a.length
        &&& yields(input, column, o, l, a.offset as int, a.length, f)
    }
}

/// The position `s` starts a line of `input`.
pub open spec fn line_start(input: Seq<u8>, s: int) -> bool {
    s == 0 || (0 < s <= input.len() && input[s - 1] == 10)
}

pub proof fn lemma_first_newline_bounds(s: Seq<u8>, o: int)
    requires
        0 <= o,
    ensures
        o <= first_newline_from(s, o) || (o > s.len() && first_newline_from(s, o) == s.len()),
        first_newline_from(s, o) <= s.len(),
        first_newline_from(s, o) < s.len() ==> s[first_newline_from(s, o)] == 10,
    decreases s.len() - o,
{
    if o < s.len() && s[o] != 10 {
        lemma_first_newline_bounds(s, o + 1);
    }
}

pub proof fn lemma_first_newline_min(s: Seq<u8>, o: int, p: int)
    requires
        0 <= o <= p < s.len(),
        s[p] == 10,
    ensures
        first_newline_from(s, o) <= p,
    decreases p - o,
{
    if s[o] != 10 {
        lemma_first_newline_min(s, o + 1, p);
    }
}

/// A scanner over the partition `(offset, chunk_size)` of `input`.
pub struct CsvReader<'a> {
    input: &'a [u8],
    column: usize,
    padding: Vec<u8>,
    offset: u64,
    chunk_size: u64,
    cursor: usize,
    finished: bool,
}

impl<'a> CsvReader<'a> {
    pub closed spec fn spec_input(&self) -> Seq<u8> {
        self.input@
    }

    pub closed spec fn spec_column(&self) -> usize {
        self.column
    }

    pub closed spec fn spec_offset(&self) -> u64 {
        self.offset
    }

    pub closed spec fn spec_chunk_size(&self) -> u64 {
        self.chunk_size
    }

    /// The next record's start lies within the input.
    pub closed spec fn wf(&self) -> bool {
        &&& self.cursor <= self.input@.len()
        &&& scan_start(self.input@, self.offset as int, self.column) <= self.cursor
    }

    /// A well-formed scanner's cursor lies within its input.
    pub proof fn lemma_cursor_in_input(&self)
        requires
            self.wf(),
        ensures
            self.cursor() <= self.spec_input().len(),
    {
    }

    /// The position in the input where the next record starts.
    pub closed spec fn cursor(&self) -> int {
        self.cursor as int
    }

    /// The scan has ended.
    pub closed spec fn finished(&self) -> bool {
        self.finished
    }

    /// The bytes skipped to realign the partition to a record boundary.
    pub closed spec fn spec_padding(&self) -> Seq<u8> {
        self.padding@
    }

    /// A scanner of the partition that starts at byte `offset` of `input`
    /// and is `chunk_size` bytes long, yielding field `column` of each
    /// record. At offset 0 the header row is skipped; elsewhere the bytes up
    /// to and including the first newline at or after `offset` are.
    pub fn new(input: &'a [u8], column: usize, offset: u64, chunk_size: u64) -> (r: Result<
        Self,
        IndexError,
    >)
        ensures
            match r {
                Ok(rd) => {
                    &&& rd.wf()
                    &&& rd.spec_input() == input@
                    &&& rd.spec_column() == column
                    &&& rd.spec_offset() == offset
                    &&& rd.spec_chunk_size() == chunk_size
                    &&& !rd.finished()
                    &&& rd.cursor() == scan_start(input@, offset as int, column)
                    &&& offset == 0 ==> rd.spec_padding() == Seq::<u8>::empty()
                    &&& offset > 0 ==> rd.spec_padding() == input@.subrange(
                        if offset < input@.len() {
                            offset as int
                        } else {
                            input@.len() as int
                        },
                        window_start(input@, offset as int),
                    )
                },
                Err(e) => offset == 0 && header_fails(input@, column) && e == IndexError::Record,
            },
            r is Err <==> (offset == 0 && header_fails(input@, column)),
    {
        let n = input.len();
        if offset == 0 {
            let (more, len, _) = match read_first_record(input, column) {
                Ok(h) => h,
                Err(_) => {
                    return Err(IndexError::Record);
                },
            };
            let cursor: usize = if more {
                if len > n as u64 {
                    return Err(IndexError::Record);
                }
                len as usize
            } else {
                0
            };
            return Ok(CsvReader {
                input,
                column,
                padding: Vec::new(),
                offset,
                chunk_size,
                cursor,
                finished: false,
            });
        }
        let start: usize = if offset < n as u64 { offset as usize } else { n };
        let mut i: usize = start;
        while i < n && input[i] != 10u8
            invariant
                start <= i <= n,
                n == input@.len(),
                start == if offset < input@.len() { offset as int } else { input@.len() as int },
                first_newline_from(input@, offset as int) == first_newline_from(input@, i as int),
            decreases n - i,
        {
            i = i + 1;
        }
        let cursor: usize = if i < n { i + 1 } else { n };
        let (_, rest) = input.split_at(start);
        let (skipped, _) = rest.split_at(cursor - start);
        let padding = bytes_to_vec(skipped);
        Ok(CsvReader { input, column, padding, offset, chunk_size, cursor, finished: false })
    }

    /// The bytes skipped to realign the partition to a record boundary.
    pub fn padding(&self) -> (r: &[u8])
        ensures
            r@ == self.spec_padding(),
    {
        self.padding.as_slice()
    }
    /// The next record of the partition: its address in the input and its
    /// field. The scan ends at the end of the input, or at the first record
    /// that starts more than `chunk_size` bytes past `offset`; an error
    /// leaves the scanner as it was.
    pub fn next(&mut self) -> (r: Result<Option<(Address, Vec<u8>)>, IndexError>)
        requires
            old(self).wf(),
        ensures
            final(self).wf(),
            final(self).spec_input() == old(self).spec_input(),
            final(self).spec_column() == old(self).spec_column(),
            final(self).spec_offset() == old(self).spec_offset(),
            final(self).spec_chunk_size() == old(self).spec_chunk_size(),
            final(self).spec_padding() == old(self).spec_padding(),
            final(self).cursor() >= old(self).cursor(),
            ({
                let input = old(self).spec_input();
                let col = old(self).spec_column();
                let o = old(self).spec_offset() as int;
                let l = old(self).spec_chunk_size() as int;
                let s = old(self).cursor();
                match r {
                    Ok(Some((a, f))) => {
                        &&& !old(self).finished()
                        &&& a.offset == s
                        &&& yields(input, col, o, l, s, a.length, f@)
                        &&& accepts(input, o, l, s)
                        &&& final(self).cursor() == s + a.length
                        &&& !final(self).finished()
                    },
                    Ok(None) => {
                        &&& final(self).finished()
                        &&& final(self).cursor() == s
                        &&& (old(self).finished() || scan_ends(input, col, o, l, s))
                    },
                    Err(e) => {
                        &&& !old(self).finished()
                        &&& scan_error(input, col, o, l, s) == Some(e)
                        &&& *final(self) == *old(self)
                    },
                }
            }),
            old(self).finished() || old(self).cursor() - old(self).spec_offset()
                > old(self).spec_chunk_size() ==> r == Ok::<Option<(Address, Vec<u8>)>, IndexError>(None),
    {
        if self.finished {
            return Ok(None);
        }
        let s = self.cursor;
        if s as u64 >= self.offset && s as u64 - self.offset > self.chunk_size {
            self.finished = true;
            return Ok(None);
        }
        let (_, rest) = self.input.split_at(s);
        proof {
            assert(rest@ =~= self.input@.skip(s as int));
        }
        let (more, len, field) = match read_first_record(rest, self.column) {
            Ok(x) => x,
            Err(_) => {
                return Err(IndexError::Record);
            },
        };
        if !more {
            self.finished = true;
            return Ok(None);
        }
        if len == 0 || len > rest.len() as u64 {
            return Err(IndexError::Record);
        }
        match field {
            None => Err(IndexError::MissingColumn),
            Some(f) => {
                let l = len as usize;
                let n = self.input.len();
                proof {
                    assert(len <= rest@.len());
                    assert(l == len);
                    assert(s + l <= n);
                }
                self.cursor = s + l;
                Ok(Some((Address { offset: s as u64, length: len }, f)))
            },
        }
    }
}

} // verus!

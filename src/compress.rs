//! Gzip compression of index chunks.

use vstd::prelude::*;

verus! {

/// The gzip stream (fast level, no time stamp, unknown OS) of `data`, or
/// `None` when the encoder fails on it.
pub uninterp spec fn gzip_of(data: Seq<u8>) -> Option<Seq<u8>>;

/// The bytes that the gzip stream `data` decodes to, if it is one.
pub uninterp spec fn gunzip_of(data: Seq<u8>) -> Option<Seq<u8>>;

/// Relies on flate2's `read::GzEncoder` at `Compression::fast()`: its output,
/// failure included, depends on the input bytes alone (the header carries no time stamp and a
/// fixed OS byte).
#[verifier::external_body]
pub(crate) fn gzip(data: &[u8]) -> (r: Option<Vec<u8>>)
    ensures
        match r {
            Some(v) => gzip_of(data@) == Some(v@),
            None => gzip_of(data@) is None,
        },
{
    let mut e = flate2::read::GzEncoder::new(data, flate2::Compression::fast());
    let mut out: Vec<u8> = Vec::new();
    std::io::Read::read_to_end(&mut e, &mut out).ok()?;
    Some(out)
}

/// Relies on flate2's `read::GzDecoder`: decodes the first gzip member of
/// `data`; the result depends on the input bytes alone, and the stream that
/// `read::GzEncoder` made of some bytes decodes to those bytes.
#[verifier::external_body]
pub(crate) fn gunzip(data: &[u8]) -> (r: Option<Vec<u8>>)
    ensures
        match r {
            Some(v) => gunzip_of(data@) == Some(v@) && forall|x: Seq<u8>| #[trigger] gzip_of(x)
                == Some(data@) ==> v@ == x,
            None => gunzip_of(data@) is None && forall|x: Seq<u8>| #[trigger] gzip_of(x) != Some(
                data@,
            ),
        },
{
    let mut d = flate2::read::GzDecoder::new(data);
    let mut out: Vec<u8> = Vec::new();
    std::io::Read::read_to_end(&mut d, &mut out).ok()?;
    Some(out)
}

} // verus!

//! A byte range in a file: in the source, the bytes of one record; in the
//! index file, the bytes of one compressed chunk.

use vstd::prelude::*;

verus! {

/// A byte range: `length` bytes from `offset` on.
#[derive(Clone, Copy, Debug, PartialEq, Eq, Structural)]
pub struct Address {
    pub offset: u64,
    pub length: u64,
}

} // verus!

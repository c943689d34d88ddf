//! A range-queryable column index over delimited-text files.
//!
//! The library holds the logic of the index: the byte codec of the file
//! prefix, the range algebra, the typed sorted posting maps, the chunker,
//! the table of contents and the file framing, the key ranges of queries and the
//! record scanner.

pub mod address;
pub mod bits;
pub mod chunked_map;
pub mod compress;
pub mod csv_index;
pub mod csv_reader;
pub mod error;
pub mod filter;
pub mod index;
pub mod key;
pub mod range;
pub mod sorted_map;
pub mod text;
pub mod toc;

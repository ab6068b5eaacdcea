//! A local file-search index: a persistent block/bitmap index over file
//! names with a de-duplicating path table, a fixed little-endian on-disk
//! format, and a substring search engine with a structured query parser.

use vstd::prelude::*;

pub mod ascii;
pub mod bitmap;
pub mod entry;
pub mod header;
pub mod path_codec;
pub mod path_table;
pub mod block;
pub mod pipeline;
pub mod index;
pub mod search;
pub mod query;

verus! {

/// Structural failure while parsing an index file: the stream does not
/// start with the expected magic value, or it ends (or a declared length
/// or field value runs out of range) before the structure is complete.
#[derive(Clone, Copy, Debug, PartialEq, Eq, Structural)]
pub enum FormatError {
    BadMagic,
    Truncated,
}

} // verus!

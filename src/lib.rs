//! Turns WordNet's lexicographer files into a lexical index: a definition
//! table keyed by byte offset and a word table from headword to offsets,
//! ready for a relational, SQL-script or document sink.
use vstd::prelude::*;

pub mod export;
pub mod files;
pub mod filter;
pub mod grammar;
pub mod lexicon;
pub mod order;
pub mod sql;
pub mod text;

verus! {

} // verus!

//! A term-frequency search library: a tokenizer, per-document term-frequency
//! tables, a corpus index with a persisted textual encoding, and a TF-IDF
//! ranking engine that answers free-text queries.

pub mod chars;
pub mod codec;
pub mod extract;
pub mod index;
pub mod lexer;
pub mod query;
pub mod rank;
pub mod tf;

use vstd::prelude::*;

verus! {

/// A document failed text extraction and is skipped by the index builder.
#[derive(Clone, Copy, PartialEq, Eq, Structural, Debug)]
pub struct ExtractionError;

} // verus!

//! The query service: from raw query bytes to ranked results.
//!
//! The raw bytes are decoded as UTF-8 (a query that is not valid text is a
//! client error), tokenized and normalized exactly as documents are, scored
//! by the ranking engine, and truncated to the twenty best results.

use vstd::prelude::*;

use crate::index::CorpusIndex;
use crate::rank::rank_leq;
use crate::rank::results_view;
use crate::rank::scored_of;
use crate::rank::search;
use crate::rank::ScoredResult;
use crate::tf::norm_tokens_spec;
use crate::tf::tokenize_terms;
use vstd::relations::sorted_by;
use vstd::utf8::decode_utf8;
use vstd::utf8::valid_utf8;

verus! {

/// Why a query could not be answered.
#[derive(Clone, Copy, PartialEq, Eq, Structural, Debug)]
pub enum QueryError {
    /// The query body is not valid UTF-8 text.
    Decode,
}

/// How many results a query returns at most.
pub const TOP_K: usize = 20;

/// Relies on str::from_utf8: it succeeds exactly on the byte sequences that
/// are valid UTF-8, and returns the text those bytes encode.
#[verifier::external_body]
fn utf8_to_str(bytes: &[u8]) -> (r: Option<&str>)
    ensures
        r is Some <==> valid_utf8(bytes@),
        r matches Some(s) ==> s@ == decode_utf8(bytes@),
{
    core::str::from_utf8(bytes).ok()
}

/// A UTF-8 scalar takes at least one byte: the decoded text is never longer
/// than its encoding.
proof fn lemma_decode_utf8_len(bytes: Seq<u8>)
    requires
        valid_utf8(bytes),
    ensures
        decode_utf8(bytes).len() <= bytes.len(),
    decreases bytes.len(),
{
    if bytes.len() != 0 {
        assert(vstd::utf8::length_of_first_scalar(bytes) >= 1);
        lemma_decode_utf8_len(vstd::utf8::pop_first_scalar(bytes));
    }
}

/// Reads the characters of a string slice into an owned vector.
fn str_chars(s: &str) -> (r: Vec<char>)
    ensures
        r@ == s@,
{
    let n = s.unicode_len();
    let mut out: Vec<char> = Vec::new();
    let mut i: usize = 0;
    while i < n
        invariant
            n == s@.len(),
            i <= n,
            out@ =~= s@.take(i as int),
        decreases n - i,
    {
        out.push(s.get_char(i));
        i = i + 1;
    }
    proof {
        assert(out@ =~= s@);
    }
    out
}

/// Answers one query against a loaded index: decodes the body as UTF-8,
/// tokenizes and normalizes it, ranks the matching documents, and returns
/// at most `TOP_K` results, best first.  An undecodable body is the only
/// error; an empty body yields an empty result, not an error.  The bounds
/// on the body length and on the document totals keep the exact rational
/// score comparisons within machine arithmetic; the caller checks them
/// before the call, with `is_bounded` for the index.
pub fn answer_query(index: &CorpusIndex, raw: &[u8]) -> (r: Result<Vec<ScoredResult>, QueryError>)
    requires
        index.wf(),
        index.bounded(),
        raw@.len() <= 0xFFFF_FFFF,
    ensures
        r is Err <==> !valid_utf8(raw@),
        r matches Ok(v) ==> {
            let q = norm_tokens_spec(decode_utf8(raw@));
            let scored = scored_of(index.docs@, index.docs@, q);
            exists|full: Seq<(int, int, Seq<char>)>|
                {
                    &&& sorted_by(full, rank_leq())
                    &&& #[trigger] full.to_multiset() == scored.to_multiset()
                    &&& results_view(v@) == full.take(
                        vstd::math::min(TOP_K as int, full.len() as int),
                    )
                    &&& v@.len() == vstd::math::min(TOP_K as int, scored.len() as int)
                }
        },
        raw@.len() == 0 ==> (r matches Ok(v) && v@.len() == 0),
{
    broadcast use vstd::seq_lib::group_to_multiset_ensures;

    let text = match utf8_to_str(raw) {
        Some(t) => t,
        None => {
            return Err(QueryError::Decode);
        },
    };
    proof {
        lemma_decode_utf8_len(raw@);
        crate::lexer::lemma_tokens_len(text@);
    }
    let chars = str_chars(text);
    let terms = tokenize_terms(chars.as_slice());
    let mut full = search(index, &terms);
    let ghost fullv = results_view(full@);
    proof {
        assert(terms.deep_view() == norm_tokens_spec(decode_utf8(raw@)));
        let q = terms.deep_view();
        let scored = scored_of(index.docs@, index.docs@, q);
        fullv.to_multiset_ensures();
        scored.to_multiset_ensures();
        assert(fullv.len() == scored.len());
        lemma_scored_len(index.docs@, index.docs@, q);
        if raw@.len() == 0 {
            assert(decode_utf8(raw@).len() == 0);
            assert(crate::lexer::tokens_of(decode_utf8(raw@)).len() == 0);
            assert(q.len() == 0);
        }
    }
    if full.len() > TOP_K {
        full.truncate(TOP_K);
        proof {
            assert(results_view(full@) =~= fullv.take(TOP_K as int));
            lemma_scored_len(index.docs@, index.docs@, terms.deep_view());
        }
    } else {
        proof {
            assert(results_view(full@) =~= fullv.take(full@.len() as int));
            lemma_scored_len(index.docs@, index.docs@, terms.deep_view());
        }
    }
    Ok(full)
}

/// The scored sequence is never longer than the corpus, and with no query
/// terms it is empty.
pub proof fn lemma_scored_len(
    all: Seq<crate::index::DocEntry>,
    docs: Seq<crate::index::DocEntry>,
    q: Seq<Seq<char>>,
)
    ensures
        scored_of(all, docs, q).len() <= docs.len(),
        q.len() == 0 ==> scored_of(all, docs, q).len() == 0,
    decreases docs.len(),
{
    if docs.len() > 0 {
        lemma_scored_len(all, docs.drop_last(), q);
    }
}

} // verus!

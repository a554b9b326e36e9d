//! The corpus index: one term-frequency table per document.
//!
//! The index is built once, wholesale, by `build_index`; a document whose
//! text extraction failed is skipped and reported, never silently dropped.
//! Once built (or loaded) the index is only read.

use vstd::prelude::*;

use crate::tf::tf_of_chars;
use crate::tf::TermFreqTable;
use crate::lexer::tokens_of;
use crate::tf::norm_tokens_spec;
use crate::ExtractionError;
use vstd::slice::slice_to_vec;

verus! {

/// One indexed document: its identifier and its term-frequency table.
pub struct DocEntry {
    pub id: Vec<char>,
    pub table: TermFreqTable,
}

/// The whole corpus: a mapping from document identifier to table,
/// represented as a sequence of entries with pairwise distinct identifiers.
pub struct CorpusIndex {
    pub docs: Vec<DocEntry>,
}

impl CorpusIndex {
    /// Identifiers are pairwise distinct and every table is well formed.
    pub open spec fn wf(self) -> bool {
        &&& forall|i: int, j: int|
            0 <= i < j < self.docs@.len() ==> self.docs@[i].id@ != self.docs@[j].id@
        &&& forall|k: int| 0 <= k < self.docs@.len() ==> (#[trigger] self.docs@[k].table).wf()
    }

    /// Every document total fits the range the scoring arithmetic needs.
    pub open spec fn bounded(self) -> bool {
        forall|k: int|
            0 <= k < self.docs@.len() ==> (#[trigger] self.docs@[k].table).total <= 0xFFFF_FFFFu64
    }

    pub fn new() -> (r: Self)
        ensures
            r.wf(),
            r.docs@.len() == 0,
    {
        CorpusIndex { docs: Vec::new() }
    }

    /// Number of indexed documents.
    pub fn doc_count(&self) -> (n: usize)
        ensures
            n == self.docs@.len(),
    {
        self.docs.len()
    }

    /// Checks that every document total is small enough for scoring.
    pub fn is_bounded(&self) -> (b: bool)
        ensures
            b == self.bounded(),
    {
        let mut k: usize = 0;
        while k < self.docs.len()
            invariant
                k <= self.docs@.len(),
                forall|j: int|
                    0 <= j < k ==> (#[trigger] self.docs@[j].table).total <= 0xFFFF_FFFFu64,
            decreases self.docs@.len() - k,
        {
            if self.docs[k].table.total > 0xFFFF_FFFF {
                return false;
            }
            k = k + 1;
        }
        true
    }
}

/// A document handed to the index builder: its identifier and the outcome
/// of text extraction.
pub struct DocSource {
    pub id: Vec<char>,
    pub text: Result<Vec<char>, ExtractionError>,
}

/// What `build_index` returns: the index over the documents that could be
/// read, and the identifiers of those that could not.
pub struct BuildReport {
    pub index: CorpusIndex,
    pub failures: Vec<Vec<char>>,
}

/// The sources whose extraction succeeded, in order.
pub open spec fn ok_srcs(srcs: Seq<DocSource>) -> Seq<DocSource> {
    srcs.filter(|d: DocSource| d.text is Ok)
}

/// The identifiers of the sources whose extraction failed, in order.
pub open spec fn err_ids(srcs: Seq<DocSource>) -> Seq<Seq<char>> {
    srcs.filter(|d: DocSource| d.text is Err).map_values(|d: DocSource| d.id@)
}

/// Builds the corpus index over a batch of documents.  A document whose
/// extraction failed is skipped and its identifier reported; it never aborts
/// the batch.  The resulting index holds exactly the successfully extracted
/// documents, in order, each with the exact term counts of its text.
pub fn build_index(sources: Vec<DocSource>) -> (r: BuildReport)
    requires
        forall|i: int, j: int|
            0 <= i < j < sources@.len() ==> sources@[i].id@ != sources@[j].id@,
    ensures
        r.index.wf(),
        r.index.docs@.len() == ok_srcs(sources@).len(),
        forall|k: int|
            0 <= k < r.index.docs@.len() ==> {
                let src = ok_srcs(sources@)[k];
                &&& (#[trigger] r.index.docs@[k]).id@ == src.id@
                &&& r.index.docs@[k].table.wf()
                &&& r.index.docs@[k].table.counts(norm_tokens_spec(src.text->Ok_0@))
                &&& r.index.docs@[k].table.total as nat == tokens_of(src.text->Ok_0@).len()
            },
        r.failures@.map_values(|v: Vec<char>| v@) == err_ids(sources@),
{
    let ghost srcs = sources@;
    let mut index = CorpusIndex::new();
    let mut failures: Vec<Vec<char>> = Vec::new();
    let mut i: usize = 0;
    proof {
        assert(srcs.take(0) =~= Seq::<DocSource>::empty());
        reveal_with_fuel(Seq::filter, 1);
        assert(failures@.map_values(|v: Vec<char>| v@) =~= err_ids(srcs.take(0)));
    }
    while i < sources.len()
        invariant
            i <= srcs.len(),
            srcs == sources@,
            forall|a: int, b: int| 0 <= a < b < srcs.len() ==> srcs[a].id@ != srcs[b].id@,
            index.docs@.len() == ok_srcs(srcs.take(i as int)).len(),
            forall|k: int|
                0 <= k < index.docs@.len() ==> {
                    let src = ok_srcs(srcs.take(i as int))[k];
                    &&& (#[trigger] index.docs@[k]).id@ == src.id@
                    &&& index.docs@[k].table.wf()
                    &&& index.docs@[k].table.counts(norm_tokens_spec(src.text->Ok_0@))
                    &&& index.docs@[k].table.total as nat == tokens_of(src.text->Ok_0@).len()
                },
            failures@.map_values(|v: Vec<char>| v@) == err_ids(srcs.take(i as int)),
        decreases srcs.len() - i,
    {
        let ghost pre = srcs.take(i as int);
        let ghost post = srcs.take(i + 1);
        proof {
            assert(post =~= pre.push(srcs[i as int]));
            lemma_filter_push(pre, srcs[i as int], |d: DocSource| d.text is Ok);
            lemma_filter_push(pre, srcs[i as int], |d: DocSource| d.text is Err);
        }
        let src = &sources[i];
        match &src.text {
            Ok(text) => {
                let table = tf_of_chars(text.as_slice());
                let id = slice_to_vec(src.id.as_slice());
                index.docs.push(DocEntry { id, table });
                proof {
                    let okp = ok_srcs(post);
                    assert(okp =~= ok_srcs(pre).push(srcs[i as int]));
                    assert forall|k: int| 0 <= k < index.docs@.len() implies {
                        let s2 = ok_srcs(post)[k];
                        &&& (#[trigger] index.docs@[k]).id@ == s2.id@
                        &&& index.docs@[k].table.wf()
                        &&& index.docs@[k].table.counts(norm_tokens_spec(s2.text->Ok_0@))
                        &&& index.docs@[k].table.total as nat == tokens_of(s2.text->Ok_0@).len()
                    } by {
                        if k < index.docs@.len() - 1 {
                            assert(ok_srcs(post)[k] == ok_srcs(pre)[k]);
                        } else {
                            assert(ok_srcs(post)[k] == srcs[i as int]);
                        }
                    }
                    assert(err_ids(post) =~= err_ids(pre));
                    assert(failures@.map_values(|v: Vec<char>| v@) =~= err_ids(post));
                }
            },
            Err(_) => {
                let id = slice_to_vec(src.id.as_slice());
                failures.push(id);
                proof {
                    assert(ok_srcs(post) =~= ok_srcs(pre));
                    let ep = srcs.filter(|d: DocSource| d.text is Err);
                    assert(err_ids(post) =~= err_ids(pre).push(srcs[i as int].id@)) by {
                        assert(srcs.take(i + 1).filter(|d: DocSource| d.text is Err)
                            =~= srcs.take(i as int).filter(|d: DocSource| d.text is Err).push(
                            srcs[i as int],
                        ));
                    }
                    assert(failures@.map_values(|v: Vec<char>| v@) =~= err_ids(post));
                }
            },
        }
        i = i + 1;
    }
    proof {
        assert(srcs.take(srcs.len() as int) =~= srcs);
        // distinct input identifiers make the index identifiers distinct
        lemma_ok_srcs_distinct(srcs);
    }
    BuildReport { index, failures }
}

/// Filtering a sequence extended by one element.
proof fn lemma_filter_push(s: Seq<DocSource>, x: DocSource, pred: spec_fn(DocSource) -> bool)
    ensures
        s.push(x).filter(pred) == if pred(x) {
            s.filter(pred).push(x)
        } else {
            s.filter(pred)
        },
{
    reveal_with_fuel(Seq::filter, 1);
    assert(s.push(x).drop_last() =~= s);
    assert(s.push(x).last() == x);
    if pred(x) {
        assert(s.push(x).filter(pred) =~= s.filter(pred).push(x));
    } else {
        assert(s.push(x).filter(pred) =~= s.filter(pred));
    }
}

/// Distinct sources keep distinct identifiers after filtering.
proof fn lemma_ok_srcs_distinct(srcs: Seq<DocSource>)
    requires
        forall|a: int, b: int| 0 <= a < b < srcs.len() ==> srcs[a].id@ != srcs[b].id@,
    ensures
        forall|a: int, b: int|
            0 <= a < b < ok_srcs(srcs).len() ==> ok_srcs(srcs)[a].id@ != ok_srcs(srcs)[b].id@,
    decreases srcs.len(),
{
    let pred = |d: DocSource| d.text is Ok;
    if srcs.len() == 0 {
        reveal_with_fuel(Seq::filter, 1);
    } else {
        let pre = srcs.drop_last();
        lemma_ok_srcs_distinct(pre);
        assert(pre.push(srcs.last()) =~= srcs);
        lemma_filter_push(pre, srcs.last(), pred);
        assert forall|a: int, b: int|
            0 <= a < b < ok_srcs(srcs).len() implies ok_srcs(srcs)[a].id@ != ok_srcs(
            srcs,
        )[b].id@ by {
            if pred(srcs.last()) && b == ok_srcs(srcs).len() - 1 {
                // the last filtered element is the last source; the earlier
                // one comes from a strictly earlier source
                lemma_filter_from(pre, pred, a);
            } else {
                assert(ok_srcs(srcs)[a] == ok_srcs(pre)[a]);
                assert(ok_srcs(srcs)[b] == ok_srcs(pre)[b]);
            }
        }
    }
}

/// Every filtered element occurs in the sequence it was filtered from.
proof fn lemma_filter_from(s: Seq<DocSource>, pred: spec_fn(DocSource) -> bool, a: int)
    requires
        0 <= a < s.filter(pred).len(),
    ensures
        exists|k: int| 0 <= k < s.len() && s[k] == s.filter(pred)[a],
    decreases s.len(),
{
    reveal_with_fuel(Seq::filter, 1);
    if s.len() > 0 {
        if pred(s.last()) && a == s.filter(pred).len() - 1 {
            assert(s[s.len() - 1] == s.filter(pred)[a]);
        } else {
            lemma_filter_from(s.drop_last(), pred, a);
            let k = choose|k: int|
                0 <= k < s.drop_last().len() && s.drop_last()[k] == s.drop_last().filter(pred)[a];
            assert(s[k] == s.filter(pred)[a]);
        }
    }
}

} // verus!

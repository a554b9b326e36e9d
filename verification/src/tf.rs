//! Per-document term-frequency tables.
//!
//! A table maps each normalized term of one document to its occurrence
//! count, and caches the document's total token count so it never has to be
//! recomputed.  Entries are kept sorted by term, strictly, so the table is a
//! canonical value: equal contents are equal tables.

use vstd::prelude::*;

use crate::chars::lemma_lex_lt_trans;
use crate::chars::lemma_lex_lt_trichotomy;
use crate::chars::lex_cmp;
use crate::chars::lex_lt;
use crate::chars::normalize_spec;
use crate::chars::normalize_token;
use crate::chars::text_chars;
use crate::lexer::lemma_tokens_len;
use crate::lexer::tokens_of;
use crate::lexer::Lexer;

verus! {

/// The tokens of `s`, each normalized to canonical case.
pub open spec fn norm_tokens_spec(s: Seq<char>) -> Seq<Seq<char>> {
    tokens_of(s).map_values(|t: Seq<char>| normalize_spec(t))
}

/// Number of occurrences of `t` in the token sequence `ts`.
pub open spec fn occ(ts: Seq<Seq<char>>, t: Seq<char>) -> nat
    decreases ts.len(),
{
    if ts.len() == 0 {
        0
    } else {
        occ(ts.drop_last(), t) + if ts.last() == t {
            1nat
        } else {
            0nat
        }
    }
}

/// Count recorded for term `t`, or zero when `t` is absent.
pub open spec fn lookup(es: Seq<(Vec<char>, u64)>, t: Seq<char>) -> nat
    decreases es.len(),
{
    if es.len() == 0 {
        0
    } else if es[0].0@ == t {
        es[0].1 as nat
    } else {
        lookup(es.drop_first(), t)
    }
}

/// Whether some entry records term `t`.
pub open spec fn has_key(es: Seq<(Vec<char>, u64)>, t: Seq<char>) -> bool {
    exists|k: int| 0 <= k < es.len() && es[k].0@ == t
}

/// Sum of all recorded counts.
pub open spec fn sum_counts(es: Seq<(Vec<char>, u64)>) -> int
    decreases es.len(),
{
    if es.len() == 0 {
        0
    } else {
        es[0].1 + sum_counts(es.drop_first())
    }
}

/// Entries are strictly sorted by term and no count is zero.
pub open spec fn entries_wf(es: Seq<(Vec<char>, u64)>) -> bool {
    &&& forall|i: int, j: int| 0 <= i < j < es.len() ==> lex_lt(es[i].0@, es[j].0@)
    &&& forall|k: int| 0 <= k < es.len() ==> (#[trigger] es[k].1) >= 1
}

pub proof fn lemma_sum_nonneg(es: Seq<(Vec<char>, u64)>)
    ensures
        sum_counts(es) >= 0,
    decreases es.len(),
{
    if es.len() > 0 {
        lemma_sum_nonneg(es.drop_first());
    }
}

/// Each count is at most the sum of all counts.
pub proof fn lemma_count_le_sum(es: Seq<(Vec<char>, u64)>, k: int)
    requires
        0 <= k < es.len(),
    ensures
        es[k].1 <= sum_counts(es),
    decreases k,
{
    if k == 0 {
        lemma_sum_nonneg(es.drop_first());
    } else {
        lemma_count_le_sum(es.drop_first(), k - 1);
        assert(es.drop_first()[k - 1] == es[k]);
    }
}

/// Dropping the first entry keeps the entries well formed.
proof fn lemma_wf_drop_first(es: Seq<(Vec<char>, u64)>)
    requires
        entries_wf(es),
        es.len() > 0,
    ensures
        entries_wf(es.drop_first()),
{
    assert forall|i: int, j: int|
        0 <= i < j < es.drop_first().len() implies lex_lt(
        es.drop_first()[i].0@,
        es.drop_first()[j].0@,
    ) by {
        assert(es.drop_first()[i] == es[i + 1]);
        assert(es.drop_first()[j] == es[j + 1]);
    }
    assert forall|k: int| 0 <= k < es.drop_first().len() implies es.drop_first()[k].1 >= 1 by {
        assert(es.drop_first()[k] == es[k + 1]);
    }
}

/// In well-formed entries, `lookup` finds exactly the recorded count.
pub proof fn lemma_lookup_found(es: Seq<(Vec<char>, u64)>, k: int)
    requires
        entries_wf(es),
        0 <= k < es.len(),
    ensures
        lookup(es, es[k].0@) == es[k].1,
    decreases k,
{
    if k == 0 {
    } else {
        lemma_lex_lt_trichotomy(es[0].0@, es[k].0@);
        lemma_wf_drop_first(es);
        lemma_lookup_found(es.drop_first(), k - 1);
        assert(es.drop_first()[k - 1] == es[k]);
    }
}

/// A term recorded by no entry looks up as zero.
pub proof fn lemma_lookup_absent(es: Seq<(Vec<char>, u64)>, t: Seq<char>)
    requires
        !has_key(es, t),
    ensures
        lookup(es, t) == 0,
    decreases es.len(),
{
    if es.len() > 0 {
        assert(es[0].0@ != t);
        assert(!has_key(es.drop_first(), t)) by {
            if has_key(es.drop_first(), t) {
                let k = choose|k: int|
                    0 <= k < es.drop_first().len() && es.drop_first()[k].0@ == t;
                assert(es[k + 1] == es.drop_first()[k]);
            }
        }
        lemma_lookup_absent(es.drop_first(), t);
    }
}

/// No term is counted more often than all tokens together.
pub proof fn lemma_lookup_le_sum(es: Seq<(Vec<char>, u64)>, t: Seq<char>)
    requires
        entries_wf(es),
    ensures
        lookup(es, t) <= sum_counts(es),
{
    if has_key(es, t) {
        let k = choose|k: int| 0 <= k < es.len() && es[k].0@ == t;
        lemma_lookup_found(es, k);
        lemma_count_le_sum(es, k);
    } else {
        lemma_lookup_absent(es, t);
        lemma_sum_nonneg(es);
    }
}

/// A term-frequency table for one document: term to count, entries sorted
/// by term, plus the cached total token count.
pub struct TermFreqTable {
    pub entries: Vec<(Vec<char>, u64)>,
    pub total: u64,
}

impl TermFreqTable {
    /// Sorted unique entries, no zero counts, and the cached total is the
    /// sum of all counts.
    pub open spec fn wf(self) -> bool {
        entries_wf(self.entries@) && self.total == sum_counts(self.entries@)
    }

    /// The table agrees exactly with the occurrence counts of `ts`.
    pub open spec fn counts(self, ts: Seq<Seq<char>>) -> bool {
        forall|t: Seq<char>| #[trigger] lookup(self.entries@, t) == occ(ts, t)
    }

    pub fn new() -> (tf: Self)
        ensures
            tf.wf(),
            tf.entries@.len() == 0,
            tf.total == 0,
    {
        TermFreqTable { entries: Vec::new(), total: 0 }
    }

    /// Number of occurrences recorded for `term`.
    pub fn count_of(&self, term: &[char]) -> (r: u64)
        ensures
            r as nat == lookup(self.entries@, term@),
    {
        let ghost es = self.entries@;
        let mut i: usize = 0;
        proof {
            assert(es.skip(0) =~= es);
        }
        while i < self.entries.len()
            invariant
                i <= es.len(),
                es == self.entries@,
                lookup(es, term@) == lookup(es.skip(i as int), term@),
            decreases es.len() - i,
        {
            let e = &self.entries[i];
            proof {
                assert(es.skip(i as int)[0] == es[i as int]);
            }
            let c = lex_cmp(e.0.as_slice(), term);
            if c == 0 {
                return e.1;
            }
            proof {
                lemma_lex_lt_trichotomy(e.0@, term@);
                lemma_lex_lt_trichotomy(term@, e.0@);
                assert(es[i as int].0@ != term@);
                assert(es.skip(i as int).drop_first() =~= es.skip(i + 1));
            }
            i = i + 1;
        }
        proof {
            assert(es.skip(i as int).len() == 0);
        }
        0
    }

    /// Adds one occurrence of `term` to the table.
    pub fn increment(&mut self, term: Vec<char>)
        requires
            old(self).wf(),
            old(self).total < u64::MAX,
        ensures
            final(self).wf(),
            final(self).total == old(self).total + 1,
            forall|t: Seq<char>| #[trigger]
                lookup(final(self).entries@, t) == lookup(old(self).entries@, t) + if t == term@ {
                    1int
                } else {
                    0int
                },
    {
        let ghost es = self.entries@;
        let mut i: usize = 0;
        let mut found: bool = false;
        let mut after: bool = false;
        while i < self.entries.len() && !found && !after
            invariant
                i <= es.len(),
                es == self.entries@,
                self.total == old(self).total,
                entries_wf(es),
                old(self).total < u64::MAX,
                sum_counts(es) == self.total,
                forall|j: int| 0 <= j < i ==> lex_lt(#[trigger] es[j].0@, term@),
                found ==> i < es.len() && es[i as int].0@ == term@,
                after ==> i < es.len() && lex_lt(term@, es[i as int].0@),
            decreases es.len() - i + if found || after {
                0int
            } else {
                1int
            },
        {
            let c = lex_cmp(self.entries[i].0.as_slice(), term.as_slice());
            if c == 0 {
                found = true;
            } else if c == 1 {
                after = true;
            } else {
                proof {
                    lemma_lex_lt_trichotomy(es[i as int].0@, term@);
                }
                i = i + 1;
            }
        }
        if found {
            proof {
                lemma_count_le_sum(es, i as int);
                lemma_sum_nonneg(es.drop_first());
            }
            let c = self.entries[i].1;
            self.entries[i].1 = c + 1;
            self.total = self.total + 1;
            proof {
                let es2 = self.entries@;
                assert(es2 == es.update(i as int, (es[i as int].0, (c + 1) as u64)));
                assert forall|k: int| 0 <= k < es2.len() implies es2[k].0@ == es[k].0@ && (k != i
                    ==> es2[k] == es[k]) by {}
                assert(entries_wf(es2));
                lemma_sum_update(es, i as int, es2[i as int]);
                lemma_lookup_found(es, i as int);
                lemma_lookup_found(es2, i as int);
                assert forall|t: Seq<char>| #[trigger]
                    lookup(es2, t) == lookup(es, t) + if t == term@ {
                        1int
                    } else {
                        0int
                    } by {
                    if t == term@ {
                    } else {
                        if has_key(es, t) {
                            let k = choose|k: int| 0 <= k < es.len() && es[k].0@ == t;
                            assert(k != i);
                            lemma_lookup_found(es, k);
                            lemma_lookup_found(es2, k);
                        } else {
                            assert(!has_key(es2, t)) by {
                                if has_key(es2, t) {
                                    let k = choose|k: int|
                                        0 <= k < es2.len() && es2[k].0@ == t;
                                    assert(es[k].0@ == t);
                                }
                            }
                            lemma_lookup_absent(es, t);
                            lemma_lookup_absent(es2, t);
                        }
                    }
                }
            }
        } else {
            proof {
                if i < es.len() {
                    assert(lex_lt(term@, es[i as int].0@));
                }
                assert forall|j: int| i <= j < es.len() implies lex_lt(
                    term@,
                    #[trigger] es[j].0@,
                ) by {
                    if j > i {
                        lemma_lex_lt_trans(term@, es[i as int].0@, es[j].0@);
                    }
                }
            }
            self.entries.insert(i, (term, 1));
            self.total = self.total + 1;
            proof {
                let e = self.entries@[i as int];
                let es2 = self.entries@;
                assert(es2 == es.insert(i as int, e));
                assert(e.0@ == term@ && e.1 == 1);
                assert forall|a: int, b: int| 0 <= a < b < es2.len() implies lex_lt(
                    es2[a].0@,
                    es2[b].0@,
                ) by {
                    if a < i && b < i {
                        assert(es2[a] == es[a] && es2[b] == es[b]);
                    } else if a < i && b == i {
                        assert(es2[a] == es[a]);
                    } else if a < i && b > i {
                        assert(es2[a] == es[a] && es2[b] == es[b - 1]);
                        lemma_lex_lt_trans(es[a].0@, term@, es[b - 1].0@);
                    } else if a == i {
                        assert(es2[b] == es[b - 1]);
                    } else {
                        assert(es2[a] == es[a - 1] && es2[b] == es[b - 1]);
                    }
                }
                assert forall|k: int| 0 <= k < es2.len() implies es2[k].1 >= 1 by {
                    if k < i {
                        assert(es2[k] == es[k]);
                    } else if k > i {
                        assert(es2[k] == es[k - 1]);
                    }
                }
                assert(entries_wf(es2));
                lemma_sum_insert(es, i as int, e);
                assert(!has_key(es, term@)) by {
                    if has_key(es, term@) {
                        let k = choose|k: int| 0 <= k < es.len() && es[k].0@ == term@;
                        if k < i {
                            lemma_lex_lt_trichotomy(es[k].0@, term@);
                        } else {
                            lemma_lex_lt_trichotomy(term@, es[k].0@);
                        }
                    }
                }
                lemma_lookup_absent(es, term@);
                lemma_lookup_found(es2, i as int);
                assert forall|t: Seq<char>| #[trigger]
                    lookup(es2, t) == lookup(es, t) + if t == term@ {
                        1int
                    } else {
                        0int
                    } by {
                    if t == term@ {
                    } else {
                        if has_key(es, t) {
                            let k = choose|k: int| 0 <= k < es.len() && es[k].0@ == t;
                            lemma_lookup_found(es, k);
                            if k < i {
                                assert(es2[k] == es[k]);
                                lemma_lookup_found(es2, k);
                            } else {
                                assert(es2[k + 1] == es[k]);
                                lemma_lookup_found(es2, k + 1);
                            }
                        } else {
                            assert(!has_key(es2, t)) by {
                                if has_key(es2, t) {
                                    let k = choose|k: int|
                                        0 <= k < es2.len() && es2[k].0@ == t;
                                    if k < i {
                                        assert(es[k].0@ == t);
                                    } else if k == i {
                                    } else {
                                        assert(es[k - 1].0@ == t);
                                    }
                                }
                            }
                            lemma_lookup_absent(es, t);
                            lemma_lookup_absent(es2, t);
                        }
                    }
                }
            }
        }
    }
}

/// Updating one entry changes the sum by the difference of the counts.
proof fn lemma_sum_update(es: Seq<(Vec<char>, u64)>, k: int, e: (Vec<char>, u64))
    requires
        0 <= k < es.len(),
    ensures
        sum_counts(es.update(k, e)) == sum_counts(es) - es[k].1 + e.1,
    decreases k,
{
    let es2 = es.update(k, e);
    if k == 0 {
        assert(es2.drop_first() =~= es.drop_first());
    } else {
        assert(es2.drop_first() =~= es.drop_first().update(k - 1, e));
        lemma_sum_update(es.drop_first(), k - 1, e);
        assert(es.drop_first()[k - 1] == es[k]);
    }
}

/// Inserting an entry adds its count to the sum.
proof fn lemma_sum_insert(es: Seq<(Vec<char>, u64)>, k: int, e: (Vec<char>, u64))
    requires
        0 <= k <= es.len(),
    ensures
        sum_counts(es.insert(k, e)) == sum_counts(es) + e.1,
    decreases k,
{
    let es2 = es.insert(k, e);
    if k == 0 {
        assert(es2.drop_first() =~= es);
    } else {
        assert(es2[0] == es[0]);
        assert(es2.drop_first() =~= es.drop_first().insert(k - 1, e));
        lemma_sum_insert(es.drop_first(), k - 1, e);
    }
}

/// Builds the term-frequency table of a character buffer: every token is
/// normalized and counted, and the cached total is the token count.
pub fn tf_of_chars(text: &[char]) -> (tf: TermFreqTable)
    ensures
        tf.wf(),
        tf.counts(norm_tokens_spec(text@)),
        tf.total as nat == tokens_of(text@).len(),
{
    let mut tf = TermFreqTable::new();
    let n_text = text.len();
    let mut lx = Lexer::new(text);
    let ghost mut done: Seq<Seq<char>> = Seq::empty();
    proof {
        assert(text@.len() <= usize::MAX);
        lemma_tokens_len(text@);
        assert(tokens_of(text@) =~= done + tokens_of(lx.content@));
        assert forall|t: Seq<char>| #[trigger]
            lookup(tf.entries@, t) == occ(done.map_values(|x: Seq<char>| normalize_spec(x)), t)
            by {
            assert(done.map_values(|x: Seq<char>| normalize_spec(x)).len() == 0);
        }
    }
    loop
        invariant
            tf.wf(),
            tokens_of(text@) == done + tokens_of(lx.content@),
            done.len() + tokens_of(lx.content@).len() <= text@.len(),
            text@.len() <= usize::MAX,
            tf.total == done.len(),
            forall|t: Seq<char>| #[trigger]
                lookup(tf.entries@, t) == occ(
                    done.map_values(|x: Seq<char>| normalize_spec(x)),
                    t,
                ),
        ensures
            tf.wf(),
            done == tokens_of(text@),
            tf.total == done.len(),
            forall|t: Seq<char>| #[trigger]
                lookup(tf.entries@, t) == occ(
                    done.map_values(|x: Seq<char>| normalize_spec(x)),
                    t,
                ),
        decreases lx.content@.len(),
    {
        let ghost content0 = lx.content@;
        match lx.next_token() {
            None => {
                proof {
                    assert(tokens_of(content0).len() == 0);
                    assert(done =~= tokens_of(text@));
                }
                break ;
            },
            Some(tok) => {
                let term = normalize_token(tok);
                proof {
                    lemma_tokens_len(lx.content@);
                    assert(tokens_of(content0).len() >= 1);
                    assert(done.len() + 1 <= text@.len());
                }
                tf.increment(term);
                proof {
                    let ghost done2 = done.push(tok@);
                    assert(tokens_of(text@) =~= done2 + tokens_of(lx.content@)) by {
                        assert(tokens_of(content0) =~= seq![tok@] + tokens_of(lx.content@));
                    }
                    let nf = |x: Seq<char>| normalize_spec(x);
                    assert(done2.map_values(nf) =~= done.map_values(nf).push(
                        normalize_spec(tok@),
                    ));
                    assert forall|t: Seq<char>| #[trigger]
                        lookup(tf.entries@, t) == occ(done2.map_values(nf), t) by {
                        assert(done2.map_values(nf).drop_last() =~= done.map_values(nf));
                        assert(done2.map_values(nf).last() == normalize_spec(tok@));
                    }
                    done = done2;
                }
            },
        }
    }
    tf
}

/// Builds the term-frequency table of one document.
pub fn index_document(doc_content: &str) -> (tf: TermFreqTable)
    ensures
        tf.wf(),
        tf.counts(norm_tokens_spec(doc_content@)),
        tf.total as nat == tokens_of(doc_content@).len(),
{
    let chars = text_chars(doc_content);
    tf_of_chars(chars.as_slice())
}

/// For any document, the counts of its table sum to exactly the document's
/// token count, and no key maps to zero: absent terms are never stored.
pub proof fn lemma_counts_sum_to_token_count(tf: TermFreqTable, s: Seq<char>)
    requires
        tf.wf(),
        tf.total as nat == tokens_of(s).len(),
    ensures
        sum_counts(tf.entries@) == tokens_of(s).len(),
        forall|k: int| 0 <= k < tf.entries@.len() ==> (#[trigger] tf.entries@[k]).1 >= 1,
{
}

/// The normalized terms of a text, in token order: the query-side twin of
/// `tf_of_chars`.
pub fn tokenize_terms(text: &[char]) -> (r: Vec<Vec<char>>)
    ensures
        r.deep_view() == norm_tokens_spec(text@),
        r@.len() == tokens_of(text@).len(),
{
    let mut out: Vec<Vec<char>> = Vec::new();
    let mut lx = Lexer::new(text);
    let ghost mut done: Seq<Seq<char>> = Seq::empty();
    proof {
        assert(tokens_of(text@) =~= done + tokens_of(lx.content@));
        assert(out.deep_view() =~~= done.map_values(|x: Seq<char>| normalize_spec(x)));
    }
    loop
        invariant
            tokens_of(text@) == done + tokens_of(lx.content@),
            out.deep_view() == done.map_values(|x: Seq<char>| normalize_spec(x)),
            out@.len() == done.len(),
        ensures
            done == tokens_of(text@),
            out.deep_view() == done.map_values(|x: Seq<char>| normalize_spec(x)),
            out@.len() == done.len(),
        decreases lx.content@.len(),
    {
        let ghost content0 = lx.content@;
        match lx.next_token() {
            None => {
                proof {
                    assert(done =~= tokens_of(text@));
                }
                break ;
            },
            Some(tok) => {
                let term = normalize_token(tok);
                let ghost dv0 = out.deep_view();
                let ghost out0 = out@;
                out.push(term);
                proof {
                    let nf = |x: Seq<char>| normalize_spec(x);
                    let done2 = done.push(tok@);
                    assert(tokens_of(text@) =~= done2 + tokens_of(lx.content@)) by {
                        assert(tokens_of(content0) =~= seq![tok@] + tokens_of(lx.content@));
                    }
                    assert(term.deep_view() =~= term@);
                    assert forall|i: int| 0 <= i < out@.len() implies out.deep_view()[i]
                        == done2.map_values(nf)[i] by {
                        if i < out0.len() {
                            assert(out@[i] == out0[i]);
                            assert(dv0[i] == out0[i].deep_view());
                            assert(dv0[i] == done.map_values(nf)[i]);
                        } else {
                            assert(out@[i] == term);
                        }
                    }
                    assert(out.deep_view() =~= done2.map_values(nf));
                    done = done2;
                }
            },
        }
    }
    proof {
        assert(norm_tokens_spec(text@) == done.map_values(|x: Seq<char>| normalize_spec(x)));
    }
    out
}

} // verus!

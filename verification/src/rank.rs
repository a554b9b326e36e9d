//! The ranking engine: TF-IDF scoring over the corpus index.
//!
//! Scores are exact rationals.  For one document, the score numerator is the
//! sum, over the query's normalized terms, of the term's count in the
//! document times the term's corpus weight; the denominator is the
//! document's total token count, so longer documents are not favored.  The
//! corpus weight is a base-two integer logarithm of (corpus size / documents
//! containing the term), so rarer terms weigh more and a term present
//! everywhere weighs nothing.  Results are ordered by descending score, ties
//! broken by ascending document identifier, which makes the ranking a
//! function: equal inputs give the equal output, proved below.

use vstd::prelude::*;

use crate::chars::lemma_lex_lt_trans;
use crate::chars::lemma_lex_lt_trichotomy;
use crate::chars::lex_cmp;
use crate::chars::lex_lt;
use crate::index::CorpusIndex;
use crate::index::DocEntry;
use crate::tf::lookup;
use vstd::relations::sorted_by;
use vstd::relations::total_ordering;
use vstd::seq_lib::lemma_sorted_unique;
use vstd::slice::slice_to_vec;

verus! {

/// Floor of the base-two logarithm; zero below two.
pub open spec fn flog2(n: int) -> int
    decreases n,
{
    if n < 2 {
        0
    } else {
        1 + flog2(n / 2)
    }
}

pub proof fn lemma_flog2_nonneg(n: int)
    ensures
        flog2(n) >= 0,
    decreases n,
{
    if n >= 2 {
        lemma_flog2_nonneg(n / 2);
    }
}

/// The integer logarithm is monotone.
pub proof fn lemma_flog2_mono(m: int, n: int)
    requires
        m <= n,
    ensures
        flog2(m) <= flog2(n),
    decreases n,
{
    if m < 2 {
        lemma_flog2_nonneg(n);
    } else {
        lemma_flog2_mono(m / 2, n / 2);
    }
}

spec fn pow2i(k: int) -> int
    decreases k,
{
    if k <= 0 {
        1
    } else {
        2 * pow2i(k - 1)
    }
}

proof fn lemma_flog2_lt(n: int, k: int)
    requires
        k >= 1,
        n < pow2i(k),
    ensures
        flog2(n) < k,
    decreases k,
{
    if n < 2 {
    } else {
        assert(pow2i(k) == 2 * pow2i(k - 1));
        lemma_flog2_lt(n / 2, k - 1);
    }
}

/// Any count of documents fits sixty-three weight steps.
pub proof fn lemma_flog2_bound(n: int)
    requires
        n <= 0xFFFF_FFFF_FFFF_FFFF,
    ensures
        flog2(n) <= 63,
{
    assert(pow2i(64) == 0x1_0000_0000_0000_0000) by {
        reveal_with_fuel(pow2i, 65);
    }
    lemma_flog2_lt(n, 64);
}

/// Exact integer logarithm, executable.
pub fn floor_log2(n: u64) -> (r: u64)
    ensures
        r as int == flog2(n as int),
        r <= 63,
{
    let mut m: u64 = n;
    let mut r: u64 = 0;
    proof {
        lemma_flog2_bound(n as int);
        lemma_flog2_nonneg(m as int);
    }
    while m >= 2
        invariant
            flog2(n as int) == r + flog2(m as int),
            r + flog2(m as int) <= 63,
            flog2(m as int) >= 0,
        decreases m,
    {
        m = m / 2;
        r = r + 1;
        proof {
            lemma_flog2_nonneg(m as int);
        }
    }
    r
}

/// Inverse document frequency weight for a term occurring in `df` of `n`
/// documents: the logarithm of their ratio, never negative.
pub open spec fn idf_spec(n: int, df: int) -> int {
    flog2(n) - flog2(
        if df < 1 {
            1
        } else {
            df
        },
    )
}

/// Rarer terms never weigh less: the weight is antitone in the document
/// frequency.
pub proof fn lemma_idf_antitone(n: int, df1: int, df2: int)
    requires
        df1 <= df2,
    ensures
        idf_spec(n, df1) >= idf_spec(n, df2),
{
    let m1: int = if df1 < 1 {
        1
    } else {
        df1
    };
    let m2: int = if df2 < 1 {
        1
    } else {
        df2
    };
    lemma_flog2_mono(m1, m2);
}

pub proof fn lemma_idf_nonneg(n: int, df: int)
    requires
        df <= n,
    ensures
        idf_spec(n, df) >= 0,
{
    let m: int = if df < 1 {
        1
    } else {
        df
    };
    if m <= n {
        lemma_flog2_mono(m, n);
    } else {
        // only possible when n < 1, where both logarithms vanish
        lemma_flog2_nonneg(n);
    }
}

/// Number of documents whose table records term `t`.
pub open spec fn df_count(docs: Seq<DocEntry>, t: Seq<char>) -> int
    decreases docs.len(),
{
    if docs.len() == 0 {
        0
    } else {
        df_count(docs.drop_last(), t) + if lookup(docs.last().table.entries@, t) >= 1 {
            1int
        } else {
            0int
        }
    }
}

pub proof fn lemma_df_count_range(docs: Seq<DocEntry>, t: Seq<char>)
    ensures
        0 <= df_count(docs, t) <= docs.len(),
    decreases docs.len(),
{
    if docs.len() > 0 {
        lemma_df_count_range(docs.drop_last(), t);
    }
}

/// Counts the documents containing `term`.
pub fn df_of(index: &CorpusIndex, term: &[char]) -> (r: u64)
    ensures
        r as int == df_count(index.docs@, term@),
{
    let docs = &index.docs;
    let mut r: u64 = 0;
    let mut k: usize = 0;
    proof {
        assert(docs@.take(0) =~= Seq::<DocEntry>::empty());
        lemma_df_count_range(docs@.take(0), term@);
    }
    while k < docs.len()
        invariant
            k <= docs@.len(),
            docs == &index.docs,
            r as int == df_count(docs@.take(k as int), term@),
            r <= k,
        decreases docs@.len() - k,
    {
        proof {
            assert(docs@.take(k + 1).drop_last() =~= docs@.take(k as int));
            assert(docs@.take(k + 1).last() == docs@[k as int]);
            assert(usize::MAX <= u64::MAX);
        }
        if docs[k].table.count_of(term) >= 1 {
            r = r + 1;
        }
        k = k + 1;
    }
    proof {
        assert(docs@.take(docs@.len() as int) =~= docs@);
    }
    r
}

/// Score numerator of a document with entries `es` for query terms `q`,
/// over a corpus `all`.
pub open spec fn score_num_spec(all: Seq<DocEntry>, q: Seq<Seq<char>>, es: Seq<(Vec<char>, u64)>) -> int
    decreases q.len(),
{
    if q.len() == 0 {
        0
    } else {
        score_num_spec(all, q.drop_last(), es) + lookup(es, q.last()) * idf_spec(
            all.len() as int,
            df_count(all, q.last()),
        )
    }
}

/// A document matches the query when it shares at least one term with it.
pub open spec fn matches_spec(es: Seq<(Vec<char>, u64)>, q: Seq<Seq<char>>) -> bool {
    exists|i: int| 0 <= i < q.len() && lookup(es, #[trigger] q[i]) >= 1
}

/// One scored result: a document identifier with its exact rational score,
/// numerator and denominator.
#[derive(Debug)]
pub struct ScoredResult {
    pub doc_id: Vec<char>,
    pub num: u128,
    pub den: u64,
}

/// The mathematical content of one result.
pub open spec fn rv(r: ScoredResult) -> (int, int, Seq<char>) {
    (r.num as int, r.den as int, r.doc_id@)
}

pub open spec fn results_view(rs: Seq<ScoredResult>) -> Seq<(int, int, Seq<char>)> {
    rs.map_values(|x: ScoredResult| rv(x))
}

/// A denominator read as a positive quantity.
pub open spec fn dpos(d: int) -> int {
    if d < 1 {
        1
    } else {
        d
    }
}

/// Result order: higher score first; equal scores by ascending identifier;
/// equal identifiers by the raw numerator and denominator, so the relation
/// is a total order on all values.
pub open spec fn rank_le(a: (int, int, Seq<char>), b: (int, int, Seq<char>)) -> bool {
    let x = a.0 * dpos(b.1);
    let y = b.0 * dpos(a.1);
    ||| x > y
    ||| (x == y && lex_lt(a.2, b.2))
    ||| (x == y && a.2 == b.2 && (a.0 < b.0 || (a.0 == b.0 && a.1 <= b.1)))
}

pub open spec fn rank_leq() -> spec_fn((int, int, Seq<char>), (int, int, Seq<char>)) -> bool {
    |a: (int, int, Seq<char>), b: (int, int, Seq<char>)| rank_le(a, b)
}

proof fn lemma_frac_trans(a0: int, da: int, b0: int, db: int, c0: int, dc: int)
    requires
        da >= 1,
        db >= 1,
        dc >= 1,
        a0 * db >= b0 * da,
        b0 * dc >= c0 * db,
    ensures
        a0 * dc >= c0 * da,
        a0 * db > b0 * da || b0 * dc > c0 * db ==> a0 * dc > c0 * da,
{
    assert(a0 * db * dc >= b0 * da * dc && b0 * dc * da >= c0 * db * da && (a0 * db > b0 * da
        ==> a0 * db * dc > b0 * da * dc) && (b0 * dc > c0 * db ==> b0 * dc * da > c0 * db * da))
        by (nonlinear_arith)
        requires
            da >= 1,
            db >= 1,
            dc >= 1,
            a0 * db >= b0 * da,
            b0 * dc >= c0 * db,
    ;
    assert(a0 * db * dc == a0 * dc * db && b0 * da * dc == b0 * dc * da && c0 * db * da == c0 * da
        * db) by (nonlinear_arith);
    assert(a0 * dc * db >= c0 * da * db ==> a0 * dc >= c0 * da) by (nonlinear_arith)
        requires
            db >= 1,
    ;
    assert(a0 * dc * db > c0 * da * db ==> a0 * dc > c0 * da) by (nonlinear_arith)
        requires
            db >= 1,
    ;
}

/// The result order is a total order.
pub proof fn lemma_rank_total_ordering()
    ensures
        total_ordering(rank_leq()),
{
    let leq = rank_leq();
    assert forall|x: (int, int, Seq<char>)| #[trigger] leq(x, x) by {
        lemma_lex_lt_trichotomy(x.2, x.2);
    }
    assert forall|x: (int, int, Seq<char>), y: (int, int, Seq<char>)|
        #[trigger] leq(x, y) && #[trigger] leq(y, x) implies x == y by {
        lemma_lex_lt_trichotomy(x.2, y.2);
        assert(x.0 * dpos(y.1) == y.0 * dpos(x.1));
        assert(x.2 == y.2);
        assert(x.0 == y.0 && x.1 == y.1);
        assert(x =~= y) by {
            assert(x == (x.0, x.1, x.2));
            assert(y == (y.0, y.1, y.2));
        }
    }
    assert forall|x: (int, int, Seq<char>), y: (int, int, Seq<char>)| #[trigger]
        leq(x, y) || #[trigger] leq(y, x) by {
        lemma_lex_lt_trichotomy(x.2, y.2);
    }
    assert forall|x: (int, int, Seq<char>), y: (int, int, Seq<char>), z: (int, int, Seq<char>)|
        #[trigger] leq(x, y) && #[trigger] leq(y, z) implies leq(x, z) by {
        lemma_frac_trans(x.0, dpos(x.1), y.0, dpos(y.1), z.0, dpos(z.1));
        if x.0 * dpos(z.1) == z.0 * dpos(x.1) {
            // equal scores: identifiers settle the order
            if lex_lt(x.2, y.2) && lex_lt(y.2, z.2) {
                lemma_lex_lt_trans(x.2, y.2, z.2);
            }
        }
        lemma_lex_lt_trichotomy(x.2, y.2);
        lemma_lex_lt_trichotomy(y.2, z.2);
        lemma_lex_lt_trichotomy(x.2, z.2);
    }
}


/// The scored results of the matching documents among `docs`, in document
/// order, scored against the whole corpus `all`.
pub open spec fn scored_of(all: Seq<DocEntry>, docs: Seq<DocEntry>, q: Seq<Seq<char>>) -> Seq<
    (int, int, Seq<char>),
>
    decreases docs.len(),
{
    if docs.len() == 0 {
        Seq::empty()
    } else {
        let rest = scored_of(all, docs.drop_last(), q);
        if matches_spec(docs.last().table.entries@, q) {
            rest.push(
                (
                    score_num_spec(all, q, docs.last().table.entries@),
                    docs.last().table.total as int,
                    docs.last().id@,
                ),
            )
        } else {
            rest
        }
    }
}

/// A document sharing no term with the query never appears among the
/// scored results.
pub proof fn lemma_no_match_excluded(
    all: Seq<DocEntry>,
    docs: Seq<DocEntry>,
    q: Seq<Seq<char>>,
    id: Seq<char>,
)
    requires
        forall|k: int|
            0 <= k < docs.len() && (#[trigger] docs[k]).id@ == id ==> !matches_spec(
                docs[k].table.entries@,
                q,
            ),
    ensures
        forall|idx: int|
            0 <= idx < scored_of(all, docs, q).len() ==> (#[trigger] scored_of(all, docs, q)[idx]).2
                != id,
    decreases docs.len(),
{
    if docs.len() > 0 {
        assert forall|k: int|
            0 <= k < docs.drop_last().len() && (#[trigger] docs.drop_last()[k]).id@
                == id implies !matches_spec(docs.drop_last()[k].table.entries@, q) by {
            assert(docs.drop_last()[k] == docs[k]);
        }
        lemma_no_match_excluded(all, docs.drop_last(), q, id);
        assert(docs.last() == docs[docs.len() - 1]);
        let sc = scored_of(all, docs, q);
        let scp = scored_of(all, docs.drop_last(), q);
        assert forall|idx: int| 0 <= idx < sc.len() implies (#[trigger] sc[idx]).2 != id by {
            if idx < scp.len() {
                assert(sc[idx] == scp[idx]);
            } else {
                assert(matches_spec(docs.last().table.entries@, q));
                assert(sc[idx].2 == docs.last().id@);
            }
        }
    }
}

/// Bounds under which the score comparison cannot overflow.
pub open spec fn res_bounded(e: (int, int, Seq<char>)) -> bool {
    0 <= e.0 <= 0x40_0000_0000_0000_0000 && 0 <= e.1 <= 0xFFFF_FFFF
}

/// Three-way exact comparison of two results in the ranking order.
fn rank_le_exec(a: &ScoredResult, b: &ScoredResult) -> (le: bool)
    requires
        res_bounded(rv(*a)),
        res_bounded(rv(*b)),
    ensures
        le == rank_le(rv(*a), rv(*b)),
{
    let da: u128 = if a.den == 0 {
        1
    } else {
        a.den as u128
    };
    let db: u128 = if b.den == 0 {
        1
    } else {
        b.den as u128
    };
    proof {
        assert(a.num * db <= 0x40_0000_0000_0000_0000 * 0x1_0000_0000) by (nonlinear_arith)
            requires
                a.num <= 0x40_0000_0000_0000_0000,
                db <= 0x1_0000_0000,
        ;
        assert(b.num * da <= 0x40_0000_0000_0000_0000 * 0x1_0000_0000) by (nonlinear_arith)
            requires
                b.num <= 0x40_0000_0000_0000_0000,
                da <= 0x1_0000_0000,
        ;
    }
    let x = a.num * db;
    let y = b.num * da;
    if x > y {
        return true;
    }
    if x < y {
        return false;
    }
    let c = lex_cmp(a.doc_id.as_slice(), b.doc_id.as_slice());
    if c == -1 {
        return true;
    }
    if c == 1 {
        proof {
            lemma_lex_lt_trichotomy(rv(*a).2, rv(*b).2);
        }
        return false;
    }
    proof {
        lemma_lex_lt_trichotomy(rv(*a).2, rv(*b).2);
    }
    a.num < b.num || (a.num == b.num && a.den <= b.den)
}

/// Sorts results into the ranking order, keeping exactly the same results.
fn sort_results(v: Vec<ScoredResult>) -> (r: Vec<ScoredResult>)
    requires
        forall|k: int| 0 <= k < v@.len() ==> res_bounded(#[trigger] results_view(v@)[k]),
    ensures
        sorted_by(results_view(r@), rank_leq()),
        results_view(r@).to_multiset() == results_view(v@).to_multiset(),
{
    broadcast use vstd::seq_lib::group_to_multiset_ensures;
    broadcast use vstd::multiset::group_multiset_axioms;

    proof {
        lemma_rank_total_ordering();
    }
    let mut rest = v;
    let mut out: Vec<ScoredResult> = Vec::new();
    proof {
        assert(results_view(out@) =~= Seq::<(int, int, Seq<char>)>::empty());
        assert(results_view(out@).to_multiset().add(results_view(rest@).to_multiset())
            =~= results_view(v@).to_multiset());
    }
    while rest.len() > 0
        invariant
            results_view(out@).to_multiset().add(results_view(rest@).to_multiset())
                == results_view(v@).to_multiset(),
            sorted_by(results_view(out@), rank_leq()),
            forall|x: int, y: int|
                0 <= x < out@.len() && 0 <= y < rest@.len() ==> rank_le(
                    #[trigger] results_view(out@)[x],
                    #[trigger] results_view(rest@)[y],
                ),
            forall|k: int| 0 <= k < rest@.len() ==> res_bounded(#[trigger] results_view(rest@)[k]),
        decreases rest@.len(),
    {
        let ghost rest0 = rest@;
        let mut best: usize = 0;
        let mut j: usize = 1;
        proof {
            lemma_rank_total_ordering();
            let leq = rank_leq();
            assert(leq(results_view(rest@)[0], results_view(rest@)[0]));
        }
        while j < rest.len()
            invariant
                rest@ == rest0,
                rest@.len() > 0,
                best < j,
                j <= rest@.len(),
                forall|jj: int|
                    0 <= jj < j ==> rank_le(
                        results_view(rest@)[best as int],
                        #[trigger] results_view(rest@)[jj],
                    ),
                forall|k: int|
                    0 <= k < rest@.len() ==> res_bounded(#[trigger] results_view(rest@)[k]),
            decreases rest@.len() - j,
        {
            proof {
                lemma_rank_total_ordering();
                assert(results_view(rest@)[j as int] == rv(rest@[j as int]));
                assert(results_view(rest@)[best as int] == rv(rest@[best as int]));
            }
            if rank_le_exec(&rest[j], &rest[best]) {
                proof {
                    let leq = rank_leq();
                    assert forall|jj: int| 0 <= jj < j + 1 implies rank_le(
                        results_view(rest@)[j as int],
                        #[trigger] results_view(rest@)[jj],
                    ) by {
                        if jj < j {
                            assert(leq(results_view(rest@)[j as int], results_view(
                                rest@,
                            )[best as int]));
                            assert(leq(results_view(rest@)[best as int], results_view(
                                rest@,
                            )[jj]));
                        }
                    }
                }
                best = j;
            } else {
                proof {
                    let leq = rank_leq();
                    assert(leq(results_view(rest@)[best as int], results_view(rest@)[j as int])
                        || leq(results_view(rest@)[j as int], results_view(rest@)[best as int]));
                }
            }
            j = j + 1;
        }
        let ghost bv = rv(rest0[best as int]);
        let ghost out0 = out@;
        let e = rest.remove(best);
        out.push(e);
        proof {
            let leq = rank_leq();
            lemma_rank_total_ordering();
            assert(rv(e) == bv);
            assert(results_view(rest0)[best as int] == bv);
            results_view(rest0).to_multiset_ensures();
            results_view(out@.drop_last()).to_multiset_ensures();
            assert(results_view(rest@) =~= results_view(rest0).remove(best as int));
            assert(results_view(rest0).remove(best as int).to_multiset() =~= results_view(
                rest0,
            ).to_multiset().remove(bv));
            assert(out@.drop_last() =~= out0);
            assert(results_view(out@) =~= results_view(out0).push(bv));
            assert(results_view(out@).to_multiset() =~= results_view(out0).to_multiset().insert(
                bv,
            ));
            assert(results_view(rest0).to_multiset().count(bv) >= 1) by {
                assert(results_view(rest0)[best as int] == bv);
                assert(results_view(rest0).contains(bv));
            }
            assert(results_view(out@).to_multiset().add(results_view(rest@).to_multiset())
                =~= results_view(out0).to_multiset().add(results_view(rest0).to_multiset()));
            // sortedness: the new last element is above everything before it
            assert forall|x: int, y: int|
                0 <= x < y < out@.len() implies leq(
                #[trigger] results_view(out@)[x],
                #[trigger] results_view(out@)[y],
            ) by {
                if y < out@.len() - 1 {
                    assert(results_view(out@)[x] == results_view(out0)[x]);
                    assert(results_view(out@)[y] == results_view(out0)[y]);
                } else {
                    assert(results_view(out@)[y] == bv);
                    assert(results_view(out@)[x] == results_view(out0)[x]);
                    assert(rank_le(results_view(out0)[x], results_view(rest0)[best as int]));
                }
            }
            // every element already placed stays below everything remaining
            assert forall|x: int, y: int|
                0 <= x < out@.len() && 0 <= y < rest@.len() implies rank_le(
                #[trigger] results_view(out@)[x],
                #[trigger] results_view(rest@)[y],
            ) by {
                let yy: int = if y < best {
                    y
                } else {
                    y + 1
                };
                assert(results_view(rest@)[y] == results_view(rest0)[yy]);
                if x < out@.len() - 1 {
                    assert(results_view(out@)[x] == results_view(out0)[x]);
                    assert(rank_le(results_view(out0)[x], results_view(rest0)[yy]));
                } else {
                    assert(results_view(out@)[x] == bv);
                    assert(rank_le(bv, results_view(rest0)[yy]));
                }
            }
            assert forall|k: int| 0 <= k < rest@.len() implies res_bounded(
                #[trigger] results_view(rest@)[k],
            ) by {
                let kk: int = if k < best {
                    k
                } else {
                    k + 1
                };
                assert(results_view(rest@)[k] == results_view(rest0)[kk]);
            }
        }
    }
    out
}

/// Scores every document of the index against the normalized query terms
/// and returns the matching documents in ranking order: descending score,
/// ties by ascending identifier.  The result is exactly the scored matching
/// set, sorted; no unmatched document ever appears.  The bounds on the
/// query length and on the document totals keep the exact rational score
/// comparisons within machine arithmetic.
pub fn search(index: &CorpusIndex, q: &Vec<Vec<char>>) -> (r: Vec<ScoredResult>)
    requires
        index.wf(),
        index.bounded(),
        q@.len() <= 0x1_0000_0000,
    ensures
        sorted_by(results_view(r@), rank_leq()),
        results_view(r@).to_multiset() == scored_of(
            index.docs@,
            index.docs@,
            q.deep_view(),
        ).to_multiset(),
{
    let ghost docs = index.docs@;
    let ghost qv = q.deep_view();
    let n_docs = index.docs.len();
    proof {
        assert(usize::MAX <= u64::MAX);
        lemma_flog2_bound(n_docs as int);
    }
    // corpus weight of each query term
    let mut idfs: Vec<u64> = Vec::new();
    let mut i: usize = 0;
    while i < q.len()
        invariant
            i <= q@.len(),
            qv == q.deep_view(),
            docs == index.docs@,
            n_docs == docs.len(),
            idfs@.len() == i,
            forall|j: int|
                0 <= j < i ==> (#[trigger] idfs@[j]) as int == idf_spec(
                    docs.len() as int,
                    df_count(docs, qv[j]),
                ) && idfs@[j] <= 63,
        decreases q@.len() - i,
    {
        let df = df_of(index, q[i].as_slice());
        proof {
            assert(q@[i as int]@ == qv[i as int]);
            lemma_df_count_range(docs, qv[i as int]);
        }
        let m: u64 = if df < 1 {
            1
        } else {
            df
        };
        let la = floor_log2(n_docs as u64);
        let lb = floor_log2(m);
        proof {
            if m as int <= n_docs as int {
                lemma_flog2_mono(m as int, n_docs as int);
            } else {
                assert(df == 0 && n_docs == 0);
            }
        }
        idfs.push(la - lb);
        i = i + 1;
    }
    // score each document
    let mut out: Vec<ScoredResult> = Vec::new();
    let mut k: usize = 0;
    proof {
        assert(docs.take(0) =~= Seq::<DocEntry>::empty());
        assert(results_view(out@) =~= scored_of(docs, docs.take(0), qv));
    }
    while k < index.docs.len()
        invariant
            k <= docs.len(),
            docs == index.docs@,
            n_docs == docs.len(),
            qv == q.deep_view(),
            q@.len() <= 0x1_0000_0000,
            idfs@.len() == q@.len(),
            index.wf(),
            index.bounded(),
            forall|j: int|
                0 <= j < q@.len() ==> (#[trigger] idfs@[j]) as int == idf_spec(
                    docs.len() as int,
                    df_count(docs, qv[j]),
                ) && idfs@[j] <= 63,
            results_view(out@) == scored_of(docs, docs.take(k as int), qv),
            forall|x: int| 0 <= x < out@.len() ==> res_bounded(#[trigger] results_view(out@)[x]),
        decreases docs.len() - k,
    {
        let entry = &index.docs[k];
        let ghost es = entry.table.entries@;
        let mut num: u128 = 0;
        let mut matched: bool = false;
        let mut i2: usize = 0;
        proof {
            assert(qv.take(0) =~= Seq::<Seq<char>>::empty());
        }
        while i2 < q.len()
            invariant
                i2 <= q@.len(),
                q@.len() <= 0x1_0000_0000,
                qv == q.deep_view(),
                docs == index.docs@,
                n_docs == docs.len(),
                idfs@.len() == q@.len(),
                es == entry.table.entries@,
                entry == &index.docs[k as int],
                k < docs.len(),
                index.wf(),
                index.bounded(),
                forall|j: int|
                    0 <= j < q@.len() ==> (#[trigger] idfs@[j]) as int == idf_spec(
                        docs.len() as int,
                        df_count(docs, qv[j]),
                    ) && idfs@[j] <= 63,
                num as int == score_num_spec(docs, qv.take(i2 as int), es),
                num <= (i2 as u128) * 0xFFFF_FFFF * 63,
                matched == matches_spec(es, qv.take(i2 as int)),
            decreases q@.len() - i2,
        {
            let c = entry.table.count_of(q[i2].as_slice());
            proof {
                assert(q@[i2 as int]@ == qv[i2 as int]);
                crate::tf::lemma_lookup_le_sum(es, qv[i2 as int]);
                assert(c <= 0xFFFF_FFFF);
                assert((c as u128) * (idfs@[i2 as int] as u128) <= 0xFFFF_FFFF * 63)
                    by (nonlinear_arith)
                    requires
                        c <= 0xFFFF_FFFF,
                        idfs@[i2 as int] <= 63,
                ;
                assert((i2 as u128) * 0xFFFF_FFFF * 63 + 0xFFFF_FFFF * 63 == (i2 + 1) as u128
                    * 0xFFFF_FFFF * 63) by (nonlinear_arith);
                assert((i2 + 1) as u128 * 0xFFFF_FFFF * 63 <= 0x1_0000_0000u128 * 0xFFFF_FFFF
                    * 63) by (nonlinear_arith)
                    requires
                        i2 + 1 <= 0x1_0000_0000,
                ;
            }
            let w = idfs[i2];
            num = num + (c as u128) * (w as u128);
            if c >= 1 {
                matched = true;
            }
            proof {
                assert(qv.take(i2 + 1).drop_last() =~= qv.take(i2 as int));
                assert(qv.take(i2 + 1).last() == qv[i2 as int]);
                assert(matched == matches_spec(es, qv.take(i2 + 1))) by {
                    if matched {
                        if c >= 1 {
                            assert(lookup(es, qv.take(i2 + 1)[i2 as int]) >= 1);
                        } else {
                            let w2 = choose|w2: int|
                                0 <= w2 < i2 && lookup(es, #[trigger] qv.take(i2 as int)[w2])
                                    >= 1;
                            assert(lookup(es, qv.take(i2 + 1)[w2]) >= 1);
                        }
                    } else {
                        if matches_spec(es, qv.take(i2 + 1)) {
                            let w2 = choose|w2: int|
                                0 <= w2 < i2 + 1 && lookup(es, #[trigger] qv.take(i2 + 1)[w2])
                                    >= 1;
                            if w2 < i2 {
                                assert(lookup(es, qv.take(i2 as int)[w2]) >= 1);
                            }
                        }
                    }
                }
            }
            i2 = i2 + 1;
        }
        proof {
            assert(qv.take(q@.len() as int) =~= qv);
            assert(docs.take(k + 1).drop_last() =~= docs.take(k as int));
            assert(docs.take(k + 1).last() == docs[k as int]);
            assert(num <= 0x1_0000_0000u128 * 0xFFFF_FFFF * 63) by (nonlinear_arith)
                requires
                    num <= (i2 as u128) * 0xFFFF_FFFF * 63,
                    i2 <= 0x1_0000_0000,
            ;
        }
        if matched {
            let id = slice_to_vec(entry.id.as_slice());
            let den = entry.table.total;
            let sr = ScoredResult { doc_id: id, num, den };
            let ghost out0 = out@;
            out.push(sr);
            proof {
                assert(results_view(out@) =~= results_view(out0).push(rv(sr)));
                assert(rv(sr) == (
                    score_num_spec(docs, qv, es),
                    docs[k as int].table.total as int,
                    docs[k as int].id@,
                ));
                assert(results_view(out@) =~= scored_of(docs, docs.take(k + 1), qv));
            }
        } else {
            proof {
                assert(results_view(out@) =~= scored_of(docs, docs.take(k + 1), qv));
            }
        }
        k = k + 1;
    }
    proof {
        assert(docs.take(docs.len() as int) =~= docs);
    }
    sort_results(out)
}

/// The ranking is deterministic: any two sorted sequences holding the same
/// scored results are one and the same sequence, so `search` is a function
/// of the index and the query alone.
pub proof fn lemma_search_deterministic(
    x: Seq<(int, int, Seq<char>)>,
    y: Seq<(int, int, Seq<char>)>,
)
    requires
        sorted_by(x, rank_leq()),
        sorted_by(y, rank_leq()),
        x.to_multiset() == y.to_multiset(),
    ensures
        x == y,
{
    lemma_rank_total_ordering();
    lemma_sorted_unique(x, y, rank_leq());
}

/// In a ranked sequence, a strictly better result stands strictly earlier.
pub proof fn lemma_rank_position(s: Seq<(int, int, Seq<char>)>, i: int, j: int)
    requires
        sorted_by(s, rank_leq()),
        0 <= i < s.len(),
        0 <= j < s.len(),
        rank_le(s[i], s[j]),
        !rank_le(s[j], s[i]),
    ensures
        i < j,
{
    let leq = rank_leq();
    lemma_rank_total_ordering();
    if j < i {
        assert(leq(s[j], s[i]));
    }
    if i == j {
        assert(leq(s[i], s[i]));
    }
}

/// Term frequency dominates when the corpus weight is equal and positive:
/// with a single-term query, the document with the strictly greater
/// count-to-length ratio ranks strictly higher.
pub proof fn lemma_tf_dominates(all: Seq<DocEntry>, t: Seq<char>, a: DocEntry, b: DocEntry)
    requires
        lookup(a.table.entries@, t) * (b.table.total as int) > lookup(b.table.entries@, t) * (
        a.table.total as int),
        idf_spec(all.len() as int, df_count(all, t)) >= 1,
        a.table.total >= 1,
        b.table.total >= 1,
    ensures
        rank_le(
            (score_num_spec(all, seq![t], a.table.entries@), a.table.total as int, a.id@),
            (score_num_spec(all, seq![t], b.table.entries@), b.table.total as int, b.id@),
        ),
        !rank_le(
            (score_num_spec(all, seq![t], b.table.entries@), b.table.total as int, b.id@),
            (score_num_spec(all, seq![t], a.table.entries@), a.table.total as int, a.id@),
        ),
{
    let ca = lookup(a.table.entries@, t) as int;
    let cb = lookup(b.table.entries@, t) as int;
    let ta = a.table.total as int;
    let tb = b.table.total as int;
    let idf = idf_spec(all.len() as int, df_count(all, t));
    assert(seq![t].drop_last() =~= Seq::<Seq<char>>::empty());
    assert(seq![t].last() == t);
    assert(score_num_spec(all, Seq::<Seq<char>>::empty(), a.table.entries@) == 0);
    assert(score_num_spec(all, Seq::<Seq<char>>::empty(), b.table.entries@) == 0);
    assert(score_num_spec(all, seq![t], a.table.entries@) == ca * idf);
    assert(score_num_spec(all, seq![t], b.table.entries@) == cb * idf);
    assert(ca * idf * tb > cb * idf * ta) by (nonlinear_arith)
        requires
            ca * tb > cb * ta,
            idf >= 1,
            ca >= 0,
            cb >= 0,
            ta >= 1,
            tb >= 1,
    ;
    assert(dpos(ta) == ta && dpos(tb) == tb);
    assert((ca * idf) * tb == ca * idf * tb) by (nonlinear_arith);
    assert((cb * idf) * ta == cb * idf * ta) by (nonlinear_arith);
}

/// Rarity dominates when term frequency is equal: with a two-term query,
/// the document holding only the more heavily weighted term ranks strictly
/// above the document holding only the lighter one, at equal counts and
/// equal lengths.
pub proof fn lemma_rare_term_wins(
    all: Seq<DocEntry>,
    t1: Seq<char>,
    t2: Seq<char>,
    a: DocEntry,
    b: DocEntry,
)
    requires
        t1 != t2,
        lookup(a.table.entries@, t1) == lookup(b.table.entries@, t2),
        lookup(a.table.entries@, t1) >= 1,
        lookup(a.table.entries@, t2) == 0,
        lookup(b.table.entries@, t1) == 0,
        a.table.total == b.table.total,
        a.table.total >= 1,
        idf_spec(all.len() as int, df_count(all, t1)) > idf_spec(all.len() as int, df_count(all, t2)),
        idf_spec(all.len() as int, df_count(all, t2)) >= 0,
    ensures
        rank_le(
            (score_num_spec(all, seq![t1, t2], a.table.entries@), a.table.total as int, a.id@),
            (score_num_spec(all, seq![t1, t2], b.table.entries@), b.table.total as int, b.id@),
        ),
        !rank_le(
            (score_num_spec(all, seq![t1, t2], b.table.entries@), b.table.total as int, b.id@),
            (score_num_spec(all, seq![t1, t2], a.table.entries@), a.table.total as int, a.id@),
        ),
{
    let c = lookup(a.table.entries@, t1) as int;
    let tt = a.table.total as int;
    let idf1 = idf_spec(all.len() as int, df_count(all, t1));
    let idf2 = idf_spec(all.len() as int, df_count(all, t2));
    let q = seq![t1, t2];
    assert(q.drop_last() =~= seq![t1]);
    assert(q.last() == t2);
    assert(seq![t1].drop_last() =~= Seq::<Seq<char>>::empty());
    assert(seq![t1].last() == t1);
    assert(score_num_spec(all, Seq::<Seq<char>>::empty(), a.table.entries@) == 0);
    assert(score_num_spec(all, Seq::<Seq<char>>::empty(), b.table.entries@) == 0);
    assert(score_num_spec(all, seq![t1], a.table.entries@) == c * idf1);
    assert(score_num_spec(all, seq![t1], b.table.entries@) == 0);
    assert(score_num_spec(all, q, a.table.entries@) == c * idf1);
    assert(score_num_spec(all, q, b.table.entries@) == c * idf2);
    assert(c * idf1 * tt > c * idf2 * tt) by (nonlinear_arith)
        requires
            c >= 1,
            tt >= 1,
            idf1 > idf2,
    ;
    assert(dpos(tt) == tt);
    assert((c * idf1) * tt == c * idf1 * tt) by (nonlinear_arith);
    assert((c * idf2) * tt == c * idf2 * tt) by (nonlinear_arith);
}

} // verus!

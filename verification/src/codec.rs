//! Index persistence: a durable, self-describing textual encoding.
//!
//! The index is written as a map of maps, in the style of JSON:
//! `{"<id>":{"<term>":<count>,...},...}` with no whitespace.  Inside a
//! string, `"` and `\` are escaped with a backslash and every other
//! character stands for itself; counts are decimal with no leading zeros.
//! Documents appear in index order, terms in their table order (ascending),
//! so equal indexes have equal encodings.  The loader accepts exactly this
//! form and rejects anything else, so a load either reproduces precisely
//! the index that was saved, or fails; `lemma_round_trip` states that a
//! saved index always loads back as itself.

use vstd::prelude::*;

use crate::chars::lex_cmp;
use crate::chars::lex_lt;
use crate::index::CorpusIndex;
use crate::index::DocEntry;
use crate::tf::entries_wf;
use crate::tf::sum_counts;
use crate::tf::TermFreqTable;

verus! {

/// The mathematical content of one table: term to count.
pub open spec fn tf_model(es: Seq<(Vec<char>, u64)>) -> Seq<(Seq<char>, int)> {
    es.map_values(|e: (Vec<char>, u64)| (e.0@, e.1 as int))
}

/// The mathematical content of the whole index.
pub open spec fn index_model(ix: CorpusIndex) -> Seq<(Seq<char>, Seq<(Seq<char>, int)>)> {
    ix.docs@.map_values(|d: DocEntry| (d.id@, tf_model(d.table.entries@)))
}

/// A table model the encoding can carry: terms strictly ascending, counts
/// at least one and within range.
pub open spec fn tf_model_wf(m: Seq<(Seq<char>, int)>) -> bool {
    &&& forall|i: int, j: int| 0 <= i < j < m.len() ==> lex_lt(m[i].0, m[j].0)
    &&& forall|k: int| 0 <= k < m.len() ==> 1 <= (#[trigger] m[k]).1 <= u64::MAX
}

/// An index model the encoding can carry: distinct identifiers, well-formed
/// tables, and per-document count sums within range.
pub open spec fn index_model_wf(m: Seq<(Seq<char>, Seq<(Seq<char>, int)>)>) -> bool {
    &&& forall|i: int, j: int| 0 <= i < j < m.len() ==> m[i].0 != m[j].0
    &&& forall|k: int| 0 <= k < m.len() ==> tf_model_wf((#[trigger] m[k]).1)
    &&& forall|k: int| 0 <= k < m.len() ==> sum_model((#[trigger] m[k]).1) <= u64::MAX
}

/// Sum of the counts of a table model.
pub open spec fn sum_model(m: Seq<(Seq<char>, int)>) -> int
    decreases m.len(),
{
    if m.len() == 0 {
        0
    } else {
        m[0].1 + sum_model(m.drop_first())
    }
}

/// Encoding of one character inside a string.
pub open spec fn enc_char(c: char) -> Seq<char> {
    if c == '"' || c == '\\' {
        seq!['\\', c]
    } else {
        seq![c]
    }
}

/// Encoding of the characters of a string, without the quotes.
pub open spec fn enc_str_body(t: Seq<char>) -> Seq<char>
    decreases t.len(),
{
    if t.len() == 0 {
        Seq::empty()
    } else {
        enc_char(t[0]) + enc_str_body(t.drop_first())
    }
}

/// A quoted, escaped string.
pub open spec fn enc_string(t: Seq<char>) -> Seq<char> {
    seq!['"'] + enc_str_body(t) + seq!['"']
}

/// The character of one decimal digit.
pub open spec fn digit_of(d: int) -> char {
    if d == 0 {
        '0'
    } else if d == 1 {
        '1'
    } else if d == 2 {
        '2'
    } else if d == 3 {
        '3'
    } else if d == 4 {
        '4'
    } else if d == 5 {
        '5'
    } else if d == 6 {
        '6'
    } else if d == 7 {
        '7'
    } else if d == 8 {
        '8'
    } else {
        '9'
    }
}

/// The digit character of a value below ten.
fn digit_char_of(d: u64) -> (c: char)
    requires
        d < 10,
    ensures
        c == digit_of(d as int),
{
    if d == 0 {
        '0'
    } else if d == 1 {
        '1'
    } else if d == 2 {
        '2'
    } else if d == 3 {
        '3'
    } else if d == 4 {
        '4'
    } else if d == 5 {
        '5'
    } else if d == 6 {
        '6'
    } else if d == 7 {
        '7'
    } else if d == 8 {
        '8'
    } else {
        '9'
    }
}

/// Canonical decimal digits of a non-negative number.
pub open spec fn enc_u64(n: int) -> Seq<char>
    decreases n,
{
    if n < 10 {
        seq![digit_of(n)]
    } else {
        enc_u64(n / 10) + seq![digit_of(n % 10)]
    }
}

/// The `"key":count` pairs of a table, comma separated.
pub open spec fn enc_tf_body(m: Seq<(Seq<char>, int)>) -> Seq<char>
    decreases m.len(),
{
    if m.len() == 0 {
        Seq::empty()
    } else {
        let head = enc_string(m[0].0) + seq![':'] + enc_u64(m[0].1);
        if m.len() == 1 {
            head
        } else {
            head + seq![','] + enc_tf_body(m.drop_first())
        }
    }
}

/// A whole table, in braces.
pub open spec fn enc_tf(m: Seq<(Seq<char>, int)>) -> Seq<char> {
    seq!['{'] + enc_tf_body(m) + seq!['}']
}

/// The `"id":{...}` pairs of the index, comma separated.
pub open spec fn enc_index_body(m: Seq<(Seq<char>, Seq<(Seq<char>, int)>)>) -> Seq<char>
    decreases m.len(),
{
    if m.len() == 0 {
        Seq::empty()
    } else {
        let head = enc_string(m[0].0) + seq![':'] + enc_tf(m[0].1);
        if m.len() == 1 {
            head
        } else {
            head + seq![','] + enc_index_body(m.drop_first())
        }
    }
}

/// The whole index, in braces.
pub open spec fn enc_index(m: Seq<(Seq<char>, Seq<(Seq<char>, int)>)>) -> Seq<char> {
    seq!['{'] + enc_index_body(m) + seq!['}']
}

/// The string encoding splits at any character boundary.
proof fn lemma_enc_str_split(t: Seq<char>, i: int)
    requires
        0 <= i <= t.len(),
    ensures
        enc_str_body(t) == enc_str_body(t.take(i)) + enc_str_body(t.skip(i)),
    decreases i,
{
    if i == 0 {
        assert(t.take(0) =~= Seq::<char>::empty());
        assert(t.skip(0) =~= t);
        assert(enc_str_body(t.take(0)) =~= Seq::<char>::empty());
        assert(enc_str_body(t) =~= enc_str_body(t.take(0)) + enc_str_body(t.skip(0)));
    } else {
        lemma_enc_str_split(t.drop_first(), i - 1);
        assert(t.take(i).drop_first() =~= t.drop_first().take(i - 1));
        assert(t.skip(i) =~= t.drop_first().skip(i - 1));
        assert(t.take(i).len() > 0 && t.take(i)[0] == t[0]);
        assert(enc_str_body(t.take(i)) == enc_char(t[0]) + enc_str_body(t.drop_first().take(i - 1)));
        assert(enc_str_body(t) == enc_char(t[0]) + enc_str_body(t.drop_first()));
        assert(enc_char(t[0]) + (enc_str_body(t.drop_first().take(i - 1)) + enc_str_body(
            t.skip(i),
        )) =~= (enc_char(t[0]) + enc_str_body(t.drop_first().take(i - 1))) + enc_str_body(
            t.skip(i),
        ));
    }
}

/// Appends the quoted, escaped form of `t`.
fn emit_string(out: &mut Vec<char>, t: &[char])
    ensures
        final(out)@ == old(out)@ + enc_string(t@),
{
    let ghost base = out@;
    out.push('"');
    let mut i: usize = 0;
    proof {
        assert(t@.take(0) =~= Seq::<char>::empty());
        assert(out@ =~= base + seq!['"'] + enc_str_body(t@.take(0)));
    }
    while i < t.len()
        invariant
            i <= t@.len(),
            out@ == base + seq!['"'] + enc_str_body(t@.take(i as int)),
        decreases t@.len() - i,
    {
        let c = t[i];
        if c == '"' || c == '\\' {
            out.push('\\');
            out.push(c);
        } else {
            out.push(c);
        }
        proof {
            lemma_enc_str_split(t@.take(i + 1), i as int);
            assert(t@.take(i + 1).take(i as int) =~= t@.take(i as int));
            assert(t@.take(i + 1).skip(i as int) =~= seq![t@[i as int]]);
            assert(enc_str_body(seq![t@[i as int]]) =~= enc_char(t@[i as int])) by {
                assert(seq![t@[i as int]].drop_first() =~= Seq::<char>::empty());
                assert(enc_str_body(Seq::<char>::empty()) =~= Seq::<char>::empty());
                assert(enc_str_body(seq![t@[i as int]]) == enc_char(t@[i as int]) + enc_str_body(
                    seq![t@[i as int]].drop_first(),
                ));
            }
            assert(out@ =~= base + seq!['"'] + enc_str_body(t@.take(i + 1)));
        }
        i = i + 1;
    }
    out.push('"');
    proof {
        assert(t@.take(t@.len() as int) =~= t@);
        assert(out@ =~= base + enc_string(t@));
    }
}

/// Appends the canonical decimal form of `n`.
fn emit_u64(out: &mut Vec<char>, n: u64)
    ensures
        final(out)@ == old(out)@ + enc_u64(n as int),
    decreases n,
{
    if n < 10 {
        out.push(digit_char_of(n));
        proof {
            assert(out@ =~= old(out)@ + enc_u64(n as int));
        }
    } else {
        emit_u64(out, n / 10);
        out.push(digit_char_of(n % 10));
        proof {
            assert(out@ =~= old(out)@ + enc_u64(n as int));
        }
    }
}

/// Appends the encoded entries of one table.
fn emit_tf_body(out: &mut Vec<char>, es: &Vec<(Vec<char>, u64)>, i: usize)
    requires
        i <= es@.len(),
    ensures
        final(out)@ == old(out)@ + enc_tf_body(tf_model(es@).skip(i as int)),
    decreases es@.len() - i,
{
    let ghost m = tf_model(es@).skip(i as int);
    if i == es.len() {
        proof {
            assert(m.len() == 0);
            assert(out@ =~= old(out)@ + enc_tf_body(m));
        }
        return ;
    }
    emit_string(out, es[i].0.as_slice());
    out.push(':');
    emit_u64(out, es[i].1);
    proof {
        assert(m[0] == tf_model(es@)[i as int]);
        assert(m[0].0 == es@[i as int].0@ && m[0].1 == es@[i as int].1 as int);
    }
    if i + 1 < es.len() {
        out.push(',');
        let ghost mid = out@;
        emit_tf_body(out, es, i + 1);
        proof {
            assert(m.drop_first() =~= tf_model(es@).skip(i + 1));
            assert(m.len() > 1);
            assert(out@ =~= old(out)@ + enc_tf_body(m));
        }
    } else {
        proof {
            assert(m.len() == 1);
            assert(out@ =~= old(out)@ + enc_tf_body(m));
        }
    }
}

/// Appends the encoded documents of the index.
fn emit_index_body(out: &mut Vec<char>, docs: &Vec<DocEntry>, i: usize)
    requires
        i <= docs@.len(),
    ensures
        final(out)@ == old(out)@ + enc_index_body(
            docs@.map_values(|d: DocEntry| (d.id@, tf_model(d.table.entries@))).skip(i as int),
        ),
    decreases docs@.len() - i,
{
    let ghost m = docs@.map_values(|d: DocEntry| (d.id@, tf_model(d.table.entries@))).skip(
        i as int,
    );
    if i == docs.len() {
        proof {
            assert(m.len() == 0);
            assert(out@ =~= old(out)@ + enc_index_body(m));
        }
        return ;
    }
    emit_string(out, docs[i].id.as_slice());
    out.push(':');
    out.push('{');
    emit_tf_body(out, &docs[i].table.entries, 0);
    out.push('}');
    proof {
        assert(m[0].0 == docs@[i as int].id@ && m[0].1 == tf_model(docs@[i as int].table.entries@));
        assert(tf_model(docs@[i as int].table.entries@).skip(0) =~= tf_model(
            docs@[i as int].table.entries@,
        ));
    }
    if i + 1 < docs.len() {
        out.push(',');
        emit_index_body(out, docs, i + 1);
        proof {
            assert(m.drop_first() =~= docs@.map_values(
                |d: DocEntry| (d.id@, tf_model(d.table.entries@)),
            ).skip(i + 1));
            assert(m.len() > 1);
            assert(out@ =~= old(out)@ + enc_index_body(m));
        }
    } else {
        proof {
            assert(m.len() == 1);
            assert(out@ =~= old(out)@ + enc_index_body(m));
        }
    }
}

/// Serializes the index to its durable textual form.
pub fn save_index(ix: &CorpusIndex) -> (out: Vec<char>)
    ensures
        out@ == enc_index(index_model(*ix)),
{
    let mut out: Vec<char> = Vec::new();
    out.push('{');
    emit_index_body(&mut out, &ix.docs, 0);
    out.push('}');
    proof {
        assert(index_model(*ix).skip(0) =~= index_model(*ix));
        assert(out@ =~= enc_index(index_model(*ix)));
    }
    out
}


/// Numeric value of a decimal digit character; ten for anything else.
pub open spec fn digit_val(c: char) -> int {
    if c == '0' {
        0
    } else if c == '1' {
        1
    } else if c == '2' {
        2
    } else if c == '3' {
        3
    } else if c == '4' {
        4
    } else if c == '5' {
        5
    } else if c == '6' {
        6
    } else if c == '7' {
        7
    } else if c == '8' {
        8
    } else if c == '9' {
        9
    } else {
        10
    }
}

/// Decoder for the inside of a quoted string, up to and including the
/// closing quote; yields the decoded text and the remaining input.
pub open spec fn dec_str_body(s: Seq<char>) -> Option<(Seq<char>, Seq<char>)>
    decreases s.len(),
{
    if s.len() == 0 {
        None
    } else if s[0] == '"' {
        Some((Seq::empty(), s.drop_first()))
    } else if s[0] == '\\' {
        if s.len() < 2 || !(s[1] == '"' || s[1] == '\\') {
            None
        } else {
            match dec_str_body(s.skip(2)) {
                None => None,
                Some((t, r)) => Some((seq![s[1]] + t, r)),
            }
        }
    } else {
        match dec_str_body(s.drop_first()) {
            None => None,
            Some((t, r)) => Some((seq![s[0]] + t, r)),
        }
    }
}

pub open spec fn dec_string(s: Seq<char>) -> Option<(Seq<char>, Seq<char>)> {
    if s.len() == 0 || s[0] != '"' {
        None
    } else {
        dec_str_body(s.drop_first())
    }
}

proof fn lemma_dec_str_body_len(s: Seq<char>)
    ensures
        dec_str_body(s) matches Some(p) ==> p.1.len() < s.len(),
    decreases s.len(),
{
    if s.len() == 0 {
    } else if s[0] == '"' {
    } else if s[0] == '\\' {
        if s.len() >= 2 && (s[1] == '"' || s[1] == '\\') {
            lemma_dec_str_body_len(s.skip(2));
        }
    } else {
        lemma_dec_str_body_len(s.drop_first());
    }
}

/// Decoder for a run of digits, accumulating left to right; stops at the
/// first non-digit and fails on overflow.
pub open spec fn dec_digits(s: Seq<char>, acc: int) -> Option<(int, Seq<char>)>
    decreases s.len(),
{
    if s.len() == 0 || digit_val(s[0]) >= 10 {
        Some((acc, s))
    } else {
        let acc2 = acc * 10 + digit_val(s[0]);
        if acc2 > u64::MAX {
            None
        } else {
            dec_digits(s.drop_first(), acc2)
        }
    }
}

/// Decoder for a canonical decimal number: at least one digit, and no
/// leading zero except the number zero itself.
pub open spec fn dec_u64(s: Seq<char>) -> Option<(int, Seq<char>)> {
    if s.len() == 0 || digit_val(s[0]) >= 10 {
        None
    } else if s[0] == '0' {
        Some((0, s.drop_first()))
    } else {
        dec_digits(s, 0)
    }
}

proof fn lemma_dec_digits_len(s: Seq<char>, acc: int)
    ensures
        dec_digits(s, acc) matches Some(p) ==> p.1.len() <= s.len(),
    decreases s.len(),
{
    if s.len() == 0 || digit_val(s[0]) >= 10 {
    } else if acc * 10 + digit_val(s[0]) <= u64::MAX {
        lemma_dec_digits_len(s.drop_first(), acc * 10 + digit_val(s[0]));
    }
}

proof fn lemma_dec_u64_len(s: Seq<char>)
    ensures
        dec_u64(s) matches Some(p) ==> p.1.len() < s.len(),
{
    if s.len() > 0 && digit_val(s[0]) < 10 && s[0] != '0' {
        if digit_val(s[0]) <= u64::MAX {
            lemma_dec_digits_len(s.drop_first(), digit_val(s[0]));
        }
    }
}

/// Decoder for the entries of a table, after the opening brace, up to and
/// including the closing brace.  Terms must be strictly ascending and
/// counts at least one: exactly what a well-formed table guarantees.
pub open spec fn dec_tf_body(s: Seq<char>) -> Option<(Seq<(Seq<char>, int)>, Seq<char>)>
    decreases s.len(),
    when s.len() >= 0
    via dec_tf_body_dec
{
    match dec_string(s) {
        None => None,
        Some((k, r1)) => {
            if r1.len() == 0 || r1[0] != ':' {
                None
            } else {
                match dec_u64(r1.drop_first()) {
                    None => None,
                    Some((n, r2)) => {
                        if n < 1 || r2.len() == 0 {
                            None
                        } else if r2[0] == '}' {
                            Some((seq![(k, n)], r2.drop_first()))
                        } else if r2[0] == ',' {
                            match dec_tf_body(r2.drop_first()) {
                                None => None,
                                Some((es, r3)) => {
                                    if es.len() > 0 && lex_lt(k, es[0].0) {
                                        Some((seq![(k, n)] + es, r3))
                                    } else {
                                        None
                                    }
                                },
                            }
                        } else {
                            None
                        }
                    },
                }
            }
        },
    }
}

#[via_fn]
proof fn dec_tf_body_dec(s: Seq<char>) {
    lemma_dec_str_body_len(s.drop_first());
    match dec_string(s) {
        Some(p1) => {
            if p1.1.len() > 0 && p1.1[0] == ':' {
                lemma_dec_u64_len(p1.1.drop_first());
            }
        },
        None => {},
    }
}

pub open spec fn dec_tf(s: Seq<char>) -> Option<(Seq<(Seq<char>, int)>, Seq<char>)> {
    if s.len() < 2 || s[0] != '{' {
        None
    } else if s[1] == '}' {
        Some((Seq::empty(), s.skip(2)))
    } else {
        dec_tf_body(s.drop_first())
    }
}

proof fn lemma_dec_tf_body_len(s: Seq<char>)
    ensures
        dec_tf_body(s) matches Some(p) ==> p.1.len() < s.len(),
    decreases s.len(),
{
    lemma_dec_str_body_len(s.drop_first());
    match dec_string(s) {
        Some(p1) => {
            if p1.1.len() > 0 && p1.1[0] == ':' {
                lemma_dec_u64_len(p1.1.drop_first());
                match dec_u64(p1.1.drop_first()) {
                    Some(p2) => {
                        if p2.0 >= 1 && p2.1.len() > 0 && p2.1[0] == ',' {
                            lemma_dec_tf_body_len(p2.1.drop_first());
                        }
                    },
                    None => {},
                }
            }
        },
        None => {},
    }
}

proof fn lemma_dec_tf_len(s: Seq<char>)
    ensures
        dec_tf(s) matches Some(p) ==> p.1.len() < s.len(),
{
    lemma_dec_tf_body_len(s.drop_first());
}

/// Whether some document of the model carries identifier `id`.
pub open spec fn has_id(m: Seq<(Seq<char>, Seq<(Seq<char>, int)>)>, id: Seq<char>) -> bool {
    exists|k: int| 0 <= k < m.len() && m[k].0 == id
}

/// Decoder for the documents of the index, after the opening brace, up to
/// and including the closing brace.  Identifiers must be pairwise distinct.
pub open spec fn dec_index_body(s: Seq<char>) -> Option<
    (Seq<(Seq<char>, Seq<(Seq<char>, int)>)>, Seq<char>),
>
    decreases s.len(),
    when s.len() >= 0
    via dec_index_body_dec
{
    match dec_string(s) {
        None => None,
        Some((k, r1)) => {
            if r1.len() == 0 || r1[0] != ':' {
                None
            } else {
                match dec_tf(r1.drop_first()) {
                    None => None,
                    Some((tf, r2)) => {
                        if r2.len() == 0 {
                            None
                        } else if r2[0] == '}' {
                            Some((seq![(k, tf)], r2.drop_first()))
                        } else if r2[0] == ',' {
                            match dec_index_body(r2.drop_first()) {
                                None => None,
                                Some((m, r3)) => {
                                    if !has_id(m, k) {
                                        Some((seq![(k, tf)] + m, r3))
                                    } else {
                                        None
                                    }
                                },
                            }
                        } else {
                            None
                        }
                    },
                }
            }
        },
    }
}

#[via_fn]
proof fn dec_index_body_dec(s: Seq<char>) {
    lemma_dec_str_body_len(s.drop_first());
    match dec_string(s) {
        Some(p1) => {
            if p1.1.len() > 0 && p1.1[0] == ':' {
                lemma_dec_tf_len(p1.1.drop_first());
            }
        },
        None => {},
    }
}

pub open spec fn dec_index(s: Seq<char>) -> Option<
    (Seq<(Seq<char>, Seq<(Seq<char>, int)>)>, Seq<char>),
> {
    if s.len() < 2 || s[0] != '{' {
        None
    } else if s[1] == '}' {
        Some((Seq::empty(), s.skip(2)))
    } else {
        dec_index_body(s.drop_first())
    }
}

/// Whether every per-document sum of counts fits the total's range.
pub open spec fn sums_ok(m: Seq<(Seq<char>, Seq<(Seq<char>, int)>)>) -> bool {
    forall|k: int| 0 <= k < m.len() ==> sum_model((#[trigger] m[k]).1) <= u64::MAX
}

/// What loading accepts: a complete canonical encoding whose per-document
/// totals fit.
pub open spec fn load_spec(s: Seq<char>) -> Option<Seq<(Seq<char>, Seq<(Seq<char>, int)>)>> {
    match dec_index(s) {
        None => None,
        Some((m, r)) => {
            if r.len() == 0 && sums_ok(m) {
                Some(m)
            } else {
                None
            }
        },
    }
}


/// Decoding inverts encoding: strings.
proof fn lemma_inv_str_body(t: Seq<char>, rest: Seq<char>)
    ensures
        dec_str_body(enc_str_body(t) + seq!['"'] + rest) == Some((t, rest)),
    decreases t.len(),
{
    let s = enc_str_body(t) + seq!['"'] + rest;
    if t.len() == 0 {
        assert(s =~= seq!['"'] + rest);
        assert(s[0] == '"');
        assert(s.drop_first() =~= rest);
        assert(dec_str_body(s) == Some((Seq::<char>::empty(), rest)));
        assert(t =~= Seq::<char>::empty());
    } else {
        let c = t[0];
        let tp = t.drop_first();
        lemma_inv_str_body(tp, rest);
        let inner = enc_str_body(tp) + seq!['"'] + rest;
        if c == '"' || c == '\\' {
            assert(s =~= seq!['\\', c] + inner);
            assert(s[0] == '\\' && s[1] == c && s.len() >= 2);
            assert(s.skip(2) =~= inner);
            assert(dec_str_body(s) == Some((seq![c] + tp, rest)));
            assert(seq![c] + tp =~= t);
        } else {
            assert(s =~= seq![c] + inner);
            assert(s[0] == c && c != '"' && c != '\\');
            assert(s.drop_first() =~= inner);
            assert(dec_str_body(s) == Some((seq![c] + tp, rest)));
            assert(seq![c] + tp =~= t);
        }
    }
}

proof fn lemma_inv_string(t: Seq<char>, rest: Seq<char>)
    ensures
        dec_string(enc_string(t) + rest) == Some((t, rest)),
{
    let s = enc_string(t) + rest;
    assert(s[0] == '"');
    assert(s.drop_first() =~= enc_str_body(t) + seq!['"'] + rest);
    lemma_inv_str_body(t, rest);
}

/// Ten to the number of digits of `n`.
spec fn tenpow_of(n: int) -> int
    decreases n,
{
    if n < 10 {
        10
    } else {
        10 * tenpow_of(n / 10)
    }
}

proof fn lemma_inv_digits(n: int, rest: Seq<char>, acc: int)
    requires
        0 <= n,
        0 <= acc,
        acc * tenpow_of(n) + n <= u64::MAX,
    ensures
        dec_digits(enc_u64(n) + rest, acc) == dec_digits(rest, acc * tenpow_of(n) + n),
    decreases n,
{
    let s = enc_u64(n) + rest;
    if n < 10 {
        assert(s =~= seq![digit_of(n)] + rest);
        assert(digit_val(digit_of(n)) == n);
        assert(acc * tenpow_of(n) + n == acc * 10 + n);
        assert(s.drop_first() =~= rest);
    } else {
        let d = n % 10;
        let rest2 = seq![digit_of(d)] + rest;
        assert(s =~= enc_u64(n / 10) + rest2);
        let mid = acc * tenpow_of(n / 10) + n / 10;
        lemma_tenpow_ge(n / 10);
        assert(tenpow_of(n) == 10 * tenpow_of(n / 10));
        assert(mid * 10 + d == acc * tenpow_of(n) + n) by (nonlinear_arith)
            requires
                mid == acc * tenpow_of(n / 10) + n / 10,
                tenpow_of(n) == 10 * tenpow_of(n / 10),
                d == n % 10,
                n >= 10,
        ;
        assert(mid >= 0) by (nonlinear_arith)
            requires
                acc >= 0,
                n >= 10,
                mid == acc * tenpow_of(n / 10) + n / 10,
                tenpow_of(n / 10) >= 10,
        ;
        lemma_inv_digits(n / 10, rest2, acc);
        assert(dec_digits(s, acc) == dec_digits(rest2, mid));
        assert(rest2[0] == digit_of(d));
        assert(digit_val(digit_of(d)) == d && d < 10);
        assert(mid * 10 + digit_val(rest2[0]) == acc * tenpow_of(n) + n);
        assert(rest2.drop_first() =~= rest);
    }
}

proof fn lemma_tenpow_ge(n: int)
    ensures
        tenpow_of(n) >= 10,
    decreases n,
{
    if n >= 10 {
        lemma_tenpow_ge(n / 10);
    }
}

proof fn lemma_enc_u64_first(n: int)
    requires
        n >= 1,
    ensures
        enc_u64(n).len() >= 1,
        enc_u64(n)[0] != '0',
        digit_val(enc_u64(n)[0]) < 10,
    decreases n,
{
    if n >= 10 {
        lemma_enc_u64_first(n / 10);
        assert(enc_u64(n)[0] == enc_u64(n / 10)[0]);
    }
}

proof fn lemma_inv_u64(n: int, rest: Seq<char>)
    requires
        1 <= n <= u64::MAX,
        rest.len() > 0 ==> digit_val(rest[0]) >= 10,
    ensures
        dec_u64(enc_u64(n) + rest) == Some((n, rest)),
{
    let s = enc_u64(n) + rest;
    lemma_enc_u64_first(n);
    assert(s[0] == enc_u64(n)[0]);
    lemma_tenpow_ge(n);
    assert(0 * tenpow_of(n) + n == n) by (nonlinear_arith);
    lemma_inv_digits(n, rest, 0);
    assert(dec_digits(s, 0) == dec_digits(rest, n));
    assert(dec_digits(rest, n) == Some((n, rest)));
}

/// Decoding inverts encoding: table bodies.
proof fn lemma_inv_tf_body(m: Seq<(Seq<char>, int)>, rest: Seq<char>)
    requires
        tf_model_wf(m),
        m.len() >= 1,
    ensures
        dec_tf_body(enc_tf_body(m) + seq!['}'] + rest) == Some((m, rest)),
    decreases m.len(),
{
    let s = enc_tf_body(m) + seq!['}'] + rest;
    let k = m[0].0;
    let n = m[0].1;
    if m.len() == 1 {
        let rest1 = seq![':'] + enc_u64(n) + seq!['}'] + rest;
        assert(s =~= enc_string(k) + rest1);
        lemma_inv_string(k, rest1);
        assert(dec_string(s) == Some((k, rest1)));
        assert(rest1[0] == ':');
        assert(rest1.drop_first() =~= enc_u64(n) + (seq!['}'] + rest));
        lemma_inv_u64(n, seq!['}'] + rest);
        assert(dec_u64(rest1.drop_first()) == Some((n, seq!['}'] + rest)));
        assert((seq!['}'] + rest)[0] == '}');
        assert((seq!['}'] + rest).drop_first() =~= rest);
        assert(dec_tf_body(s) == Some((seq![(k, n)], rest)));
        assert(seq![(k, n)] =~= m);
    } else {
        let mp = m.drop_first();
        assert(tf_model_wf(mp)) by {
            assert forall|i: int, j: int| 0 <= i < j < mp.len() implies lex_lt(
                mp[i].0,
                mp[j].0,
            ) by {
                assert(mp[i] == m[i + 1] && mp[j] == m[j + 1]);
            }
            assert forall|kk: int| 0 <= kk < mp.len() implies 1 <= (#[trigger] mp[kk]).1 <= u64::MAX by {
                assert(mp[kk] == m[kk + 1]);
            }
        }
        lemma_inv_tf_body(mp, rest);
        let tail = seq![','] + enc_tf_body(mp) + seq!['}'] + rest;
        let rest1 = seq![':'] + enc_u64(n) + tail;
        assert(s =~= enc_string(k) + rest1);
        lemma_inv_string(k, rest1);
        assert(rest1[0] == ':');
        assert(rest1.drop_first() =~= enc_u64(n) + tail);
        lemma_inv_u64(n, tail);
        assert(dec_u64(rest1.drop_first()) == Some((n, tail)));
        assert(tail[0] == ',');
        assert(tail.drop_first() =~= enc_tf_body(mp) + seq!['}'] + rest);
        assert(dec_tf_body(tail.drop_first()) == Some((mp, rest)));
        assert(mp.len() > 0 && lex_lt(k, mp[0].0)) by {
            assert(mp[0] == m[1]);
        }
        assert(dec_tf_body(s) == Some((seq![(k, n)] + mp, rest)));
        assert(seq![(k, n)] + mp =~= m);
    }
}

proof fn lemma_inv_tf(m: Seq<(Seq<char>, int)>, rest: Seq<char>)
    requires
        tf_model_wf(m),
    ensures
        dec_tf(enc_tf(m) + rest) == Some((m, rest)),
{
    let s = enc_tf(m) + rest;
    assert(s[0] == '{');
    if m.len() == 0 {
        assert(enc_tf_body(m) =~= Seq::<char>::empty());
        assert(s =~= seq!['{', '}'] + rest);
        assert(s[1] == '}');
        assert(s.skip(2) =~= rest);
        assert(m =~= Seq::<(Seq<char>, int)>::empty());
    } else {
        assert(s[1] == enc_tf_body(m)[0]);
        assert(enc_tf_body(m)[0] == '"') by {
            assert(enc_tf_body(m)[0] == (enc_string(m[0].0) + seq![':'] + enc_u64(m[0].1) + (
            if m.len() == 1 {
                Seq::<char>::empty()
            } else {
                seq![','] + enc_tf_body(m.drop_first())
            }))[0]) by {
                if m.len() == 1 {
                    assert(enc_tf_body(m) =~= enc_string(m[0].0) + seq![':'] + enc_u64(m[0].1)
                        + Seq::<char>::empty());
                } else {
                    assert(enc_tf_body(m) =~= enc_string(m[0].0) + seq![':'] + enc_u64(m[0].1)
                        + (seq![','] + enc_tf_body(m.drop_first())));
                }
            }
            assert(enc_string(m[0].0)[0] == '"');
        }
        assert(s.len() >= 2);
        assert(s.drop_first() =~= enc_tf_body(m) + seq!['}'] + rest);
        lemma_inv_tf_body(m, rest);
    }
}

/// Decoding inverts encoding: index bodies.
#[verifier::rlimit(80)]
proof fn lemma_inv_index_body(m: Seq<(Seq<char>, Seq<(Seq<char>, int)>)>, rest: Seq<char>)
    requires
        index_model_wf(m),
        m.len() >= 1,
    ensures
        dec_index_body(enc_index_body(m) + seq!['}'] + rest) == Some((m, rest)),
    decreases m.len(),
{
    let s = enc_index_body(m) + seq!['}'] + rest;
    let k = m[0].0;
    let tf = m[0].1;
    assert(tf_model_wf(tf));
    if m.len() == 1 {
        let rest1 = seq![':'] + enc_tf(tf) + seq!['}'] + rest;
        assert(s =~= enc_string(k) + rest1);
        lemma_inv_string(k, rest1);
        assert(rest1[0] == ':');
        assert(rest1.drop_first() =~= enc_tf(tf) + (seq!['}'] + rest));
        lemma_inv_tf(tf, seq!['}'] + rest);
        assert(dec_tf(rest1.drop_first()) == Some((tf, seq!['}'] + rest)));
        assert((seq!['}'] + rest)[0] == '}');
        assert((seq!['}'] + rest).drop_first() =~= rest);
        assert(dec_index_body(s) == Some((seq![(k, tf)], rest)));
        assert(seq![(k, tf)] =~= m);
    } else {
        let mp = m.drop_first();
        assert(index_model_wf(mp)) by {
            assert forall|i: int, j: int| 0 <= i < j < mp.len() implies mp[i].0 != mp[j].0 by {
                assert(mp[i] == m[i + 1] && mp[j] == m[j + 1]);
            }
            assert forall|kk: int| 0 <= kk < mp.len() implies tf_model_wf((#[trigger] mp[kk]).1)
                && sum_model(mp[kk].1) <= u64::MAX by {
                assert(mp[kk] == m[kk + 1]);
            }
        }
        lemma_inv_index_body(mp, rest);
        let tail = seq![','] + enc_index_body(mp) + seq!['}'] + rest;
        let rest1 = seq![':'] + enc_tf(tf) + tail;
        assert(s =~= enc_string(k) + rest1);
        lemma_inv_string(k, rest1);
        assert(rest1[0] == ':');
        assert(rest1.drop_first() =~= enc_tf(tf) + tail);
        lemma_inv_tf(tf, tail);
        assert(dec_tf(rest1.drop_first()) == Some((tf, tail)));
        assert(tail[0] == ',');
        assert(tail.drop_first() =~= enc_index_body(mp) + seq!['}'] + rest);
        assert(dec_index_body(tail.drop_first()) == Some((mp, rest)));
        assert(!has_id(mp, k)) by {
            if has_id(mp, k) {
                let j = choose|j: int| 0 <= j < mp.len() && mp[j].0 == k;
                assert(mp[j] == m[j + 1]);
                assert(m[0].0 != m[j + 1].0);
            }
        }
        assert(dec_index_body(s) == Some((seq![(k, tf)] + mp, rest)));
        assert(seq![(k, tf)] + mp =~= m);
    }
}

/// Every well-formed index has an encodable model, so the round trip below
/// applies to it.
pub proof fn lemma_wf_index_model(ix: CorpusIndex)
    requires
        ix.wf(),
    ensures
        index_model_wf(index_model(ix)),
{
    let m = index_model(ix);
    assert forall|i: int, j: int| 0 <= i < j < m.len() implies m[i].0 != m[j].0 by {
        assert(m[i].0 == ix.docs@[i].id@ && m[j].0 == ix.docs@[j].id@);
    }
    assert forall|k: int| 0 <= k < m.len() implies tf_model_wf((#[trigger] m[k]).1) && sum_model(
        m[k].1,
    ) <= u64::MAX by {
        let es = ix.docs@[k].table.entries@;
        assert(m[k].1 == tf_model(es));
        assert(ix.docs@[k].table.wf());
        assert forall|a: int, b: int| 0 <= a < b < tf_model(es).len() implies lex_lt(
            tf_model(es)[a].0,
            tf_model(es)[b].0,
        ) by {
            assert(tf_model(es)[a].0 == es[a].0@ && tf_model(es)[b].0 == es[b].0@);
        }
        assert forall|x: int| 0 <= x < tf_model(es).len() implies 1 <= (#[trigger] tf_model(
            es,
        )[x]).1 <= u64::MAX by {
            assert(tf_model(es)[x].1 == es[x].1 as int);
        }
        lemma_sum_model_counts(es);
    }
}

/// Every index the library can build loads back from its own encoding as
/// exactly itself: the persistence round trip.
pub proof fn lemma_round_trip(m: Seq<(Seq<char>, Seq<(Seq<char>, int)>)>)
    requires
        index_model_wf(m),
    ensures
        load_spec(enc_index(m)) == Some(m),
{
    let s = enc_index(m) + Seq::<char>::empty();
    assert(s =~= enc_index(m));
    assert(s[0] == '{');
    if m.len() == 0 {
        assert(enc_index_body(m) =~= Seq::<char>::empty());
        assert(s =~= seq!['{', '}']);
        assert(s[1] == '}');
        assert(s.skip(2) =~= Seq::<char>::empty());
        assert(dec_index(s) == Some((Seq::<(Seq<char>, Seq<(Seq<char>, int)>)>::empty(),
        Seq::<char>::empty())));
        assert(m =~= Seq::<(Seq<char>, Seq<(Seq<char>, int)>)>::empty());
    } else {
        assert(s[1] == enc_index_body(m)[0]);
        assert(enc_index_body(m)[0] == '"') by {
            if m.len() == 1 {
                assert(enc_index_body(m) =~= enc_string(m[0].0) + seq![':'] + enc_tf(m[0].1)
                    + Seq::<char>::empty());
            } else {
                assert(enc_index_body(m) =~= enc_string(m[0].0) + seq![':'] + enc_tf(m[0].1) + (
                seq![','] + enc_index_body(m.drop_first())));
            }
            assert(enc_string(m[0].0)[0] == '"');
        }
        assert(s.len() >= 2);
        assert(s.drop_first() =~= enc_index_body(m) + seq!['}'] + Seq::<char>::empty());
        lemma_inv_index_body(m, Seq::<char>::empty());
    }
}


/// A persisted index that cannot be loaded: malformed, truncated, not in
/// canonical form, or with counts that do not fit.
#[derive(Clone, Copy, PartialEq, Eq, Structural, Debug)]
pub struct LoadError;

fn digit_val_exec(c: char) -> (d: u64)
    ensures
        d as int == digit_val(c),
{
    if c == '0' {
        0
    } else if c == '1' {
        1
    } else if c == '2' {
        2
    } else if c == '3' {
        3
    } else if c == '4' {
        4
    } else if c == '5' {
        5
    } else if c == '6' {
        6
    } else if c == '7' {
        7
    } else if c == '8' {
        8
    } else if c == '9' {
        9
    } else {
        10
    }
}

fn parse_str_body(s: &[char], pos: usize) -> (r: Option<(Vec<char>, usize)>)
    requires
        pos <= s@.len(),
    ensures
        match r {
            None => dec_str_body(s@.skip(pos as int)) is None,
            Some(p) => pos < p.1 <= s@.len() && dec_str_body(s@.skip(pos as int)) == Some(
                (p.0@, s@.skip(p.1 as int)),
            ),
        },
    decreases s@.len() - pos,
{
    let ghost ss = s@.skip(pos as int);
    if pos == s.len() {
        return None;
    }
    let c = s[pos];
    proof {
        assert(ss[0] == s@[pos as int]);
        assert(ss.drop_first() =~= s@.skip(pos + 1));
    }
    if c == '"' {
        let v: Vec<char> = Vec::new();
        proof {
            assert(v@ =~= Seq::<char>::empty());
        }
        return Some((v, pos + 1));
    }
    if c == '\\' {
        if pos + 1 == s.len() {
            return None;
        }
        let e = s[pos + 1];
        proof {
            assert(ss[1] == s@[pos + 1]);
            assert(ss.skip(2) =~= s@.skip(pos + 2));
        }
        if !(e == '"' || e == '\\') {
            return None;
        }
        match parse_str_body(s, pos + 2) {
            None => None,
            Some(pair) => {
                let mut t = pair.0;
                t.insert(0, e);
                proof {
                    assert(t@ =~= seq![ss[1]] + pair.0@);
                }
                Some((t, pair.1))
            },
        }
    } else {
        match parse_str_body(s, pos + 1) {
            None => None,
            Some(pair) => {
                let mut t = pair.0;
                t.insert(0, c);
                proof {
                    assert(t@ =~= seq![ss[0]] + pair.0@);
                }
                Some((t, pair.1))
            },
        }
    }
}

fn parse_string(s: &[char], pos: usize) -> (r: Option<(Vec<char>, usize)>)
    requires
        pos <= s@.len(),
    ensures
        match r {
            None => dec_string(s@.skip(pos as int)) is None,
            Some(p) => pos < p.1 <= s@.len() && dec_string(s@.skip(pos as int)) == Some(
                (p.0@, s@.skip(p.1 as int)),
            ),
        },
{
    let ghost ss = s@.skip(pos as int);
    if pos == s.len() {
        return None;
    }
    proof {
        assert(ss[0] == s@[pos as int]);
        assert(ss.drop_first() =~= s@.skip(pos + 1));
    }
    if s[pos] != '"' {
        return None;
    }
    parse_str_body(s, pos + 1)
}

fn parse_digits(s: &[char], pos: usize, acc: u64) -> (r: Option<(u64, usize)>)
    requires
        pos <= s@.len(),
    ensures
        match r {
            None => dec_digits(s@.skip(pos as int), acc as int) is None,
            Some(p) => pos <= p.1 <= s@.len() && dec_digits(s@.skip(pos as int), acc as int)
                == Some((p.0 as int, s@.skip(p.1 as int))),
        },
    decreases s@.len() - pos,
{
    let ghost ss = s@.skip(pos as int);
    if pos == s.len() {
        proof {
            assert(ss.len() == 0);
        }
        return Some((acc, pos));
    }
    proof {
        assert(ss[0] == s@[pos as int]);
        assert(ss.drop_first() =~= s@.skip(pos + 1));
    }
    let d = digit_val_exec(s[pos]);
    if d >= 10 {
        return Some((acc, pos));
    }
    let wide: u128 = acc as u128 * 10 + d as u128;
    if wide > u64::MAX as u128 {
        return None;
    }
    parse_digits(s, pos + 1, (acc * 10 + d) as u64)
}

fn parse_u64(s: &[char], pos: usize) -> (r: Option<(u64, usize)>)
    requires
        pos <= s@.len(),
    ensures
        match r {
            None => dec_u64(s@.skip(pos as int)) is None,
            Some(p) => pos < p.1 <= s@.len() && dec_u64(s@.skip(pos as int)) == Some(
                (p.0 as int, s@.skip(p.1 as int)),
            ),
        },
{
    let ghost ss = s@.skip(pos as int);
    if pos == s.len() {
        return None;
    }
    proof {
        assert(ss[0] == s@[pos as int]);
        assert(ss.drop_first() =~= s@.skip(pos + 1));
    }
    let d = digit_val_exec(s[pos]);
    if d >= 10 {
        return None;
    }
    if s[pos] == '0' {
        return Some((0, pos + 1));
    }
    let r = parse_digits(s, pos, 0);
    proof {
        if r is Some {
            lemma_dec_digits_skip(ss, 0);
        }
    }
    r
}

/// A successful digit decode with at least one digit moves forward.
proof fn lemma_dec_digits_skip(ss: Seq<char>, acc: int)
    requires
        ss.len() > 0,
        digit_val(ss[0]) < 10,
    ensures
        dec_digits(ss, acc) matches Some(p) ==> p.1.len() < ss.len(),
{
    if acc * 10 + digit_val(ss[0]) <= u64::MAX {
        lemma_dec_digits_len(ss.drop_first(), acc * 10 + digit_val(ss[0]));
    }
}

fn parse_tf_body(s: &[char], pos: usize) -> (r: Option<(Vec<(Vec<char>, u64)>, usize)>)
    requires
        pos <= s@.len(),
    ensures
        match r {
            None => dec_tf_body(s@.skip(pos as int)) is None,
            Some(p) => pos < p.1 <= s@.len() && dec_tf_body(s@.skip(pos as int)) == Some(
                (tf_model(p.0@), s@.skip(p.1 as int)),
            ),
        },
    decreases s@.len() - pos,
{
    let ghost ss = s@.skip(pos as int);
    let kp = match parse_string(s, pos) {
        None => {
            return None;
        },
        Some(kp) => kp,
    };
    let p1 = kp.1;
    let ghost r1 = s@.skip(p1 as int);
    if p1 == s.len() {
        return None;
    }
    proof {
        assert(r1[0] == s@[p1 as int]);
        assert(r1.drop_first() =~= s@.skip(p1 + 1));
    }
    if s[p1] != ':' {
        return None;
    }
    let np = match parse_u64(s, p1 + 1) {
        None => {
            return None;
        },
        Some(np) => np,
    };
    let p2 = np.1;
    let ghost r2 = s@.skip(p2 as int);
    if np.0 < 1 {
        return None;
    }
    if p2 == s.len() {
        return None;
    }
    proof {
        assert(r2[0] == s@[p2 as int]);
        assert(r2.drop_first() =~= s@.skip(p2 + 1));
    }
    if s[p2] == '}' {
        let mut es: Vec<(Vec<char>, u64)> = Vec::new();
        es.push((kp.0, np.0));
        proof {
            assert(tf_model(es@) =~= seq![(es@[0].0@, es@[0].1 as int)]);
        }
        return Some((es, p2 + 1));
    }
    if s[p2] == ',' {
        let rec = match parse_tf_body(s, p2 + 1) {
            None => {
                return None;
            },
            Some(rec) => rec,
        };
        let mut es = rec.0;
        if es.len() == 0 {
            return None;
        }
        let ok = lex_cmp(kp.0.as_slice(), es[0].0.as_slice()) == -1;
        proof {
            assert(tf_model(rec.0@)[0].0 == rec.0@[0].0@);
        }
        if !ok {
            proof {
                crate::chars::lemma_lex_lt_trichotomy(kp.0@, es@[0].0@);
            }
            if lex_cmp(kp.0.as_slice(), es[0].0.as_slice()) == 1 {
                proof {
                    crate::chars::lemma_lex_lt_trichotomy(es@[0].0@, kp.0@);
                }
                return None;
            }
            return None;
        }
        es.insert(0, (kp.0, np.0));
        proof {
            assert(tf_model(es@) =~= seq![(kp.0@, np.0 as int)] + tf_model(rec.0@));
        }
        return Some((es, rec.1));
    }
    None
}

fn parse_tf(s: &[char], pos: usize) -> (r: Option<(Vec<(Vec<char>, u64)>, usize)>)
    requires
        pos <= s@.len(),
    ensures
        match r {
            None => dec_tf(s@.skip(pos as int)) is None,
            Some(p) => pos < p.1 <= s@.len() && dec_tf(s@.skip(pos as int)) == Some(
                (tf_model(p.0@), s@.skip(p.1 as int)),
            ),
        },
{
    let ghost ss = s@.skip(pos as int);
    if pos == s.len() || pos + 1 == s.len() {
        return None;
    }
    proof {
        assert(ss[0] == s@[pos as int]);
        assert(ss[1] == s@[pos + 1]);
        assert(ss.skip(2) =~= s@.skip(pos + 2));
        assert(ss.drop_first() =~= s@.skip(pos + 1));
    }
    if s[pos] != '{' {
        return None;
    }
    if s[pos + 1] == '}' {
        let es: Vec<(Vec<char>, u64)> = Vec::new();
        proof {
            assert(tf_model(es@) =~= Seq::<(Seq<char>, int)>::empty());
        }
        return Some((es, pos + 2));
    }
    parse_tf_body(s, pos + 1)
}


/// The mathematical content of parsed raw documents.
pub open spec fn raw_model(ds: Seq<(Vec<char>, Vec<(Vec<char>, u64)>)>) -> Seq<
    (Seq<char>, Seq<(Seq<char>, int)>),
> {
    ds.map_values(|p: (Vec<char>, Vec<(Vec<char>, u64)>)| (p.0@, tf_model(p.1@)))
}

fn parse_index_body(s: &[char], pos: usize) -> (r: Option<
    (Vec<(Vec<char>, Vec<(Vec<char>, u64)>)>, usize),
>)
    requires
        pos <= s@.len(),
    ensures
        match r {
            None => dec_index_body(s@.skip(pos as int)) is None,
            Some(p) => pos < p.1 <= s@.len() && dec_index_body(s@.skip(pos as int)) == Some(
                (raw_model(p.0@), s@.skip(p.1 as int)),
            ),
        },
    decreases s@.len() - pos,
{
    let ghost ss = s@.skip(pos as int);
    let kp = match parse_string(s, pos) {
        None => {
            return None;
        },
        Some(kp) => kp,
    };
    let p1 = kp.1;
    let ghost r1 = s@.skip(p1 as int);
    if p1 == s.len() {
        return None;
    }
    proof {
        assert(r1[0] == s@[p1 as int]);
        assert(r1.drop_first() =~= s@.skip(p1 + 1));
    }
    if s[p1] != ':' {
        return None;
    }
    let tp = match parse_tf(s, p1 + 1) {
        None => {
            return None;
        },
        Some(tp) => tp,
    };
    let p2 = tp.1;
    let ghost r2 = s@.skip(p2 as int);
    if p2 == s.len() {
        return None;
    }
    proof {
        assert(r2[0] == s@[p2 as int]);
        assert(r2.drop_first() =~= s@.skip(p2 + 1));
    }
    if s[p2] == '}' {
        let mut ds: Vec<(Vec<char>, Vec<(Vec<char>, u64)>)> = Vec::new();
        ds.push((kp.0, tp.0));
        proof {
            assert(raw_model(ds@) =~= seq![(ds@[0].0@, tf_model(ds@[0].1@))]);
        }
        return Some((ds, p2 + 1));
    }
    if s[p2] == ',' {
        let rec = match parse_index_body(s, p2 + 1) {
            None => {
                return None;
            },
            Some(rec) => rec,
        };
        let mut ds = rec.0;
        // the parsed identifier must not recur among the later documents
        let mut j: usize = 0;
        let mut dup: bool = false;
        while j < ds.len() && !dup
            invariant
                j <= ds@.len(),
                dup ==> has_id(raw_model(ds@), kp.0@),
                !dup ==> forall|x: int| 0 <= x < j ==> raw_model(ds@)[x].0 != kp.0@,
            decreases ds@.len() - j + if dup {
                0int
            } else {
                1int
            },
        {
            if lex_cmp(ds[j].0.as_slice(), kp.0.as_slice()) == 0 {
                dup = true;
                proof {
                    assert(raw_model(ds@)[j as int].0 == ds@[j as int].0@);
                }
            } else {
                proof {
                    crate::chars::lemma_lex_lt_trichotomy(ds@[j as int].0@, kp.0@);
                    crate::chars::lemma_lex_lt_trichotomy(kp.0@, ds@[j as int].0@);
                    assert(raw_model(ds@)[j as int].0 == ds@[j as int].0@);
                }
                j = j + 1;
            }
        }
        if dup {
            return None;
        }
        proof {
            assert(!has_id(raw_model(ds@), kp.0@)) by {
                if has_id(raw_model(ds@), kp.0@) {
                    let x = choose|x: int|
                        0 <= x < raw_model(ds@).len() && raw_model(ds@)[x].0 == kp.0@;
                    assert(raw_model(ds@)[x].0 != kp.0@);
                }
            }
        }
        ds.insert(0, (kp.0, tp.0));
        proof {
            assert(raw_model(ds@) =~= seq![(ds@[0].0@, tf_model(ds@[0].1@))] + raw_model(
                rec.0@,
            ));
        }
        return Some((ds, rec.1));
    }
    None
}

fn parse_index(s: &[char], pos: usize) -> (r: Option<
    (Vec<(Vec<char>, Vec<(Vec<char>, u64)>)>, usize),
>)
    requires
        pos <= s@.len(),
    ensures
        match r {
            None => dec_index(s@.skip(pos as int)) is None,
            Some(p) => pos < p.1 <= s@.len() && dec_index(s@.skip(pos as int)) == Some(
                (raw_model(p.0@), s@.skip(p.1 as int)),
            ),
        },
{
    let ghost ss = s@.skip(pos as int);
    if pos == s.len() || pos + 1 == s.len() {
        return None;
    }
    proof {
        assert(ss[0] == s@[pos as int]);
        assert(ss[1] == s@[pos + 1]);
        assert(ss.skip(2) =~= s@.skip(pos + 2));
        assert(ss.drop_first() =~= s@.skip(pos + 1));
    }
    if s[pos] != '{' {
        return None;
    }
    if s[pos + 1] == '}' {
        let ds: Vec<(Vec<char>, Vec<(Vec<char>, u64)>)> = Vec::new();
        proof {
            assert(raw_model(ds@) =~= Seq::<(Seq<char>, Seq<(Seq<char>, int)>)>::empty());
        }
        return Some((ds, pos + 2));
    }
    parse_index_body(s, pos + 1)
}

/// A decoded number never exceeds the range it was checked against.
proof fn lemma_dec_digits_bound(s: Seq<char>, acc: int)
    requires
        0 <= acc <= u64::MAX,
    ensures
        dec_digits(s, acc) matches Some(p) ==> 0 <= p.0 <= u64::MAX,
    decreases s.len(),
{
    if s.len() > 0 && digit_val(s[0]) < 10 {
        if acc * 10 + digit_val(s[0]) <= u64::MAX {
            lemma_dec_digits_bound(s.drop_first(), acc * 10 + digit_val(s[0]));
        }
    }
}

/// Whatever the table decoder accepts is a well-formed table model.
proof fn lemma_dec_tf_body_wf(s: Seq<char>)
    ensures
        dec_tf_body(s) matches Some(p) ==> tf_model_wf(p.0),
    decreases s.len(),
{
    lemma_dec_str_body_len(s.drop_first());
    match dec_string(s) {
        None => {},
        Some(p1) => {
            if p1.1.len() > 0 && p1.1[0] == ':' {
                lemma_dec_u64_len(p1.1.drop_first());
                lemma_dec_digits_bound(p1.1.drop_first(), 0);
                match dec_u64(p1.1.drop_first()) {
                    None => {},
                    Some(p2) => {
                        let k = p1.0;
                        let n = p2.0;
                        if n >= 1 && p2.1.len() > 0 {
                            assert(0 <= n <= u64::MAX) by {
                                if p1.1.drop_first()[0] == '0' {
                                } else {
                                }
                            }
                            if p2.1[0] == ',' {
                                lemma_dec_tf_body_wf(p2.1.drop_first());
                                match dec_tf_body(p2.1.drop_first()) {
                                    None => {},
                                    Some(p3) => {
                                        let es = p3.0;
                                        if es.len() > 0 && lex_lt(k, es[0].0) {
                                            let m = seq![(k, n)] + es;
                                            assert forall|i: int, j: int|
                                                0 <= i < j < m.len() implies lex_lt(
                                                m[i].0,
                                                m[j].0,
                                            ) by {
                                                if i == 0 {
                                                    assert(m[j] == es[j - 1]);
                                                    if j > 1 {
                                                        crate::chars::lemma_lex_lt_trans(
                                                            k,
                                                            es[0].0,
                                                            es[j - 1].0,
                                                        );
                                                    }
                                                } else {
                                                    assert(m[i] == es[i - 1] && m[j] == es[j
                                                        - 1]);
                                                }
                                            }
                                            assert forall|x: int| 0 <= x < m.len() implies 1 <= (
                                            #[trigger] m[x]).1 <= u64::MAX by {
                                                if x > 0 {
                                                    assert(m[x] == es[x - 1]);
                                                }
                                            }
                                        }
                                    },
                                }
                            }
                        }
                    },
                }
            }
        },
    }
}

proof fn lemma_dec_tf_wf(s: Seq<char>)
    ensures
        dec_tf(s) matches Some(p) ==> tf_model_wf(p.0),
{
    lemma_dec_tf_body_wf(s.drop_first());
}

/// Whatever the index decoder accepts has distinct identifiers and
/// well-formed tables.
proof fn lemma_dec_index_body_wf(s: Seq<char>)
    ensures
        dec_index_body(s) matches Some(p) ==> {
            &&& forall|i: int, j: int| 0 <= i < j < p.0.len() ==> p.0[i].0 != p.0[j].0
            &&& forall|x: int| 0 <= x < p.0.len() ==> tf_model_wf((#[trigger] p.0[x]).1)
        },
    decreases s.len(),
{
    lemma_dec_str_body_len(s.drop_first());
    match dec_string(s) {
        None => {},
        Some(p1) => {
            if p1.1.len() > 0 && p1.1[0] == ':' {
                lemma_dec_tf_len(p1.1.drop_first());
                lemma_dec_tf_wf(p1.1.drop_first());
                match dec_tf(p1.1.drop_first()) {
                    None => {},
                    Some(p2) => {
                        let k = p1.0;
                        if p2.1.len() > 0 && p2.1[0] == ',' {
                            lemma_dec_index_body_wf(p2.1.drop_first());
                            match dec_index_body(p2.1.drop_first()) {
                                None => {},
                                Some(p3) => {
                                    let m0 = p3.0;
                                    if !has_id(m0, k) {
                                        let m = seq![(k, p2.0)] + m0;
                                        assert forall|i: int, j: int|
                                            0 <= i < j < m.len() implies m[i].0 != m[j].0 by {
                                            if i == 0 {
                                                assert(m[j] == m0[j - 1]);
                                                assert(!(0 <= j - 1 < m0.len() && m0[j - 1].0
                                                    == k));
                                            } else {
                                                assert(m[i] == m0[i - 1] && m[j] == m0[j - 1]);
                                            }
                                        }
                                        assert forall|x: int| 0 <= x < m.len() implies tf_model_wf(
                                            (#[trigger] m[x]).1,
                                        ) by {
                                            if x > 0 {
                                                assert(m[x] == m0[x - 1]);
                                            }
                                        }
                                    }
                                },
                            }
                        }
                    },
                }
            }
        },
    }
}

proof fn lemma_dec_index_wf(s: Seq<char>)
    ensures
        dec_index(s) matches Some(p) ==> {
            &&& forall|i: int, j: int| 0 <= i < j < p.0.len() ==> p.0[i].0 != p.0[j].0
            &&& forall|x: int| 0 <= x < p.0.len() ==> tf_model_wf((#[trigger] p.0[x]).1)
        },
{
    lemma_dec_index_body_wf(s.drop_first());
}

/// The sum of a table model is the sum of the underlying counts.
proof fn lemma_sum_model_counts(es: Seq<(Vec<char>, u64)>)
    ensures
        sum_model(tf_model(es)) == sum_counts(es),
    decreases es.len(),
{
    if es.len() > 0 {
        lemma_sum_model_counts(es.drop_first());
        assert(tf_model(es).drop_first() =~= tf_model(es.drop_first()));
    }
}

/// Sums the counts of parsed entries, or reports that they do not fit.
fn table_total(es: &Vec<(Vec<char>, u64)>) -> (r: Option<u64>)
    ensures
        r is Some <==> sum_counts(es@) <= u64::MAX,
        r matches Some(t) ==> t as int == sum_counts(es@),
{
    let ghost ev = es@;
    let mut acc: u64 = 0;
    let mut i: usize = 0;
    proof {
        assert(ev.skip(0) =~= ev);
    }
    while i < es.len()
        invariant
            i <= ev.len(),
            ev == es@,
            sum_counts(ev) == acc + sum_counts(ev.skip(i as int)),
        decreases ev.len() - i,
    {
        proof {
            assert(ev.skip(i as int)[0] == ev[i as int]);
            assert(ev.skip(i as int).drop_first() =~= ev.skip(i + 1));
            crate::tf::lemma_sum_nonneg(ev.skip(i + 1));
        }
        let c = es[i].1;
        if acc > u64::MAX - c {
            return None;
        }
        acc = acc + c;
        i = i + 1;
    }
    proof {
        assert(ev.skip(ev.len() as int).len() == 0);
    }
    Some(acc)
}

/// Loads an index from its durable textual form.  Exactly the canonical
/// encodings of well-formed indexes load; everything else, malformed or
/// truncated or out of range, is refused, so a serving process never starts
/// over a corrupt index.
pub fn load_index(s: &[char]) -> (r: Result<CorpusIndex, LoadError>)
    ensures
        r is Ok <==> load_spec(s@) is Some,
        r matches Ok(ix) ==> ix.wf() && load_spec(s@) == Some(index_model(ix)),
{
    proof {
        assert(s@.skip(0) =~= s@);
    }
    let parsed = match parse_index(s, 0) {
        None => {
            return Err(LoadError);
        },
        Some(p) => p,
    };
    if parsed.1 != s.len() {
        proof {
            assert(s@.skip(parsed.1 as int).len() > 0);
        }
        return Err(LoadError);
    }
    proof {
        assert(s@.skip(parsed.1 as int).len() == 0);
        assert(s@.skip(parsed.1 as int) =~= Seq::<char>::empty());
        lemma_dec_index_wf(s@);
    }
    let ghost m = raw_model(parsed.0@);
    let mut ds = parsed.0;
    let mut docs: Vec<DocEntry> = Vec::new();
    let ghost total_len = ds@.len();
    let mut i: usize = 0;
    while i < ds.len()
        invariant
            i <= ds@.len(),
            raw_model(ds@) == m,
            dec_index(s@) == Some((m, s@.skip(parsed.1 as int))),
            s@.skip(parsed.1 as int).len() == 0,
            docs@.len() == i,
            forall|x: int|
                0 <= x < i ==> ((#[trigger] docs@[x]).id@ == m[x].0 && tf_model(
                    docs@[x].table.entries@,
                ) == m[x].1 && docs@[x].table.wf()),
            forall|x: int| 0 <= x < i ==> sum_model(#[trigger] m[x].1) <= u64::MAX,
            forall|i2: int, j2: int| 0 <= i2 < j2 < m.len() ==> m[i2].0 != m[j2].0,
            forall|x: int| 0 <= x < m.len() ==> tf_model_wf((#[trigger] m[x]).1),
        decreases ds@.len() - i,
    {
        proof {
            assert(m[i as int] == (ds@[i as int].0@, tf_model(ds@[i as int].1@)));
            lemma_sum_model_counts(ds@[i as int].1@);
        }
        let total = match table_total(&ds[i].1) {
            None => {
                proof {
                    assert(sum_model(m[i as int].1) > u64::MAX);
                    assert(!sums_ok(m)) by {
                        assert(0 <= i < m.len() && sum_model(m[i as int].1) > u64::MAX);
                    }
                    assert(dec_index(s@) == Some((m, s@.skip(parsed.1 as int))));
                    assert(s@.skip(parsed.1 as int).len() == 0);
                    assert(load_spec(s@) is None);
                }
                return Err(LoadError);
            },
            Some(t) => t,
        };
        let id = vstd::slice::slice_to_vec(ds[i].0.as_slice());
        let entries = clone_entries(&ds[i].1);
        let table = TermFreqTable { entries, total };
        proof {
            assert(tf_model_wf(m[i as int].1));
            lemma_sum_model_counts(table.entries@);
            assert(sum_counts(table.entries@) == sum_counts(ds@[i as int].1@));
            assert(table.total as int == sum_counts(table.entries@));
            assert(entries_wf(table.entries@)) by {
                assert forall|a: int, b: int|
                    0 <= a < b < table.entries@.len() implies lex_lt(
                    table.entries@[a].0@,
                    table.entries@[b].0@,
                ) by {
                    assert(tf_model(table.entries@)[a].0 == table.entries@[a].0@);
                    assert(tf_model(table.entries@)[b].0 == table.entries@[b].0@);
                }
                assert forall|x: int| 0 <= x < table.entries@.len() implies (#[trigger] table.entries@[x]).1
                    >= 1 by {
                    assert(tf_model(table.entries@)[x].1 == table.entries@[x].1 as int);
                }
            }
        }
        docs.push(DocEntry { id, table });
        i = i + 1;
    }
    let ix = CorpusIndex { docs };
    proof {
        assert(index_model(ix) =~= m);
        assert(ix.wf()) by {
            assert forall|a: int, b: int| 0 <= a < b < ix.docs@.len() implies ix.docs@[a].id@
                != ix.docs@[b].id@ by {
                assert(ix.docs@[a].id@ == m[a].0 && ix.docs@[b].id@ == m[b].0);
            }
        }
        assert(sums_ok(m));
    }
    Ok(ix)
}

/// Copies parsed entries into owned table entries.
fn clone_entries(es: &Vec<(Vec<char>, u64)>) -> (r: Vec<(Vec<char>, u64)>)
    ensures
        r@.len() == es@.len(),
        forall|k: int|
            0 <= k < es@.len() ==> (#[trigger] r@[k]).0@ == es@[k].0@ && r@[k].1 == es@[k].1,
        tf_model(r@) == tf_model(es@),
{
    let mut out: Vec<(Vec<char>, u64)> = Vec::new();
    let mut i: usize = 0;
    while i < es.len()
        invariant
            i <= es@.len(),
            out@.len() == i,
            forall|k: int|
                0 <= k < i ==> (#[trigger] out@[k]).0@ == es@[k].0@ && out@[k].1 == es@[k].1,
        decreases es@.len() - i,
    {
        let key = vstd::slice::slice_to_vec(es[i].0.as_slice());
        out.push((key, es[i].1));
        i = i + 1;
    }
    proof {
        assert(tf_model(out@) =~= tf_model(es@));
    }
    out
}

} // verus!

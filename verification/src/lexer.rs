//! The tokenizer: a pull-based lexer over a borrowed character slice.
//!
//! Rules, applied left to right after skipping leading whitespace: a maximal
//! run of decimal digits is one numeric token; otherwise a letter starts a
//! maximal alphanumeric run; otherwise exactly one character is a symbol
//! token.  `tokens_of` is the mathematical model of the whole token stream,
//! and the lemmas at the end state that the tokens partition the
//! non-whitespace characters of the input, in order, and never contain
//! whitespace.

use vstd::prelude::*;

use crate::chars::alnum_char;
use crate::chars::alpha_char;
use crate::chars::digit_char;
use crate::chars::is_alnum_char;
use crate::chars::is_alpha_char;
use crate::chars::is_digit_char;
use crate::chars::is_ws_char;
use crate::chars::ws_char;
use vstd::slice::slice_subrange;

verus! {

/// Length of the maximal prefix of `s` whose characters satisfy `p`.
pub open spec fn run_len(s: Seq<char>, p: spec_fn(char) -> bool) -> nat
    decreases s.len(),
{
    if s.len() == 0 || !p(s[0]) {
        0
    } else {
        1 + run_len(s.drop_first(), p)
    }
}

pub proof fn lemma_run_len(s: Seq<char>, p: spec_fn(char) -> bool)
    ensures
        run_len(s, p) <= s.len(),
        forall|i: int| 0 <= i < run_len(s, p) ==> p(s[i]),
        run_len(s, p) < s.len() ==> !p(s[run_len(s, p) as int]),
    decreases s.len(),
{
    if s.len() == 0 || !p(s[0]) {
    } else {
        lemma_run_len(s.drop_first(), p);
        assert forall|i: int| 0 <= i < run_len(s, p) implies p(s[i]) by {
            if i >= 1 {
                assert(s[i] == s.drop_first()[i - 1]);
            }
        }
        if run_len(s, p) < s.len() {
            assert(s[run_len(s, p) as int] == s.drop_first()[run_len(s.drop_first(), p) as int]);
        }
    }
}

/// A boundary with the run property is the run length.
pub proof fn lemma_run_len_unique(s: Seq<char>, p: spec_fn(char) -> bool, n: int)
    requires
        0 <= n <= s.len(),
        forall|i: int| 0 <= i < n ==> p(s[i]),
        n < s.len() ==> !p(s[n]),
    ensures
        n == run_len(s, p),
    decreases s.len(),
{
    if s.len() == 0 || !p(s[0]) {
    } else {
        assert(p(s[0]));
        assert(n >= 1);
        lemma_run_len_unique(s.drop_first(), p, n - 1);
    }
}

/// Length of the first token of `s`, when `s` starts with a non-whitespace
/// character.
pub open spec fn token_len(s: Seq<char>) -> nat
    recommends
        s.len() > 0,
        !is_ws_char(s[0]),
{
    if is_digit_char(s[0]) {
        run_len(s, |c: char| is_digit_char(c))
    } else if is_alpha_char(s[0]) {
        run_len(s, |c: char| is_alnum_char(c))
    } else {
        1
    }
}

pub proof fn lemma_token_len(s: Seq<char>)
    requires
        s.len() > 0,
        !is_ws_char(s[0]),
    ensures
        1 <= token_len(s) <= s.len(),
{
    if is_digit_char(s[0]) {
        lemma_run_len(s, |c: char| is_digit_char(c));
    } else if is_alpha_char(s[0]) {
        lemma_run_len(s, |c: char| is_alnum_char(c));
    }
}

/// The sequence of raw tokens of `s`, in order.
pub open spec fn tokens_of(s: Seq<char>) -> Seq<Seq<char>>
    decreases s.len(),
    when s.len() >= 0
    via tokens_of_decreases
{
    if s.len() == 0 {
        Seq::empty()
    } else if is_ws_char(s[0]) {
        tokens_of(s.drop_first())
    } else {
        seq![s.take(token_len(s) as int)] + tokens_of(s.skip(token_len(s) as int))
    }
}

#[via_fn]
proof fn tokens_of_decreases(s: Seq<char>) {
    if s.len() > 0 && !is_ws_char(s[0]) {
        lemma_token_len(s);
    }
}

/// `s` with leading whitespace removed.
pub open spec fn trim_spec(s: Seq<char>) -> Seq<char>
    decreases s.len(),
{
    if s.len() > 0 && is_ws_char(s[0]) {
        trim_spec(s.drop_first())
    } else {
        s
    }
}

pub proof fn lemma_tokens_of_trim(s: Seq<char>)
    ensures
        tokens_of(trim_spec(s)) == tokens_of(s),
        trim_spec(s).len() <= s.len(),
        trim_spec(s).len() > 0 ==> !is_ws_char(trim_spec(s)[0]),
    decreases s.len(),
{
    if s.len() > 0 && is_ws_char(s[0]) {
        lemma_tokens_of_trim(s.drop_first());
    }
}

/// A restartable lexer over a borrowed character buffer.  `content` is the
/// input not yet consumed.
pub struct Lexer<'a> {
    pub content: &'a [char],
}

impl<'a> Lexer<'a> {
    pub fn new(content: &'a [char]) -> (l: Self)
        ensures
            l.content@ == content@,
    {
        Self { content }
    }

    /// Drops leading whitespace from the remaining input.
    pub fn trim_left(&mut self)
        ensures
            final(self).content@ == trim_spec(old(self).content@),
    {
        while self.content.len() > 0 && ws_char(self.content[0])
            invariant
                trim_spec(self.content@) == trim_spec(old(self).content@),
            decreases self.content@.len(),
        {
            self.content = slice_subrange(self.content, 1, self.content.len());
        }
    }

    /// Splits off the first `n` characters of the remaining input.
    pub fn chop(&mut self, n: usize) -> (tok: &'a [char])
        requires
            n <= old(self).content@.len(),
        ensures
            tok@ == old(self).content@.take(n as int),
            final(self).content@ == old(self).content@.skip(n as int),
    {
        let tok = slice_subrange(self.content, 0, n);
        self.content = slice_subrange(self.content, n, self.content.len());
        tok
    }

    /// Splits off the maximal prefix whose characters satisfy `predicate`.
    pub fn chop_while<P: Fn(char) -> bool>(&mut self, predicate: P) -> (tok: &'a [char])
        requires
            forall|c: char| #[trigger] call_requires(predicate, (c,)),
        ensures
            tok@.len() <= old(self).content@.len(),
            tok@ == old(self).content@.take(tok@.len() as int),
            final(self).content@ == old(self).content@.skip(tok@.len() as int),
            forall|i: int|
                0 <= i < tok@.len() ==> call_ensures(predicate, (old(self).content@[i],), true),
            final(self).content@.len() > 0 ==> call_ensures(predicate, (final(self).content@[0],), false),
    {
        let mut n: usize = 0;
        while n < self.content.len() && predicate(self.content[n])
            invariant
                n <= self.content@.len(),
                self.content@ == old(self).content@,
                forall|i: int|
                    0 <= i < n ==> call_ensures(predicate, (self.content@[i],), true),
                forall|c: char| #[trigger] call_requires(predicate, (c,)),
                n < self.content@.len() || n == self.content@.len(),
            decreases self.content@.len() - n,
        {
            n = n + 1;
        }
        self.chop(n)
    }

    /// Returns the next token, or `None` at end of input.  The returned
    /// token is the head of the model `tokens_of`, it is maximal for its
    /// class, and the remaining input is exactly the trimmed input after the
    /// token: nothing but the skipped whitespace and the token is consumed.
    pub fn next_token(&mut self) -> (r: Option<&'a [char]>)
        ensures
            match r {
                None => tokens_of(old(self).content@).len() == 0 && final(self).content@.len() == 0,
                Some(tok) => {
                    let toks = tokens_of(old(self).content@);
                    &&& toks.len() > 0
                    &&& tok@ == toks[0]
                    &&& tokens_of(final(self).content@) == toks.drop_first()
                    &&& tok@.len() >= 1
                    &&& !is_ws_char(tok@[0])
                    &&& final(self).content@ == trim_spec(old(self).content@).skip(
                        tok@.len() as int,
                    )
                    &&& final(self).content@.len() <= old(self).content@.len() - tok@.len()
                    &&& final(self).content@.len() < old(self).content@.len()
                    &&& (is_digit_char(tok@[0]) ==> (forall|i: int|
                        0 <= i < tok@.len() ==> is_digit_char(tok@[i])) && (final(self).content@.len() > 0
                        ==> !is_digit_char(final(self).content@[0])))
                    &&& (is_alpha_char(tok@[0]) ==> (forall|i: int|
                        0 <= i < tok@.len() ==> is_alnum_char(tok@[i])) && (final(self).content@.len() > 0
                        ==> !is_alnum_char(final(self).content@[0])))
                    &&& (!is_digit_char(tok@[0]) && !is_alpha_char(tok@[0]) ==> tok@.len() == 1)
                },
            },
    {
        self.trim_left();
        proof {
            lemma_tokens_of_trim(old(self).content@);
        }
        let ghost s = self.content@;

        if self.content.len() == 0 {
            return None;
        }
        if digit_char(self.content[0]) {
            let tok = self.chop_while(|x: char| -> (b: bool)
                ensures
                    b == is_digit_char(x),
                { digit_char(x) });
            proof {
                lemma_run_len_unique(s, |c: char| is_digit_char(c), tok@.len() as int);
                lemma_tokens_head(s);
            }
            return Some(tok);
        }
        if alpha_char(self.content[0]) {
            let tok = self.chop_while(|x: char| -> (b: bool)
                ensures
                    b == is_alnum_char(x),
                { alnum_char(x) });
            proof {
                lemma_run_len_unique(s, |c: char| is_alnum_char(c), tok@.len() as int);
                lemma_tokens_head(s);
            }
            return Some(tok);
        }
        let tok = self.chop(1);
        proof {
            lemma_tokens_head(s);
        }
        Some(tok)
    }
}

/// Unfolds one step of `tokens_of` on a non-whitespace head.
proof fn lemma_tokens_head(s: Seq<char>)
    requires
        s.len() > 0,
        !is_ws_char(s[0]),
    ensures
        tokens_of(s).len() > 0,
        tokens_of(s)[0] == s.take(token_len(s) as int),
        tokens_of(s).drop_first() == tokens_of(s.skip(token_len(s) as int)),
        1 <= token_len(s) <= s.len(),
{
    lemma_token_len(s);
    assert(tokens_of(s) == seq![s.take(token_len(s) as int)] + tokens_of(
        s.skip(token_len(s) as int),
    ));
    assert(tokens_of(s).drop_first() =~= tokens_of(s.skip(token_len(s) as int)));
}

/// Concatenation of a sequence of tokens.
pub open spec fn concat_tokens(ts: Seq<Seq<char>>) -> Seq<char>
    decreases ts.len(),
{
    if ts.len() == 0 {
        Seq::empty()
    } else {
        ts[0] + concat_tokens(ts.drop_first())
    }
}

/// Concatenating the tokens of `s` yields exactly the non-whitespace
/// characters of `s`, in order: tokenizing loses nothing but whitespace.
pub proof fn lemma_tokens_concat(s: Seq<char>)
    ensures
        concat_tokens(tokens_of(s)) =~= s.filter(|c: char| !is_ws_char(c)),
    decreases s.len(),
{
    let pred = |c: char| !is_ws_char(c);
    if s.len() == 0 {
        reveal_with_fuel(Seq::filter, 1);
    } else if is_ws_char(s[0]) {
        lemma_tokens_concat(s.drop_first());
        assert(s =~= seq![s[0]] + s.drop_first());
        Seq::filter_distributes_over_add(seq![s[0]], s.drop_first(), pred);
        lemma_filter_single(s[0], pred);
    } else {
        let n = token_len(s) as int;
        lemma_token_len(s);
        lemma_tokens_concat(s.skip(n));
        lemma_tokens_head(s);
        assert(s =~= s.take(n) + s.skip(n));
        Seq::filter_distributes_over_add(s.take(n), s.skip(n), pred);
        lemma_token_chars_not_ws(s);
        lemma_filter_all(s.take(n), pred);
        assert(concat_tokens(tokens_of(s)) =~= s.take(n) + concat_tokens(
            tokens_of(s.skip(n)),
        ));
    }
}

/// Every character of the first token is non-whitespace.
proof fn lemma_token_chars_not_ws(s: Seq<char>)
    requires
        s.len() > 0,
        !is_ws_char(s[0]),
    ensures
        forall|i: int| 0 <= i < token_len(s) ==> !is_ws_char(s[i]),
{
    if is_digit_char(s[0]) {
        lemma_run_len(s, |c: char| is_digit_char(c));
    } else if is_alpha_char(s[0]) {
        lemma_run_len(s, |c: char| is_alnum_char(c));
    }
}

/// Filtering a single element.
proof fn lemma_filter_single(c: char, pred: spec_fn(char) -> bool)
    ensures
        seq![c].filter(pred) == if pred(c) {
            seq![c]
        } else {
            Seq::<char>::empty()
        },
{
    reveal_with_fuel(Seq::filter, 2);
    assert(seq![c].drop_last() =~= Seq::<char>::empty());
    if pred(c) {
        assert(seq![c].filter(pred) =~= seq![c]);
    } else {
        assert(seq![c].filter(pred) =~= Seq::<char>::empty());
    }
}

/// Filtering keeps a sequence whose elements all satisfy the predicate.
proof fn lemma_filter_all(s: Seq<char>, pred: spec_fn(char) -> bool)
    requires
        forall|i: int| 0 <= i < s.len() ==> pred(s[i]),
    ensures
        s.filter(pred) =~= s,
    decreases s.len(),
{
    reveal_with_fuel(Seq::filter, 1);
    if s.len() > 0 {
        lemma_filter_all(s.drop_last(), pred);
        assert(s.filter(pred) =~= s.drop_last().filter(pred).push(s.last()));
    }
}

/// No token ever contains whitespace, and no token is empty.
pub proof fn lemma_tokens_no_ws(s: Seq<char>)
    ensures
        forall|k: int, j: int|
            0 <= k < tokens_of(s).len() && 0 <= j < tokens_of(s)[k].len() ==> !is_ws_char(
                #[trigger] tokens_of(s)[k][j],
            ),
        forall|k: int| 0 <= k < tokens_of(s).len() ==> #[trigger] tokens_of(s)[k].len() >= 1,
    decreases s.len(),
{
    if s.len() == 0 {
    } else if is_ws_char(s[0]) {
        lemma_tokens_no_ws(s.drop_first());
        assert forall|k: int, j: int|
            0 <= k < tokens_of(s).len() && 0 <= j < tokens_of(s)[k].len() implies !is_ws_char(
            tokens_of(s)[k][j],
        ) by {
            assert(tokens_of(s)[k][j] == tokens_of(s.drop_first())[k][j]);
        }
        assert forall|k: int| 0 <= k < tokens_of(s).len() implies tokens_of(s)[k].len() >= 1 by {
            assert(tokens_of(s)[k].len() == tokens_of(s.drop_first())[k].len());
        }
    } else {
        let n = token_len(s) as int;
        lemma_token_len(s);
        lemma_token_chars_not_ws(s);
        lemma_tokens_no_ws(s.skip(n));
        lemma_tokens_head(s);
        assert forall|k: int, j: int|
            0 <= k < tokens_of(s).len() && 0 <= j < tokens_of(s)[k].len() implies !is_ws_char(
            tokens_of(s)[k][j],
        ) by {
            if k == 0 {
                assert(tokens_of(s)[0] == s.take(n));
            } else {
                assert(tokens_of(s)[k] == tokens_of(s).drop_first()[k - 1]);
                assert(tokens_of(s)[k][j] == tokens_of(s.skip(n))[k - 1][j]);
            }
        }
        assert forall|k: int| 0 <= k < tokens_of(s).len() implies tokens_of(s)[k].len() >= 1 by {
            if k == 0 {
                assert(tokens_of(s)[0] == s.take(n));
            } else {
                assert(tokens_of(s)[k] == tokens_of(s).drop_first()[k - 1]);
                assert(tokens_of(s)[k].len() == tokens_of(s.skip(n))[k - 1].len());
            }
        }
    }
}

/// There are never more tokens than characters.
pub proof fn lemma_tokens_len(s: Seq<char>)
    ensures
        tokens_of(s).len() <= s.len(),
    decreases s.len(),
{
    if s.len() == 0 {
    } else if is_ws_char(s[0]) {
        lemma_tokens_len(s.drop_first());
    } else {
        lemma_token_len(s);
        lemma_tokens_len(s.skip(token_len(s) as int));
    }
}

} // verus!

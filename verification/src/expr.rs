//! The arithmetic sub-language of template strings.
//!
//! After variable substitution, a template whose whole text is wrapped
//! as `$((`...`))` has its interior evaluated as an infix arithmetic
//! expression over `+ - * / ( )` with integer literals and unary minus.
//! Values are exact rationals; the decimal result replaces the whole
//! string. Literals or intermediate values that do not fit the machine
//! range, and division by zero, make the computation fail.

use vstd::prelude::*;
use crate::strutil::{
    is_space_char,
    is_digit_char,
    digit_val,
    digits_val,
    all_digits,
    char_is_space,
    char_is_digit,
    lemma_digits_val_take_le,
    spec_dec_digits,
    push_dec_digits,
};

verus! {

/// One lexical token of an arithmetic expression.
#[derive(Clone, Copy)]
pub enum Token {
    Num { n: u64 },
    Plus,
    Minus,
    Star,
    Slash,
    LPar,
    RPar,
}

/// How many leading characters of `s` are decimal digits.
pub open spec fn digits_prefix_len(s: Seq<char>) -> int
    decreases s.len(),
{
    if s.len() == 0 || !is_digit_char(s[0]) {
        0int
    } else {
        1 + digits_prefix_len(s.drop_first())
    }
}

pub proof fn lemma_dpl_bounds(s: Seq<char>)
    ensures
        0 <= digits_prefix_len(s) <= s.len(),
        s.len() > 0 && is_digit_char(s[0]) ==> digits_prefix_len(s) >= 1,
        all_digits(s.take(digits_prefix_len(s))),
    decreases s.len(),
{
    if s.len() == 0 || !is_digit_char(s[0]) {
        assert(s.take(0) =~= Seq::<char>::empty());
    } else {
        lemma_dpl_bounds(s.drop_first());
        let k = digits_prefix_len(s);
        assert(s.take(k).drop_first() =~= s.drop_first().take(k - 1));
        assert forall|i: int| 0 <= i < k implies is_digit_char(#[trigger] s.take(k)[i]) by {
            if i > 0 {
                assert(s.take(k)[i] == s.drop_first().take(k - 1)[i - 1]);
            }
        }
    }
}

/// The digit run found by a scan is exactly the digits prefix.
pub proof fn lemma_dpl_eq(s: Seq<char>, m: int)
    requires
        0 <= m <= s.len(),
        forall|k: int| 0 <= k < m ==> is_digit_char(#[trigger] s[k]),
        m == s.len() || !is_digit_char(s[m]),
    ensures
        digits_prefix_len(s) == m,
    decreases m,
{
    if m > 0 {
        assert(forall|k: int|
            0 <= k < m - 1 ==> #[trigger] s.drop_first()[k] == s[k + 1]);
        lemma_dpl_eq(s.drop_first(), m - 1);
    }
}

/// Prepends a token to a tokenization result.
pub open spec fn cons_tok(t: Token, rest: Option<Seq<Token>>) -> Option<Seq<Token>> {
    match rest {
        Some(ts) => Some(seq![t] + ts),
        None => None,
    }
}

/// The token sequence of an expression text: spaces separate, the six
/// operator characters stand alone, a maximal digit run is one integer
/// literal, and any other character (or a literal beyond the machine
/// range) makes the text ill-formed.
pub open spec fn spec_tokenize(s: Seq<char>) -> Option<Seq<Token>>
    decreases s.len(),
{
    if s.len() == 0 {
        Some(Seq::empty())
    } else if is_space_char(s[0]) {
        spec_tokenize(s.drop_first())
    } else if s[0] == '+' {
        cons_tok(Token::Plus, spec_tokenize(s.drop_first()))
    } else if s[0] == '-' {
        cons_tok(Token::Minus, spec_tokenize(s.drop_first()))
    } else if s[0] == '*' {
        cons_tok(Token::Star, spec_tokenize(s.drop_first()))
    } else if s[0] == '/' {
        cons_tok(Token::Slash, spec_tokenize(s.drop_first()))
    } else if s[0] == '(' {
        cons_tok(Token::LPar, spec_tokenize(s.drop_first()))
    } else if s[0] == ')' {
        cons_tok(Token::RPar, spec_tokenize(s.drop_first()))
    } else if is_digit_char(s[0]) {
        proof {
            lemma_dpl_bounds(s);
        }
        let ilen = digits_prefix_len(s);
        if digits_val(s.take(ilen)) <= i64::MAX as int {
            cons_tok(
                Token::Num { n: digits_val(s.take(ilen)) as u64 },
                spec_tokenize(s.skip(ilen)),
            )
        } else {
            None
        }
    } else {
        None
    }
}

/// Scans `v` into tokens.
pub fn tokenize(v: &Vec<char>) -> (r: Option<Vec<Token>>)
    ensures
        match r {
            Some(ts) => spec_tokenize(v@) == Some(ts@),
            None => spec_tokenize(v@) is None,
        },
{
    let mut out: Vec<Token> = Vec::new();
    let mut i: usize = 0;
    proof {
        assert(v@.skip(0) =~= v@);
    }
    while i < v.len()
        invariant
            i <= v@.len(),
            spec_tokenize(v@) == match spec_tokenize(v@.skip(i as int)) {
                Some(ts) => Some(out@ + ts),
                None => None::<Seq<Token>>,
            },
        decreases v@.len() - i,
    {
        let ghost pre = v@.skip(i as int);
        let ghost out0 = out@;
        let c = v[i];
        proof {
            assert(pre[0] == v@[i as int]);
            assert(pre.drop_first() =~= v@.skip(i + 1));
        }
        if char_is_space(c) {
            i = i + 1;
        } else if c == '+' {
            out.push(Token::Plus);
            i = i + 1;
            proof {
                lemma_push_step(out0, Token::Plus, v@.skip(i as int));
            }
        } else if c == '-' {
            out.push(Token::Minus);
            i = i + 1;
            proof {
                lemma_push_step(out0, Token::Minus, v@.skip(i as int));
            }
        } else if c == '*' {
            out.push(Token::Star);
            i = i + 1;
            proof {
                lemma_push_step(out0, Token::Star, v@.skip(i as int));
            }
        } else if c == '/' {
            out.push(Token::Slash);
            i = i + 1;
            proof {
                lemma_push_step(out0, Token::Slash, v@.skip(i as int));
            }
        } else if c == '(' {
            out.push(Token::LPar);
            i = i + 1;
            proof {
                lemma_push_step(out0, Token::LPar, v@.skip(i as int));
            }
        } else if c == ')' {
            out.push(Token::RPar);
            i = i + 1;
            proof {
                lemma_push_step(out0, Token::RPar, v@.skip(i as int));
            }
        } else if char_is_digit(c) {
            // scan the maximal digit run, accumulating its value
            let mut j: usize = i;
            let mut acc: u64 = 0;
            let imax: u64 = 9223372036854775807u64;
            while j < v.len() && char_is_digit(v[j])
                invariant
                    i <= j <= v@.len(),
                    i < v@.len(),
                    pre == v@.skip(i as int),
                    spec_tokenize(v@) == match spec_tokenize(v@.skip(i as int)) {
                        Some(ts) => Some(out@ + ts),
                        None => None::<Seq<Token>>,
                    },
                    forall|k: int| i <= k < j ==> is_digit_char(#[trigger] v@[k]),
                    all_digits(v@.subrange(i as int, j as int)),
                    acc as int == digits_val(v@.subrange(i as int, j as int)),
                    acc <= imax,
                    imax == i64::MAX as u64,
                decreases v@.len() - j,
            {
                let cj = v[j];
                proof {
                    assert(is_digit_char(v@[j as int]));
                }
                let d: u64 = (cj as u32 - 48) as u64;
                let next: u64 = match acc.checked_mul(10) {
                    Some(m) => match m.checked_add(d) {
                        Some(n) => n,
                        None => {
                            proof {
                                lemma_literal_too_big(v@, i as int, j as int, pre);
                            }
                            return None;
                        },
                    },
                    None => {
                        proof {
                            lemma_literal_too_big(v@, i as int, j as int, pre);
                        }
                        return None;
                    },
                };
                if next > imax {
                    proof {
                        lemma_literal_too_big(v@, i as int, j as int, pre);
                    }
                    return None;
                }
                proof {
                    assert(v@.subrange(i as int, j + 1).drop_last() =~= v@.subrange(
                        i as int,
                        j as int,
                    ));
                    assert forall|k: int| 0 <= k < j + 1 - i implies is_digit_char(
                        #[trigger] v@.subrange(i as int, j + 1)[k],
                    ) by {
                        assert(v@.subrange(i as int, j + 1)[k] == v@[i + k]);
                    }
                }
                acc = next;
                j = j + 1;
            }
            proof {
                assert forall|k: int| 0 <= k < j - i implies is_digit_char(#[trigger] pre[k]) by {
                    assert(pre[k] == v@[i + k]);
                }
                if j < v@.len() {
                    assert(pre[j - i] == v@[j as int]);
                }
                lemma_dpl_eq(pre, j - i);
                assert(pre.take(j - i) =~= v@.subrange(i as int, j as int));
                assert(pre.skip(j - i) =~= v@.skip(j as int));
            }
            out.push(Token::Num { n: acc });
            proof {
                lemma_push_step(out0, Token::Num { n: acc }, v@.skip(j as int));
            }
            i = j;
        } else {
            return None;
        }
    }
    proof {
        assert(v@.skip(i as int) =~= Seq::<char>::empty());
        assert(out@ + Seq::<Token>::empty() =~= out@);
    }
    Some(out)
}

/// One token appended: folds the `cons_tok` step into the accumulator.
proof fn lemma_push_step(out0: Seq<Token>, t: Token, rest: Seq<char>)
    ensures
        match spec_tokenize(rest) {
            Some(ts) => out0.push(t) + ts == out0 + (seq![t] + ts),
            None => true,
        },
{
    match spec_tokenize(rest) {
        Some(ts) => {
            assert(out0.push(t) + ts =~= out0 + (seq![t] + ts));
        },
        None => {},
    }
}

/// A digit run whose prefix already exceeds the machine range denotes a
/// literal out of range, so the whole text has no tokenization.
proof fn lemma_literal_too_big(v: Seq<char>, i: int, j: int, pre: Seq<char>)
    requires
        0 <= i <= j < v.len(),
        pre == v.skip(i),
        is_digit_char(v[i]),
        is_digit_char(v[j]),
        all_digits(v.subrange(i, j)),
        digits_val(v.subrange(i, j)) * 10 + digit_val(v[j]) > i64::MAX as int,
    ensures
        spec_tokenize(pre) is None,
{
    lemma_dpl_bounds(pre);
    let ilen = digits_prefix_len(pre);
    let lit = pre.take(ilen);
    // the scanned prefix together with v[j] is a take of the full literal
    assert(v.subrange(i, j + 1).drop_last() =~= v.subrange(i, j));
    assert(digits_val(v.subrange(i, j + 1)) > i64::MAX as int);
    assert forall|k: int| 0 <= k < j + 1 - i implies is_digit_char(#[trigger] pre[k]) by {
        assert(pre[k] == v[i + k]);
        if k < j - i {
            assert(v.subrange(i, j)[k] == v[i + k]);
        }
    }
    // hence the digits prefix of pre extends at least past j
    lemma_dpl_at_least(pre, j + 1 - i);
    assert(lit.take(j + 1 - i) =~= v.subrange(i, j + 1));
    lemma_digits_val_take_le(lit, j + 1 - i);
}

/// The abstract syntax of an arithmetic expression.
pub enum Expr {
    Num { n: u64 },
    Neg(Box<Expr>),
    Add(Box<Expr>, Box<Expr>),
    Sub(Box<Expr>, Box<Expr>),
    Mul(Box<Expr>, Box<Expr>),
    Div(Box<Expr>, Box<Expr>),
}

/// Parses a factor: an integer literal, a negation, or a
/// parenthesized expression.
pub open spec fn parse_factor(ts: Seq<Token>) -> Option<(Expr, Seq<Token>)>
    decreases ts.len(), 0int,
{
    if ts.len() == 0 {
        None
    } else {
        match ts[0] {
            Token::Num { n } => Some((Expr::Num { n }, ts.drop_first())),
            Token::Minus => match parse_factor(ts.drop_first()) {
                Some((e, rest)) => Some((Expr::Neg(Box::new(e)), rest)),
                None => None,
            },
            Token::LPar => match parse_expr(ts.drop_first()) {
                Some((e, rest)) => if rest.len() >= 1 && rest[0] is RPar {
                    Some((e, rest.drop_first()))
                } else {
                    None
                },
                None => None,
            },
            _ => None,
        }
    }
}

/// Parses a term: a factor possibly followed by `*` or `/` factors,
/// associating to the left.
pub open spec fn parse_term(ts: Seq<Token>) -> Option<(Expr, Seq<Token>)>
    decreases ts.len(), 2int,
{
    match parse_factor(ts) {
        Some((e, rest)) => if rest.len() <= ts.len() {
            parse_term_tail(rest, e)
        } else {
            None
        },
        None => None,
    }
}

pub open spec fn parse_term_tail(ts: Seq<Token>, acc: Expr) -> Option<(Expr, Seq<Token>)>
    decreases ts.len(), 1int,
{
    if ts.len() >= 1 && (ts[0] is Star || ts[0] is Slash) {
        match parse_factor(ts.drop_first()) {
            Some((e2, rest)) => {
                let acc2 = if ts[0] is Star {
                    Expr::Mul(Box::new(acc), Box::new(e2))
                } else {
                    Expr::Div(Box::new(acc), Box::new(e2))
                };
                if rest.len() < ts.len() {
                    parse_term_tail(rest, acc2)
                } else {
                    None
                }
            },
            None => None,
        }
    } else {
        Some((acc, ts))
    }
}

/// Parses an expression: a term possibly followed by `+` or `-` terms,
/// associating to the left.
pub open spec fn parse_expr(ts: Seq<Token>) -> Option<(Expr, Seq<Token>)>
    decreases ts.len(), 4int,
{
    match parse_term(ts) {
        Some((e, rest)) => if rest.len() <= ts.len() {
            parse_expr_tail(rest, e)
        } else {
            None
        },
        None => None,
    }
}

pub open spec fn parse_expr_tail(ts: Seq<Token>, acc: Expr) -> Option<(Expr, Seq<Token>)>
    decreases ts.len(), 3int,
{
    if ts.len() >= 1 && (ts[0] is Plus || ts[0] is Minus) {
        match parse_term(ts.drop_first()) {
            Some((e2, rest)) => {
                let acc2 = if ts[0] is Plus {
                    Expr::Add(Box::new(acc), Box::new(e2))
                } else {
                    Expr::Sub(Box::new(acc), Box::new(e2))
                };
                if rest.len() < ts.len() {
                    parse_expr_tail(rest, acc2)
                } else {
                    None
                }
            },
            None => None,
        }
    } else {
        Some((acc, ts))
    }
}

/// Parses the factor starting at token `i`.
pub fn parse_factor_at(ts: &Vec<Token>, i: usize) -> (r: Option<(Expr, usize)>)
    requires
        i <= ts@.len(),
    ensures
        match r {
            Some((e, j)) => i <= j <= ts@.len() && parse_factor(ts@.skip(i as int)) == Some(
                (e, ts@.skip(j as int)),
            ),
            None => parse_factor(ts@.skip(i as int)) is None,
        },
    decreases ts@.len() - i, 0int,
{
    let ghost pre = ts@.skip(i as int);
    if i == ts.len() {
        proof {
            assert(pre =~= Seq::<Token>::empty());
        }
        return None;
    }
    proof {
        assert(pre[0] == ts@[i as int]);
        assert(pre.drop_first() =~= ts@.skip(i + 1));
    }
    let t = ts[i];
    match t {
        Token::Num { n } => Some((Expr::Num { n }, i + 1)),
        Token::Minus => match parse_factor_at(ts, i + 1) {
            Some((e, j)) => Some((Expr::Neg(Box::new(e)), j)),
            None => None,
        },
        Token::LPar => match parse_expr_at(ts, i + 1) {
            Some((e, j)) => {
                if j < ts.len() {
                    let t2 = ts[j];
                    proof {
                        assert(ts@.skip(j as int)[0] == ts@[j as int]);
                        assert(ts@.skip(j as int).drop_first() =~= ts@.skip(j + 1));
                    }
                    match t2 {
                        Token::RPar => Some((e, j + 1)),
                        _ => None,
                    }
                } else {
                    proof {
                        assert(ts@.skip(j as int) =~= Seq::<Token>::empty());
                    }
                    None
                }
            },
            None => None,
        },
        _ => None,
    }
}

/// Parses the term starting at token `i`.
pub fn parse_term_at(ts: &Vec<Token>, i: usize) -> (r: Option<(Expr, usize)>)
    requires
        i <= ts@.len(),
    ensures
        match r {
            Some((e, j)) => i <= j <= ts@.len() && parse_term(ts@.skip(i as int)) == Some(
                (e, ts@.skip(j as int)),
            ),
            None => parse_term(ts@.skip(i as int)) is None,
        },
    decreases ts@.len() - i, 2int,
{
    match parse_factor_at(ts, i) {
        Some((e, j)) => parse_term_tail_at(ts, j, e),
        None => None,
    }
}

/// Parses `* factor` / `/ factor` continuations starting at token `i`.
fn parse_term_tail_at(ts: &Vec<Token>, i: usize, acc: Expr) -> (r: Option<
    (Expr, usize),
>)
    requires
        i <= ts@.len(),
    ensures
        match r {
            Some((e, j)) => i <= j <= ts@.len() && parse_term_tail(ts@.skip(i as int), acc)
                == Some((e, ts@.skip(j as int))),
            None => parse_term_tail(ts@.skip(i as int), acc) is None,
        },
    decreases ts@.len() - i, 1int,
{
    let ghost pre = ts@.skip(i as int);
    if i < ts.len() {
        let t = ts[i];
        proof {
            assert(pre[0] == ts@[i as int]);
            assert(pre.drop_first() =~= ts@.skip(i + 1));
        }
        let is_star = matches!(t, Token::Star);
        let is_slash = matches!(t, Token::Slash);
        if is_star || is_slash {
            match parse_factor_at(ts, i + 1) {
                Some((e2, j2)) => {
                    let acc2 = if is_star {
                        Expr::Mul(Box::new(acc), Box::new(e2))
                    } else {
                        Expr::Div(Box::new(acc), Box::new(e2))
                    };
                    parse_term_tail_at(ts, j2, acc2)
                },
                None => None,
            }
        } else {
            Some((acc, i))
        }
    } else {
        proof {
            assert(pre =~= Seq::<Token>::empty());
        }
        Some((acc, i))
    }
}

/// Parses the expression starting at token `i`.
pub fn parse_expr_at(ts: &Vec<Token>, i: usize) -> (r: Option<(Expr, usize)>)
    requires
        i <= ts@.len(),
    ensures
        match r {
            Some((e, j)) => i <= j <= ts@.len() && parse_expr(ts@.skip(i as int)) == Some(
                (e, ts@.skip(j as int)),
            ),
            None => parse_expr(ts@.skip(i as int)) is None,
        },
    decreases ts@.len() - i, 4int,
{
    match parse_term_at(ts, i) {
        Some((e, j)) => parse_expr_tail_at(ts, j, e),
        None => None,
    }
}

/// Parses `+ term` / `- term` continuations starting at token `i`.
fn parse_expr_tail_at(ts: &Vec<Token>, i: usize, acc: Expr) -> (r: Option<
    (Expr, usize),
>)
    requires
        i <= ts@.len(),
    ensures
        match r {
            Some((e, j)) => i <= j <= ts@.len() && parse_expr_tail(ts@.skip(i as int), acc)
                == Some((e, ts@.skip(j as int))),
            None => parse_expr_tail(ts@.skip(i as int), acc) is None,
        },
    decreases ts@.len() - i, 3int,
{
    let ghost pre = ts@.skip(i as int);
    if i < ts.len() {
        let t = ts[i];
        proof {
            assert(pre[0] == ts@[i as int]);
            assert(pre.drop_first() =~= ts@.skip(i + 1));
        }
        let is_plus = matches!(t, Token::Plus);
        let is_minus = matches!(t, Token::Minus);
        if is_plus || is_minus {
            match parse_term_at(ts, i + 1) {
                Some((e2, j2)) => {
                    let acc2 = if is_plus {
                        Expr::Add(Box::new(acc), Box::new(e2))
                    } else {
                        Expr::Sub(Box::new(acc), Box::new(e2))
                    };
                    parse_expr_tail_at(ts, j2, acc2)
                },
                None => None,
            }
        } else {
            Some((acc, i))
        }
    } else {
        proof {
            assert(pre =~= Seq::<Token>::empty());
        }
        Some((acc, i))
    }
}

/// An exact rational value; the denominator is always positive.
pub struct Rat {
    pub n: i64,
    pub d: i64,
}

/// Whether a mathematical integer fits the machine word the evaluator
/// computes with.
pub open spec fn in_i64(x: int) -> bool {
    i64::MIN as int <= x <= i64::MAX as int
}

/// The exact rational value of an expression: `Some((n, d))` with
/// `d > 0`, or `None` when a literal or intermediate product leaves the
/// machine range or a division by zero occurs.
pub open spec fn spec_eval(e: Expr) -> Option<(int, int)>
    decreases e,
{
    match e {
        Expr::Num { n } => if n <= i64::MAX as u64 {
            Some((n as int, 1int))
        } else {
            None
        },
        Expr::Neg(a) => match spec_eval(*a) {
            Some((n, d)) => if in_i64(-n) {
                Some((-n, d))
            } else {
                None
            },
            None => None,
        },
        Expr::Add(a, b) => match (spec_eval(*a), spec_eval(*b)) {
            (Some((n1, d1)), Some((n2, d2))) => if in_i64(n1 * d2) && in_i64(n2 * d1) && in_i64(
                n1 * d2 + n2 * d1,
            ) && in_i64(d1 * d2) {
                Some((n1 * d2 + n2 * d1, d1 * d2))
            } else {
                None
            },
            _ => None,
        },
        Expr::Sub(a, b) => match (spec_eval(*a), spec_eval(*b)) {
            (Some((n1, d1)), Some((n2, d2))) => if in_i64(n1 * d2) && in_i64(n2 * d1) && in_i64(
                n1 * d2 - n2 * d1,
            ) && in_i64(d1 * d2) {
                Some((n1 * d2 - n2 * d1, d1 * d2))
            } else {
                None
            },
            _ => None,
        },
        Expr::Mul(a, b) => match (spec_eval(*a), spec_eval(*b)) {
            (Some((n1, d1)), Some((n2, d2))) => if in_i64(n1 * n2) && in_i64(d1 * d2) {
                Some((n1 * n2, d1 * d2))
            } else {
                None
            },
            _ => None,
        },
        Expr::Div(a, b) => match (spec_eval(*a), spec_eval(*b)) {
            (Some((n1, d1)), Some((n2, d2))) => if n2 == 0 {
                None
            } else if !in_i64(n1 * d2) || !in_i64(d1 * n2) {
                None
            } else if n2 < 0 {
                if in_i64(-(n1 * d2)) && in_i64(-(d1 * n2)) {
                    Some((-(n1 * d2), -(d1 * n2)))
                } else {
                    None
                }
            } else {
                Some((n1 * d2, d1 * n2))
            },
            _ => None,
        },
    }
}

/// A successful evaluation always has a positive denominator.
pub proof fn lemma_eval_den_pos(e: Expr)
    ensures
        match spec_eval(e) {
            Some((n, d)) => d > 0,
            None => true,
        },
    decreases e,
{
    match e {
        Expr::Num { n } => {},
        Expr::Neg(a) => {
            lemma_eval_den_pos(*a);
        },
        Expr::Add(a, b) => {
            lemma_eval_den_pos(*a);
            lemma_eval_den_pos(*b);
            if spec_eval(*a) is Some && spec_eval(*b) is Some {
                let (n1, d1) = spec_eval(*a)->Some_0;
                let (n2, d2) = spec_eval(*b)->Some_0;
                assert(d1 * d2 > 0) by (nonlinear_arith)
                    requires
                        d1 > 0,
                        d2 > 0,
                ;
            }
        },
        Expr::Sub(a, b) => {
            lemma_eval_den_pos(*a);
            lemma_eval_den_pos(*b);
            if spec_eval(*a) is Some && spec_eval(*b) is Some {
                let (n1, d1) = spec_eval(*a)->Some_0;
                let (n2, d2) = spec_eval(*b)->Some_0;
                assert(d1 * d2 > 0) by (nonlinear_arith)
                    requires
                        d1 > 0,
                        d2 > 0,
                ;
            }
        },
        Expr::Mul(a, b) => {
            lemma_eval_den_pos(*a);
            lemma_eval_den_pos(*b);
            if spec_eval(*a) is Some && spec_eval(*b) is Some {
                let (n1, d1) = spec_eval(*a)->Some_0;
                let (n2, d2) = spec_eval(*b)->Some_0;
                assert(d1 * d2 > 0) by (nonlinear_arith)
                    requires
                        d1 > 0,
                        d2 > 0,
                ;
            }
        },
        Expr::Div(a, b) => {
            lemma_eval_den_pos(*a);
            lemma_eval_den_pos(*b);
            if spec_eval(*a) is Some && spec_eval(*b) is Some {
                let (n1, d1) = spec_eval(*a)->Some_0;
                let (n2, d2) = spec_eval(*b)->Some_0;
                if n2 != 0 {
                    assert(n2 < 0 ==> -(d1 * n2) > 0) by (nonlinear_arith)
                        requires
                            d1 > 0,
                    ;
                    assert(n2 > 0 ==> d1 * n2 > 0) by (nonlinear_arith)
                        requires
                            d1 > 0,
                    ;
                }
            }
        },
    }
}

/// Evaluates an expression to an exact rational.
pub fn eval_expr(e: &Expr) -> (r: Option<Rat>)
    ensures
        match r {
            Some(rat) => spec_eval(*e) == Some((rat.n as int, rat.d as int)) && rat.d > 0,
            None => spec_eval(*e) is None,
        },
    decreases *e,
{
    match e {
        Expr::Num { n } => {
            let nv = *n;
            if nv <= 9223372036854775807u64 {
                Some(Rat { n: nv as i64, d: 1 })
            } else {
                None
            }
        },
        Expr::Neg(a) => {
            match eval_expr(&**a) {
                Some(ra) => match (0i64).checked_sub(ra.n) {
                    Some(nn) => Some(Rat { n: nn, d: ra.d }),
                    None => None,
                },
                None => None,
            }
        },
        Expr::Add(a, b) => {
            match (eval_expr(&**a), eval_expr(&**b)) {
                (Some(ra), Some(rb)) => {
                    match (ra.n.checked_mul(rb.d), rb.n.checked_mul(ra.d), ra.d.checked_mul(
                        rb.d,
                    )) {
                        (Some(x), Some(y), Some(den)) => match x.checked_add(y) {
                            Some(num) => {
                                proof {
                                    lemma_eval_den_pos(*e);
                                }
                                Some(Rat { n: num, d: den })
                            },
                            None => None,
                        },
                        _ => None,
                    }
                },
                _ => None,
            }
        },
        Expr::Sub(a, b) => {
            match (eval_expr(&**a), eval_expr(&**b)) {
                (Some(ra), Some(rb)) => {
                    match (ra.n.checked_mul(rb.d), rb.n.checked_mul(ra.d), ra.d.checked_mul(
                        rb.d,
                    )) {
                        (Some(x), Some(y), Some(den)) => match x.checked_sub(y) {
                            Some(num) => {
                                proof {
                                    lemma_eval_den_pos(*e);
                                }
                                Some(Rat { n: num, d: den })
                            },
                            None => None,
                        },
                        _ => None,
                    }
                },
                _ => None,
            }
        },
        Expr::Mul(a, b) => {
            match (eval_expr(&**a), eval_expr(&**b)) {
                (Some(ra), Some(rb)) => {
                    match (ra.n.checked_mul(rb.n), ra.d.checked_mul(rb.d)) {
                        (Some(num), Some(den)) => {
                            proof {
                                lemma_eval_den_pos(*e);
                            }
                            Some(Rat { n: num, d: den })
                        },
                        _ => None,
                    }
                },
                _ => None,
            }
        },
        Expr::Div(a, b) => {
            match (eval_expr(&**a), eval_expr(&**b)) {
                (Some(ra), Some(rb)) => {
                    if rb.n == 0 {
                        None
                    } else {
                        match (ra.n.checked_mul(rb.d), ra.d.checked_mul(rb.n)) {
                            (Some(num), Some(den)) => {
                                proof {
                                    let ghost dv: int = den as int;
                                    let ghost pv: int = ra.d as int;
                                    let ghost qv: int = rb.n as int;
                                    assert(dv != 0 && ((dv < 0) <==> (qv < 0)))
                                        by (nonlinear_arith)
                                        requires
                                            pv > 0,
                                            qv != 0,
                                            dv == pv * qv,
                                    ;
                                }
                                if den < 0 {
                                    match ((0i64).checked_sub(num), (0i64).checked_sub(den)) {
                                        (Some(num2), Some(den2)) => {
                                            proof {
                                                lemma_eval_den_pos(*e);
                                            }
                                            Some(Rat { n: num2, d: den2 })
                                        },
                                        _ => None,
                                    }
                                } else {
                                    proof {
                                        assert(ra.d * rb.n != 0) by (nonlinear_arith)
                                            requires
                                                ra.d > 0,
                                                rb.n != 0,
                                        ;
                                        lemma_eval_den_pos(*e);
                                    }
                                    Some(Rat { n: num, d: den })
                                }
                            },
                            _ => None,
                        }
                    }
                },
                _ => None,
            }
        },
    }
}

/// The digits after the decimal point: up to `fuel` digits of the
/// expansion of `r / d`, stopping early when the remainder is zero.
pub open spec fn frac_digits(r: int, d: int, fuel: nat) -> Seq<char>
    decreases fuel,
{
    if fuel == 0 || r <= 0 {
        Seq::empty()
    } else {
        seq![crate::strutil::digit_char((r * 10) / d)] + frac_digits(
            (r * 10) % d,
            d,
            (fuel - 1) as nat,
        )
    }
}

/// The decimal rendering of the non-negative rational `n / d`: integer
/// part, then, when the fraction does not vanish, a point and up to 17
/// fractional digits (truncated beyond that).
pub open spec fn spec_render_nonneg(n: int, d: int) -> Seq<char> {
    spec_dec_digits(n / d) + if n % d == 0 {
        Seq::empty()
    } else {
        seq!['.'] + frac_digits(n % d, d, 17)
    }
}

/// The decimal rendering of a rational with positive denominator.
pub open spec fn spec_render(n: int, d: int) -> Seq<char> {
    if n < 0 {
        seq!['-'] + spec_render_nonneg(-n, d)
    } else {
        spec_render_nonneg(n, d)
    }
}

/// Renders a rational as decimal text.
pub fn render_rat(rat: &Rat) -> (out: Vec<char>)
    requires
        rat.d > 0,
    ensures
        out@ == spec_render(rat.n as int, rat.d as int),
{
    let mut out: Vec<char> = Vec::new();
    let neg = rat.n < 0;
    if neg {
        out.push('-');
    }
    let mag: u128 = if neg {
        ((-(rat.n as i128)) as u128)
    } else {
        (rat.n as u128)
    };
    let dd: u128 = rat.d as u128;
    let ghost sign: Seq<char> = if neg {
        seq!['-']
    } else {
        Seq::empty()
    };
    let ghost mn: int = if rat.n < 0 {
        -(rat.n as int)
    } else {
        rat.n as int
    };
    proof {
        assert(out@ =~= sign);
        assert(mag as int == mn);
    }
    let q: u128 = mag / dd;
    let mut r: u128 = mag % dd;
    push_dec_digits(q, &mut out);
    if r != 0 {
        out.push('.');
        let ghost whole: Seq<char> = sign + spec_dec_digits(q as int) + seq!['.'];
        proof {
            assert(out@ =~= whole);
        }
        let ghost r0: int = r as int;
        let mut k: usize = 0;
        while k < 17 && r != 0
            invariant
                rat.d > 0,
                dd == rat.d as u128,
                k <= 17,
                r < dd,
                frac_digits(r0, rat.d as int, 17) == out@.skip(whole.len() as int) + frac_digits(
                    r as int,
                    rat.d as int,
                    (17 - k) as nat,
                ),
                out@.take(whole.len() as int) == whole,
                out@.len() >= whole.len(),
            decreases 17 - k,
        {
            let t: u128 = r * 10;
            let dig: u128 = t / dd;
            proof {
                assert(dig < 10) by (nonlinear_arith)
                    requires
                        t == r * 10,
                        r < dd,
                        dd > 0,
                        dig == t / dd,
                ;
            }
            let ghost outpre = out@;
            out.push(((dig as u8) + 48) as char);
            r = t % dd;
            k = k + 1;
            proof {
                assert(out@.skip(whole.len() as int) =~= outpre.skip(whole.len() as int).push(
                    crate::strutil::digit_char(dig as int),
                ));
                assert(out@.take(whole.len() as int) =~= outpre.take(whole.len() as int));
                assert(outpre.skip(whole.len() as int) + (seq![
                    crate::strutil::digit_char(dig as int),
                ] + frac_digits(r as int, rat.d as int, (17 - k) as nat)) =~= out@.skip(
                    whole.len() as int,
                ) + frac_digits(r as int, rat.d as int, (17 - k) as nat));
            }
        }
        proof {
            if r != 0 {
                assert(frac_digits(r as int, rat.d as int, (17 - k) as nat) =~= Seq::<
                    char,
                >::empty());
            }
            assert(out@ =~= out@.take(whole.len() as int) + out@.skip(whole.len() as int));
            assert(out@ =~= spec_render(rat.n as int, rat.d as int));
        }
    } else {
        proof {
            assert(out@ =~= spec_render(rat.n as int, rat.d as int));
        }
    }
    out
}

/// The decimal text an arithmetic expression text evaluates to, when it
/// tokenizes, parses completely, and evaluates within range.
pub open spec fn spec_eval_text(inner: Seq<char>) -> Option<Seq<char>> {
    match spec_tokenize(inner) {
        Some(ts) => match parse_expr(ts) {
            Some((e, rest)) => if rest.len() == 0 {
                match spec_eval(e) {
                    Some((n, d)) => Some(spec_render(n, d)),
                    None => None,
                }
            } else {
                None
            },
            None => None,
        },
        None => None,
    }
}

/// Evaluates a complete arithmetic expression text to its decimal
/// rendering.
pub fn eval_text(inner: &Vec<char>) -> (r: Option<Vec<char>>)
    ensures
        match r {
            Some(out) => spec_eval_text(inner@) == Some(out@),
            None => spec_eval_text(inner@) is None,
        },
{
    match tokenize(inner) {
        Some(ts) => {
            proof {
                assert(ts@.skip(0) =~= ts@);
            }
            match parse_expr_at(&ts, 0) {
                Some((e, j)) => {
                    if j == ts.len() {
                        proof {
                            assert(ts@.skip(j as int) =~= Seq::<Token>::empty());
                        }
                        match eval_expr(&e) {
                            Some(rat) => Some(render_rat(&rat)),
                            None => None,
                        }
                    } else {
                        proof {
                            assert(ts@.skip(j as int).len() > 0);
                        }
                        None
                    }
                },
                None => None,
            }
        },
        None => None,
    }
}

/// A run of leading digits bounds the digits prefix from below.
proof fn lemma_dpl_at_least(s: Seq<char>, m: int)
    requires
        0 <= m <= s.len(),
        forall|k: int| 0 <= k < m ==> is_digit_char(#[trigger] s[k]),
    ensures
        digits_prefix_len(s) >= m,
    decreases m,
{
    lemma_dpl_bounds(s);
    if m > 0 {
        assert(is_digit_char(s[0]));
        assert(forall|k: int|
            0 <= k < m - 1 ==> #[trigger] s.drop_first()[k] == s[k + 1]);
        lemma_dpl_at_least(s.drop_first(), m - 1);
        assert(digits_prefix_len(s) == 1 + digits_prefix_len(s.drop_first()));
    }
}

} // verus!

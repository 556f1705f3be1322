//! The lexer and parser of terms.
//!
//! Tokens, numbered as the lexer tries them:
//! `[0-9]+`, `[a-zA-Z][a-zA-Z0-9_]*`, `(`, `()`, `)`, `,`, `->`, `bool`,
//! `false`, `i32`, `true`. White space before a token is skipped, the
//! longest match wins and, among matches of one length, the token listed
//! last. The grammar:
//!
//! ```text
//! Term ::= Num | "true" | "false" | "()" | "(" Term ")"
//! ```
//!
//! Like an LR(1) parser, the parser reads the token after a complete term
//! before it accepts it; what follows that token is not read. Positions in
//! tokens and errors are byte offsets into the input.

use super::ast::{Expr, Literal};
use vstd::prelude::*;
use vstd::string::*;

verus! {

pub const TOK_NUM: usize = 0;

pub const TOK_IDENT: usize = 1;

pub const TOK_LPAREN: usize = 2;

pub const TOK_UNIT: usize = 3;

pub const TOK_RPAREN: usize = 4;

pub const TOK_COMMA: usize = 5;

pub const TOK_ARROW: usize = 6;

pub const TOK_BOOL: usize = 7;

pub const TOK_FALSE: usize = 8;

pub const TOK_I32: usize = 9;

pub const TOK_TRUE: usize = 10;

/// A token as the lexer hands it out: its start offset, its kind and
/// text, and its end offset.
pub type Token = (usize, (usize, String), usize);

/// Why the input is not a term.
#[derive(Debug)]
pub enum ParseError {
    /// No token starts at `location`.
    InvalidToken { location: usize },
    /// `token` (`None`: the end of the input) cannot come here; the
    /// tokens that could are listed in `expected`.
    UnrecognizedToken { token: Option<Token>, expected: Vec<String> },
}

/// White space as Unicode defines it.
pub open spec fn is_white(c: char) -> bool {
    let n = c as u32;
    (0x9 <= n <= 0xd) || n == 0x20 || n == 0x85 || n == 0xa0 || n == 0x1680 || (0x2000 <= n
        <= 0x200a) || n == 0x2028 || n == 0x2029 || n == 0x202f || n == 0x205f || n == 0x3000
}

pub open spec fn is_digit(c: char) -> bool {
    0x30 <= (c as u32) <= 0x39
}

pub open spec fn is_alpha(c: char) -> bool {
    (0x41 <= (c as u32) <= 0x5a) || (0x61 <= (c as u32) <= 0x7a)
}

pub open spec fn is_ident_char(c: char) -> bool {
    is_digit(c) || is_alpha(c) || c == '_'
}

/// The first position at or after `p` that holds no white space.
pub open spec fn skip_ws(s: Seq<char>, p: int) -> int
    decreases s.len() - p,
{
    if 0 <= p < s.len() && is_white(s[p]) {
        skip_ws(s, p + 1)
    } else {
        p
    }
}

/// The end of the run of digits that starts at `p`.
pub open spec fn digit_end(s: Seq<char>, p: int) -> int
    decreases s.len() - p,
{
    if 0 <= p < s.len() && is_digit(s[p]) {
        digit_end(s, p + 1)
    } else {
        p
    }
}

/// The end of the run of identifier characters that starts at `p`.
pub open spec fn ident_end(s: Seq<char>, p: int) -> int
    decreases s.len() - p,
{
    if 0 <= p < s.len() && is_ident_char(s[p]) {
        ident_end(s, p + 1)
    } else {
        p
    }
}

/// The kind of a word: a keyword, or else an identifier.
pub open spec fn word_kind(w: Seq<char>) -> usize {
    if w == "bool"@ {
        TOK_BOOL
    } else if w == "false"@ {
        TOK_FALSE
    } else if w == "i32"@ {
        TOK_I32
    } else if w == "true"@ {
        TOK_TRUE
    } else {
        TOK_IDENT
    }
}

/// What the lexer finds from position `p` on.
pub enum SLex {
    Eof,
    Invalid,
    /// A token of a kind, from a position up to another, in characters.
    Tok(usize, int, int),
}

pub open spec fn lex_at(s: Seq<char>, p: int) -> SLex {
    let q = skip_ws(s, p);
    if q < 0 || q >= s.len() {
        SLex::Eof
    } else {
        let c = s[q];
        if is_digit(c) {
            SLex::Tok(TOK_NUM, q, digit_end(s, q))
        } else if is_alpha(c) {
            let e = ident_end(s, q + 1);
            SLex::Tok(word_kind(s.subrange(q, e)), q, e)
        } else if c == '(' {
            if q + 1 < s.len() && s[q + 1] == ')' {
                SLex::Tok(TOK_UNIT, q, q + 2)
            } else {
                SLex::Tok(TOK_LPAREN, q, q + 1)
            }
        } else if c == ')' {
            SLex::Tok(TOK_RPAREN, q, q + 1)
        } else if c == ',' {
            SLex::Tok(TOK_COMMA, q, q + 1)
        } else if c == '-' && q + 1 < s.len() && s[q + 1] == '>' {
            SLex::Tok(TOK_ARROW, q, q + 2)
        } else {
            SLex::Invalid
        }
    }
}

/// The number of bytes that encode `c` in UTF-8.
pub open spec fn char_width(c: char) -> nat {
    let n = c as u32;
    if n < 0x80 {
        1
    } else if n < 0x800 {
        2
    } else if n < 0x10000 {
        3
    } else {
        4
    }
}

/// The number of bytes that encode `s` in UTF-8.
pub open spec fn utf8_width(s: Seq<char>) -> nat
    decreases s.len(),
{
    if s.len() == 0 {
        0
    } else {
        utf8_width(s.drop_last()) + char_width(s.last())
    }
}

/// The byte offset of character position `p`.
pub open spec fn offset(s: Seq<char>, p: int) -> nat {
    utf8_width(s.subrange(0, p))
}

/// The value of a run of decimal digits.
pub open spec fn digits_value(w: Seq<char>) -> nat
    decreases w.len(),
{
    if w.len() == 0 {
        0
    } else {
        digits_value(w.drop_last()) * 10 + ((w.last() as u32) - 0x30) as nat
    }
}

/// A run of digits is read in positional decimal notation: no digits are
/// worth 0, and one more digit `c` at the end multiplies the value so far
/// by ten and adds the worth of `c`, a `0` included.
pub proof fn law_digits_positional(w: Seq<char>, c: char)
    requires
        is_digit(c),
    ensures
        digits_value(Seq::<char>::empty()) == 0,
        digits_value(w.push(c)) == 10 * digits_value(w) + ((c as u32) - 0x30),
{
    assert(w.push(c).drop_last() =~= w);
}

/// How the parser leaves a syntax error.
pub enum PErr {
    /// No token at this character position.
    InvalidAt(int),
    /// This token (`None`: the end of the input) cannot come here; the flag
    /// tells whether a closing parenthesis was expected, or else a term.
    Unexpected(Option<(usize, int, int)>, bool),
}

/// What parsing a term gives.
pub enum Outcome {
    /// A term, and the token read after it.
    Done(Literal, Option<(usize, int, int)>),
    Fail(PErr),
    /// A number too large for `i32`: the parser stops the program there.
    Crash,
}

/// The token at `p`, where there is one.
pub open spec fn lookahead(s: Seq<char>, p: int) -> Option<(usize, int, int)> {
    match lex_at(s, p) {
        SLex::Tok(k, a, b) => Some((k, a, b)),
        _ => None,
    }
}

/// A complete term `lit` ends at `b`: the parser reads the next token.
pub open spec fn reduce_after(s: Seq<char>, b: int, lit: Literal) -> Outcome {
    if lex_at(s, b) is Invalid {
        Outcome::Fail(PErr::InvalidAt(skip_ws(s, b)))
    } else {
        Outcome::Done(lit, lookahead(s, b))
    }
}

/// Parsing a term whose first token is read at `p`.
pub open spec fn term(s: Seq<char>, p: int) -> Outcome
    decreases s.len() - p,
{
    match lex_at(s, p) {
        SLex::Invalid => Outcome::Fail(PErr::InvalidAt(skip_ws(s, p))),
        SLex::Eof => Outcome::Fail(PErr::Unexpected(None, false)),
        SLex::Tok(k, a, b) => {
            if k == TOK_NUM {
                let v = digits_value(s.subrange(a, b));
                if !(lex_at(s, b) is Invalid) && v > i32::MAX {
                    Outcome::Crash
                } else {
                    reduce_after(s, b, Literal::I32(v as i32))
                }
            } else if k == TOK_TRUE {
                reduce_after(s, b, Literal::Bool(true))
            } else if k == TOK_FALSE {
                reduce_after(s, b, Literal::Bool(false))
            } else if k == TOK_UNIT {
                reduce_after(s, b, Literal::Unit)
            } else if k == TOK_LPAREN {
                proof {
                    lemma_lex_bounds(s, p);
                }
                match term(s, b) {
                    Outcome::Done(lit, la) => match la {
                        Some((k2, a2, b2)) => {
                            if k2 == TOK_RPAREN {
                                reduce_after(s, b2, lit)
                            } else {
                                Outcome::Fail(PErr::Unexpected(la, true))
                            }
                        },
                        None => Outcome::Fail(PErr::Unexpected(None, true)),
                    },
                    other => other,
                }
            } else {
                Outcome::Fail(PErr::Unexpected(Some((k, a, b)), false))
            }
        },
    }
}

/// The tokens a term may start with, as the error lists them.
pub open spec fn term_start() -> Seq<Seq<char>> {
    seq!["\"(\""@, "\"()\""@, "\"false\""@, "\"true\""@, "r#\"[0-9]+\"#"@]
}

/// The tokens that may follow a term in parentheses.
pub open spec fn close_paren() -> Seq<Seq<char>> {
    seq!["\")\""@]
}

/// The lexer's token for the one the specification names.
pub open spec fn token_is(t: Token, s: Seq<char>, k: usize, a: int, b: int) -> bool {
    &&& t.0 == offset(s, a)
    &&& t.1.0 == k
    &&& t.1.1@ == s.subrange(a, b)
    &&& t.2 == offset(s, b)
}

pub open spec fn opt_token_is(t: Option<Token>, s: Seq<char>, o: Option<(usize, int, int)>) -> bool {
    match (t, o) {
        (None, None) => true,
        (Some(t), Some((k, a, b))) => token_is(t, s, k, a, b),
        _ => false,
    }
}

pub open spec fn strings_view(v: Seq<String>) -> Seq<Seq<char>> {
    Seq::new(v.len(), |i: int| v[i]@)
}

/// The error value for the specification's error.
pub open spec fn error_is(e: ParseError, s: Seq<char>, pe: PErr) -> bool {
    match (e, pe) {
        (ParseError::InvalidToken { location }, PErr::InvalidAt(q)) => location == offset(s, q),
        (ParseError::UnrecognizedToken { token, expected }, PErr::Unexpected(o, close)) => {
            &&& opt_token_is(token, s, o)
            &&& strings_view(expected@) == if close {
                close_paren()
            } else {
                term_start()
            }
        },
        _ => false,
    }
}

pub open spec fn outcome_is(
    r: Result<(Literal, Option<Token>), ParseError>,
    s: Seq<char>,
    o: Outcome,
) -> bool {
    match (r, o) {
        (Ok((l, t)), Outcome::Done(lit, la)) => l == lit && opt_token_is(t, s, la),
        (Err(e), Outcome::Fail(pe)) => error_is(e, s, pe),
        _ => false,
    }
}

proof fn lemma_skip_ws(s: Seq<char>, p: int)
    ensures
        p <= skip_ws(s, p),
        0 <= p <= s.len() ==> skip_ws(s, p) <= s.len(),
        forall|i: int| p <= i < skip_ws(s, p) ==> 0 <= i < s.len() && is_white(#[trigger] s[i]),
        0 <= skip_ws(s, p) < s.len() ==> !is_white(s[skip_ws(s, p)]),
    decreases s.len() - p,
{
    if 0 <= p < s.len() && is_white(s[p]) {
        lemma_skip_ws(s, p + 1);
    }
}

proof fn lemma_digit_end(s: Seq<char>, p: int)
    ensures
        p <= digit_end(s, p),
        0 <= p <= s.len() ==> digit_end(s, p) <= s.len(),
        forall|i: int| p <= i < digit_end(s, p) ==> 0 <= i < s.len() && is_digit(#[trigger] s[i]),
        0 <= digit_end(s, p) < s.len() ==> !is_digit(s[digit_end(s, p)]),
    decreases s.len() - p,
{
    if 0 <= p < s.len() && is_digit(s[p]) {
        lemma_digit_end(s, p + 1);
    }
}

proof fn lemma_ident_end(s: Seq<char>, p: int)
    ensures
        p <= ident_end(s, p),
        0 <= p <= s.len() ==> ident_end(s, p) <= s.len(),
        forall|i: int|
            p <= i < ident_end(s, p) ==> 0 <= i < s.len() && is_ident_char(#[trigger] s[i]),
        0 <= ident_end(s, p) < s.len() ==> !is_ident_char(s[ident_end(s, p)]),
    decreases s.len() - p,
{
    if 0 <= p < s.len() && is_ident_char(s[p]) {
        lemma_ident_end(s, p + 1);
    }
}

/// A token lies after the position the lexer starts from, within the input.
pub proof fn lemma_lex_bounds(s: Seq<char>, p: int)
    ensures
        lex_at(s, p) matches SLex::Tok(k, a, b) ==> p <= a < b <= s.len() && 0 <= a,
{
    lemma_skip_ws(s, p);
    let q = skip_ws(s, p);
    if 0 <= q < s.len() {
        lemma_digit_end(s, q);
        lemma_ident_end(s, q + 1);
    }
}

/// The lexer takes the longest match: a number runs to the end of its
/// digits, a word to the end of its identifier characters, and a word that
/// spells a keyword is that keyword, not an identifier.
pub proof fn law_longest_match(s: Seq<char>, p: int)
    ensures
        lex_at(s, p) matches SLex::Tok(k, a, b) ==> (k == TOK_NUM ==> (forall|i: int|
            a <= i < b ==> is_digit(#[trigger] s[i])) && (b == s.len() || !is_digit(s[b]))),
        lex_at(s, p) matches SLex::Tok(k, a, b) ==> ((k == TOK_IDENT || k == TOK_BOOL || k
            == TOK_FALSE || k == TOK_I32 || k == TOK_TRUE) ==> (forall|i: int|
            a <= i < b ==> is_ident_char(#[trigger] s[i])) && (b == s.len() || !is_ident_char(
            s[b],
        )) && k == word_kind(s.subrange(a, b))),
{
    lemma_skip_ws(s, p);
    lemma_lex_bounds(s, p);
    let q = skip_ws(s, p);
    if 0 <= q < s.len() {
        lemma_digit_end(s, q);
        lemma_ident_end(s, q + 1);
    }
}

/// `t` in parentheses.
pub open spec fn parenthesized(t: Seq<char>) -> Seq<char> {
    seq!['('] + t + seq![')']
}

proof fn lemma_parenthesized(t: Seq<char>)
    ensures
        parenthesized(t).len() == t.len() + 2int,
        parenthesized(t)[0] == '(',
        parenthesized(t)[t.len() + 1int] == ')',
        forall|i: int| 0 <= i < t.len() ==> #[trigger] parenthesized(t)[i + 1] == t[i],
        forall|a: int, b: int|
            0 <= a <= b <= t.len() ==> #[trigger] parenthesized(t).subrange(a + 1, b + 1)
                == t.subrange(a, b),
{
    let s = parenthesized(t);
    assert forall|a: int, b: int| 0 <= a <= b <= t.len() implies #[trigger] s.subrange(
        a + 1,
        b + 1,
    ) == t.subrange(a, b) by {
        assert(s.subrange(a + 1, b + 1) =~= t.subrange(a, b));
    }
}

proof fn lemma_skip_ws_shift(t: Seq<char>, p: int)
    requires
        0 <= p <= t.len(),
    ensures
        skip_ws(parenthesized(t), p + 1) == skip_ws(t, p) + 1,
    decreases t.len() - p,
{
    lemma_parenthesized(t);
    if p < t.len() {
        assert(parenthesized(t)[p + 1] == t[p]);
        if is_white(t[p]) {
            lemma_skip_ws_shift(t, p + 1);
        }
    }
}

proof fn lemma_digit_end_shift(t: Seq<char>, p: int)
    requires
        0 <= p <= t.len(),
    ensures
        digit_end(parenthesized(t), p + 1) == digit_end(t, p) + 1,
    decreases t.len() - p,
{
    lemma_parenthesized(t);
    if p < t.len() {
        assert(parenthesized(t)[p + 1] == t[p]);
        if is_digit(t[p]) {
            lemma_digit_end_shift(t, p + 1);
        }
    }
}

proof fn lemma_ident_end_shift(t: Seq<char>, p: int)
    requires
        0 <= p <= t.len(),
    ensures
        ident_end(parenthesized(t), p + 1) == ident_end(t, p) + 1,
    decreases t.len() - p,
{
    lemma_parenthesized(t);
    if p < t.len() {
        assert(parenthesized(t)[p + 1] == t[p]);
        if is_ident_char(t[p]) {
            lemma_ident_end_shift(t, p + 1);
        }
    }
}

/// Within the parentheses the lexer finds the tokens of `t`, one place on,
/// and the closing parenthesis where `t` ends; an opening parenthesis at
/// the very end of `t` is the one exception.
proof fn lemma_lex_shift(t: Seq<char>, p: int)
    requires
        0 <= p <= t.len(),
    ensures
        lex_at(t, p) is Eof ==> lex_at(parenthesized(t), p + 1) == SLex::Tok(
            TOK_RPAREN,
            t.len() + 1int,
            t.len() + 2int,
        ),
        lex_at(t, p) matches SLex::Tok(k, a, b) ==> ((k != TOK_LPAREN || b < t.len()) ==> lex_at(
            parenthesized(t),
            p + 1,
        ) == SLex::Tok(k, a + 1, b + 1)),
{
    let s = parenthesized(t);
    lemma_parenthesized(t);
    lemma_skip_ws_shift(t, p);
    lemma_skip_ws(t, p);
    let q = skip_ws(t, p);
    if q < t.len() {
        assert(s[q + 1] == t[q]);
        lemma_digit_end_shift(t, q);
        lemma_ident_end_shift(t, q + 1);
        lemma_digit_end(t, q);
        lemma_ident_end(t, q + 1);
        if q + 1 < t.len() {
            assert(s[q + 2] == t[q + 1]);
        }
    }
}

/// Parsing within the parentheses follows parsing `t`, one place on, as
/// long as the term is followed by the end of `t` or by a closing
/// parenthesis.
proof fn lemma_term_shift(t: Seq<char>, p: int)
    requires
        0 <= p <= t.len(),
    ensures
        term(t, p) matches Outcome::Done(lit, None) ==> term(parenthesized(t), p + 1)
            == Outcome::Done(lit, Some((TOK_RPAREN, t.len() + 1int, t.len() + 2int))),
        term(t, p) matches Outcome::Done(lit, Some((k, a, b))) ==> (k == TOK_RPAREN ==> term(
            parenthesized(t),
            p + 1,
        ) == Outcome::Done(lit, Some((TOK_RPAREN, a + 1, b + 1)))),
    decreases t.len() - p,
{
    let s = parenthesized(t);
    lemma_parenthesized(t);
    lemma_lex_shift(t, p);
    lemma_lex_bounds(t, p);
    if let SLex::Tok(k, a, b) = lex_at(t, p) {
        lemma_lex_shift(t, b);
        lemma_lex_bounds(t, b);
        if k == TOK_LPAREN {
            lemma_term_shift(t, b);
            if let Outcome::Done(lit, Some((k2, a2, b2))) = term(t, b) {
                lemma_lex_bounds(t, b);
                lemma_skip_ws(t, b);
                if k2 == TOK_RPAREN {
                    lemma_lex_shift(t, b2);
                }
            }
        } else if k == TOK_NUM {
            assert(s.subrange(a + 1, b + 1) == t.subrange(a, b));
        }
    }
}

/// A term in parentheses parses to the term itself: wherever `t` is one
/// complete term, `(t)` gives the same literal and nothing after it.
pub proof fn law_parenthesized_term(t: Seq<char>)
    requires
        term(t, 0) matches Outcome::Done(_, None),
    ensures
        term(parenthesized(t), 0) == term(t, 0),
{
    let s = parenthesized(t);
    lemma_parenthesized(t);
    lemma_term_shift(t, 0);
    lemma_skip_ws(t, 0);
    if t.len() > 0 {
        assert(s[1] == t[0]);
    }
    assert(skip_ws(s, 0) == 0);
    assert(lex_at(s, t.len() + 2int) is Eof);
}

proof fn lemma_width_step(s: Seq<char>, q: int)
    requires
        0 <= q < s.len(),
    ensures
        offset(s, q + 1) == offset(s, q) + char_width(s[q]),
{
    assert(s.subrange(0, q + 1).drop_last() =~= s.subrange(0, q));
}

proof fn lemma_width_mono(s: Seq<char>, i: int, j: int)
    requires
        0 <= i <= j <= s.len(),
    ensures
        offset(s, i) <= offset(s, j),
    decreases j - i,
{
    if i < j {
        lemma_width_step(s, j - 1);
        lemma_width_mono(s, i, j - 1);
    }
}

/// Offsets within an input whose length in bytes fits in `usize` fit too.
proof fn lemma_offset_fits(s: Seq<char>, p: int)
    requires
        0 <= p <= s.len(),
        utf8_width(s) <= usize::MAX,
    ensures
        offset(s, skip_ws(s, p)) <= usize::MAX,
{
    lemma_skip_ws(s, p);
    lemma_width_mono(s, skip_ws(s, p), s.len() as int);
    assert(s.subrange(0, s.len() as int) =~= s);
}

proof fn lemma_digits_prefix(w: Seq<char>, i: int)
    requires
        0 <= i <= w.len(),
        forall|j: int| 0 <= j < w.len() ==> is_digit(#[trigger] w[j]),
    ensures
        digits_value(w.subrange(0, i)) <= digits_value(w),
    decreases w.len() - i,
{
    if i < w.len() {
        let v = w.subrange(0, i + 1);
        assert(v.drop_last() =~= w.subrange(0, i));
        lemma_digits_prefix(w, i + 1);
    } else {
        assert(w.subrange(0, i) =~= w);
    }
}

fn white(c: char) -> (r: bool)
    ensures
        r == is_white(c),
{
    let n: u32 = c as u32;
    (0x9 <= n && n <= 0xd) || n == 0x20 || n == 0x85 || n == 0xa0 || n == 0x1680 || (0x2000 <= n
        && n <= 0x200a) || n == 0x2028 || n == 0x2029 || n == 0x202f || n == 0x205f || n == 0x3000
}

fn digit(c: char) -> (r: bool)
    ensures
        r == is_digit(c),
{
    let n: u32 = c as u32;
    0x30 <= n && n <= 0x39
}

fn alpha(c: char) -> (r: bool)
    ensures
        r == is_alpha(c),
{
    let n: u32 = c as u32;
    (0x41 <= n && n <= 0x5a) || (0x61 <= n && n <= 0x7a)
}

fn ident_char(c: char) -> (r: bool)
    ensures
        r == is_ident_char(c),
{
    digit(c) || alpha(c) || c == '_'
}

fn width(c: char) -> (r: usize)
    ensures
        r == char_width(c),
{
    let n: u32 = c as u32;
    if n < 0x80 {
        1
    } else if n < 0x800 {
        2
    } else if n < 0x10000 {
        3
    } else {
        4
    }
}

/// Whether `chars[a..b]` spells `kw`.
fn spells(chars: &Vec<char>, a: usize, b: usize, kw: &str) -> (r: bool)
    requires
        a <= b <= chars@.len(),
    ensures
        r == (chars@.subrange(a as int, b as int) == kw@),
{
    let n = kw.unicode_len();
    if b - a != n {
        return false;
    }
    let mut i: usize = 0;
    while i < n
        invariant
            n == kw@.len(),
            b - a == n,
            a <= b <= chars@.len(),
            i <= n,
            forall|j: int| 0 <= j < i ==> chars@[a + j] == kw@[j],
        decreases n - i,
    {
        if chars[a + i] != kw.get_char(i) {
            assert(chars@.subrange(a as int, b as int)[i as int] != kw@[i as int]);
            return false;
        }
        i = i + 1;
    }
    assert(chars@.subrange(a as int, b as int) =~= kw@);
    true
}

/// The value of the digits in `chars[a..b]`, known to fit in `i32`.
fn number_value(chars: &Vec<char>, a: usize, b: usize) -> (r: i32)
    requires
        a <= b <= chars@.len(),
        forall|j: int| a <= j < b ==> is_digit(#[trigger] chars@[j]),
        digits_value(chars@.subrange(a as int, b as int)) <= i32::MAX,
    ensures
        r == digits_value(chars@.subrange(a as int, b as int)),
{
    let ghost w = chars@.subrange(a as int, b as int);
    let mut v: i32 = 0;
    let mut i: usize = a;
    while i < b
        invariant
            a <= i <= b <= chars@.len(),
            w == chars@.subrange(a as int, b as int),
            forall|j: int| 0 <= j < w.len() ==> is_digit(#[trigger] w[j]),
            digits_value(w) <= i32::MAX,
            v == digits_value(w.subrange(0, i - a)),
        decreases b - i,
    {
        proof {
            lemma_digits_prefix(w, i - a + 1);
            assert(w.subrange(0, i - a + 1).drop_last() =~= w.subrange(0, i - a));
            assert(w[i - a] == chars@[i as int]);
        }
        let d: u32 = chars[i] as u32;
        v = v * 10 + (d - 0x30) as i32;
        i = i + 1;
    }
    assert(w.subrange(0, b - a) =~= w);
    v
}

/// The lexer: hands out the tokens of `text` one at a time.
#[allow(non_camel_case_types)]
pub struct __Matcher<'input> {
    text: &'input str,
    chars: Vec<char>,
    pos: usize,
    consumed: usize,
}

impl<'input> __Matcher<'input> {
    /// The characters of the input.
    pub closed spec fn input(&self) -> Seq<char> {
        self.chars@
    }

    /// The character position the next token is read from.
    pub closed spec fn position(&self) -> int {
        self.pos as int
    }

    pub closed spec fn wf(&self) -> bool {
        &&& self.chars@ == self.text@
        &&& self.pos <= self.chars@.len()
        &&& self.consumed == offset(self.chars@, self.pos as int)
        &&& utf8_width(self.chars@) <= usize::MAX
    }

    /// A lexer at the start of `s`. The input's length in bytes fits in
    /// `usize`, as that of any string does.
    pub fn new(s: &'input str) -> (r: Self)
        requires
            utf8_width(s@) <= usize::MAX,
        ensures
            r.wf(),
            r.input() == s@,
            r.position() == 0,
    {
        let n = s.unicode_len();
        let mut chars: Vec<char> = Vec::new();
        let mut i: usize = 0;
        while i < n
            invariant
                n == s@.len(),
                i <= n,
                chars@ == s@.subrange(0, i as int),
            decreases n - i,
        {
            chars.push(s.get_char(i));
            i = i + 1;
            assert(chars@ =~= s@.subrange(0, i as int));
        }
        assert(chars@ =~= s@);
        assert(s@.subrange(0, 0) =~= Seq::<char>::empty());
        __Matcher { text: s, chars, pos: 0, consumed: 0 }
    }

    /// Skips white space and reads one token: its kind, its start and end
    /// (in characters) and its start in bytes. On an invalid token the
    /// lexer stays where it was.
    fn scan(&mut self) -> (r: Option<Result<(usize, usize, usize, usize), ParseError>>)
        requires
            old(self).wf(),
        ensures
            final(self).wf(),
            final(self).input() == old(self).input(),
            final(self).text == old(self).text,
            match lex_at(old(self).input(), old(self).position()) {
                SLex::Eof => r is None,
                SLex::Invalid => {
                    &&& r matches Some(Err(e))
                    &&& e == (ParseError::InvalidToken {
                        location: offset(
                            old(self).input(),
                            skip_ws(old(self).input(), old(self).position()),
                        ) as usize,
                    })
                },
                SLex::Tok(k, a, b) => {
                    &&& r matches Some(Ok(t))
                    &&& t.0 == k && t.1 == a && t.2 == b
                    &&& t.3 == offset(old(self).input(), a)
                    &&& final(self).position() == b
                },
            },
    {
        let ghost s = self.chars@;
        let n = self.chars.len();
        let mut q = self.pos;
        let mut qb = self.consumed;
        proof {
            lemma_skip_ws(s, self.pos as int);
        }
        while q < n && white(self.chars[q])
            invariant
                n == s.len(),
                s == self.chars@,
                self.pos <= q <= n,
                qb == offset(s, q as int),
                utf8_width(s) <= usize::MAX,
                skip_ws(s, q as int) == skip_ws(s, self.pos as int),
            decreases n - q,
        {
            proof {
                lemma_width_step(s, q as int);
                lemma_width_mono(s, q + 1, n as int);
                assert(s.subrange(0, n as int) =~= s);
            }
            qb = qb + width(self.chars[q]);
            q = q + 1;
        }
        if q >= n {
            return None;
        }
        let c = self.chars[q];
        let mut e: usize;
        let kind: usize;
        if digit(c) {
            proof {
                lemma_digit_end(s, q as int);
            }
            e = q + 1;
            while e < n && digit(self.chars[e])
                invariant
                    n == s.len(),
                    s == self.chars@,
                    q < e <= n,
                    digit_end(s, e as int) == digit_end(s, q as int),
                decreases n - e,
            {
                e = e + 1;
            }
            kind = TOK_NUM;
        } else if alpha(c) {
            e = q + 1;
            while e < n && ident_char(self.chars[e])
                invariant
                    n == s.len(),
                    s == self.chars@,
                    q < e <= n,
                    ident_end(s, e as int) == ident_end(s, q + 1),
                decreases n - e,
            {
                e = e + 1;
            }
            kind = if spells(&self.chars, q, e, "bool") {
                TOK_BOOL
            } else if spells(&self.chars, q, e, "false") {
                TOK_FALSE
            } else if spells(&self.chars, q, e, "i32") {
                TOK_I32
            } else if spells(&self.chars, q, e, "true") {
                TOK_TRUE
            } else {
                TOK_IDENT
            };
        } else if c == '(' {
            if q + 1 < n && self.chars[q + 1] == ')' {
                e = q + 2;
                kind = TOK_UNIT;
            } else {
                e = q + 1;
                kind = TOK_LPAREN;
            }
        } else if c == ')' {
            e = q + 1;
            kind = TOK_RPAREN;
        } else if c == ',' {
            e = q + 1;
            kind = TOK_COMMA;
        } else if c == '-' && q + 1 < n && self.chars[q + 1] == '>' {
            e = q + 2;
            kind = TOK_ARROW;
        } else {
            return Some(Err(ParseError::InvalidToken { location: qb }));
        }
        let mut eb = qb;
        let mut i = q;
        while i < e
            invariant
                n == s.len(),
                s == self.chars@,
                q <= i <= e <= n,
                eb == offset(s, i as int),
                utf8_width(s) <= usize::MAX,
            decreases e - i,
        {
            proof {
                lemma_width_step(s, i as int);
                lemma_width_mono(s, i + 1, n as int);
                assert(s.subrange(0, n as int) =~= s);
            }
            eb = eb + width(self.chars[i]);
            i = i + 1;
        }
        self.pos = e;
        self.consumed = eb;
        Some(Ok((kind, q, e, qb)))
    }

    /// The next token, or `None` at the end of the input. On an invalid
    /// token the lexer stays where it was.
    pub fn next(&mut self) -> (r: Option<Result<Token, ParseError>>)
        requires
            old(self).wf(),
        ensures
            final(self).wf(),
            final(self).input() == old(self).input(),
            match lex_at(old(self).input(), old(self).position()) {
                SLex::Eof => r is None,
                SLex::Invalid => {
                    &&& r matches Some(Err(e))
                    &&& e == (ParseError::InvalidToken {
                        location: offset(
                            old(self).input(),
                            skip_ws(old(self).input(), old(self).position()),
                        ) as usize,
                    })
                },
                SLex::Tok(k, a, b) => {
                    &&& r matches Some(Ok(t))
                    &&& token_is(t, old(self).input(), k, a, b)
                    &&& final(self).position() == b
                },
            },
    {
        proof {
            lemma_lex_bounds(self.chars@, self.pos as int);
        }
        match self.scan() {
            None => None,
            Some(Err(e)) => Some(Err(e)),
            Some(Ok((kind, a, b, ab))) => {
                let text = self.text.substring_char(a, b).to_owned();
                Some(Ok((ab, (kind, text), self.consumed)))
            },
        }
    }
}

/// The terminals a term may start with.
fn expected_term() -> (r: Vec<String>)
    ensures
        strings_view(r@) == term_start(),
{
    let r = vec![
        "\"(\"".to_owned(),
        "\"()\"".to_owned(),
        "\"false\"".to_owned(),
        "\"true\"".to_owned(),
        "r#\"[0-9]+\"#".to_owned(),
    ];
    assert(strings_view(r@) =~= term_start());
    r
}

/// The terminal that closes a parenthesis.
fn expected_close() -> (r: Vec<String>)
    ensures
        strings_view(r@) == close_paren(),
{
    let r = vec!["\")\"".to_owned()];
    assert(strings_view(r@) =~= close_paren());
    r
}

/// The term `lit` is complete: reads the token after it.
fn reduce(m: &mut __Matcher, lit: Literal) -> (r: Result<(Literal, Option<Token>), ParseError>)
    requires
        old(m).wf(),
    ensures
        final(m).wf(),
        final(m).input() == old(m).input(),
        outcome_is(r, old(m).input(), reduce_after(old(m).input(), old(m).position(), lit)),
        r matches Ok((_, Some(_))) ==> lookahead(old(m).input(), old(m).position()) matches Some(
            (_, _, b),
        ) && final(m).position() == b,
{
    proof {
        lemma_offset_fits(m.chars@, m.pos as int);
    }
    match m.next() {
        None => Ok((lit, None)),
        Some(Err(e)) => Err(e),
        Some(Ok(t)) => Ok((lit, Some(t))),
    }
}

/// Parses a term whose first token is read at the lexer's position.
fn parse_term(m: &mut __Matcher) -> (r: Result<(Literal, Option<Token>), ParseError>)
    requires
        old(m).wf(),
        !(term(old(m).input(), old(m).position()) is Crash),
    ensures
        final(m).wf(),
        final(m).input() == old(m).input(),
        outcome_is(r, old(m).input(), term(old(m).input(), old(m).position())),
        term(old(m).input(), old(m).position()) matches Outcome::Done(_, Some((_, _, b)))
            ==> final(m).position() == b,
    decreases old(m).input().len() - old(m).position(),
{
    let ghost s = m.input();
    let ghost p = m.position();
    proof {
        lemma_lex_bounds(s, p);
        lemma_offset_fits(s, p);
    }
    match m.scan() {
        None => Err(ParseError::UnrecognizedToken { token: None, expected: expected_term() }),
        Some(Err(e)) => Err(e),
        Some(Ok((kind, a, b, ab))) => {
            if kind == TOK_NUM {
                proof {
                    lemma_digit_end(s, a as int);
                }
                let ghost v = digits_value(s.subrange(a as int, b as int));
                let after = reduce(m, Literal::Unit);
                match after {
                    Err(e) => Err(e),
                    Ok((_, la)) => {
                        let n = number_value(&m.chars, a, b);
                        Ok((Literal::I32(n), la))
                    },
                }
            } else if kind == TOK_TRUE {
                reduce(m, Literal::Bool(true))
            } else if kind == TOK_FALSE {
                reduce(m, Literal::Bool(false))
            } else if kind == TOK_UNIT {
                reduce(m, Literal::Unit)
            } else if kind == TOK_LPAREN {
                match parse_term(m) {
                    Err(e) => Err(e),
                    Ok((lit, None)) => Err(
                        ParseError::UnrecognizedToken { token: None, expected: expected_close() },
                    ),
                    Ok((lit, Some(t))) => {
                        if t.1.0 == TOK_RPAREN {
                            reduce(m, lit)
                        } else {
                            Err(
                                ParseError::UnrecognizedToken {
                                    token: Some(t),
                                    expected: expected_close(),
                                },
                            )
                        }
                    },
                }
            } else {
                let text = m.text.substring_char(a, b).to_owned();
                Err(
                    ParseError::UnrecognizedToken {
                        token: Some((ab, (kind, text), m.consumed)),
                        expected: expected_term(),
                    },
                )
            }
        },
    }
}

/// Whether parsing `s` runs into a number too large for `i32`, where the
/// parser stops the program.
pub open spec fn overflows(s: Seq<char>) -> bool {
    term(s, 0) is Crash
}

/// Whether the digits in `chars[a..b]` stand for a number above
/// `i32::MAX`.
fn number_too_large(chars: &Vec<char>, a: usize, b: usize) -> (r: bool)
    requires
        a <= b <= chars@.len(),
        forall|j: int| a <= j < b ==> is_digit(#[trigger] chars@[j]),
    ensures
        r == (digits_value(chars@.subrange(a as int, b as int)) > i32::MAX),
{
    let ghost w = chars@.subrange(a as int, b as int);
    let mut v: u64 = 0;
    let mut i: usize = a;
    proof {
        assert(w.subrange(0, 0) =~= Seq::<char>::empty());
    }
    while i < b
        invariant
            a <= i <= b <= chars@.len(),
            w == chars@.subrange(a as int, b as int),
            forall|j: int| 0 <= j < w.len() ==> is_digit(#[trigger] w[j]),
            v == digits_value(w.subrange(0, i - a)),
            v <= i32::MAX,
        decreases b - i,
    {
        proof {
            assert(w.subrange(0, i - a + 1).drop_last() =~= w.subrange(0, i - a));
            assert(w[i - a] == chars@[i as int]);
        }
        let d: u32 = chars[i] as u32;
        v = v * 10 + (d - 0x30) as u64;
        i = i + 1;
        if v > 0x7fff_ffff {
            proof {
                lemma_digits_prefix(w, i - a);
            }
            return true;
        }
    }
    assert(w.subrange(0, b - a) =~= w);
    false
}

/// Whether parsing `input` runs into a number too large for `i32`.
pub fn term_overflows(input: &str) -> (r: bool)
    requires
        utf8_width(input@) <= usize::MAX,
    ensures
        r == overflows(input@),
{
    let mut m = __Matcher::new(input);
    let ghost s = input@;
    loop
        invariant
            m.wf(),
            s == input@,
            m.input() == s,
            0 <= m.position() <= s.len(),
            (term(s, 0) is Crash) == (term(s, m.position()) is Crash),
        decreases s.len() - m.position(),
    {
        let ghost p = m.position();
        proof {
            lemma_lex_bounds(s, p);
        }
        match m.scan() {
            Some(Ok((kind, a, b, _))) => {
                if kind == TOK_LPAREN {
                    proof {
                        let inner = term(s, b as int);
                        assert(term(s, p) is Crash <==> inner is Crash);
                    }
                    continue;
                }
                if kind != TOK_NUM {
                    proof {
                        assert(lex_at(s, p) == SLex::Tok(kind, a as int, b as int));
                        assert(!(term(s, p) is Crash));
                    }
                    return false;
                }
                proof {
                    lemma_digit_end(s, a as int);
                    lemma_lex_bounds(s, b as int);
                }
                let ghost pb = m.position();
                assert(pb == b);
                match m.scan() {
                    Some(Err(_)) => {
                        assert(lex_at(s, b as int) is Invalid);
                        assert(!(term(s, p) is Crash));
                        return false;
                    },
                    _ => {},
                }
                return number_too_large(&m.chars, a, b);
            },
            _ => {
                return false;
            },
        }
    }
}

/// Parses a term from `input`: the first term, once the token after it has
/// been read.
#[allow(non_snake_case)]
pub fn parse_Term(input: &str) -> (r: Result<Expr, ParseError>)
    requires
        utf8_width(input@) <= usize::MAX,
        !overflows(input@),
    ensures
        match term(input@, 0) {
            Outcome::Done(lit, _) => r == Ok::<Expr, ParseError>(Expr::Literal(lit)),
            Outcome::Fail(pe) => r matches Err(e) && error_is(e, input@, pe),
            Outcome::Crash => false,
        },
{
    let mut m = __Matcher::new(input);
    match parse_term(&mut m) {
        Ok((lit, _)) => Ok(Expr::Literal(lit)),
        Err(e) => Err(e),
    }
}

} // verus!

//! Turns dice notation text into a sequence of tokens.
use vstd::prelude::*;

use crate::text::{push_str, string_of_chars};

verus! {

/// Represents the different types of tokens that can be lexed from the input.
#[derive(Debug, Clone, Copy, PartialEq, Eq, Structural)]
pub enum Token {
    Integer(u64),
    Plus,
    Minus,
    Die,
}

/// Why the input could not be split into tokens.
#[derive(Debug, PartialEq, Eq)]
pub enum LexError {
    /// A character outside `0-9`, `+`, `-` and `d`, or a `0` that begins a token.
    UnexpectedCharacter(char),
    /// A run of digits whose value does not fit in `usize`; it holds the digits.
    NumberTooLarge(String),
}

pub open spec fn is_digit(c: char) -> bool {
    '0' <= c && c <= '9'
}

/// A digit that may begin a number: numbers have no leading zero.
pub open spec fn is_leading_digit(c: char) -> bool {
    '1' <= c && c <= '9'
}

pub open spec fn digit_value(c: char) -> nat {
    (c as u32 - '0' as u32) as nat
}

/// The value of a sequence of decimal digits, most significant first.
pub open spec fn digits_value(d: Seq<char>) -> nat
    decreases d.len(),
{
    if d.len() == 0 {
        0
    } else {
        10 * digits_value(d.drop_last()) + digit_value(d.last())
    }
}

/// The index of the first character at or after `i` that is not a digit.
pub open spec fn digit_run_end(s: Seq<char>, i: int) -> int
    decreases s.len() - i,
{
    if 0 <= i < s.len() && is_digit(s[i]) {
        digit_run_end(s, i + 1)
    } else {
        i
    }
}

/// The tokens of `s` from index `i` on. An error gives the span `(start, end)`
/// of the offending text: one unexpected character, or a digit run that is too
/// large.
pub open spec fn lex_from(s: Seq<char>, i: int) -> Result<Seq<Token>, (int, int)>
    decreases s.len() - i,
    via lex_from_decreases
{
    if i < 0 || i >= s.len() {
        Ok(seq![])
    } else {
        let c = s[i];
        if is_leading_digit(c) {
            let j = digit_run_end(s, i);
            let v = digits_value(s.subrange(i, j));
            if v > usize::MAX {
                Err((i, j))
            } else {
                match lex_from(s, j) {
                    Ok(t) => Ok(seq![Token::Integer(v as u64)] + t),
                    Err(e) => Err(e),
                }
            }
        } else if c == '+' || c == '-' || c == 'd' {
            let tok = if c == '+' {
                Token::Plus
            } else if c == '-' {
                Token::Minus
            } else {
                Token::Die
            };
            match lex_from(s, i + 1) {
                Ok(t) => Ok(seq![tok] + t),
                Err(e) => Err(e),
            }
        } else {
            Err((i, i + 1))
        }
    }
}

#[via_fn]
proof fn lex_from_decreases(s: Seq<char>, i: int) {
    if 0 <= i < s.len() && is_leading_digit(s[i]) {
        lemma_digit_run_end(s, i);
    }
}

/// The tokens of the whole of `s`.
pub open spec fn lex_spec(s: Seq<char>) -> Result<Seq<Token>, (int, int)> {
    lex_from(s, 0)
}

impl LexError {
    /// This error reports the offending text `s[span.0..span.1]`.
    pub open spec fn reports(&self, s: Seq<char>, span: (int, int)) -> bool {
        if 0 <= span.0 < s.len() && is_leading_digit(s[span.0]) {
            match self {
                LexError::NumberTooLarge(t) => t@ == s.subrange(span.0, span.1),
                _ => false,
            }
        } else {
            span.0 < s.len() && *self == LexError::UnexpectedCharacter(s[span.0])
        }
    }
}

impl LexError {
    /// The text of the message that describes the error.
    pub open spec fn message_text(&self) -> Seq<char> {
        match self {
            LexError::UnexpectedCharacter(c) => "unexpected character `"@ + seq![*c] + "`"@,
            LexError::NumberTooLarge(t) => "failed to parse number token: `"@ + t@
                + "` does not fit in usize"@,
        }
    }

    /// A message that describes the error.
    pub fn message(&self) -> (m: String)
        ensures
            m@ == self.message_text(),
    {
        let mut out: Vec<char> = Vec::new();
        match self {
            LexError::UnexpectedCharacter(c) => {
                push_str(&mut out, "unexpected character `");
                out.push(*c);
                push_str(&mut out, "`");
            },
            LexError::NumberTooLarge(t) => {
                push_str(&mut out, "failed to parse number token: `");
                push_str(&mut out, t.as_str());
                push_str(&mut out, "` does not fit in usize");
            },
        }
        assert(out@ =~= self.message_text());
        string_of_chars(&out)
    }
}

/// The digit run that starts at `i` ends at `digit_run_end(s, i)`.
pub proof fn lemma_digit_run_end(s: Seq<char>, i: int)
    requires
        0 <= i <= s.len(),
    ensures
        i <= digit_run_end(s, i) <= s.len(),
        forall|k: int| i <= k < digit_run_end(s, i) ==> is_digit(#[trigger] s[k]),
        digit_run_end(s, i) < s.len() ==> !is_digit(s[digit_run_end(s, i)]),
        i < s.len() && is_digit(s[i]) ==> digit_run_end(s, i) > i,
    decreases s.len() - i,
{
    if i < s.len() && is_digit(s[i]) {
        lemma_digit_run_end(s, i + 1);
    }
}

/// Combines tokens already lexed with the outcome of lexing the rest.
pub open spec fn prefixed(t: Seq<Token>, rest: Result<Seq<Token>, (int, int)>) -> Result<
    Seq<Token>,
    (int, int),
> {
    match rest {
        Ok(r) => Ok(t + r),
        Err(e) => Err(e),
    }
}

/// Copies the characters of `input` into a vector.
fn chars_of(input: &str) -> (v: Vec<char>)
    ensures
        v@ == input@,
{
    let n = input.unicode_len();
    let mut v: Vec<char> = Vec::new();
    let mut i: usize = 0;
    while i < n
        invariant
            n == input@.len(),
            i <= n,
            v@ == input@.subrange(0, i as int),
        decreases n - i,
    {
        v.push(input.get_char(i));
        i += 1;
        assert(v@ =~= input@.subrange(0, i as int));
    }
    assert(input@.subrange(0, n as int) =~= input@);
    v
}

/// Converts the digit run starting at `start` into an integer token. Returns the
/// token and the index just past the run.
fn parse_integer_token(chars: &Vec<char>, start: usize) -> (r: Result<(Token, usize), LexError>)
    requires
        start < chars@.len(),
        is_leading_digit(chars@[start as int]),
    ensures
        ({
            let s = chars@;
            let j = digit_run_end(s, start as int);
            let v = digits_value(s.subrange(start as int, j));
            match r {
                Ok((t, k)) => v <= usize::MAX && t == Token::Integer(v as u64) && k == j,
                Err(e) => v > usize::MAX && e.reports(s, (start as int, j)),
            }
        }),
{
    let ghost s = chars@;
    proof {
        lemma_digit_run_end(s, start as int);
    }
    let mut i: usize = start;
    let mut value: usize = 0;
    let mut too_large = false;
    while i < chars.len() && '0' <= chars[i] && chars[i] <= '9'
        invariant
            start <= i <= s.len(),
            s == chars@,
            digit_run_end(s, start as int) == digit_run_end(s, i as int),
            too_large <==> digits_value(s.subrange(start as int, i as int)) > usize::MAX,
            !too_large ==> value == digits_value(s.subrange(start as int, i as int)),
        decreases s.len() - i,
    {
        let c = chars[i];
        let d = (c as u32 - '0' as u32) as usize;
        let ghost prev = s.subrange(start as int, i as int);
        assert(s.subrange(start as int, i + 1).drop_last() =~= prev);
        if !too_large {
            if value > (usize::MAX - d) / 10 {
                too_large = true;
                assert(10 * value + d > usize::MAX) by (nonlinear_arith)
                    requires
                        value > (usize::MAX - d) / 10,
                        d <= 9,
                ;
            } else {
                assert(10 * value + d <= usize::MAX) by (nonlinear_arith)
                    requires
                        value <= (usize::MAX - d) / 10,
                        d <= 9,
                ;
                value = value * 10 + d;
            }
        } else {
            assert(10 * digits_value(prev) + d > usize::MAX) by (nonlinear_arith)
                requires
                    digits_value(prev) > usize::MAX,
            ;
        }
        i += 1;
    }
    if too_large {
        let mut digits: Vec<char> = Vec::new();
        let mut k: usize = start;
        while k < i
            invariant
                start <= k <= i <= s.len(),
                s == chars@,
                digits@ == s.subrange(start as int, k as int),
            decreases i - k,
        {
            digits.push(chars[k]);
            k += 1;
            assert(digits@ =~= s.subrange(start as int, k as int));
        }
        Err(LexError::NumberTooLarge(string_of_chars(&digits)))
    } else {
        Ok((Token::Integer(value as u64), i))
    }
}

/// Converts one of `+`, `-` and `d` into its token.
fn parse_single_token(c: char) -> (r: Result<Token, LexError>)
    ensures
        c == '+' ==> r == Ok::<Token, LexError>(Token::Plus),
        c == '-' ==> r == Ok::<Token, LexError>(Token::Minus),
        c == 'd' ==> r == Ok::<Token, LexError>(Token::Die),
        c != '+' && c != '-' && c != 'd' ==> r == Err::<Token, LexError>(
            LexError::UnexpectedCharacter(c),
        ),
{
    match c {
        '+' => Ok(Token::Plus),
        '-' => Ok(Token::Minus),
        'd' => Ok(Token::Die),
        _ => Err(LexError::UnexpectedCharacter(c)),
    }
}

/// Lexes the token that starts at `start`, returning it with the index just
/// past it.
fn parse_token(chars: &Vec<char>, start: usize) -> (r: Result<(Token, usize), LexError>)
    requires
        start < chars@.len(),
    ensures
        match r {
            Ok((t, k)) => start < k <= chars@.len() && lex_spec_step(chars@, start as int) == Ok::<
                (Token, int),
                (int, int),
            >((t, k as int)),
            Err(e) => lex_spec_step(chars@, start as int) matches Err(span) && e.reports(
                chars@,
                span,
            ),
        },
{
    let n = chars.len();
    let c = chars[start];
    if '1' <= c && c <= '9' {
        proof {
            lemma_digit_run_end(chars@, start as int);
        }
        parse_integer_token(chars, start)
    } else {
        match parse_single_token(c) {
            Ok(t) => Ok((t, start + 1)),
            Err(e) => Err(e),
        }
    }
}

/// The first token of `s[i..]`, with the index just past it.
pub open spec fn lex_spec_step(s: Seq<char>, i: int) -> Result<(Token, int), (int, int)> {
    let c = s[i];
    if is_leading_digit(c) {
        let j = digit_run_end(s, i);
        let v = digits_value(s.subrange(i, j));
        if v > usize::MAX {
            Err((i, j))
        } else {
            Ok((Token::Integer(v as u64), j))
        }
    } else if c == '+' {
        Ok((Token::Plus, i + 1))
    } else if c == '-' {
        Ok((Token::Minus, i + 1))
    } else if c == 'd' {
        Ok((Token::Die, i + 1))
    } else {
        Err((i, i + 1))
    }
}

/// Lexing from `i` is lexing one token, then lexing from just past it.
pub proof fn lemma_lex_from_step(s: Seq<char>, i: int)
    requires
        0 <= i < s.len(),
    ensures
        lex_from(s, i) == match lex_spec_step(s, i) {
            Ok((t, k)) => prefixed(seq![t], lex_from(s, k)),
            Err(span) => Err(span),
        },
{
    if is_leading_digit(s[i]) {
        lemma_digit_run_end(s, i);
    }
}

/// Performs lexical analysis of the provided string, transforming it into a
/// vector of [`Token`]s. Fails on the first character outside `0-9`, `+`, `-`
/// and `d` (or a `0` that begins a number), and on a number too large for
/// `usize`.
pub fn lex(input: &str) -> (r: Result<Vec<Token>, LexError>)
    ensures
        match r {
            Ok(t) => lex_spec(input@) == Ok::<Seq<Token>, (int, int)>(t@),
            Err(e) => lex_spec(input@) matches Err(span) && e.reports(input@, span),
        },
{
    let chars = chars_of(input);
    let ghost s = chars@;
    let mut tokens: Vec<Token> = Vec::new();
    let mut i: usize = 0;
    while i < chars.len()
        invariant
            s == chars@,
            s == input@,
            i <= s.len(),
            lex_from(s, 0) == prefixed(tokens@, lex_from(s, i as int)),
        decreases s.len() - i,
    {
        proof {
            lemma_lex_from_step(s, i as int);
        }
        match parse_token(&chars, i) {
            Ok((t, k)) => {
                assert(lex_from(s, i as int) == prefixed(seq![t], lex_from(s, k as int)));
                assert(tokens@.push(t) =~= tokens@ + seq![t]);
                assert forall|rest: Seq<Token>| (tokens@ + seq![t]) + rest =~= tokens@ + (seq![t] + rest) by {}
                tokens.push(t);
                i = k;
            },
            Err(e) => {
                let ghost span = lex_spec_step(s, i as int)->Err_0;
                assert(lex_from(s, i as int) == Err::<Seq<Token>, (int, int)>(span));
                assert(lex_spec(input@) == Err::<Seq<Token>, (int, int)>(span));
                return Err(e);
            },
        }
    }
    Ok(tokens)
}

} // verus!

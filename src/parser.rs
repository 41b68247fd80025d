//! Precedence-climbing (Pratt) parser from tokens to an expression tree.
//!
//! Binding powers, higher binding tighter: infix `+` and `-` bind left 1,
//! right 2; infix `d` binds left 3, right 4; prefix `+` and `-` bind their
//! operand at 5 and prefix `d` at 7.
use vstd::prelude::*;

use crate::ast::{operator_symbol, Expr, Operator};
use crate::text::{decimal, push_decimal, push_str, string_of_chars};
use crate::lexer::{is_digit, lemma_lex_from_step, lex, lex_from, lex_spec, LexError, Token};

verus! {

/// Why the input could not be parsed.
#[derive(Debug, PartialEq, Eq)]
pub enum ParseError {
    /// The input could not be split into tokens.
    Lex(LexError),
    /// The input holds no tokens at all.
    UnexpectedEnd,
    /// The input ends right after this operator.
    ExpectedOperand(Operator),
    /// A `d` token directly follows another `d` token.
    DoubleDie,
    /// A token stands where an operator is needed.
    UnexpectedToken(Token),
}

/// How a token is written.
pub open spec fn token_text(t: Token) -> Seq<char> {
    match t {
        Token::Integer(n) => decimal(n as nat),
        Token::Plus => seq!['+'],
        Token::Minus => seq!['-'],
        Token::Die => seq!['d'],
    }
}

impl ParseError {
    /// The text of the message that describes the error.
    pub open spec fn message_text(&self) -> Seq<char> {
        match self {
            ParseError::Lex(e) => e.message_text(),
            ParseError::UnexpectedEnd => "unexpected end of input"@,
            ParseError::ExpectedOperand(op) => "unexpected end of input, expecting token after '"@
                + seq![operator_symbol(*op)] + "' token"@,
            ParseError::DoubleDie => "syntax error, found 'd' token directly after 'd' token"@,
            ParseError::UnexpectedToken(t) => "syntax error, unexpected token '"@ + token_text(*t)
                + "'"@,
        }
    }

    /// A message that describes the error.
    pub fn message(&self) -> (m: String)
        ensures
            m@ == self.message_text(),
    {
        let mut out: Vec<char> = Vec::new();
        match self {
            ParseError::Lex(e) => {
                return e.message();
            },
            ParseError::UnexpectedEnd => {
                push_str(&mut out, "unexpected end of input");
            },
            ParseError::ExpectedOperand(op) => {
                push_str(&mut out, "unexpected end of input, expecting token after '");
                out.push(op.symbol());
                push_str(&mut out, "' token");
            },
            ParseError::DoubleDie => {
                push_str(&mut out, "syntax error, found 'd' token directly after 'd' token");
            },
            ParseError::UnexpectedToken(t) => {
                push_str(&mut out, "syntax error, unexpected token '");
                match t {
                    Token::Integer(n) => push_decimal(*n, &mut out),
                    Token::Plus => out.push('+'),
                    Token::Minus => out.push('-'),
                    Token::Die => out.push('d'),
                }
                push_str(&mut out, "'");
            },
        }
        assert(out@ =~= self.message_text());
        string_of_chars(&out)
    }
}

/// Every integer token fits in `usize`.
pub open spec fn literals_fit(ts: Seq<Token>) -> bool {
    forall|i: int|
        0 <= i < ts.len() ==> (#[trigger] ts[i] matches Token::Integer(n) ==> n <= usize::MAX)
}

pub open spec fn op_of(t: Token) -> Option<Operator> {
    match t {
        Token::Plus => Some(Operator::Plus),
        Token::Minus => Some(Operator::Minus),
        Token::Die => Some(Operator::Die),
        Token::Integer(_) => None,
    }
}

/// Left and right binding power of a token used as an infix operator.
pub open spec fn infix_bp(t: Token) -> Option<(u8, u8)> {
    match t {
        Token::Plus | Token::Minus => Some((1u8, 2u8)),
        Token::Die => Some((3u8, 4u8)),
        Token::Integer(_) => None,
    }
}

/// Binding power with which a token used as a prefix operator takes its operand.
pub open spec fn prefix_bp(t: Token) -> Option<u8> {
    match t {
        Token::Plus | Token::Minus => Some(5u8),
        Token::Die => Some(7u8),
        Token::Integer(_) => None,
    }
}

/// What is wrong with the operand of the operator token at `p`, if anything:
/// there is none, or a `d` follows a `d`.
pub open spec fn operand_fault(ts: Seq<Token>, p: int) -> Option<ParseError> {
    if p + 1 >= ts.len() {
        match op_of(ts[p]) {
            Some(op) => Some(ParseError::ExpectedOperand(op)),
            None => Some(ParseError::UnexpectedToken(ts[p])),
        }
    } else if ts[p] == Token::Die && ts[p + 1] == Token::Die {
        Some(ParseError::DoubleDie)
    } else {
        None
    }
}

/// Parses the expression that starts at `pos`, continuing only with infix
/// operators whose left binding power is at least `min_bp`. On success gives
/// the tree and the index of the first token not consumed.
pub open spec fn expr_at(ts: Seq<Token>, pos: int, min_bp: int) -> Result<(Expr, int), ParseError>
    decreases ts.len() - pos, 2int,
{
    if pos < 0 || pos >= ts.len() {
        Err(ParseError::UnexpectedEnd)
    } else {
        match ts[pos] {
            Token::Integer(n) => infix_loop(ts, pos + 1, min_bp, Expr::NumericLiteral(
                #[verifier::truncate]
                (n as usize),
            )),
            _ => match unary_at(ts, pos) {
                Ok((lhs, p)) => if pos < p <= ts.len() {
                    infix_loop(ts, p, min_bp, lhs)
                } else {
                    // a parse consumes at least one token
                    Err(ParseError::UnexpectedEnd)
                },
                Err(e) => Err(e),
            },
        }
    }
}

/// Parses the prefix operator at `pos` applied to its operand.
pub open spec fn unary_at(ts: Seq<Token>, pos: int) -> Result<(Expr, int), ParseError>
    decreases ts.len() - pos, 1int,
{
    if pos < 0 || pos >= ts.len() {
        Err(ParseError::UnexpectedEnd)
    } else {
        match (prefix_bp(ts[pos]), op_of(ts[pos])) {
            (Some(r), Some(op)) => match operand_fault(ts, pos) {
                Some(e) => Err(e),
                None => match expr_at(ts, pos + 1, r as int) {
                    Ok((rhs, q)) => Ok((Expr::Unary(Box::new(rhs), op), q)),
                    Err(e) => Err(e),
                },
            },
            _ => Err(ParseError::UnexpectedToken(ts[pos])),
        }
    }
}

/// Extends `lhs`, which ends just before `p`, with infix operators of left
/// binding power at least `min_bp`.
pub open spec fn infix_loop(ts: Seq<Token>, p: int, min_bp: int, lhs: Expr) -> Result<
    (Expr, int),
    ParseError,
>
    decreases ts.len() - p, 3int,
{
    if p < 0 || p >= ts.len() {
        Ok((lhs, p))
    } else {
        match (infix_bp(ts[p]), op_of(ts[p])) {
            (Some((l, r)), Some(op)) => if (l as int) < min_bp {
                Ok((lhs, p))
            } else {
                match operand_fault(ts, p) {
                    Some(e) => Err(e),
                    None => match expr_at(ts, p + 1, r as int) {
                        Ok((rhs, q)) => if p < q <= ts.len() {
                            infix_loop(ts, q, min_bp, Expr::Binary(Box::new(lhs), Box::new(rhs), op))
                        } else {
                            // a parse consumes at least one token
                            Err(ParseError::UnexpectedEnd)
                        },
                        Err(e) => Err(e),
                    },
                }
            },
            _ => Err(ParseError::UnexpectedToken(ts[p])),
        }
    }
}

/// The tree of a whole token sequence.
pub open spec fn parse_tokens(ts: Seq<Token>) -> Result<Expr, ParseError> {
    match expr_at(ts, 0, 0) {
        Ok((e, _)) => Ok(e),
        Err(e) => Err(e),
    }
}

/// An executable parse outcome, read with its index as an integer.
pub open spec fn as_spec(r: Result<(Expr, usize), ParseError>) -> Result<(Expr, int), ParseError> {
    match r {
        Ok((e, p)) => Ok((e, p as int)),
        Err(e) => Err(e),
    }
}

fn token_to_operator(token: Token) -> (r: Option<Operator>)
    ensures
        r == op_of(token),
{
    match token {
        Token::Plus => Some(Operator::Plus),
        Token::Minus => Some(Operator::Minus),
        Token::Die => Some(Operator::Die),
        Token::Integer(_) => None,
    }
}

fn infix_binding_power(token: Token) -> (r: Option<(u8, u8)>)
    ensures
        r == infix_bp(token),
{
    match token {
        Token::Plus | Token::Minus => Some((1, 2)),
        Token::Die => Some((3, 4)),
        Token::Integer(_) => None,
    }
}

fn prefix_binding_power(token: Token) -> (r: Option<u8>)
    ensures
        r == prefix_bp(token),
{
    match token {
        Token::Plus | Token::Minus => Some(5),
        Token::Die => Some(7),
        Token::Integer(_) => None,
    }
}

fn check_operand(tokens: &Vec<Token>, p: usize) -> (r: Option<ParseError>)
    requires
        p < tokens@.len(),
    ensures
        r == operand_fault(tokens@, p as int),
{
    let n = tokens.len();
    if p + 1 >= n {
        match token_to_operator(tokens[p]) {
            Some(op) => Some(ParseError::ExpectedOperand(op)),
            None => Some(ParseError::UnexpectedToken(tokens[p])),
        }
    } else if tokens[p] == Token::Die && tokens[p + 1] == Token::Die {
        Some(ParseError::DoubleDie)
    } else {
        None
    }
}

fn parse_unary_expr(tokens: &Vec<Token>, pos: usize) -> (r: Result<(Expr, usize), ParseError>)
    requires
        pos < tokens@.len(),
        literals_fit(tokens@),
    ensures
        as_spec(r) == unary_at(tokens@, pos as int),
        r matches Ok((_, q)) ==> pos < q <= tokens@.len(),
    decreases tokens@.len() - pos, 1int,
{
    let n = tokens.len();
    let op_token = tokens[pos];
    let r_bp = match prefix_binding_power(op_token) {
        Some(r) => r,
        None => return Err(ParseError::UnexpectedToken(op_token)),
    };
    let op = match token_to_operator(op_token) {
        Some(op) => op,
        None => return Err(ParseError::UnexpectedToken(op_token)),
    };
    match check_operand(tokens, pos) {
        Some(e) => return Err(e),
        None => {},
    }
    match parse_expr(tokens, pos + 1, r_bp) {
        Ok((rhs, q)) => Ok((Expr::Unary(Box::new(rhs), op), q)),
        Err(e) => Err(e),
    }
}

fn parse_expr(tokens: &Vec<Token>, pos: usize, min_bp: u8) -> (r: Result<(Expr, usize), ParseError>)
    requires
        literals_fit(tokens@),
    ensures
        as_spec(r) == expr_at(tokens@, pos as int, min_bp as int),
        r matches Ok((_, q)) ==> pos < q <= tokens@.len(),
    decreases tokens@.len() - pos, 2int,
{
    let ghost ts = tokens@;
    if pos >= tokens.len() {
        return Err(ParseError::UnexpectedEnd);
    }
    let (mut lhs, mut p) = match tokens[pos] {
        Token::Integer(n) => {
            assert(ts[pos as int] matches Token::Integer(m) ==> m <= usize::MAX);
            (Expr::NumericLiteral(n as usize), pos + 1)
        },
        _ => match parse_unary_expr(tokens, pos) {
            Ok(x) => x,
            Err(e) => return Err(e),
        },
    };
    loop
        invariant
            ts == tokens@,
            literals_fit(ts),
            pos < p <= ts.len(),
            expr_at(ts, pos as int, min_bp as int) == infix_loop(ts, p as int, min_bp as int, lhs),
        decreases ts.len() - p,
    {
        if p >= tokens.len() {
            return Ok((lhs, p));
        }
        let token = tokens[p];
        let (l_bp, r_bp) = match infix_binding_power(token) {
            Some(x) => x,
            None => return Err(ParseError::UnexpectedToken(token)),
        };
        let op = match token_to_operator(token) {
            Some(op) => op,
            None => return Err(ParseError::UnexpectedToken(token)),
        };
        if l_bp < min_bp {
            return Ok((lhs, p));
        }
        match check_operand(tokens, p) {
            Some(e) => return Err(e),
            None => {},
        }
        match parse_expr(tokens, p + 1, r_bp) {
            Ok((rhs, q)) => {
                lhs = Expr::Binary(Box::new(lhs), Box::new(rhs), op);
                p = q;
            },
            Err(e) => return Err(e),
        }
    }
}

/// Every integer token that lexing yields fits in `usize`.
pub proof fn lemma_lexed_literals_fit(s: Seq<char>, i: int)
    requires
        0 <= i,
    ensures
        lex_from(s, i) matches Ok(ts) ==> literals_fit(ts),
    decreases s.len() - i,
{
    if i < s.len() {
        lemma_lex_from_step(s, i);
        if crate::lexer::is_leading_digit(s[i]) {
            crate::lexer::lemma_digit_run_end(s, i);
        }
        match crate::lexer::lex_spec_step(s, i) {
            Ok((t, k)) => {
                if i < k <= s.len() {
                    lemma_lexed_literals_fit(s, k);
                }
                if let Ok(ts) = lex_from(s, i) {
                    let rest = lex_from(s, k)->Ok_0;
                    assert(ts == seq![t] + rest);
                    assert forall|j: int| 0 <= j < ts.len() implies (#[trigger] ts[j] matches Token::Integer(
                        n,
                    ) ==> n <= usize::MAX) by {
                        if j > 0 {
                            assert(ts[j] == rest[j - 1]);
                        } else {
                            assert(ts[j] == t);
                        }
                    }
                }
            },
            Err(_) => {},
        }
    }
}

/// The tree that parsing the text `s` yields, if it parses.
pub open spec fn parsed(s: Seq<char>) -> Option<Expr> {
    match lex_spec(s) {
        Ok(ts) => match parse_tokens(ts) {
            Ok(e) => Some(e),
            Err(_) => None,
        },
        Err(_) => None,
    }
}

/// Parsing the text `s` fails with the error `pe`.
pub open spec fn fails_with(s: Seq<char>, pe: ParseError) -> bool {
    match lex_spec(s) {
        Ok(ts) => parse_tokens(ts) == Err::<Expr, ParseError>(pe),
        Err(span) => pe matches ParseError::Lex(e) && e.reports(s, span),
    }
}

/// The token an operator is written as.
pub open spec fn operator_token(op: Operator) -> Token {
    match op {
        Operator::Die => Token::Die,
        Operator::Plus => Token::Plus,
        Operator::Minus => Token::Minus,
    }
}

/// The tokens of a tree read left to right, operators in place.
pub open spec fn tree_tokens(e: Expr) -> Seq<Token>
    decreases e,
{
    match e {
        Expr::NumericLiteral(n) => seq![Token::Integer(n as u64)],
        Expr::Unary(rhs, op) => seq![operator_token(op)] + tree_tokens(*rhs),
        Expr::Binary(lhs, rhs, op) => tree_tokens(*lhs) + seq![operator_token(op)] + tree_tokens(
            *rhs,
        ),
    }
}

proof fn lemma_expr_at_tokens(ts: Seq<Token>, pos: int, min_bp: int)
    requires
        literals_fit(ts),
    ensures
        expr_at(ts, pos, min_bp) matches Ok((e, q)) ==> {
            &&& pos < q <= ts.len()
            &&& tree_tokens(e) == ts.subrange(pos, q)
            &&& min_bp <= 1 ==> q == ts.len()
        },
    decreases ts.len() - pos, 2int,
{
    if 0 <= pos < ts.len() {
        match ts[pos] {
            Token::Integer(n) => {
                let lhs = Expr::NumericLiteral(#[verifier::truncate] (n as usize));
                assert(tree_tokens(lhs) =~= ts.subrange(pos, pos + 1));
                lemma_infix_loop_tokens(ts, pos, pos + 1, min_bp, lhs);
            },
            _ => {
                lemma_unary_at_tokens(ts, pos);
                if let Ok((lhs, p)) = unary_at(ts, pos) {
                    lemma_infix_loop_tokens(ts, pos, p, min_bp, lhs);
                }
            },
        }
    }
}

proof fn lemma_unary_at_tokens(ts: Seq<Token>, pos: int)
    requires
        literals_fit(ts),
    ensures
        unary_at(ts, pos) matches Ok((e, q)) ==> pos < q <= ts.len() && tree_tokens(e)
            == ts.subrange(pos, q),
    decreases ts.len() - pos, 1int,
{
    if 0 <= pos < ts.len() {
        lemma_expr_at_tokens(ts, pos + 1, 5);
        lemma_expr_at_tokens(ts, pos + 1, 7);
        if let Ok((e, q)) = unary_at(ts, pos) {
            assert(operator_token(op_of(ts[pos])->Some_0) == ts[pos]);
            assert(tree_tokens(e) =~= ts.subrange(pos, q));
        }
    }
}

proof fn lemma_infix_loop_tokens(ts: Seq<Token>, start: int, p: int, min_bp: int, lhs: Expr)
    requires
        literals_fit(ts),
        0 <= start < p <= ts.len(),
        tree_tokens(lhs) == ts.subrange(start, p),
    ensures
        infix_loop(ts, p, min_bp, lhs) matches Ok((e, q)) ==> {
            &&& p <= q <= ts.len()
            &&& tree_tokens(e) == ts.subrange(start, q)
            &&& min_bp <= 1 ==> q == ts.len()
        },
    decreases ts.len() - p, 3int,
{
    if p < ts.len() {
        lemma_expr_at_tokens(ts, p + 1, 2);
        lemma_expr_at_tokens(ts, p + 1, 4);
        match (infix_bp(ts[p]), op_of(ts[p])) {
            (Some((l, r)), Some(op)) => {
                if let Ok((rhs, q)) = expr_at(ts, p + 1, r as int) {
                    if p < q <= ts.len() {
                        let next = Expr::Binary(Box::new(lhs), Box::new(rhs), op);
                        assert(operator_token(op) == ts[p]);
                        assert(tree_tokens(rhs) == ts.subrange(p + 1, q));
                        assert(tree_tokens(next) =~= ts.subrange(start, q));
                        lemma_infix_loop_tokens(ts, start, q, min_bp, next);
                    }
                }
            },
            _ => {},
        }
    }
}

/// Parsing loses and invents nothing: the tree read left to right gives back
/// exactly the tokens of the input.
pub proof fn lemma_parse_keeps_tokens(s: Seq<char>)
    ensures
        parsed(s) matches Some(e) ==> lex_spec(s) == Ok::<Seq<Token>, (int, int)>(tree_tokens(e)),
{
    if let Ok(ts) = lex_spec(s) {
        lemma_lexed_literals_fit(s, 0);
        lemma_expr_at_tokens(ts, 0, 0);
        if let Ok((e, q)) = expr_at(ts, 0, 0) {
            assert(ts.subrange(0, q) =~= ts);
        }
    }
}

/// A binary `+` or `-` node.
pub open spec fn is_sum(e: Expr) -> bool {
    e matches Expr::Binary(_, _, op) && (op == Operator::Plus || op == Operator::Minus)
}

/// The shape that the binding powers give a tree: a prefix operator applies to
/// a literal or another prefix operator only; `+` and `-` group to the left, so
/// their right operand is never a `+` or `-` node; `d` binds tighter than `+`
/// and `-` and groups to the left, so neither of its operands is a `+` or `-`
/// node and its right operand is no binary node at all.
pub open spec fn well_bound(e: Expr) -> bool
    decreases e,
{
    match e {
        Expr::NumericLiteral(_) => true,
        Expr::Unary(rhs, _) => !(*rhs is Binary) && well_bound(*rhs),
        Expr::Binary(lhs, rhs, op) => {
            &&& well_bound(*lhs)
            &&& well_bound(*rhs)
            &&& !is_sum(*rhs)
            &&& op == Operator::Die ==> !is_sum(*lhs) && !(*rhs is Binary)
        },
    }
}

/// Where a parse at binding power `min_bp` stops: at the end, or before an
/// infix operator that binds less tightly than `min_bp`.
pub open spec fn stops_at(ts: Seq<Token>, q: int, min_bp: int) -> bool {
    q < ts.len() ==> (infix_bp(ts[q]) matches Some((l, _)) && (l as int) < min_bp)
}

proof fn lemma_expr_at_shape(ts: Seq<Token>, pos: int, min_bp: int)
    ensures
        expr_at(ts, pos, min_bp) matches Ok((e, q)) ==> {
            &&& well_bound(e)
            &&& min_bp >= 2 ==> !is_sum(e)
            &&& min_bp >= 4 ==> !(e is Binary)
            &&& stops_at(ts, q, min_bp)
        },
    decreases ts.len() - pos, 2int,
{
    if 0 <= pos < ts.len() {
        match ts[pos] {
            Token::Integer(n) => {
                let lhs = Expr::NumericLiteral(#[verifier::truncate] (n as usize));
                lemma_infix_loop_shape(ts, pos + 1, min_bp, lhs);
            },
            _ => {
                lemma_unary_at_shape(ts, pos);
                if let Ok((lhs, p)) = unary_at(ts, pos) {
                    if pos < p <= ts.len() {
                        lemma_infix_loop_shape(ts, p, min_bp, lhs);
                    }
                }
            },
        }
    }
}

proof fn lemma_unary_at_shape(ts: Seq<Token>, pos: int)
    ensures
        unary_at(ts, pos) matches Ok((e, q)) ==> well_bound(e) && e is Unary,
    decreases ts.len() - pos, 1int,
{
    if 0 <= pos < ts.len() {
        lemma_expr_at_shape(ts, pos + 1, 5);
        lemma_expr_at_shape(ts, pos + 1, 7);
    }
}

proof fn lemma_infix_loop_shape(ts: Seq<Token>, p: int, min_bp: int, lhs: Expr)
    requires
        0 <= p,
        well_bound(lhs),
        min_bp >= 2 ==> !is_sum(lhs),
        min_bp >= 4 ==> !(lhs is Binary),
        is_sum(lhs) ==> p >= ts.len() || ts[p] != Token::Die,
    ensures
        infix_loop(ts, p, min_bp, lhs) matches Ok((e, q)) ==> {
            &&& well_bound(e)
            &&& min_bp >= 2 ==> !is_sum(e)
            &&& min_bp >= 4 ==> !(e is Binary)
            &&& stops_at(ts, q, min_bp)
        },
    decreases ts.len() - p, 3int,
{
    if 0 <= p < ts.len() {
        lemma_expr_at_shape(ts, p + 1, 2);
        lemma_expr_at_shape(ts, p + 1, 4);
        match (infix_bp(ts[p]), op_of(ts[p])) {
            (Some((l, r)), Some(op)) => {
                if (l as int) >= min_bp {
                    if let Ok((rhs, q)) = expr_at(ts, p + 1, r as int) {
                        if p < q <= ts.len() {
                            let next = Expr::Binary(Box::new(lhs), Box::new(rhs), op);
                            assert(well_bound(next));
                            lemma_infix_loop_shape(ts, q, min_bp, next);
                        }
                    }
                }
            },
            _ => {},
        }
    }
}

/// Every tree that parsing yields has the shape the binding powers give it:
/// see `well_bound`.
pub proof fn lemma_parse_respects_binding(s: Seq<char>)
    ensures
        parsed(s) matches Some(e) ==> well_bound(e),
{
    if let Ok(ts) = lex_spec(s) {
        lemma_expr_at_shape(ts, 0, 0);
    }
}

/// No `d` token directly follows another, and no integer token directly
/// follows another, among the tokens at indices `a` to `b - 1`.
pub open spec fn pairs_ok(ts: Seq<Token>, a: int, b: int) -> bool {
    forall|i: int|
        a <= i < b - 1 ==> !(#[trigger] ts[i] == Token::Die && ts[i + 1] == Token::Die) && !(
        ts[i] is Integer && ts[i + 1] is Integer)
}

/// The token sequences that parse: not empty, ending in a number, with no `d`
/// directly after a `d` and no number directly after a number.
pub open spec fn parsable(ts: Seq<Token>) -> bool {
    &&& ts.len() > 0
    &&& ts.last() is Integer
    &&& pairs_ok(ts, 0, ts.len() as int)
}

proof fn lemma_expr_at_succeeds(ts: Seq<Token>, pos: int, min_bp: int)
    requires
        parsable(ts),
        0 <= pos < ts.len(),
    ensures
        expr_at(ts, pos, min_bp) matches Ok((_, q)) && pos < q <= ts.len() && ts[q - 1] is Integer,
    decreases ts.len() - pos, 2int,
{
    match ts[pos] {
        Token::Integer(n) => {
            let lhs = Expr::NumericLiteral(#[verifier::truncate] (n as usize));
            lemma_infix_loop_succeeds(ts, pos + 1, min_bp, lhs);
        },
        _ => {
            lemma_unary_at_succeeds(ts, pos);
            let (lhs, p) = unary_at(ts, pos)->Ok_0;
            lemma_infix_loop_succeeds(ts, p, min_bp, lhs);
        },
    }
}

proof fn lemma_unary_at_succeeds(ts: Seq<Token>, pos: int)
    requires
        parsable(ts),
        0 <= pos < ts.len(),
        !(ts[pos] is Integer),
    ensures
        unary_at(ts, pos) matches Ok((_, q)) && pos < q <= ts.len() && ts[q - 1] is Integer,
    decreases ts.len() - pos, 1int,
{
    assert(pos + 1 < ts.len());
    assert(!(ts[pos] == Token::Die && ts[pos + 1] == Token::Die));
    lemma_expr_at_succeeds(ts, pos + 1, prefix_bp(ts[pos])->Some_0 as int);
}

proof fn lemma_infix_loop_succeeds(ts: Seq<Token>, p: int, min_bp: int, lhs: Expr)
    requires
        parsable(ts),
        0 < p <= ts.len(),
        ts[p - 1] is Integer,
    ensures
        infix_loop(ts, p, min_bp, lhs) matches Ok((_, q)) && p <= q <= ts.len() && ts[q - 1] is Integer,
    decreases ts.len() - p, 3int,
{
    if p < ts.len() {
        assert(!(ts[p - 1] is Integer && ts[p] is Integer));
        let (l, r) = infix_bp(ts[p])->Some_0;
        if (l as int) >= min_bp {
            assert(p + 1 < ts.len());
            assert(!(ts[p] == Token::Die && ts[p + 1] == Token::Die));
            lemma_expr_at_succeeds(ts, p + 1, r as int);
            let (rhs, q) = expr_at(ts, p + 1, r as int)->Ok_0;
            let next = Expr::Binary(Box::new(lhs), Box::new(rhs), op_of(ts[p])->Some_0);
            lemma_infix_loop_succeeds(ts, q, min_bp, next);
        }
    }
}

proof fn lemma_expr_at_pairs(ts: Seq<Token>, pos: int, min_bp: int)
    ensures
        expr_at(ts, pos, min_bp) matches Ok((_, q)) ==> pos < q <= ts.len() && ts[q - 1] is Integer
            && pairs_ok(ts, pos, q),
    decreases ts.len() - pos, 2int,
{
    if 0 <= pos < ts.len() {
        match ts[pos] {
            Token::Integer(n) => {
                let lhs = Expr::NumericLiteral(#[verifier::truncate] (n as usize));
                lemma_infix_loop_pairs(ts, pos, pos + 1, min_bp, lhs);
            },
            _ => {
                lemma_unary_at_pairs(ts, pos);
                if let Ok((lhs, p)) = unary_at(ts, pos) {
                    if pos < p <= ts.len() {
                        lemma_infix_loop_pairs(ts, pos, p, min_bp, lhs);
                    }
                }
            },
        }
    }
}

proof fn lemma_unary_at_pairs(ts: Seq<Token>, pos: int)
    ensures
        unary_at(ts, pos) matches Ok((_, q)) ==> pos < q <= ts.len() && ts[q - 1] is Integer
            && pairs_ok(ts, pos, q),
    decreases ts.len() - pos, 1int,
{
    if 0 <= pos < ts.len() {
        lemma_expr_at_pairs(ts, pos + 1, 5);
        lemma_expr_at_pairs(ts, pos + 1, 7);
        if let Ok((_, q)) = unary_at(ts, pos) {
            assert forall|i: int| pos <= i < q - 1 implies !(#[trigger] ts[i] == Token::Die && ts[i + 1]
                == Token::Die) && !(ts[i] is Integer && ts[i + 1] is Integer) by {
                if i > pos {
                    assert(pairs_ok(ts, pos + 1, q));
                }
            }
        }
    }
}

proof fn lemma_infix_loop_pairs(ts: Seq<Token>, start: int, p: int, min_bp: int, lhs: Expr)
    requires
        0 <= start < p <= ts.len(),
        ts[p - 1] is Integer,
        pairs_ok(ts, start, p),
    ensures
        infix_loop(ts, p, min_bp, lhs) matches Ok((_, q)) ==> p <= q <= ts.len() && ts[q - 1] is Integer
            && pairs_ok(ts, start, q),
    decreases ts.len() - p, 3int,
{
    if p < ts.len() {
        lemma_expr_at_pairs(ts, p + 1, 2);
        lemma_expr_at_pairs(ts, p + 1, 4);
        match (infix_bp(ts[p]), op_of(ts[p])) {
            (Some((l, r)), Some(op)) => {
                if (l as int) >= min_bp {
                    if let Ok((rhs, q)) = expr_at(ts, p + 1, r as int) {
                        if p < q <= ts.len() && operand_fault(ts, p) is None {
                            assert forall|i: int| start <= i < q - 1 implies !(#[trigger] ts[i]
                                == Token::Die && ts[i + 1] == Token::Die) && !(ts[i] is Integer
                                && ts[i + 1] is Integer) by {
                                if i < p - 1 {
                                    assert(pairs_ok(ts, start, p));
                                } else if i > p {
                                    assert(pairs_ok(ts, p + 1, q));
                                }
                            }
                            let next = Expr::Binary(Box::new(lhs), Box::new(rhs), op);
                            lemma_infix_loop_pairs(ts, start, q, min_bp, next);
                        }
                    }
                }
            },
            _ => {},
        }
    }
}

/// Lexed text parses exactly when its tokens are `parsable`: not empty,
/// ending in a number, with no `d` directly after a `d` (and no number
/// directly after a number, which lexing never yields).
pub proof fn lemma_parse_succeeds_iff(s: Seq<char>)
    ensures
        lex_spec(s) matches Ok(ts) ==> (parsed(s) is Some <==> parsable(ts)),
{
    if let Ok(ts) = lex_spec(s) {
        if parsable(ts) {
            lemma_expr_at_succeeds(ts, 0, 0);
        }
        lemma_expr_at_pairs(ts, 0, 0);
        lemma_expr_at_shape(ts, 0, 0);
    }
}

/// A character that dice notation is written with.
pub open spec fn is_notation_char(c: char) -> bool {
    is_digit(c) || c == '+' || c == '-' || c == 'd'
}

/// Text made only of characters outside dice notation does not parse, and the
/// one error it gives is a lexing error that names its first character.
pub proof fn lemma_foreign_text_fails(s: Seq<char>)
    requires
        s.len() > 0,
        forall|i: int| 0 <= i < s.len() ==> !is_notation_char(#[trigger] s[i]),
    ensures
        parsed(s) is None,
        forall|pe: ParseError|
            fails_with(s, pe) <==> pe == ParseError::Lex(LexError::UnexpectedCharacter(s[0])),
{
    assert(!is_notation_char(s[0]));
    assert(lex_spec(s) == Err::<Seq<Token>, (int, int)>((0, 1)));
}

/// First performs a lexical analysis of the given input string, then builds a
/// parse tree from the tokens using operator-precedence parsing.
pub fn parse(input: &str) -> (r: Result<Expr, ParseError>)
    ensures
        match lex_spec(input@) {
            Ok(ts) => r == parse_tokens(ts),
            Err(span) => r matches Err(ParseError::Lex(e)) && e.reports(input@, span),
        },
        match r {
            Ok(e) => parsed(input@) == Some(e),
            Err(pe) => parsed(input@) is None && fails_with(input@, pe),
        },
{
    let tokens = match lex(input) {
        Ok(t) => t,
        Err(e) => return Err(ParseError::Lex(e)),
    };
    proof {
        lemma_lexed_literals_fit(input@, 0);
    }
    match parse_expr(&tokens, 0, 0) {
        Ok((e, _)) => Ok(e),
        Err(e) => Err(e),
    }
}

} // verus!

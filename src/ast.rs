//! The expression tree produced by the parser and read by the evaluator.
use vstd::prelude::*;

use crate::text::{decimal, push_decimal, string_of_chars};

verus! {

/// Represents the operators in the parse tree.
#[derive(Debug, Copy, Clone, PartialEq, Eq, Structural)]
pub enum Operator {
    /// Represents the die operator.
    Die,
    /// Represents the plus operator.
    Plus,
    /// Represents the minus operator.
    Minus,
}

/// Represents the expressions in the parse tree.
#[derive(Debug, PartialEq, Eq)]
pub enum Expr {
    /// Represents the binary expression in the parse tree.
    Binary(Box<Expr>, Box<Expr>, Operator),
    /// Represents the right-associative unary expression in the parse tree.
    Unary(Box<Expr>, Operator),
    /// Represents the numeric literal in the parse tree.
    NumericLiteral(usize),
}

/// The symbol an operator is printed as.
pub open spec fn operator_symbol(op: Operator) -> char {
    match op {
        Operator::Die => 'd',
        Operator::Plus => '+',
        Operator::Minus => '-',
    }
}

/// The fully parenthesised prefix form of an expression: `(op operand)` for a
/// unary node, `(op left right)` for a binary one, the decimal digits for a
/// literal.
pub open spec fn render(e: Expr) -> Seq<char>
    decreases e,
{
    match e {
        Expr::NumericLiteral(n) => decimal(n as nat),
        Expr::Unary(rhs, op) => seq!['(', operator_symbol(op), ' '] + render(*rhs) + seq![')'],
        Expr::Binary(lhs, rhs, op) => seq!['(', operator_symbol(op), ' '] + render(*lhs) + seq![
            ' ',
        ] + render(*rhs) + seq![')'],
    }
}

impl Operator {
    /// The symbol of the operator as a one-character string.
    pub fn to_string(&self) -> (r: String)
        ensures
            r@ == seq![operator_symbol(*self)],
    {
        let v = vec![self.symbol()];
        string_of_chars(&v)
    }

    /// The symbol of the operator.
    pub fn symbol(&self) -> (c: char)
        ensures
            c == operator_symbol(*self),
    {
        match self {
            Operator::Die => 'd',
            Operator::Plus => '+',
            Operator::Minus => '-',
        }
    }
}

/// Appends the rendering of `e` to `out`.
fn render_into(e: &Expr, out: &mut Vec<char>)
    ensures
        final(out)@ == old(out)@ + render(*e),
    decreases e,
{
    match e {
        Expr::NumericLiteral(n) => {
            push_decimal(*n as u64, out);
        },
        Expr::Unary(rhs, op) => {
            out.push('(');
            out.push(op.symbol());
            out.push(' ');
            render_into(rhs, out);
            out.push(')');
        },
        Expr::Binary(lhs, rhs, op) => {
            out.push('(');
            out.push(op.symbol());
            out.push(' ');
            render_into(lhs, out);
            out.push(' ');
            render_into(rhs, out);
            out.push(')');
        },
    }
    assert(out@ =~= old(out)@ + render(*e));
}

impl Expr {
    /// Renders the expression in its fully parenthesised prefix form, such as
    /// `(+ (d 3 6) 10)` for `3d6+10`.
    pub fn to_string(&self) -> (r: String)
        ensures
            r@ == render(*self),
    {
        let mut out: Vec<char> = Vec::new();
        render_into(self, &mut out);
        assert(out@ =~= render(*self));
        string_of_chars(&out)
    }
}

/// Helper function to create numeric literal expression.
pub fn numeric_literal(n: usize) -> (e: Expr)
    ensures
        e == Expr::NumericLiteral(n),
{
    Expr::NumericLiteral(n)
}

/// Helper function to create unary expression.
pub fn unary_expr(rhs: Expr, op: Operator) -> (e: Expr)
    ensures
        e == Expr::Unary(Box::new(rhs), op),
{
    Expr::Unary(Box::new(rhs), op)
}

/// Helper function to create binary expression.
pub fn binary_expr(lhs: Expr, rhs: Expr, op: Operator) -> (e: Expr)
    ensures
        e == Expr::Binary(Box::new(lhs), Box::new(rhs), op),
{
    Expr::Binary(Box::new(lhs), Box::new(rhs), op)
}

/// Helper function to create binary roll expression: `lhs` dice of `rhs` sides.
pub fn binary_roll_expr(lhs: usize, rhs: usize) -> (e: Expr)
    ensures
        e == Expr::Binary(
            Box::new(Expr::NumericLiteral(lhs)),
            Box::new(Expr::NumericLiteral(rhs)),
            Operator::Die,
        ),
{
    binary_expr(numeric_literal(lhs), numeric_literal(rhs), Operator::Die)
}

/// Helper function to create unary roll expression: one die of `rhs` sides.
pub fn unary_roll_expr(rhs: usize) -> (e: Expr)
    ensures
        e == Expr::Unary(Box::new(Expr::NumericLiteral(rhs)), Operator::Die),
{
    unary_expr(numeric_literal(rhs), Operator::Die)
}

} // verus!

use droll::ast::{
    binary_expr, binary_roll_expr, numeric_literal, unary_expr, unary_roll_expr, Operator,
};
use droll::lexer::{LexError, Token};
use droll::parser::{parse, ParseError};

#[test]
fn test_parse() {
    let tests = [
        ("1d20", binary_roll_expr(1, 20)),
        (
            "-1d20",
            binary_expr(
                unary_expr(numeric_literal(1), Operator::Minus),
                numeric_literal(20),
                Operator::Die,
            ),
        ),
        ("d20", unary_roll_expr(20)),
        ("-d20", unary_expr(unary_roll_expr(20), Operator::Minus)),
        (
            "3d6+10",
            binary_expr(binary_roll_expr(3, 6), numeric_literal(10), Operator::Plus),
        ),
        (
            "3-d6",
            binary_expr(numeric_literal(3), unary_roll_expr(6), Operator::Minus),
        ),
        (
            "d3-2",
            binary_expr(unary_roll_expr(3), numeric_literal(2), Operator::Minus),
        ),
        (
            "-2-d8",
            binary_expr(
                unary_expr(numeric_literal(2), Operator::Minus),
                unary_roll_expr(8),
                Operator::Minus,
            ),
        ),
        (
            "+1--d3",
            binary_expr(
                unary_expr(numeric_literal(1), Operator::Plus),
                unary_expr(unary_roll_expr(3), Operator::Minus),
                Operator::Minus,
            ),
        ),
        (
            "1d20+2d3",
            binary_expr(
                binary_roll_expr(1, 20),
                binary_roll_expr(2, 3),
                Operator::Plus,
            ),
        ),
    ];
    for (input, expected) in tests.iter() {
        assert_eq!(parse(input).unwrap(), *expected, "for input `{:#?}`", input);
    }
}

#[test]
fn parse_renders_prefix_form() {
    let tests = [
        ("1d20", "(d 1 20)"),
        ("-d20", "(- (d 20))"),
        ("3d6+10", "(+ (d 3 6) 10)"),
        ("d3-2", "(- (d 3) 2)"),
        ("-1d20", "(d (- 1) 20)"),
        ("2d20+1d8", "(+ (d 2 20) (d 1 8))"),
        ("1-2-3", "(- (- 1 2) 3)"),
        ("2d3d4", "(d (d 2 3) 4)"),
        ("1d-5", "(d 1 (- 5))"),
    ];
    for (input, expected) in tests.iter() {
        assert_eq!(parse(input).unwrap().to_string(), *expected, "for input `{:#?}`", input);
    }
}

#[test]
fn parse_foreign_characters() {
    assert_eq!(
        parse("xyz"),
        Err(ParseError::Lex(LexError::UnexpectedCharacter('x')))
    );
    assert_eq!(
        parse("?!").unwrap_err().message(),
        "unexpected character `?`"
    );
}

#[test]
fn parse_lone_die() {
    let err = parse("d").unwrap_err();
    assert_eq!(err, ParseError::ExpectedOperand(Operator::Die));
    assert_eq!(
        err.message(),
        "unexpected end of input, expecting token after 'd' token"
    );
}

#[test]
fn parse_trailing_sign() {
    assert_eq!(parse("1+"), Err(ParseError::ExpectedOperand(Operator::Plus)));
    assert_eq!(parse("3d6-"), Err(ParseError::ExpectedOperand(Operator::Minus)));
}

#[test]
fn parse_double_die() {
    let err = parse("dd6").unwrap_err();
    assert_eq!(err, ParseError::DoubleDie);
    assert_eq!(
        err.message(),
        "syntax error, found 'd' token directly after 'd' token"
    );
    assert_eq!(parse("2dd6"), Err(ParseError::DoubleDie));
}

#[test]
fn parse_empty_input() {
    let err = parse("").unwrap_err();
    assert_eq!(err, ParseError::UnexpectedEnd);
    assert_eq!(err.message(), "unexpected end of input");
}

#[test]
fn unexpected_token_message() {
    assert_eq!(
        ParseError::UnexpectedToken(Token::Integer(42)).message(),
        "syntax error, unexpected token '42'"
    );
}

#[test]
fn operator_symbols() {
    assert_eq!(Operator::Die.to_string(), "d");
    assert_eq!(Operator::Plus.to_string(), "+");
    assert_eq!(Operator::Minus.to_string(), "-");
}

#[test]
fn render_large_literal() {
    assert_eq!(numeric_literal(1234567890).to_string(), "1234567890");
    assert_eq!(numeric_literal(0).to_string(), "0");
}

#[test]
fn parse_succeeds_exactly_on_well_formed_tokens() {
    let accepted = [
        ("d+3", "(d (+ 3))"),
        ("--5", "(- (- 5))"),
        ("d-d4", "(d (- (d 4)))"),
        ("3d-d4", "(d 3 (- (d 4)))"),
        ("7", "7"),
    ];
    for (input, expected) in accepted.iter() {
        assert_eq!(parse(input).unwrap().to_string(), *expected, "for input `{:#?}`", input);
    }
    assert_eq!(parse("-"), Err(ParseError::ExpectedOperand(Operator::Minus)));
    assert_eq!(parse("2d6+d"), Err(ParseError::ExpectedOperand(Operator::Die)));
    assert_eq!(parse("d+dd4"), Err(ParseError::DoubleDie));
}

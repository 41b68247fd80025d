use droll::lexer::{lex, LexError, Token};

#[test]
fn test_lex_valid() {
    let tests = [
        ("d20", vec![Token::Die, Token::Integer(20)]),
        ("2d20", vec![Token::Integer(2), Token::Die, Token::Integer(20)]),
        (
            "d20-10",
            vec![Token::Die, Token::Integer(20), Token::Minus, Token::Integer(10)],
        ),
        (
            "2d20+1d8",
            vec![
                Token::Integer(2),
                Token::Die,
                Token::Integer(20),
                Token::Plus,
                Token::Integer(1),
                Token::Die,
                Token::Integer(8),
            ],
        ),
        (
            "+-1234567890",
            vec![Token::Plus, Token::Minus, Token::Integer(1234567890)],
        ),
    ];
    for (input, expected) in tests.iter() {
        let actual = lex(input).unwrap();
        assert_eq!(actual, *expected, "for input `{:#?}`", input);
    }
    // Fudge dice, percentile dice, `*` and `/` are not part of the notation.
    let rejected = [("dF", 'F'), ("d%", '%'), ("d6*10", '*'), ("d6/10", '/')];
    for (input, c) in rejected.iter() {
        assert_eq!(
            lex(input),
            Err(LexError::UnexpectedCharacter(*c)),
            "for input `{:#?}`",
            input
        );
    }
}

#[test]
fn lex_signs_number_and_trailing_die() {
    assert_eq!(
        lex("+-1234567890d").unwrap(),
        vec![Token::Plus, Token::Minus, Token::Integer(1234567890), Token::Die]
    );
}

#[test]
fn lex_empty_input() {
    assert_eq!(lex("").unwrap(), vec![]);
}

#[test]
fn lex_whitespace_is_rejected() {
    assert_eq!(lex("1d20 + 3"), Err(LexError::UnexpectedCharacter(' ')));
}

#[test]
fn lex_leading_zero_is_rejected() {
    assert_eq!(lex("05"), Err(LexError::UnexpectedCharacter('0')));
    assert_eq!(lex("10d10").unwrap(), vec![Token::Integer(10), Token::Die, Token::Integer(10)]);
}

#[test]
fn lex_largest_number() {
    let max = usize::MAX.to_string();
    assert_eq!(lex(&max).unwrap(), vec![Token::Integer(usize::MAX as u64)]);
}

#[test]
fn lex_number_too_large() {
    let err = lex("1d99999999999999999999").unwrap_err();
    assert_eq!(err, LexError::NumberTooLarge("99999999999999999999".to_string()));
    assert_eq!(
        err.message(),
        "failed to parse number token: `99999999999999999999` does not fit in usize"
    );
}

#[test]
fn lex_error_message() {
    assert_eq!(
        lex("x").unwrap_err().message(),
        "unexpected character `x`"
    );
}

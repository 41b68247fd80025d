use droll::ast::{
    binary_expr, binary_roll_expr, numeric_literal, unary_expr, unary_roll_expr, Operator,
};
use droll::interpreter::{calc_roll, eval, face_value, FixedSource, Sample};
use droll::parser::parse;
use droll::{base_prng_engine, roll, ThreadSource};

const ONE: Sample = Sample { num: 1, den: 1 };
const HALF: Sample = Sample { num: 1, den: 2 };
const ZERO: Sample = Sample { num: 0, den: 1 };

#[test]
fn test_eval() {
    let tests = [
        (binary_roll_expr(1, 20), 20),
        (
            binary_expr(binary_roll_expr(3, 6), numeric_literal(10), Operator::Plus),
            28,
        ),
        (
            binary_expr(
                binary_roll_expr(1, 20),
                binary_roll_expr(2, 3),
                Operator::Plus,
            ),
            26,
        ),
        (unary_roll_expr(6), 6),
        (unary_expr(numeric_literal(1), Operator::Minus), -1),
        (
            unary_expr(
                unary_expr(numeric_literal(1), Operator::Minus),
                Operator::Plus,
            ),
            -1,
        ),
    ];
    for (input, expected) in tests.iter() {
        let mut source = FixedSource::new(ONE);
        assert_eq!(eval(&mut source, input), *expected, "for input `{:#?}`", input);
    }
}

#[test]
fn eval_parsed_with_highest_rolls() {
    let mut source = FixedSource::new(ONE);
    assert_eq!(eval(&mut source, &parse("1d20+10").unwrap()), 30);
    assert_eq!(eval(&mut source, &parse("3d6+10").unwrap()), 28);
    assert_eq!(eval(&mut source, &parse("-1").unwrap()), -1);
    let mut other = FixedSource::new(ZERO);
    assert_eq!(eval(&mut other, &parse("-1").unwrap()), -1);
}

#[test]
fn eval_is_reproducible() {
    let tree = parse("2d20+1d8-d4").unwrap();
    let mut a = FixedSource::new(HALF);
    let mut b = FixedSource::new(HALF);
    assert_eq!(eval(&mut a, &tree), eval(&mut b, &tree));
    assert_eq!(eval(&mut a, &tree), eval(&mut a, &tree));
}

#[test]
fn eval_end_to_end_half() {
    let tree = parse("2d20+1d8").unwrap();
    assert_eq!(tree.to_string(), "(+ (d 2 20) (d 1 8))");
    let mut source = FixedSource::new(HALF);
    assert_eq!(eval(&mut source, &tree), 24);
}

#[test]
fn roll_never_below_one_per_die() {
    assert_eq!(calc_roll(3, 6, ZERO), 3);
    assert_eq!(calc_roll(1, 1, ZERO), 1);
    assert_eq!(calc_roll(4, 20, Sample { num: 1, den: 100 }), 4);
    assert_eq!(calc_roll(5, -3, HALF), 5);
    assert_eq!(calc_roll(0, 20, ONE), 0);
}

#[test]
fn roll_formula_values() {
    // round(0.5 * 3) = 2, halves away from zero
    assert_eq!(face_value(3, HALF), 2);
    assert_eq!(calc_roll(2, 3, HALF), 4);
    // round(0.25 * 10) = round(2.5) = 3
    assert_eq!(calc_roll(1, 10, Sample { num: 1, den: 4 }), 3);
    // round(0.3 * 10) = 3
    assert_eq!(calc_roll(7, 10, Sample { num: 3, den: 10 }), 21);
    assert_eq!(calc_roll(-1, 20, ONE), -20);
}

#[test]
fn roll_saturates() {
    assert_eq!(calc_roll(isize::MAX, 2, ONE), isize::MAX);
    assert_eq!(calc_roll(isize::MIN, 2, ONE), isize::MIN);
    let mut source = FixedSource::new(ONE);
    let big = usize::MAX.to_string();
    assert_eq!(eval(&mut source, &parse(&big).unwrap()), isize::MAX);
    let minus = format!("-{}-{}", big, big);
    assert_eq!(eval(&mut source, &parse(&minus).unwrap()), isize::MIN);
}

#[test]
fn process_source_is_a_fraction() {
    for _ in 0..100 {
        let s = base_prng_engine();
        assert!(s.num < s.den);
    }
    let mut source = ThreadSource::new();
    let v = eval(&mut source, &parse("d6").unwrap());
    assert!((1..=6).contains(&v));
}

#[test]
fn roll_stays_in_range() {
    for _ in 0..100 {
        let result = roll("1d20+10").unwrap();
        assert!((11..=30).contains(&result), "roll result {} out of range", result);
    }
    assert_eq!(roll("d").unwrap_err(), "unexpected end of input, expecting token after 'd' token");
    assert_eq!(roll("-1").unwrap(), -1);
}

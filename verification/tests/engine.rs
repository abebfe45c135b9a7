use exprcalc::parser::Error;
use exprcalc::parser::Parser;

fn parse_bits(t: &str) -> u32 {
    t.parse::<f32>().unwrap().to_bits()
}

fn apply_bits(c: char, a: u32, b: u32) -> u32 {
    let x = f32::from_bits(a);
    let y = f32::from_bits(b);
    let r = match c {
        '+' => x + y,
        '-' => x - y,
        '*' => x * y,
        '/' => x / y,
        '^' => x.powf(y),
        _ => unreachable!(),
    };
    r.to_bits()
}

fn eval_f32(p: &Parser) -> Result<f32, Error> {
    assert!(p.can_eval());
    p.eval_with(|t: &str| parse_bits(t), |c: char, a: u32, b: u32| apply_bits(c, a, b))
        .map(f32::from_bits)
}

#[test]
fn one_plus_one() {
    let p = Parser::new("1 + 1".to_string()).unwrap();
    assert_eq!(p.get_postfix(), "1 1 +");
    assert_eq!(eval_f32(&p).unwrap(), 2.0);
}

#[test]
fn parenthesized_sum_times_three() {
    let p = Parser::new("( 1 + 2 ) * 3".to_string()).unwrap();
    assert_eq!(p.get_postfix(), "1 2 + 3 *");
    assert_eq!(eval_f32(&p).unwrap(), 9.0);
}

#[test]
fn four_divided_by_zero() {
    let p = Parser::new("4 / 0".to_string()).unwrap();
    assert_eq!(p.get_postfix(), "4 0 /");
    assert_eq!(eval_f32(&p), Err(Error::DivisionByZero));
}

#[test]
fn divided_by_zero_point_zero() {
    let p = Parser::new("8 / 0.0".to_string()).unwrap();
    assert_eq!(eval_f32(&p), Err(Error::DivisionByZero));
}

#[test]
fn divided_by_negative_zero() {
    let p = Parser::new("8 / -0".to_string()).unwrap();
    assert_eq!(eval_f32(&p), Err(Error::DivisionByZero));
}

#[test]
fn ordinary_division() {
    let p = Parser::new("4 / 2".to_string()).unwrap();
    assert_eq!(eval_f32(&p).unwrap(), 2.0);
}

#[test]
fn two_to_the_third() {
    let p = Parser::new("2 ^ 3".to_string()).unwrap();
    assert_eq!(p.get_postfix(), "2 3 ^");
    assert_eq!(eval_f32(&p).unwrap(), 8.0);
}

#[test]
fn unclosed_parenthesis_fails_construction() {
    let r = Parser::new("( 1 + 2".to_string());
    assert!(matches!(r, Err(Error::UnclosedParentheses)));
}

#[test]
fn nested_unclosed_parenthesis() {
    let r = Parser::new("( ( 1 + 2 )".to_string());
    assert!(matches!(r, Err(Error::UnclosedParentheses)));
}

#[test]
fn surplus_closing_parenthesis_is_tolerated() {
    let p = Parser::new("1 + 1 )".to_string()).unwrap();
    assert_eq!(p.get_postfix(), "1 1 +");
}

#[test]
fn unknown_symbol_fails_construction() {
    let r = Parser::new("1 $ 2".to_string());
    assert!(matches!(r, Err(Error::InvalidOperator)));
}

#[test]
fn reference_example() {
    // Inside the parentheses the operators drain last-in first-out, so
    // `* 3 / 4` leaves as `3 4 / *`; the grouping, and with it the
    // value, is that of `((1 + 2) * 3 / 4) ^ 5` all the same.
    let p = Parser::new("( ( 1 + 2 ) * 3 / 4 ) ^ 5".to_string()).unwrap();
    assert_eq!(p.get_expr(), "( ( 1 + 2 ) * 3 / 4 ) ^ 5");
    assert_eq!(p.get_postfix(), "1 2 + 3 4 / * 5 ^");
    let expected = ((1.0_f32 + 2.0) * 3.0 / 4.0).powf(5.0);
    assert_eq!(eval_f32(&p).unwrap(), expected);
    assert!((eval_f32(&p).unwrap() - 57.665039).abs() < 0.001);
}

#[test]
fn single_literal_is_identity() {
    let p = Parser::new("3.5".to_string()).unwrap();
    assert_eq!(p.get_expr(), "3.5");
    assert_eq!(p.get_postfix(), "3.5");
    assert_eq!(eval_f32(&p).unwrap(), 3.5);
}

#[test]
fn construction_is_deterministic() {
    let a = Parser::new("( 2 + 3 ) * 4".to_string()).unwrap();
    let b = Parser::new("( 2 + 3 ) * 4".to_string()).unwrap();
    assert_eq!(a.get_postfix(), b.get_postfix());
    assert_eq!(a.get_expr(), b.get_expr());
}

#[test]
fn eval_equals_replaying_stored_postfix() {
    let p = Parser::new("( 1 + 2 ) * 3".to_string()).unwrap();
    let through_engine = p
        .eval_with(|t: &str| parse_bits(t), |c: char, a: u32, b: u32| apply_bits(c, a, b))
        .unwrap();
    let replayed = exprcalc::eval::eval_postfix_with(
        p.get_postfix().as_str(),
        |t: &str| parse_bits(t),
        |c: char, a: u32, b: u32| apply_bits(c, a, b),
    )
    .unwrap();
    assert_eq!(through_engine, replayed);
}

#[test]
fn replay_with_power_matches_engine() {
    let p = Parser::new("2 ^ 3".to_string()).unwrap();
    let through_engine = p
        .eval_with(|t: &str| parse_bits(t), |c: char, a: u32, b: u32| apply_bits(c, a, b))
        .unwrap();
    let replayed = exprcalc::eval::eval_postfix_with(
        p.get_postfix().as_str(),
        |t: &str| parse_bits(t),
        |c: char, a: u32, b: u32| apply_bits(c, a, b),
    )
    .unwrap();
    assert_eq!(through_engine, replayed);
}

#[test]
fn invalid_expression_on_foreign_postfix_token() {
    assert!(exprcalc::eval::can_eval_postfix("1 2 x"));
    let r = exprcalc::eval::eval_postfix_with(
        "1 2 x",
        |t: &str| parse_bits(t),
        |c: char, a: u32, b: u32| apply_bits(c, a, b),
    );
    assert_eq!(r, Err(Error::InvalidExpression));
}

#[test]
fn stack_safety_is_detected() {
    assert!(exprcalc::eval::can_eval_postfix("1 1 +"));
    assert!(!exprcalc::eval::can_eval_postfix("1 +"));
    assert!(!exprcalc::eval::can_eval_postfix("1 1 + 2"));
    assert!(!exprcalc::eval::can_eval_postfix(""));
    let p = Parser::new("1 +".to_string()).unwrap();
    assert!(!p.can_eval());
    let q = Parser::new("1 + 1".to_string()).unwrap();
    assert!(q.can_eval());
}

#[test]
fn empty_expression_converts_to_empty() {
    let p = Parser::new("".to_string()).unwrap();
    assert_eq!(p.get_postfix(), "");
    assert!(!p.can_eval());
}

#[test]
fn get_expr_returns_the_original() {
    let p = Parser::new("1 + 1".to_string()).unwrap();
    assert_eq!(p.get_expr(), "1 + 1");
}

#[test]
fn whitespace_variants_tokenize_alike() {
    let a = Parser::new("1   +  1".to_string()).unwrap();
    assert_eq!(a.get_postfix(), "1 1 +");
    let b = Parser::new("\t1 +\t1\n".to_string()).unwrap();
    assert_eq!(b.get_postfix(), "1 1 +");
}

#[test]
fn flat_operators_drain_in_reverse_order() {
    // Without parentheses, operators accumulate and drain last-in
    // first-out, whatever their precedence.
    let p = Parser::new("1 + 2 * 3 / 4 ^ 5".to_string()).unwrap();
    assert_eq!(p.get_postfix(), "1 2 3 4 5 ^ / * +");
}

#[test]
fn precedence_table() {
    assert_eq!(Parser::get_precedence("+".to_string()), Ok(2));
    assert_eq!(Parser::get_precedence("-".to_string()), Ok(2));
    assert_eq!(Parser::get_precedence("*".to_string()), Ok(1));
    assert_eq!(Parser::get_precedence("/".to_string()), Ok(1));
    assert_eq!(Parser::get_precedence("^".to_string()), Ok(3));
    assert_eq!(Parser::get_precedence("(".to_string()), Ok(0));
    assert_eq!(Parser::get_precedence(")".to_string()), Ok(0));
    assert_eq!(Parser::get_precedence("%".to_string()), Err(Error::InvalidOperator));
    assert_eq!(Parser::get_precedence("12".to_string()), Err(Error::InvalidOperator));
}

#[test]
fn shunting_yard_direct() {
    assert_eq!(Parser::shunting_yard("( 1 + 2 ) * 3".to_string()).unwrap(), "1 2 + 3 *");
    assert_eq!(
        Parser::shunting_yard("( 1".to_string()),
        Err(Error::UnclosedParentheses)
    );
}

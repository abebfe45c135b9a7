use exprcalc::tokens::is_numeric_token;
use exprcalc::tokens::split_tokens;

#[test]
fn plain_integers_and_decimals_are_numeric() {
    assert!(is_numeric_token("0"));
    assert!(is_numeric_token("42"));
    assert!(is_numeric_token("3.5"));
    assert!(is_numeric_token("0.0"));
    assert!(is_numeric_token(".5"));
    assert!(is_numeric_token("3."));
}

#[test]
fn signs_and_exponents_are_numeric() {
    assert!(is_numeric_token("+1"));
    assert!(is_numeric_token("-2.5"));
    assert!(is_numeric_token("1e5"));
    assert!(is_numeric_token("1E-5"));
    assert!(is_numeric_token("-1.5e+3"));
    assert!(is_numeric_token(".5e2"));
}

#[test]
fn special_words_are_numeric() {
    assert!(is_numeric_token("inf"));
    assert!(is_numeric_token("Infinity"));
    assert!(is_numeric_token("-inf"));
    assert!(is_numeric_token("nan"));
    assert!(is_numeric_token("NaN"));
    assert!(is_numeric_token("+NAN"));
}

#[test]
fn malformed_literals_are_not_numeric() {
    assert!(!is_numeric_token(""));
    assert!(!is_numeric_token("."));
    assert!(!is_numeric_token("+"));
    assert!(!is_numeric_token("-"));
    assert!(!is_numeric_token("+."));
    assert!(!is_numeric_token("1e"));
    assert!(!is_numeric_token("e5"));
    assert!(!is_numeric_token("1.2.3"));
    assert!(!is_numeric_token("--1"));
    assert!(!is_numeric_token("1x"));
    assert!(!is_numeric_token("infin"));
    assert!(!is_numeric_token("1 2"));
    assert!(!is_numeric_token("("));
    assert!(!is_numeric_token("+-1"));
    assert!(!is_numeric_token("1e5.0"));
}

#[test]
fn numeric_agrees_with_float_parsing() {
    let samples = [
        "0", "42", "3.5", ".5", "3.", "1e5", "1E-5", "-1.5e+3", "inf", "Infinity", "nan",
        "+NAN", "", ".", "+", "-", "1e", "e5", "1.2.3", "--1", "1x", "infin", "(", ")", "^",
        "0x10", "1_000", " 1", "1 ",
    ];
    for s in samples {
        assert_eq!(is_numeric_token(s), s.parse::<f32>().is_ok(), "token {:?}", s);
    }
}

#[test]
fn splitting_on_whitespace() {
    assert_eq!(split_tokens("1 + 2"), vec!["1", "+", "2"]);
    assert_eq!(split_tokens("  1\t+\n2  "), vec!["1", "+", "2"]);
    assert_eq!(split_tokens(""), Vec::<String>::new());
    assert_eq!(split_tokens("   "), Vec::<String>::new());
    assert_eq!(split_tokens("abc"), vec!["abc"]);
}

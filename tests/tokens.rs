use rpn::{classify_token, is_number_literal, tokenize, Expression, Operator};

fn literal(s: &str) -> bool {
    is_number_literal(&s.chars().collect::<Vec<char>>())
}

#[test]
fn tokenize_trims_and_splits() {
    assert_eq!(tokenize(" 3 4 + \n"), vec!["3", "4", "+"]);
    assert_eq!(tokenize("3  4"), vec!["3", "", "4"]);
    assert_eq!(tokenize("3\t4"), vec!["3\t4"]);
    assert_eq!(tokenize("-5"), vec!["-5"]);
}

#[test]
fn tokenize_blank_line_has_no_tokens() {
    assert!(tokenize("").is_empty());
    assert!(tokenize(" \t\r\n\u{2003}").is_empty());
}

#[test]
fn operators_are_classified() {
    assert_eq!(classify_token("+"), Some(Expression::Operator(Operator::Plus)));
    assert_eq!(classify_token("-"), Some(Expression::Operator(Operator::Minus)));
    assert_eq!(classify_token("*"), Some(Expression::Operator(Operator::Times)));
    assert_eq!(classify_token("/"), Some(Expression::Operator(Operator::Div)));
}

#[test]
fn numbers_and_others_are_classified() {
    assert_eq!(classify_token("-3"), Some(Expression::Number));
    assert_eq!(classify_token("0.25"), Some(Expression::Number));
    assert_eq!(classify_token("x"), None);
    assert_eq!(classify_token(""), None);
    assert_eq!(classify_token("++"), None);
}

#[test]
fn decimal_literals() {
    for s in ["0", "42", "+7", "-7", "1.", ".5", "1.5", "1e5", "1E-3", "2.5e+10", "-.5e2", "007"] {
        assert!(literal(s), "{s}");
        assert!(s.parse::<f64>().is_ok(), "{s}");
    }
}

#[test]
fn special_literals() {
    for s in ["inf", "-inf", "+INF", "Infinity", "-infinity", "NaN", "nan", "-NAN"] {
        assert!(literal(s), "{s}");
        assert!(s.parse::<f64>().is_ok(), "{s}");
    }
}

#[test]
fn rejected_literals() {
    for s in [
        "", ".", "+", "-", "e5", "1e", "1e+", "1.2.3", "1_000", " 1", "1 ", "0x10", "infin",
        "nana", "1ee2", "--1", "1e2.5", "x",
    ] {
        assert!(!literal(s), "{s}");
        assert!(s.parse::<f64>().is_err(), "{s}");
    }
}

use rpn::{parse, Operator, RNPError, Step};

fn value(expression: &str) -> Result<f64, RNPError> {
    let program = parse(expression)?;
    let mut values: Vec<f64> = Vec::new();
    for step in &program.steps {
        let v = match step {
            Step::Number(text) => text.parse::<f64>().expect("a number literal"),
            Step::Apply(op, l, r) => {
                assert!(*l < values.len() && *r < values.len());
                let (a, b) = (values[*l], values[*r]);
                match op {
                    Operator::Plus => a + b,
                    Operator::Minus => a - b,
                    Operator::Times => a * b,
                    Operator::Div => a / b,
                }
            }
        };
        values.push(v);
    }
    Ok(*values.last().expect("at least one step"))
}

fn number(s: &str) -> Step {
    Step::Number(s.to_string())
}

#[test]
fn adds_two_numbers() {
    assert_eq!(value("3 4 +"), Ok(7.0));
}

#[test]
fn classic_expression() {
    assert_eq!(value("5 1 2 + 4 * + 3 -"), Ok(14.0));
}

#[test]
fn divides_left_by_right() {
    assert_eq!(value("10 2 /"), Ok(5.0));
}

#[test]
fn leftover_operand_is_rejected() {
    assert_eq!(value("1 2 3 +"), Err(RNPError::TermsQuantityInvalid));
}

#[test]
fn operator_without_operands_is_rejected() {
    assert_eq!(value("+"), Err(RNPError::TermsQuantityInvalid));
}

#[test]
fn operator_with_one_operand_is_rejected() {
    assert_eq!(value("3 +"), Err(RNPError::TermsQuantityInvalid));
}

#[test]
fn unparseable_token_is_rejected() {
    assert_eq!(value("3 x +"), Err(RNPError::InvalidOperand));
}

#[test]
fn empty_input_has_no_terms() {
    assert_eq!(value(""), Err(RNPError::TermsQuantityInvalid));
}

#[test]
fn blank_input_has_no_terms() {
    assert_eq!(value("  \t\n "), Err(RNPError::TermsQuantityInvalid));
}

#[test]
fn doubled_space_gives_an_empty_token() {
    assert_eq!(value("3  4 +"), Err(RNPError::InvalidOperand));
}

#[test]
fn tab_between_tokens_is_not_a_separator() {
    assert_eq!(value("3\t4 +"), Err(RNPError::InvalidOperand));
}

#[test]
fn subtraction_keeps_written_order() {
    assert_eq!(value("10 3 -"), Ok(7.0));
    let program = parse("10 3 -").unwrap();
    assert_eq!(
        program.steps,
        vec![number("10"), number("3"), Step::Apply(Operator::Minus, 0, 1)]
    );
}

#[test]
fn division_by_zero_is_infinite() {
    assert_eq!(value("1 0 /"), Ok(f64::INFINITY));
}

#[test]
fn zero_by_zero_is_not_a_number() {
    assert!(value("0 0 /").unwrap().is_nan());
}

#[test]
fn balanced_expressions_evaluate() {
    assert_eq!(value("2 3 4 * +"), Ok(14.0));
    assert_eq!(value("2 3 + 4 *"), Ok(20.0));
    assert_eq!(value("1 2 - 3 -"), Ok(-4.0));
    assert_eq!(value("1 2 3 - -"), Ok(2.0));
    assert_eq!(value("42"), Ok(42.0));
    assert_eq!(value("2.5 -1e1 *"), Ok(-25.0));
}

#[test]
fn unbalanced_expressions_do_not_evaluate() {
    assert_eq!(value("1 2"), Err(RNPError::TermsQuantityInvalid));
    assert_eq!(value("1 + 2"), Err(RNPError::TermsQuantityInvalid));
    assert_eq!(value("1 2 + +"), Err(RNPError::TermsQuantityInvalid));
}

#[test]
fn first_error_wins() {
    assert_eq!(value("x +"), Err(RNPError::InvalidOperand));
    assert_eq!(value("+ x"), Err(RNPError::TermsQuantityInvalid));
    assert_eq!(value("1 2 x"), Err(RNPError::InvalidOperand));
}

#[test]
fn surrounding_white_space_is_trimmed() {
    assert_eq!(value("  3 4 *\n"), Ok(12.0));
    assert_eq!(value("\u{3000}6 3 /\u{a0}"), Ok(2.0));
}

#[test]
fn program_of_classic_expression() {
    let program = parse("5 1 2 + 4 * + 3 -").unwrap();
    assert_eq!(
        program.steps,
        vec![
            number("5"),
            number("1"),
            number("2"),
            Step::Apply(Operator::Plus, 1, 2),
            number("4"),
            Step::Apply(Operator::Times, 3, 4),
            Step::Apply(Operator::Plus, 0, 5),
            number("3"),
            Step::Apply(Operator::Minus, 6, 7),
        ]
    );
}

#[test]
fn special_values_are_numbers() {
    assert_eq!(value("inf 1 +"), Ok(f64::INFINITY));
    assert_eq!(value("-Infinity"), Ok(f64::NEG_INFINITY));
    assert!(value("NaN").unwrap().is_nan());
}

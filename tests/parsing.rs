use ast::{parse_expression, parse_number, Expr, ParseError};

fn literal(e: &Expr) -> Option<f64> {
    match e {
        Expr::Float(t) => t.parse::<f64>().ok(),
        _ => None,
    }
}

fn fully_parsed(input: &str) -> Expr {
    match parse_expression(input) {
        Ok((remaining, ast)) => {
            assert!(remaining.trim().is_empty(), "Unparsed input: '{}'", remaining);
            ast
        }
        Err(error) => panic!("Parse failed for '{}': {:?}", input, error),
    }
}

#[test]
fn test_invalid_expressions() {
    let invalid_expressions = [
        "* 40 - 10",
        "5 + + 3",
        "(5 + 3",
        "5 + ",
        "+ 5",
        "5 * / 3",
        "((5 + 3)",
        "5 + (3 * )",
        "",
        "   ",
        "5 + abc",
        "5 ** 3",
        "(((",
        ")))",
        "5 + ()",
    ];
    for expression in &invalid_expressions {
        match parse_expression(expression) {
            Ok((remaining, _)) => {
                if remaining.trim().is_empty() {
                    panic!("Expression '{}' should not have parsed completely", expression);
                }
            }
            Err(_) => (),
        }
    }
}

#[test]
fn test_operator_precedence() {
    match parse_expression("2 + 3 * 4") {
        Ok((_, ast)) => match ast {
            Expr::Add(left, right) => {
                assert!(literal(left.as_ref()) == Some(2.0));
                assert!(matches!(right.as_ref(), Expr::Mul(_, _)));
            }
            _ => panic!("Expected Add at top level, got {:?}", ast),
        },
        Err(error) => panic!("Parse failed: {:?}", error),
    }
}

#[test]
fn test_parentheses_override_precedence() {
    match parse_expression("(2 + 3) * 4") {
        Ok((_, ast)) => match ast {
            Expr::Mul(left, right) => {
                assert!(matches!(left.as_ref(), Expr::Add(_, _)));
                assert!(literal(right.as_ref()) == Some(4.0));
            }
            _ => panic!("Expected Mul at top level, got {:?}", ast),
        },
        Err(error) => panic!("Parse failed: {:?}", error),
    }
}

#[test]
fn valid_expressions_are_read_whole() {
    let inputs = [
        "1 + 2 * (3 - 4) / 5",
        "42",
        "(1 + 2) * 3",
        "10 / 2 + 3 * 4",
        "1 + 2 + 3 + 4",
        "3.14 + 2.86",
        "-5 + 10",
        "-3.5 * 2",
        "10.5 / -2.1",
        "-1.5 + -2.5",
    ];
    for input in &inputs {
        fully_parsed(input);
    }
}

#[test]
fn nested_expression_shape() {
    // 1 + ((2 * (3 - 4)) / 5)
    match fully_parsed("1 + 2 * (3 - 4) / 5") {
        Expr::Add(one, rest) => {
            assert_eq!(literal(&one), Some(1.0));
            match *rest {
                Expr::Div(product, five) => {
                    assert_eq!(literal(&five), Some(5.0));
                    match *product {
                        Expr::Mul(two, diff) => {
                            assert_eq!(literal(&two), Some(2.0));
                            assert!(matches!(*diff, Expr::Sub(_, _)));
                        }
                        other => panic!("unexpected {:?}", other),
                    }
                }
                other => panic!("unexpected {:?}", other),
            }
        }
        other => panic!("unexpected {:?}", other),
    }
}

#[test]
fn division_by_zero_input_parses_to_a_division() {
    match fully_parsed("8 / 0") {
        Expr::Div(l, r) => {
            assert_eq!(literal(&l), Some(8.0));
            assert_eq!(literal(&r), Some(0.0));
        }
        other => panic!("unexpected {:?}", other),
    }
}

#[test]
fn subtraction_folds_left() {
    let plain = fully_parsed("10 - 3 - 2");
    let grouped = fully_parsed("(10 - 3) - 2");
    assert_eq!(format!("{:?}", plain), format!("{:?}", grouped));
    match plain {
        Expr::Sub(l, r) => {
            assert!(matches!(*l, Expr::Sub(_, _)));
            assert_eq!(literal(&r), Some(2.0));
        }
        other => panic!("unexpected {:?}", other),
    }
}

#[test]
fn division_folds_left() {
    let plain = fully_parsed("8 / 4 / 2");
    let grouped = fully_parsed("(8 / 4) / 2");
    assert_eq!(format!("{:?}", plain), format!("{:?}", grouped));
    assert!(matches!(plain, Expr::Div(ref l, _) if matches!(**l, Expr::Div(_, _))));
}

#[test]
fn remainder_is_handed_back() {
    match parse_expression("5 + 3 )") {
        Ok((remaining, ast)) => {
            assert_eq!(remaining, " )");
            assert!(matches!(ast, Expr::Add(_, _)));
        }
        Err(error) => panic!("Parse failed: {:?}", error),
    }
    match parse_expression("2 3") {
        Ok((remaining, ast)) => {
            assert_eq!(remaining, " 3");
            assert_eq!(literal(&ast), Some(2.0));
        }
        Err(error) => panic!("Parse failed: {:?}", error),
    }
    match parse_expression("7   ") {
        Ok((remaining, _)) => assert_eq!(remaining, "   "),
        Err(error) => panic!("Parse failed: {:?}", error),
    }
}

#[test]
fn error_positions() {
    assert_eq!(parse_expression("").unwrap_err(), ParseError { position: 0 });
    assert_eq!(parse_expression("   ").unwrap_err(), ParseError { position: 3 });
    assert_eq!(parse_expression("* 40 - 10").unwrap_err(), ParseError { position: 0 });
    assert_eq!(parse_expression("5 + + 3").unwrap_err(), ParseError { position: 4 });
    assert_eq!(parse_expression("5 + ").unwrap_err(), ParseError { position: 4 });
    assert_eq!(parse_expression("(5 + 3").unwrap_err(), ParseError { position: 0 });
    assert_eq!(parse_expression("5 + ()").unwrap_err(), ParseError { position: 4 });
    assert_eq!(parse_expression("5 + abc").unwrap_err(), ParseError { position: 4 });
    assert_eq!(parse_expression(")))").unwrap_err(), ParseError { position: 0 });
    assert_eq!(parse_expression("5 ** 3").unwrap_err(), ParseError { position: 3 });
    assert_eq!(parse_expression("5 * / 3").unwrap_err(), ParseError { position: 4 });
}

#[test]
fn blanks_of_every_kind_are_skipped() {
    match fully_parsed("\t1\n+\r2 ") {
        Expr::Add(l, r) => {
            assert_eq!(literal(&l), Some(1.0));
            assert_eq!(literal(&r), Some(2.0));
        }
        other => panic!("unexpected {:?}", other),
    }
}

#[test]
fn literal_forms() {
    let (rest, e) = parse_number("-3.14xyz").unwrap();
    assert_eq!(rest, "xyz");
    assert!(matches!(e, Expr::Float(ref t) if t == "-3.14"));
    let (rest, e) = parse_number("42").unwrap();
    assert_eq!(rest, "");
    assert!(matches!(e, Expr::Float(ref t) if t == "42"));
    let (rest, e) = parse_number("5.").unwrap();
    assert_eq!(rest, ".");
    assert!(matches!(e, Expr::Float(ref t) if t == "5"));
    let (rest, e) = parse_number("1e3").unwrap();
    assert_eq!(rest, "e3");
    assert!(matches!(e, Expr::Float(ref t) if t == "1"));
    assert_eq!(parse_number("- 5").unwrap_err(), ParseError { position: 0 });
    assert_eq!(parse_number("+5").unwrap_err(), ParseError { position: 0 });
    assert_eq!(parse_number(".5").unwrap_err(), ParseError { position: 0 });
    assert_eq!(parse_number(" 5").unwrap_err(), ParseError { position: 0 });
    assert_eq!(parse_expression("- 5").unwrap_err(), ParseError { position: 0 });
}

#[test]
fn non_ascii_text_is_kept_whole() {
    match parse_expression("2 * 3 é") {
        Ok((remaining, _)) => assert_eq!(remaining, " é"),
        Err(error) => panic!("Parse failed: {:?}", error),
    }
    assert_eq!(parse_expression("π").unwrap_err(), ParseError { position: 0 });
}

use exprcalc::error::Error;
use exprcalc::evaluator::{eval_rpn, Expr};
use exprcalc::parser::parse_tokens;
use exprcalc::scanner::{Builtin, OperatorType, Scanner};

fn value(e: &Expr) -> f64 {
    match e {
        Expr::Number(text) => text.parse::<f64>().unwrap(),
        Expr::Binary(o, a, b) => {
            let (a, b) = (value(a), value(b));
            match o {
                OperatorType::Plus => a + b,
                OperatorType::Minus => a - b,
                OperatorType::Multiply => a * b,
                OperatorType::Divide => a / b,
                OperatorType::Pow => a.powf(b),
            }
        }
        Expr::Call1(f, a) => {
            let a = value(a);
            match f {
                Builtin::Sin => a.sin(),
                Builtin::Cos => a.cos(),
                _ => panic!("{f:?} takes two operands"),
            }
        }
        Expr::Call2(f, a, b) => {
            let (a, b) = (value(a), value(b));
            match f {
                Builtin::Max => {
                    if a > b {
                        a
                    } else {
                        b
                    }
                }
                Builtin::Min => {
                    if a < b {
                        a
                    } else {
                        b
                    }
                }
                _ => panic!("{f:?} takes one operand"),
            }
        }
    }
}

fn run(s: &str) -> Result<f64, Error> {
    let mut scanner = Scanner::new(s);
    let infix_tokens = scanner.scan_tokens()?;
    let pfix_tokens = parse_tokens(infix_tokens)?;
    Ok(value(&eval_rpn(pfix_tokens)?))
}

fn eval(s: &str, expected: f64) {
    let n = run(s).unwrap();
    let epsilon = 1e-9;
    assert!((n - expected).abs() < epsilon, "Expected {expected}, got {n}");
}

#[test]
fn test_eval() {
    for (s, expected) in [
        ("3-4", -1.0),
        ("3+4*2", 11.0),
        ("sin ( max ( 2, 3 ) / 3 * 3.14 )", 0.0015926529164868282),
        ("3 + 4 * 2 / ( 1 - 5 ) ^ 2 ^ 3", 3.0001220703125),
    ] {
        eval(s, expected);
    }
}

#[test]
fn subtraction_takes_right_operand_from_top() {
    assert_eq!(run("3-4").unwrap(), -1.0);
    assert_eq!(run("8/2").unwrap(), 4.0);
}

#[test]
fn multiplication_binds_before_addition() {
    assert_eq!(run("3+4*2").unwrap(), 11.0);
    assert_eq!(run("(3+4)*2").unwrap(), 14.0);
}

#[test]
fn left_operators_group_from_the_left() {
    assert_eq!(run("8-3-2").unwrap(), 3.0);
    assert_eq!(run("16/4/2").unwrap(), 2.0);
}

#[test]
fn pow_groups_from_the_right() {
    assert_eq!(run("2^3^2").unwrap(), 512.0);
}

#[test]
fn full_precedence_chain() {
    eval("3 + 4 * 2 / ( 1 - 5 ) ^ 2 ^ 3", 3.0001220703125);
}

#[test]
fn nested_function_call() {
    eval("sin ( max ( 2, 3 ) / 3 * 3.14 )", 0.0015926529164868282);
}

#[test]
fn min_and_cos() {
    assert_eq!(run("min(2, 3)").unwrap(), 2.0);
    assert_eq!(run("max(2, 3)").unwrap(), 3.0);
    assert_eq!(run("cos(0)").unwrap(), 1.0);
}

#[test]
fn division_by_zero_is_infinite() {
    assert!(run("1/0").unwrap().is_infinite());
}

#[test]
fn fractional_literal() {
    assert_eq!(run("1.5 * 2").unwrap(), 3.0);
}

#[test]
fn comment_is_ignored() {
    assert_eq!(run("1 + 2 // the rest is a comment").unwrap(), 3.0);
}

#[test]
fn missing_operand_fails() {
    assert!(matches!(run("3 +"), Err(Error::ExpectedNumberOnStack)));
    assert!(matches!(run("sin()"), Err(Error::ExpectedNumberOnStack)));
}

#[test]
fn excess_operand_fails() {
    assert!(matches!(run("3 4"), Err(Error::BadExpression)));
}

#[test]
fn empty_input_fails() {
    assert!(matches!(run(""), Err(Error::BadExpression)));
}

#[test]
fn unknown_function_fails_in_scan() {
    match run("foo(1)") {
        Err(Error::UnknownFunction(name)) => assert_eq!(name, "foo"),
        other => panic!("unexpected {other:?}"),
    }
}

#[test]
fn unmatched_parentheses_fail() {
    assert!(matches!(run("(1 + 2"), Err(Error::MismatchedParentheses)));
    assert!(matches!(run("1 + 2)"), Err(Error::MismatchedParentheses)));
    assert!(matches!(run(")("), Err(Error::MismatchedParentheses)));
}

#[test]
fn conversion_and_evaluation_repeat_exactly() {
    let a = run("3 + 4 * 2 / ( 1 - 5 ) ^ 2 ^ 3").unwrap();
    let b = run("3 + 4 * 2 / ( 1 - 5 ) ^ 2 ^ 3").unwrap();
    assert_eq!(a.to_bits(), b.to_bits());
}

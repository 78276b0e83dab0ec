use exprcalc::error::Error;
use exprcalc::evaluator::{eval_rpn, Expr};
use exprcalc::scanner::{Builtin, OperatorType, Token};

fn num(s: &str) -> Token {
    Token::Number(s.to_string())
}

#[test]
fn operands_keep_their_order() {
    let e = eval_rpn(vec![num("3"), num("4"), Token::Operator(OperatorType::Minus)]).unwrap();
    match e {
        Expr::Binary(OperatorType::Minus, a, b) => {
            assert!(matches!(*a, Expr::Number(ref s) if s == "3"));
            assert!(matches!(*b, Expr::Number(ref s) if s == "4"));
        }
        other => panic!("unexpected {other:?}"),
    }
}

#[test]
fn functions_take_their_arity() {
    let e = eval_rpn(vec![
        num("1"),
        num("2"),
        Token::Function("min".to_string()),
        Token::Function("cos".to_string()),
    ])
    .unwrap();
    match e {
        Expr::Call1(Builtin::Cos, inner) => match *inner {
            Expr::Call2(Builtin::Min, a, b) => {
                assert!(matches!(*a, Expr::Number(ref s) if s == "1"));
                assert!(matches!(*b, Expr::Number(ref s) if s == "2"));
            }
            other => panic!("unexpected {other:?}"),
        },
        other => panic!("unexpected {other:?}"),
    }
}

#[test]
fn structural_tokens_are_ignored() {
    let e = eval_rpn(vec![Token::LeftParen, num("7"), Token::Comma, Token::RightParen]).unwrap();
    assert!(matches!(e, Expr::Number(ref s) if s == "7"));
}

#[test]
fn operator_without_operands() {
    let r = eval_rpn(vec![num("3"), Token::Operator(OperatorType::Plus)]);
    assert!(matches!(r, Err(Error::ExpectedNumberOnStack)));
}

#[test]
fn function_without_operand() {
    let r = eval_rpn(vec![Token::Function("sin".to_string())]);
    assert!(matches!(r, Err(Error::ExpectedNumberOnStack)));
}

#[test]
fn unknown_function_token() {
    match eval_rpn(vec![num("1"), Token::Function("tan".to_string())]) {
        Err(Error::UnknownFunction(name)) => assert_eq!(name, "tan"),
        other => panic!("unexpected {other:?}"),
    }
}

#[test]
fn too_many_values() {
    let r = eval_rpn(vec![num("3"), num("4")]);
    assert!(matches!(r, Err(Error::BadExpression)));
}

#[test]
fn no_values() {
    assert!(matches!(eval_rpn(Vec::new()), Err(Error::BadExpression)));
}

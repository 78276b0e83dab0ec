use exprcalc::error::Error;
use exprcalc::parser::parse_tokens;
use exprcalc::scanner::{scan, OperatorType, Token};

fn postfix(s: &str) -> Result<Vec<Token>, Error> {
    parse_tokens(scan(s).unwrap())
}

fn render(ts: &[Token]) -> String {
    let mut out = String::new();
    for t in ts {
        let piece = match t {
            Token::Number(s) => s.clone(),
            Token::Function(s) => s.clone(),
            Token::Operator(OperatorType::Plus) => "+".to_string(),
            Token::Operator(OperatorType::Minus) => "-".to_string(),
            Token::Operator(OperatorType::Multiply) => "*".to_string(),
            Token::Operator(OperatorType::Divide) => "/".to_string(),
            Token::Operator(OperatorType::Pow) => "^".to_string(),
            Token::Comma => ",".to_string(),
            Token::LeftParen => "(".to_string(),
            Token::RightParen => ")".to_string(),
        };
        if !out.is_empty() {
            out.push(' ');
        }
        out.push_str(&piece);
    }
    out
}

#[test]
fn precedence_orders_postfix() {
    assert_eq!(render(&postfix("3+4*2").unwrap()), "3 4 2 * +");
}

#[test]
fn left_association_in_postfix() {
    assert_eq!(render(&postfix("8-3-2").unwrap()), "8 3 - 2 -");
}

#[test]
fn right_association_in_postfix() {
    assert_eq!(render(&postfix("2^3^2").unwrap()), "2 3 2 ^ ^");
}

#[test]
fn parentheses_group() {
    assert_eq!(render(&postfix("(3+4)*2").unwrap()), "3 4 + 2 *");
}

#[test]
fn full_chain_postfix() {
    assert_eq!(
        render(&postfix("3 + 4 * 2 / ( 1 - 5 ) ^ 2 ^ 3").unwrap()),
        "3 4 2 * 1 5 - 2 3 ^ ^ / +"
    );
}

#[test]
fn function_lands_after_its_arguments() {
    assert_eq!(
        render(&postfix("sin ( max ( 2, 3 ) / 3 * 3.14 )").unwrap()),
        "2 3 3 / 3.14 * max sin"
    );
}

#[test]
fn unclosed_parenthesis() {
    assert!(matches!(postfix("(1+2"), Err(Error::MismatchedParentheses)));
}

#[test]
fn unopened_parenthesis() {
    assert!(matches!(postfix("1+2)"), Err(Error::MismatchedParentheses)));
}

#[test]
fn comma_outside_parentheses() {
    assert!(matches!(postfix("1, 2"), Err(Error::MismatchedParentheses)));
}

#[test]
fn empty_sequence_converts_to_empty() {
    assert!(parse_tokens(Vec::new()).unwrap().is_empty());
}

#[test]
fn conversion_repeats_exactly() {
    let a = render(&postfix("max(1, 2) ^ 3 - 4 / 5").unwrap());
    let b = render(&postfix("max(1, 2) ^ 3 - 4 / 5").unwrap());
    assert_eq!(a, b);
}

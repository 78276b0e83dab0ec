use exprcalc::error::Error;
use exprcalc::scanner::{scan, Builtin, OperatorType, Scanner, Token};

fn number_text(t: &Token) -> &str {
    match t {
        Token::Number(s) => s.as_str(),
        other => panic!("not a number: {other:?}"),
    }
}

#[test]
fn precedence_and_associativity() {
    assert_eq!(OperatorType::Plus.precedence(), 2);
    assert_eq!(OperatorType::Minus.precedence(), 2);
    assert_eq!(OperatorType::Multiply.precedence(), 3);
    assert_eq!(OperatorType::Divide.precedence(), 3);
    assert_eq!(OperatorType::Pow.precedence(), 4);
    assert!(OperatorType::Plus.is_left_associative());
    assert!(OperatorType::Divide.is_left_associative());
    assert!(!OperatorType::Pow.is_left_associative());
}

#[test]
fn builtin_names() {
    assert_eq!(Builtin::from_name("min"), Some(Builtin::Min));
    assert_eq!(Builtin::from_name("max"), Some(Builtin::Max));
    assert_eq!(Builtin::from_name("sin"), Some(Builtin::Sin));
    assert_eq!(Builtin::from_name("cos"), Some(Builtin::Cos));
    assert_eq!(Builtin::from_name("tan"), None);
    assert_eq!(Builtin::from_name("mins"), None);
    assert_eq!(Builtin::from_name(""), None);
}

#[test]
fn integer_literal_is_one_number() {
    let ts = scan("42").unwrap();
    assert_eq!(ts.len(), 1);
    assert_eq!(number_text(&ts[0]), "42");
}

#[test]
fn fractional_literal_is_one_number() {
    let ts = scan("3.25").unwrap();
    assert_eq!(ts.len(), 1);
    assert_eq!(number_text(&ts[0]), "3.25");
}

#[test]
fn dot_without_digit_is_not_part_of_number() {
    assert!(matches!(scan("3."), Err(Error::UnexpectedChar('.'))));
}

#[test]
fn symbols_and_operators() {
    let ts = scan("(+-*/^,)").unwrap();
    assert_eq!(ts.len(), 8);
    assert!(matches!(ts[0], Token::LeftParen));
    assert!(matches!(ts[1], Token::Operator(OperatorType::Plus)));
    assert!(matches!(ts[2], Token::Operator(OperatorType::Minus)));
    assert!(matches!(ts[3], Token::Operator(OperatorType::Multiply)));
    assert!(matches!(ts[4], Token::Operator(OperatorType::Divide)));
    assert!(matches!(ts[5], Token::Operator(OperatorType::Pow)));
    assert!(matches!(ts[6], Token::Comma));
    assert!(matches!(ts[7], Token::RightParen));
}

#[test]
fn blanks_and_comments_are_skipped() {
    let ts = scan(" 1\t+\r\n2 // note\n* 3 //").unwrap();
    assert_eq!(ts.len(), 5);
    assert_eq!(number_text(&ts[0]), "1");
    assert!(matches!(ts[3], Token::Operator(OperatorType::Multiply)));
    assert_eq!(number_text(&ts[4]), "3");
}

#[test]
fn function_keeps_its_name() {
    let ts = scan("max(1,2)").unwrap();
    match &ts[0] {
        Token::Function(name) => assert_eq!(name, "max"),
        other => panic!("unexpected {other:?}"),
    }
}

#[test]
fn identifier_runs_over_digits_and_underscores() {
    match scan("sin_2(1)") {
        Err(Error::UnknownFunction(name)) => assert_eq!(name, "sin_2"),
        other => panic!("unexpected {other:?}"),
    }
}

#[test]
fn unknown_identifier_after_tokens() {
    match scan("1 + foo(1)") {
        Err(Error::UnknownFunction(name)) => assert_eq!(name, "foo"),
        other => panic!("unexpected {other:?}"),
    }
}

#[test]
fn unexpected_character() {
    assert!(matches!(scan("1 $ 2"), Err(Error::UnexpectedChar('$'))));
}

#[test]
fn scanner_object_scans() {
    let mut scanner = Scanner::new("2*x");
    match scanner.scan_tokens() {
        Err(Error::UnknownFunction(name)) => assert_eq!(name, "x"),
        other => panic!("unexpected {other:?}"),
    }
}

#[test]
fn empty_input_has_no_tokens() {
    assert!(scan("").unwrap().is_empty());
    assert!(scan("   // only a comment").unwrap().is_empty());
}

#[test]
fn scan_gives_tokens_in_order() {
    assert_eq!(
        scan("3-4").unwrap(),
        vec![
            Token::Number("3".to_string()),
            Token::Operator(OperatorType::Minus),
            Token::Number("4".to_string()),
        ]
    );
}

#[test]
fn token_equality_compares_payloads() {
    assert_eq!(Token::Number("1".to_string()), Token::Number("1".to_string()));
    assert_ne!(Token::Number("1".to_string()), Token::Number("2".to_string()));
    assert_ne!(Token::Number("1".to_string()), Token::Function("1".to_string()));
    assert_ne!(Token::Operator(OperatorType::Plus), Token::Operator(OperatorType::Minus));
    assert_eq!(Token::Comma, Token::Comma);
    assert_ne!(Token::LeftParen, Token::RightParen);
}

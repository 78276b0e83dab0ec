use exprcalc::error::Error;

#[test]
fn messages() {
    assert_eq!(Error::MismatchedParentheses.message(), "Mismatched parentheses");
    assert_eq!(Error::ExpectedNumberOnStack.message(), "Expected number on stack");
    assert_eq!(Error::BadExpression.message(), "Bad Expression");
    assert_eq!(Error::Custom("oops".to_string()).message(), "oops");
}

#[test]
fn messages_with_payload() {
    assert_eq!(Error::UnknownFunction("foo".to_string()).message(), "Unknown function: foo");
    assert_eq!(Error::UnexpectedChar('$').message(), "Unexpected character: $");
    assert_eq!(Error::ParseNumber("1.2.3".to_string()).message(), "Failed to parse number: 1.2.3");
}

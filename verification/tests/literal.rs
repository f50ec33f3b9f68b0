//! Tests for boolean literal parsing.

use pdf_lex::parser::parse_boolean;

#[test]
fn true_val() {
    let inp = b"true";
    assert_eq!(parse_boolean(inp).unwrap(), true);
}

#[test]
fn false_val() {
    let inp = b"false";
    assert_eq!(parse_boolean(inp).unwrap(), false);
}

#[test]
fn boolean_rejects_other_barewords() {
    assert!(parse_boolean(b"truth").is_err());
    assert!(parse_boolean(b"True").is_err());
    assert!(parse_boolean(b"true false").is_err());
    assert!(parse_boolean(b"").is_err());
}

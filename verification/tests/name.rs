//! Tests for parsing name objects.

use pdf_lex::parser::parse_name;
use pdf_lex::parser::PdfParseError;

#[test]
fn name_empty() {
    let inp = b"/";
    assert_eq!(parse_name(inp).unwrap(), b"".to_vec());
}

#[test]
fn name_smoke() {
    let inp = b"/Name";
    assert_eq!(parse_name(inp).unwrap(), b"Name".to_vec());
}

#[test]
fn escapes() {
    let inp = b"/#2F#2F";
    assert_eq!(parse_name(inp).unwrap(), br"//".to_vec());

    let inp = b"/#20#20";
    assert_eq!(parse_name(inp).unwrap(), b"  ".to_vec());
}

#[test]
fn table4() {
    let inp = b"/Name1";
    assert_eq!(parse_name(inp).unwrap(), b"Name1".to_vec());

    let inp = b"/ASomewhatLongerName";
    assert_eq!(parse_name(inp).unwrap(), b"ASomewhatLongerName".to_vec());

    let inp = b"/A;Name_With-Various***Characters?";
    assert_eq!(parse_name(inp).unwrap(), b"A;Name_With-Various***Characters?".to_vec());

    let inp = b"/1.2";
    assert_eq!(parse_name(inp).unwrap(), b"1.2".to_vec());

    let inp = b"/$$";
    assert_eq!(parse_name(inp).unwrap(), b"$$".to_vec());

    let inp = b"/@pattern";
    assert_eq!(parse_name(inp).unwrap(), b"@pattern".to_vec());

    let inp = b"/.notdef";
    assert_eq!(parse_name(inp).unwrap(), b".notdef".to_vec());

    let inp = b"/Lime#20Green";
    assert_eq!(parse_name(inp).unwrap(), b"Lime Green".to_vec());

    let inp = b"/paired#28#29parentheses";
    assert_eq!(parse_name(inp).unwrap(), b"paired()parentheses".to_vec());

    let inp = b"/The_Key_of_F#23_Minor";
    assert_eq!(parse_name(inp).unwrap(), b"The_Key_of_F#_Minor".to_vec());

    let inp = b"/A#42";
    assert_eq!(parse_name(inp).unwrap(), b"AB".to_vec());
}

#[test]
fn name_bad_hash_escape_fails() {
    assert!(matches!(parse_name(b"/a#zz"), Err(PdfParseError::Syntax)));
    assert!(matches!(parse_name(b"/a#4"), Err(PdfParseError::Syntax)));
    assert!(matches!(parse_name(b"/a#"), Err(PdfParseError::Syntax)));
}

#[test]
fn name_nul_byte_fails() {
    let r = parse_name(b"/a\x00b");
    match r {
        Err(PdfParseError::Lex(pdf_lex::lexer::PdfLexError::UnexpectedChar(at))) => {
            assert_eq!(at, 2);
        }
        other => panic!("expected an unexpected-character failure, got {:?}", other),
    }
}

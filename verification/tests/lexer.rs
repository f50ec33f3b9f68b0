//! Tests of the tokenizer itself: token shapes, spans, the reversal
//! adapter, the guard errors, and the decoders on direct input.

use pdf_lex::lexer::PdfLexError;
use pdf_lex::lexer::PdfLexer;
use pdf_lex::lexer::Tok;
use pdf_lex::parse_pdf;
use pdf_lex::parser_helper::char_to_val;
use pdf_lex::parser_helper::handle_hex_str;
use pdf_lex::parser_helper::handle_name_escapes;
use pdf_lex::parser_helper::handle_raw_str_escapes;

/// Drains a constructed adapter: tokens come newest-first.
fn drain(mut lx: PdfLexer) -> Vec<(usize, Tok, usize)> {
    let mut out = Vec::new();
    while let Some(item) = lx.next() {
        out.push(item.expect("a constructed adapter never yields an error"));
    }
    out
}

#[test]
fn nested_string_round_trip_tokens() {
    let toks = drain(PdfLexer::new(b"(a(b)c)").unwrap());
    assert_eq!(toks.len(), 3);
    assert!(matches!(toks[0], (6, Tok::RawStrDelimClose, 7)));
    match &toks[1] {
        (1, Tok::RawStrContent(c), 6) => assert_eq!(c.as_slice(), b"a(b)c"),
        other => panic!("unexpected content token {:?}", other),
    }
    assert!(matches!(toks[2], (0, Tok::RawStrDelimOpen, 1)));
}

#[test]
fn number_scanning() {
    let cases: [&[u8]; 10] = [
        b"0",
        b"00",
        b"0900",
        b"-0",
        b"0.",
        b".0",
        b"-.12",
        b"+7",
        b"-",
        b"1.2.3",
    ];
    for input in cases {
        let toks = drain(PdfLexer::new(input).unwrap());
        assert_eq!(toks.len(), 1, "input {:?}", input);
        match &toks[0] {
            (0, Tok::Number(text), end) => {
                assert_eq!(text.as_slice(), input);
                assert_eq!(*end, input.len());
            }
            other => panic!("expected a number token for {:?}, got {:?}", input, other),
        }
    }
}

#[test]
fn number_with_embedded_garbage_fails() {
    match PdfLexer::new(b"1a") {
        Err(PdfLexError::UnexpectedChar(at)) => assert_eq!(at, 1),
        other => panic!("expected an unexpected-character failure, got {:?}", other),
    }
}

#[test]
fn unterminated_raw_string_fails() {
    assert!(matches!(PdfLexer::new(b"(abc"), Err(PdfLexError::UnexpectedEOF)));
    assert!(matches!(PdfLexer::new(b"("), Err(PdfLexError::UnexpectedEOF)));
    assert!(matches!(PdfLexer::new(br"(ab\)"), Err(PdfLexError::UnexpectedEOF)));
}

#[test]
fn unterminated_hex_string_fails() {
    assert!(matches!(PdfLexer::new(b"<9"), Err(PdfLexError::UnexpectedEOF)));
    assert!(matches!(PdfLexer::new(b"<"), Err(PdfLexError::UnexpectedEOF)));
}

#[test]
fn hex_string_rejects_non_hex_bytes() {
    match PdfLexer::new(b"<9x>") {
        Err(PdfLexError::UnexpectedChar(at)) => assert_eq!(at, 2),
        other => panic!("expected an unexpected-character failure, got {:?}", other),
    }
}

#[test]
fn long_bareword_fails_with_guard() {
    let input = b"abcdefghijklmnopqrstuvwxyzabcdefghij";
    match PdfLexer::new(input) {
        Err(PdfLexError::TokenTooLong(prefix)) => {
            assert_eq!(prefix.as_slice(), &input[..30]);
        }
        other => panic!("expected a token-too-long failure, got {:?}", other),
    }
    // 29 bytes still scan as one bareword.
    let short = b"abcdefghijklmnopqrstuvwxyzabc";
    let toks = drain(PdfLexer::new(short).unwrap());
    assert_eq!(toks.len(), 1);
    match &toks[0] {
        (0, Tok::UnknownTok(text), 29) => assert_eq!(text.as_slice(), short),
        other => panic!("unexpected token {:?}", other),
    }
}

#[test]
fn reversal_adapter_serves_backwards() {
    let mut lx = PdfLexer::new(b"1 2 3").unwrap();
    let mut texts = Vec::new();
    while let Some(item) = lx.next() {
        match item.unwrap() {
            (_, Tok::Number(text), _) => texts.push(text),
            other => panic!("unexpected token {:?}", other),
        }
    }
    assert_eq!(texts.len(), 3);
    assert_eq!(texts[0].as_slice(), b"3");
    assert_eq!(texts[1].as_slice(), b"2");
    assert_eq!(texts[2].as_slice(), b"1");
    assert!(lx.next().is_none());

    // A lex error anywhere yields no tokens at all.
    assert!(PdfLexer::new(b"1 2 (3").is_err());
}

#[test]
fn comments_and_whitespace_are_transparent() {
    let toks = drain(PdfLexer::new(b"% note\r\n\t 42 % tail").unwrap());
    assert_eq!(toks.len(), 1);
    match &toks[0] {
        (10, Tok::Number(text), 12) => assert_eq!(text.as_slice(), b"42"),
        other => panic!("unexpected token {:?}", other),
    }

    // A carriage return alone also ends a comment.
    let toks = drain(PdfLexer::new(b"%x\rtrue").unwrap());
    assert_eq!(toks.len(), 1);
    assert!(matches!(toks[0], (3, Tok::True, 7)));
}

#[test]
fn keywords_and_barewords() {
    let toks = drain(PdfLexer::new(b"true false truex obj").unwrap());
    assert_eq!(toks.len(), 4);
    match &toks[0] {
        (17, Tok::UnknownTok(text), 20) => assert_eq!(text.as_slice(), b"obj"),
        other => panic!("unexpected token {:?}", other),
    }
    match &toks[1] {
        (11, Tok::UnknownTok(text), 16) => assert_eq!(text.as_slice(), b"truex"),
        other => panic!("unexpected token {:?}", other),
    }
    assert!(matches!(toks[2], (5, Tok::False, 10)));
    assert!(matches!(toks[3], (0, Tok::True, 4)));
}

#[test]
fn stray_close_delimiters_are_tokens() {
    let toks = drain(PdfLexer::new(b") >").unwrap());
    assert_eq!(toks.len(), 2);
    assert!(matches!(toks[0], (2, Tok::HexStrDelimClose, 3)));
    assert!(matches!(toks[1], (0, Tok::RawStrDelimClose, 1)));
}

#[test]
fn spans_are_monotonic() {
    let toks = drain(PdfLexer::new(b"(ab) /N 1 <4F>").unwrap());
    // Reverse back to forward order.
    let forward: Vec<&(usize, Tok, usize)> = toks.iter().rev().collect();
    let mut last_end = 0usize;
    for (start, _, end) in forward {
        assert!(*start >= last_end);
        assert!(start <= end);
        assert!(*end <= 14);
        last_end = *end;
    }
}

#[test]
fn parse_pdf_smoke() {
    parse_pdf(b"(a) <4E6F76> /Name true 1 0 % comment");
    parse_pdf(b"(broken");
}

#[test]
fn decoder_hex_direct() {
    assert_eq!(handle_hex_str(b"901FA3").unwrap(), b"\x90\x1F\xA3".to_vec());
    assert_eq!(handle_hex_str(b"901FA").unwrap(), b"\x90\x1F\xA0".to_vec());
    assert_eq!(handle_hex_str(b"").unwrap(), b"".to_vec());
    assert!(handle_hex_str(b"9z").is_none());
}

#[test]
fn decoder_char_to_val_direct() {
    assert_eq!(char_to_val(b'0'), Some(0));
    assert_eq!(char_to_val(b'9'), Some(9));
    assert_eq!(char_to_val(b'a'), Some(10));
    assert_eq!(char_to_val(b'f'), Some(15));
    assert_eq!(char_to_val(b'A'), Some(10));
    assert_eq!(char_to_val(b'F'), Some(15));
    assert_eq!(char_to_val(b'g'), None);
    assert_eq!(char_to_val(b' '), None);
}

#[test]
fn decoder_raw_direct() {
    assert_eq!(handle_raw_str_escapes(b"a(b)c"), b"a(b)c".to_vec());
    assert_eq!(handle_raw_str_escapes(b"\\)\\("), b")(".to_vec());
    assert_eq!(handle_raw_str_escapes(b"\t\r\n\r\r\n"), b"\t\n\n\n".to_vec());
    assert_eq!(handle_raw_str_escapes(b"\\053"), b"\x2B".to_vec());
}

#[test]
fn decoder_name_direct() {
    assert_eq!(handle_name_escapes(b"/A#42").unwrap(), b"AB".to_vec());
    assert_eq!(handle_name_escapes(b"/").unwrap(), b"".to_vec());
    assert!(handle_name_escapes(b"/#4z").is_none());
}

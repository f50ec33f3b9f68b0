//! Lexical front end for a page-description-language parser.
//!
//! The crate turns a raw byte stream into a sequence of span-tagged tokens
//! (`lexer`), decodes the escape and encoding rules embedded in string and
//! name tokens (`parser_helper`), and offers small entry points that read a
//! single object from a byte slice (`parser`).

use vstd::prelude::*;

pub mod laws;
pub mod lexer;
pub mod parser;
pub mod parser_helper;

verus! {

/// Runs the tokenizer over `input` and discards the outcome; the grammar
/// layer that would consume the token stream is an external collaborator.
pub fn parse_pdf(input: &[u8]) {
    let _ = lexer::PdfLexer::new(input);
}

} // verus!

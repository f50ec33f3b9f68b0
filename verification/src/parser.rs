//! Entry points that read a single object from a byte slice.
//!
//! Each function materializes the complete token stream through the
//! reversal adapter, matches the token pattern of one grammar production,
//! and decodes the content token it carries.  The well-formedness lemmas
//! here connect the scanner to the decoders: every content slice the
//! scanner emits satisfies the decoder's precondition.

use vstd::prelude::*;

use crate::lexer::base_skip;
use crate::lexer::hex_end;
use crate::lexer::is_hex_digit;
use crate::lexer::is_number_start;
use crate::lexer::keyword_end;
use crate::lexer::lemma_base_skip_bounds;
use crate::lexer::lemma_hex_end_bounds;
use crate::lexer::lemma_keyword_end_bounds;
use crate::lexer::lemma_name_end_bounds;
use crate::lexer::lemma_number_end_bounds;
use crate::lexer::lemma_raw_end_bounds;
use crate::lexer::lex_from;
use crate::lexer::name_end;
use crate::lexer::number_end;
use crate::lexer::raw_end;
use crate::lexer::res_cons;
use crate::lexer::PdfLexError;
use crate::lexer::PdfLexer;
use crate::lexer::PdfLexerMode;
use crate::lexer::SpecLexError;
use crate::lexer::SpecSpanned;
use crate::lexer::SpecTok;
use crate::lexer::Tok;
use crate::lexer::BACKSLASH;
use crate::lexer::LPAREN;
use crate::lexer::RPAREN;
use crate::lexer::SLASH;
use crate::parser_helper::handle_hex_str;
use crate::parser_helper::handle_name_escapes;
use crate::parser_helper::handle_raw_str_escapes;
use crate::parser_helper::hex_decode;
use crate::parser_helper::name_decode;
use crate::parser_helper::raw_decode;
use crate::parser_helper::raw_str_closed;

verus! {

/// The token stream of a whole input, from a fresh scanner.
pub open spec fn lexed(s: Seq<u8>) -> Result<Seq<SpecSpanned>, SpecLexError> {
    lex_from(s, 0, PdfLexerMode::Base)
}

/// What the scanner guarantees of every token it emits: raw-string content
/// never ends inside an escape, hex-string content is all hex digits, and a
/// name starts with its `/`.
pub open spec fn tok_wf(t: SpecTok) -> bool {
    match t {
        SpecTok::RawStrContent(c) => raw_str_closed(c),
        SpecTok::HexStrContent(c) => forall|k: int| 0 <= k < c.len() ==> is_hex_digit(c[k]),
        SpecTok::Name(nm) => nm.len() >= 1 && nm[0] == SLASH,
        _ => true,
    }
}

/// The content enclosed by a raw-string terminator never ends inside an
/// escape, because the scanner skips the byte after every `\`.
pub proof fn lemma_raw_end_closed(s: Seq<u8>, i: int, depth: int)
    requires
        raw_end(s, i, depth) is Some,
    ensures
        raw_str_closed(s.subrange(i, raw_end(s, i, depth)->Some_0)),
    decreases s.len() - i,
{
    let e = raw_end(s, i, depth)->Some_0;
    lemma_raw_end_bounds(s, i, depth);
    if s[i] == RPAREN && depth == 1 {
        assert(s.subrange(i, e) =~= Seq::<u8>::empty());
    } else if s[i] == BACKSLASH {
        lemma_raw_end_closed(s, i + 2, depth);
        lemma_raw_end_bounds(s, i + 2, depth);
        let sub = s.subrange(i, e);
        assert(sub[0] == BACKSLASH);
        assert(sub.skip(2) =~= s.subrange(i + 2, e));
    } else {
        let d2: int = if s[i] == RPAREN {
            depth - 1
        } else if s[i] == LPAREN {
            depth + 1
        } else {
            depth
        };
        lemma_raw_end_closed(s, i + 1, d2);
        lemma_raw_end_bounds(s, i + 1, d2);
        let sub = s.subrange(i, e);
        assert(sub[0] != BACKSLASH);
        assert(sub.skip(1) =~= s.subrange(i + 1, e));
    }
}

/// Everything before a hex-string terminator is a hex digit.
pub proof fn lemma_hex_end_hex(s: Seq<u8>, i: int)
    requires
        hex_end(s, i) is Ok,
    ensures
        forall|k: int| i <= k < hex_end(s, i)->Ok_0 ==> is_hex_digit(#[trigger] s[k]),
    decreases s.len() - i,
{
    if 0 <= i && i < s.len() {
        if s[i] != 0x3e {
            lemma_hex_end_hex(s, i + 1);
        }
    }
}

/// A slice of hex digits always decodes.
pub proof fn lemma_all_hex_decodes(s: Seq<u8>)
    requires
        forall|k: int| 0 <= k < s.len() ==> is_hex_digit(#[trigger] s[k]),
    ensures
        hex_decode(s) is Some,
    decreases s.len(),
{
    if s.len() >= 2 {
        assert(s.skip(2).len() == s.len() - 2);
        assert(forall|k: int|
            0 <= k < s.skip(2).len() ==> #[trigger] s.skip(2)[k] == s[k + 2]);
        lemma_all_hex_decodes(s.skip(2));
    }
}

/// Prepending a well-formed token to a stream of well-formed tokens keeps
/// every token well-formed.
proof fn lemma_cons_wf(t: SpecSpanned, r: Result<Seq<SpecSpanned>, SpecLexError>)
    requires
        tok_wf(t.1),
        r matches Ok(rest) ==> forall|k: int| 0 <= k < rest.len() ==> #[trigger] tok_wf(
            rest[k].1,
        ),
        res_cons(t, r) is Ok,
    ensures
        forall|k: int| 0 <= k < res_cons(t, r)->Ok_0.len() ==> #[trigger] tok_wf(
            res_cons(t, r)->Ok_0[k].1,
        ),
{
    let ts = res_cons(t, r)->Ok_0;
    let rest = r->Ok_0;
    assert forall|k: int| 0 <= k < ts.len() implies #[trigger] tok_wf(ts[k].1) by {
        if k == 0 {
            assert(ts[k] == t);
        } else {
            assert(ts[k] == rest[k - 1]);
        }
    }
}

/// Every token of a successful scan is well-formed in the sense of
/// `tok_wf`: what the scanner hands the decoders meets their preconditions.
pub proof fn lemma_lex_from_wf(s: Seq<u8>, pos: int, mode: PdfLexerMode)
    requires
        lex_from(s, pos, mode) is Ok,
    ensures
        forall|k: int| 0 <= k < lex_from(s, pos, mode)->Ok_0.len() ==> #[trigger] tok_wf(
            lex_from(s, pos, mode)->Ok_0[k].1,
        ),
    decreases s.len() - pos, crate::lexer::mode_rank(mode),
{
    match mode {
        PdfLexerMode::Base => {
            lemma_base_skip_bounds(s, pos, false);
            let p = base_skip(s, pos, false);
            if p >= s.len() {
            } else if s[p] == LPAREN {
                lemma_lex_from_wf(s, p + 1, PdfLexerMode::RawString);
                lemma_cons_wf(
                    (p, SpecTok::RawStrDelimOpen, p + 1),
                    lex_from(s, p + 1, PdfLexerMode::RawString),
                );
            } else if s[p] == RPAREN {
                lemma_lex_from_wf(s, p + 1, PdfLexerMode::Base);
                lemma_cons_wf(
                    (p, SpecTok::RawStrDelimClose, p + 1),
                    lex_from(s, p + 1, PdfLexerMode::Base),
                );
            } else if s[p] == 0x3c {
                lemma_lex_from_wf(s, p + 1, PdfLexerMode::HexString);
                lemma_cons_wf(
                    (p, SpecTok::HexStrDelimOpen, p + 1),
                    lex_from(s, p + 1, PdfLexerMode::HexString),
                );
            } else if s[p] == 0x3e {
                lemma_lex_from_wf(s, p + 1, PdfLexerMode::Base);
                lemma_cons_wf(
                    (p, SpecTok::HexStrDelimClose, p + 1),
                    lex_from(s, p + 1, PdfLexerMode::Base),
                );
            } else if s[p] == SLASH {
                let j = name_end(s, p + 1);
                lemma_name_end_bounds(s, p + 1);
                let nm = s.subrange(p, j);
                assert(nm[0] == SLASH);
                lemma_lex_from_wf(s, j, PdfLexerMode::Base);
                lemma_cons_wf((p, SpecTok::Name(nm), j), lex_from(s, j, PdfLexerMode::Base));
            } else if is_number_start(s[p]) {
                let j = number_end(s, p + 1);
                lemma_number_end_bounds(s, p + 1);
                lemma_lex_from_wf(s, j, PdfLexerMode::Base);
                lemma_cons_wf(
                    (p, SpecTok::Number(s.subrange(p, j)), j),
                    lex_from(s, j, PdfLexerMode::Base),
                );
            } else {
                let j = keyword_end(s, p + 1);
                lemma_keyword_end_bounds(s, p + 1);
                lemma_lex_from_wf(s, j, PdfLexerMode::Base);
                lemma_cons_wf(
                    (p, crate::lexer::keyword_tok(s.subrange(p, j)), j),
                    lex_from(s, j, PdfLexerMode::Base),
                );
            }
        },
        PdfLexerMode::RawString => {
            let e = raw_end(s, pos, 1)->Some_0;
            lemma_raw_end_bounds(s, pos, 1);
            lemma_raw_end_closed(s, pos, 1);
            lemma_lex_from_wf(s, e, PdfLexerMode::Base);
            lemma_cons_wf(
                (pos, SpecTok::RawStrContent(s.subrange(pos, e)), e),
                lex_from(s, e, PdfLexerMode::Base),
            );
        },
        PdfLexerMode::HexString => {
            let e = hex_end(s, pos)->Ok_0;
            lemma_hex_end_bounds(s, pos);
            lemma_hex_end_hex(s, pos);
            let c = s.subrange(pos, e);
            assert(forall|k: int| 0 <= k < c.len() ==> #[trigger] c[k] == s[pos + k]);
            lemma_lex_from_wf(s, e, PdfLexerMode::Base);
            lemma_cons_wf(
                (pos, SpecTok::HexStrContent(c), e),
                lex_from(s, e, PdfLexerMode::Base),
            );
        },
    }
}

/// Failure of a single-object read.
#[derive(Clone, Debug)]
pub enum PdfParseError {
    /// Tokenization itself failed; carries the scanner's error.
    Lex(PdfLexError),
    /// The input tokenized, but its tokens do not form the requested
    /// object, or a content token fails to decode.
    Syntax,
}

/// The decoded value of an input that is exactly one raw string:
/// open delimiter, content, close delimiter.
pub open spec fn raw_str_value(s: Seq<u8>) -> Option<Seq<u8>> {
    match lexed(s) {
        Ok(ts) => if ts.len() == 3 && ts[0].1 is RawStrDelimOpen && ts[1].1 is RawStrContent
            && ts[2].1 is RawStrDelimClose {
            Some(raw_decode(ts[1].1->RawStrContent_0))
        } else {
            None
        },
        Err(_) => None,
    }
}

/// The decoded value of an input that is exactly one hex string.
pub open spec fn hex_str_value(s: Seq<u8>) -> Option<Seq<u8>> {
    match lexed(s) {
        Ok(ts) => if ts.len() == 3 && ts[0].1 is HexStrDelimOpen && ts[1].1 is HexStrContent
            && ts[2].1 is HexStrDelimClose {
            hex_decode(ts[1].1->HexStrContent_0)
        } else {
            None
        },
        Err(_) => None,
    }
}

/// The decoded value of an input that is exactly one name.
pub open spec fn name_value(s: Seq<u8>) -> Option<Seq<u8>> {
    match lexed(s) {
        Ok(ts) => if ts.len() == 1 && ts[0].1 is Name {
            name_decode(ts[0].1->Name_0)
        } else {
            None
        },
        Err(_) => None,
    }
}

/// The value of an input that is exactly one boolean keyword.
pub open spec fn boolean_value(s: Seq<u8>) -> Option<bool> {
    match lexed(s) {
        Ok(ts) => if ts.len() == 1 && ts[0].1 is True {
            Some(true)
        } else if ts.len() == 1 && ts[0].1 is False {
            Some(false)
        } else {
            None
        },
        Err(_) => None,
    }
}

/// Reads one raw (literal) string object from `input` and decodes its
/// escapes.  Succeeds exactly when the input lexes to a single balanced
/// string; a lexing failure is reported as `Lex`, any other token shape as
/// `Syntax`.
pub fn parse_raw_str(input: &[u8]) -> (r: Result<Vec<u8>, PdfParseError>)
    ensures
        match r {
            Ok(v) => raw_str_value(input@) == Some(v@),
            Err(e) => {
                &&& raw_str_value(input@) is None
                &&& match e {
                    PdfParseError::Lex(le) => lexed(input@) == Err::<
                        Seq<SpecSpanned>,
                        SpecLexError,
                    >(le@),
                    PdfParseError::Syntax => lexed(input@) is Ok,
                }
            },
        },
{
    let mut lx = match PdfLexer::new(input) {
        Ok(l) => l,
        Err(e) => {
            return Err(PdfParseError::Lex(e));
        },
    };
    let ghost ts = lexed(input@)->Ok_0;
    let t3 = match lx.next() {
        Some(Ok(t)) => t,
        Some(Err(_)) => {
            proof {
                assert(false);
            }
            return Err(PdfParseError::Syntax);
        },
        None => {
            return Err(PdfParseError::Syntax);
        },
    };
    if !matches!(t3.1, Tok::RawStrDelimClose) {
        return Err(PdfParseError::Syntax);
    }
    let t2 = match lx.next() {
        Some(Ok(t)) => t,
        Some(Err(_)) => {
            proof {
                assert(false);
            }
            return Err(PdfParseError::Syntax);
        },
        None => {
            return Err(PdfParseError::Syntax);
        },
    };
    let content = match t2.1 {
        Tok::RawStrContent(cv) => cv,
        _ => {
            return Err(PdfParseError::Syntax);
        },
    };
    let t1 = match lx.next() {
        Some(Ok(t)) => t,
        Some(Err(_)) => {
            proof {
                assert(false);
            }
            return Err(PdfParseError::Syntax);
        },
        None => {
            return Err(PdfParseError::Syntax);
        },
    };
    if !matches!(t1.1, Tok::RawStrDelimOpen) {
        return Err(PdfParseError::Syntax);
    }
    match lx.next() {
        None => {},
        Some(_) => {
            return Err(PdfParseError::Syntax);
        },
    }
    proof {
        assert(ts.len() == 3);
        assert(ts[2].1 is RawStrDelimClose);
        assert(ts[1].1 == SpecTok::RawStrContent(content@));
        assert(ts[0].1 is RawStrDelimOpen);
        lemma_lex_from_wf(input@, 0, PdfLexerMode::Base);
        assert(tok_wf(ts[1].1));
    }
    let decoded = handle_raw_str_escapes(content.as_slice());
    Ok(decoded)
}

/// Reads one hex string object from `input` and decodes its digit pairs.
/// Succeeds exactly when the input lexes to a single hex string; a lexing
/// failure is reported as `Lex`, any other token shape as `Syntax`.
pub fn parse_hex_str(input: &[u8]) -> (r: Result<Vec<u8>, PdfParseError>)
    ensures
        match r {
            Ok(v) => hex_str_value(input@) == Some(v@),
            Err(e) => {
                &&& hex_str_value(input@) is None
                &&& match e {
                    PdfParseError::Lex(le) => lexed(input@) == Err::<
                        Seq<SpecSpanned>,
                        SpecLexError,
                    >(le@),
                    PdfParseError::Syntax => lexed(input@) is Ok,
                }
            },
        },
{
    let mut lx = match PdfLexer::new(input) {
        Ok(l) => l,
        Err(e) => {
            return Err(PdfParseError::Lex(e));
        },
    };
    let ghost ts = lexed(input@)->Ok_0;
    let t3 = match lx.next() {
        Some(Ok(t)) => t,
        Some(Err(_)) => {
            proof {
                assert(false);
            }
            return Err(PdfParseError::Syntax);
        },
        None => {
            return Err(PdfParseError::Syntax);
        },
    };
    if !matches!(t3.1, Tok::HexStrDelimClose) {
        return Err(PdfParseError::Syntax);
    }
    let t2 = match lx.next() {
        Some(Ok(t)) => t,
        Some(Err(_)) => {
            proof {
                assert(false);
            }
            return Err(PdfParseError::Syntax);
        },
        None => {
            return Err(PdfParseError::Syntax);
        },
    };
    let content = match t2.1 {
        Tok::HexStrContent(cv) => cv,
        _ => {
            return Err(PdfParseError::Syntax);
        },
    };
    let t1 = match lx.next() {
        Some(Ok(t)) => t,
        Some(Err(_)) => {
            proof {
                assert(false);
            }
            return Err(PdfParseError::Syntax);
        },
        None => {
            return Err(PdfParseError::Syntax);
        },
    };
    if !matches!(t1.1, Tok::HexStrDelimOpen) {
        return Err(PdfParseError::Syntax);
    }
    match lx.next() {
        None => {},
        Some(_) => {
            return Err(PdfParseError::Syntax);
        },
    }
    proof {
        assert(ts.len() == 3);
        assert(ts[1].1 == SpecTok::HexStrContent(content@));
        lemma_lex_from_wf(input@, 0, PdfLexerMode::Base);
        assert(tok_wf(ts[1].1));
        lemma_all_hex_decodes(content@);
    }
    match handle_hex_str(content.as_slice()) {
        Some(v) => Ok(v),
        None => {
            proof {
                assert(false);
            }
            Err(PdfParseError::Syntax)
        },
    }
}

/// Reads one name object from `input` and decodes its `#xx` escapes; the
/// leading `/` is not part of the value.  Succeeds exactly when the input
/// lexes to a single name whose escapes decode; a lexing failure is
/// reported as `Lex`, any other token shape or a bad escape as `Syntax`.
pub fn parse_name(input: &[u8]) -> (r: Result<Vec<u8>, PdfParseError>)
    ensures
        match r {
            Ok(v) => name_value(input@) == Some(v@),
            Err(e) => {
                &&& name_value(input@) is None
                &&& match e {
                    PdfParseError::Lex(le) => lexed(input@) == Err::<
                        Seq<SpecSpanned>,
                        SpecLexError,
                    >(le@),
                    PdfParseError::Syntax => lexed(input@) is Ok,
                }
            },
        },
{
    let mut lx = match PdfLexer::new(input) {
        Ok(l) => l,
        Err(e) => {
            return Err(PdfParseError::Lex(e));
        },
    };
    let ghost ts = lexed(input@)->Ok_0;
    let t1 = match lx.next() {
        Some(Ok(t)) => t,
        Some(Err(_)) => {
            proof {
                assert(false);
            }
            return Err(PdfParseError::Syntax);
        },
        None => {
            return Err(PdfParseError::Syntax);
        },
    };
    let nm = match t1.1 {
        Tok::Name(nv) => nv,
        _ => {
            return Err(PdfParseError::Syntax);
        },
    };
    match lx.next() {
        None => {},
        Some(_) => {
            return Err(PdfParseError::Syntax);
        },
    }
    proof {
        assert(ts.len() == 1);
        assert(ts[0].1 == SpecTok::Name(nm@));
        lemma_lex_from_wf(input@, 0, PdfLexerMode::Base);
        assert(tok_wf(ts[0].1));
    }
    match handle_name_escapes(nm.as_slice()) {
        Some(v) => Ok(v),
        None => Err(PdfParseError::Syntax),
    }
}

/// Reads one boolean object from `input`: the bareword `true` or `false`
/// and nothing else.
pub fn parse_boolean(input: &[u8]) -> (r: Result<bool, PdfParseError>)
    ensures
        match r {
            Ok(v) => boolean_value(input@) == Some(v),
            Err(e) => {
                &&& boolean_value(input@) is None
                &&& match e {
                    PdfParseError::Lex(le) => lexed(input@) == Err::<
                        Seq<SpecSpanned>,
                        SpecLexError,
                    >(le@),
                    PdfParseError::Syntax => lexed(input@) is Ok,
                }
            },
        },
{
    let mut lx = match PdfLexer::new(input) {
        Ok(l) => l,
        Err(e) => {
            return Err(PdfParseError::Lex(e));
        },
    };
    let ghost ts = lexed(input@)->Ok_0;
    let t1 = match lx.next() {
        Some(Ok(t)) => t,
        Some(Err(_)) => {
            proof {
                assert(false);
            }
            return Err(PdfParseError::Syntax);
        },
        None => {
            return Err(PdfParseError::Syntax);
        },
    };
    let value = match t1.1 {
        Tok::True => true,
        Tok::False => false,
        _ => {
            return Err(PdfParseError::Syntax);
        },
    };
    match lx.next() {
        None => {},
        Some(_) => {
            return Err(PdfParseError::Syntax);
        },
    }
    Ok(value)
}

} // verus!

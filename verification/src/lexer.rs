//! Modal tokenizer for the page-description-language lexical grammar.
//!
//! The scanner makes a single left-to-right pass over a byte slice and emits
//! one span-tagged token per call.  It owns a three-state automaton: `Base`
//! for ordinary scanning, `RawString` while collecting literal-string content
//! between `(` and `)`, and `HexString` while collecting hex-string content
//! between `<` and `>`.  Content-bearing tokens carry the raw, undecoded
//! bytes between the delimiters; decoding is left to the functions in
//! `parser_helper`.
//!
//! The mathematical model is two-layered: `next_step` fixes the outcome of
//! one scanner call — token, successor state, or error — from the current
//! state alone, and `lex_from` iterates it into the complete list of
//! remaining spanned tokens or the first error.

use vstd::prelude::*;
use vstd::slice::slice_to_vec;

verus! {

/// How many bytes to look for a keyword before giving up and issuing a
/// lexer error.
pub const KEYWORD_LOOKAHEAD: usize = 30;

pub const NUL: u8 = 0x00;
pub const TAB: u8 = 0x09;
pub const LF: u8 = 0x0a;
pub const FF: u8 = 0x0c;
pub const CR: u8 = 0x0d;
pub const SP: u8 = 0x20;
pub const PERCENT: u8 = 0x25;
pub const LPAREN: u8 = 0x28;
pub const RPAREN: u8 = 0x29;
pub const PLUS: u8 = 0x2b;
pub const MINUS: u8 = 0x2d;
pub const DOT: u8 = 0x2e;
pub const SLASH: u8 = 0x2f;
pub const LANGLE: u8 = 0x3c;
pub const RANGLE: u8 = 0x3e;
pub const BACKSLASH: u8 = 0x5c;

/// A token over the input bytes.  Content-bearing variants own a copy of the
/// raw sub-slice of the input they were scanned from.
#[derive(Clone, Debug)]
pub enum Tok {
    RawStrDelimOpen,
    RawStrDelimClose,
    RawStrContent(Vec<u8>),
    HexStrDelimOpen,
    HexStrDelimClose,
    HexStrContent(Vec<u8>),
    Name(Vec<u8>),
    True,
    False,
    Number(Vec<u8>),
    UnknownTok(Vec<u8>),
}

/// The mathematical shape of a token: payloads are byte sequences.
pub enum SpecTok {
    RawStrDelimOpen,
    RawStrDelimClose,
    RawStrContent(Seq<u8>),
    HexStrDelimOpen,
    HexStrDelimClose,
    HexStrContent(Seq<u8>),
    Name(Seq<u8>),
    True,
    False,
    Number(Seq<u8>),
    UnknownTok(Seq<u8>),
}

impl View for Tok {
    type V = SpecTok;

    open spec fn view(&self) -> SpecTok {
        match self {
            Tok::RawStrDelimOpen => SpecTok::RawStrDelimOpen,
            Tok::RawStrDelimClose => SpecTok::RawStrDelimClose,
            Tok::RawStrContent(b) => SpecTok::RawStrContent(b@),
            Tok::HexStrDelimOpen => SpecTok::HexStrDelimOpen,
            Tok::HexStrDelimClose => SpecTok::HexStrDelimClose,
            Tok::HexStrContent(b) => SpecTok::HexStrContent(b@),
            Tok::Name(b) => SpecTok::Name(b@),
            Tok::True => SpecTok::True,
            Tok::False => SpecTok::False,
            Tok::Number(b) => SpecTok::Number(b@),
            Tok::UnknownTok(b) => SpecTok::UnknownTok(b@),
        }
    }
}

/// A fatal lexing failure.  Every error aborts the current pass; the scanner
/// never resynchronizes.
#[derive(Clone, Debug)]
pub enum PdfLexError {
    /// A byte was found (at the carried offset) that cannot be lexed into a
    /// token in the current automaton state.
    UnexpectedChar(usize),
    /// The input ended in the middle of a token.
    UnexpectedEOF,
    /// The token being lexed is (much) longer than it should be; carries the
    /// truncated prefix that was scanned before giving up.
    TokenTooLong(Vec<u8>),
}

/// The mathematical shape of a lexing failure.
pub enum SpecLexError {
    UnexpectedChar(int),
    UnexpectedEOF,
    TokenTooLong(Seq<u8>),
}

impl View for PdfLexError {
    type V = SpecLexError;

    open spec fn view(&self) -> SpecLexError {
        match self {
            PdfLexError::UnexpectedChar(i) => SpecLexError::UnexpectedChar(*i as int),
            PdfLexError::UnexpectedEOF => SpecLexError::UnexpectedEOF,
            PdfLexError::TokenTooLong(b) => SpecLexError::TokenTooLong(b@),
        }
    }
}

/// The automaton state of the scanner.
#[derive(Clone, Copy, Debug)]
pub enum PdfLexerMode {
    Base,
    RawString,
    HexString,
}

/// A spanned token: start offset, token, end offset (exclusive).
pub type SpecSpanned = (int, SpecTok, int);

/// View of an exec spanned token.
pub open spec fn spanned_view(t: (usize, Tok, usize)) -> SpecSpanned {
    (t.0 as int, t.1@, t.2 as int)
}

/// ASCII whitespace as the scanner sees it in `Base` mode: NUL, tab, line
/// feed, form feed, carriage return, space.
pub open spec fn is_white(b: u8) -> bool {
    b == 0x00 || b == 0x09 || b == 0x0a || b == 0x0c || b == 0x0d || b == 0x20
}

/// The whitespace bytes that terminate a name: as `is_white` but without NUL,
/// which is illegal inside a name.
pub open spec fn is_name_white(b: u8) -> bool {
    b == 0x09 || b == 0x0a || b == 0x0c || b == 0x0d || b == 0x20
}

pub open spec fn is_digit(b: u8) -> bool {
    0x30 <= b && b <= 0x39
}

pub open spec fn is_hex_digit(b: u8) -> bool {
    (0x30 <= b && b <= 0x39) || (0x61 <= b && b <= 0x66) || (0x41 <= b && b <= 0x46)
}

/// Bytes that begin a number token in `Base` mode.
pub open spec fn is_number_start(b: u8) -> bool {
    is_digit(b) || b == DOT || b == PLUS || b == MINUS
}

/// Bytes accepted inside a number token.
pub open spec fn is_number_body(b: u8) -> bool {
    is_digit(b) || b == DOT
}

/// Position of the next significant byte at or after `i`, skipping
/// whitespace and `%` line comments, or `s.len()` if none remains.
/// `in_comment` says whether position `i` lies inside a comment.
pub open spec fn base_skip(s: Seq<u8>, i: int, in_comment: bool) -> int
    decreases s.len() - i,
{
    if i < 0 || i >= s.len() {
        s.len() as int
    } else if in_comment {
        if s[i] == 0x0a {
            base_skip(s, i + 1, false)
        } else if s[i] == 0x0d {
            if i + 1 < s.len() && s[i + 1] == 0x0a {
                base_skip(s, i + 2, false)
            } else {
                base_skip(s, i + 1, false)
            }
        } else {
            base_skip(s, i + 1, true)
        }
    } else if is_white(s[i]) {
        base_skip(s, i + 1, false)
    } else if s[i] == PERCENT {
        base_skip(s, i + 1, true)
    } else {
        i
    }
}

/// First position at or after `i` that terminates a name (non-NUL whitespace
/// or the NUL byte, which is reported as an error by the caller), or
/// `s.len()`.
pub open spec fn name_end(s: Seq<u8>, i: int) -> int
    decreases s.len() - i,
{
    if i < 0 || i >= s.len() {
        s.len() as int
    } else if is_name_white(s[i]) || s[i] == 0x00 {
        i
    } else {
        name_end(s, i + 1)
    }
}

/// First position at or after `i` whose byte is not a digit or `.`, or
/// `s.len()`.
pub open spec fn number_end(s: Seq<u8>, i: int) -> int
    decreases s.len() - i,
{
    if i < 0 || i >= s.len() {
        s.len() as int
    } else if is_number_body(s[i]) {
        number_end(s, i + 1)
    } else {
        i
    }
}

/// First whitespace position at or after `i`, or `s.len()`.
pub open spec fn keyword_end(s: Seq<u8>, i: int) -> int
    decreases s.len() - i,
{
    if i < 0 || i >= s.len() {
        s.len() as int
    } else if is_white(s[i]) {
        i
    } else {
        keyword_end(s, i + 1)
    }
}

/// Position of the `)` that closes a raw string whose content starts at `i`
/// with `depth` parentheses open, or `None` if the input ends first.  A `\`
/// unconditionally skips the following byte, so an escaped `(` or `)` never
/// perturbs the depth.
pub open spec fn raw_end(s: Seq<u8>, i: int, depth: int) -> Option<int>
    decreases s.len() - i,
{
    if i < 0 || i >= s.len() {
        None
    } else if s[i] == RPAREN {
        if depth == 1 {
            Some(i)
        } else {
            raw_end(s, i + 1, depth - 1)
        }
    } else if s[i] == LPAREN {
        raw_end(s, i + 1, depth + 1)
    } else if s[i] == BACKSLASH {
        if i + 2 <= s.len() {
            raw_end(s, i + 2, depth)
        } else {
            None
        }
    } else {
        raw_end(s, i + 1, depth)
    }
}

/// Position of the `>` that closes a hex string whose content starts at `i`,
/// or the first error: a non-hex byte inside, or the input ending first.
pub open spec fn hex_end(s: Seq<u8>, i: int) -> Result<int, SpecLexError>
    decreases s.len() - i,
{
    if i < 0 || i >= s.len() {
        Err(SpecLexError::UnexpectedEOF)
    } else if s[i] == RANGLE {
        Ok(i)
    } else if is_hex_digit(s[i]) {
        hex_end(s, i + 1)
    } else {
        Err(SpecLexError::UnexpectedChar(i))
    }
}

pub open spec fn true_bytes() -> Seq<u8> {
    seq![0x74, 0x72, 0x75, 0x65]
}

pub open spec fn false_bytes() -> Seq<u8> {
    seq![0x66, 0x61, 0x6c, 0x73, 0x65]
}

/// The token a finished bareword stands for: exactly `true` and `false` are
/// keywords; everything else is an uninterpreted bareword.
pub open spec fn keyword_tok(b: Seq<u8>) -> SpecTok {
    if b == true_bytes() {
        SpecTok::True
    } else if b == false_bytes() {
        SpecTok::False
    } else {
        SpecTok::UnknownTok(b)
    }
}

pub open spec fn mode_rank(mode: PdfLexerMode) -> int {
    match mode {
        PdfLexerMode::Base => 0,
        PdfLexerMode::RawString => 1,
        PdfLexerMode::HexString => 1,
    }
}

/// Prepends a spanned token to a token-list-or-error.
pub open spec fn res_cons(t: SpecSpanned, r: Result<Seq<SpecSpanned>, SpecLexError>) -> Result<
    Seq<SpecSpanned>,
    SpecLexError,
> {
    match r {
        Ok(ts) => Ok(seq![t] + ts),
        Err(e) => Err(e),
    }
}

/// The outcome of one scanner step from a given state: the end of the
/// input, one spanned token together with the successor position and mode,
/// or a fatal error.  This fixes each call's result from the current state
/// alone, whatever follows in the input.
pub enum SpecStep {
    Done,
    Tok(SpecSpanned, int, PdfLexerMode),
    Fail(SpecLexError),
}

/// One step of the tokenizer from `(s, pos, mode)`: in `Base` mode the next
/// significant byte is dispatched on (delimiters are one-byte tokens and
/// never errors; `(` and `<` switch the mode); the string modes emit their
/// content token and return to `Base`, leaving the closing delimiter for
/// the following step.
pub open spec fn next_step(s: Seq<u8>, pos: int, mode: PdfLexerMode) -> SpecStep {
    match mode {
        PdfLexerMode::Base => {
            let p = base_skip(s, pos, false);
            if p >= s.len() {
                SpecStep::Done
            } else if s[p] == LPAREN {
                SpecStep::Tok((p, SpecTok::RawStrDelimOpen, p + 1), p + 1, PdfLexerMode::RawString)
            } else if s[p] == RPAREN {
                SpecStep::Tok((p, SpecTok::RawStrDelimClose, p + 1), p + 1, PdfLexerMode::Base)
            } else if s[p] == LANGLE {
                SpecStep::Tok((p, SpecTok::HexStrDelimOpen, p + 1), p + 1, PdfLexerMode::HexString)
            } else if s[p] == RANGLE {
                SpecStep::Tok((p, SpecTok::HexStrDelimClose, p + 1), p + 1, PdfLexerMode::Base)
            } else if s[p] == SLASH {
                let j = name_end(s, p + 1);
                if j < s.len() && s[j] == 0x00 {
                    SpecStep::Fail(SpecLexError::UnexpectedChar(j))
                } else {
                    SpecStep::Tok((p, SpecTok::Name(s.subrange(p, j)), j), j, PdfLexerMode::Base)
                }
            } else if is_number_start(s[p]) {
                let j = number_end(s, p + 1);
                if j == s.len() || is_white(s[j]) {
                    SpecStep::Tok((p, SpecTok::Number(s.subrange(p, j)), j), j, PdfLexerMode::Base)
                } else {
                    SpecStep::Fail(SpecLexError::UnexpectedChar(j))
                }
            } else {
                let j = keyword_end(s, p + 1);
                if j - p >= KEYWORD_LOOKAHEAD {
                    SpecStep::Fail(SpecLexError::TokenTooLong(s.subrange(p, p + KEYWORD_LOOKAHEAD)))
                } else {
                    SpecStep::Tok((p, keyword_tok(s.subrange(p, j)), j), j, PdfLexerMode::Base)
                }
            }
        },
        PdfLexerMode::RawString => {
            match raw_end(s, pos, 1) {
                None => SpecStep::Fail(SpecLexError::UnexpectedEOF),
                Some(e) => SpecStep::Tok(
                    (pos, SpecTok::RawStrContent(s.subrange(pos, e)), e),
                    e,
                    PdfLexerMode::Base,
                ),
            }
        },
        PdfLexerMode::HexString => {
            match hex_end(s, pos) {
                Err(e) => SpecStep::Fail(e),
                Ok(e) => SpecStep::Tok(
                    (pos, SpecTok::HexStrContent(s.subrange(pos, e)), e),
                    e,
                    PdfLexerMode::Base,
                ),
            }
        },
    }
}

/// The complete token stream that scanning `s` from position `pos` in state
/// `mode` produces, or the first error: `next_step` applied until the input
/// is exhausted or a step fails.  The forward scanner refines this one
/// token at a time, and the eager buffer materializes it in one call.
pub open spec fn lex_from(s: Seq<u8>, pos: int, mode: PdfLexerMode) -> Result<
    Seq<SpecSpanned>,
    SpecLexError,
>
    decreases s.len() - pos, mode_rank(mode),
    via lex_from_decreases
{
    match next_step(s, pos, mode) {
        SpecStep::Done => Ok(Seq::empty()),
        SpecStep::Fail(e) => Err(e),
        SpecStep::Tok(t, pos2, mode2) => res_cons(t, lex_from(s, pos2, mode2)),
    }
}

#[via_fn]
proof fn lex_from_decreases(s: Seq<u8>, pos: int, mode: PdfLexerMode) {
    lemma_base_skip_bounds(s, pos, false);
    let p = base_skip(s, pos, false);
    lemma_name_end_bounds(s, p + 1);
    lemma_number_end_bounds(s, p + 1);
    lemma_keyword_end_bounds(s, p + 1);
    lemma_raw_end_bounds(s, pos, 1);
    lemma_hex_end_bounds(s, pos);
}

/// `base_skip` never moves backwards and never runs past the end.
pub proof fn lemma_base_skip_bounds(s: Seq<u8>, i: int, in_comment: bool)
    ensures
        base_skip(s, i, in_comment) <= s.len(),
        i <= s.len() ==> i <= base_skip(s, i, in_comment),
    decreases s.len() - i,
{
    if 0 <= i && i < s.len() {
        lemma_base_skip_bounds(s, i + 1, false);
        lemma_base_skip_bounds(s, i + 1, true);
        if i + 2 <= s.len() {
            lemma_base_skip_bounds(s, i + 2, false);
        }
    }
}

/// `name_end` stays within `[i, s.len()]`.
pub proof fn lemma_name_end_bounds(s: Seq<u8>, i: int)
    ensures
        name_end(s, i) <= s.len(),
        i <= s.len() ==> i <= name_end(s, i),
    decreases s.len() - i,
{
    if 0 <= i && i < s.len() {
        lemma_name_end_bounds(s, i + 1);
    }
}

/// `number_end` stays within `[i, s.len()]`.
pub proof fn lemma_number_end_bounds(s: Seq<u8>, i: int)
    ensures
        number_end(s, i) <= s.len(),
        i <= s.len() ==> i <= number_end(s, i),
    decreases s.len() - i,
{
    if 0 <= i && i < s.len() {
        lemma_number_end_bounds(s, i + 1);
    }
}

/// `keyword_end` stays within `[i, s.len()]`.
pub proof fn lemma_keyword_end_bounds(s: Seq<u8>, i: int)
    ensures
        keyword_end(s, i) <= s.len(),
        i <= s.len() ==> i <= keyword_end(s, i),
    decreases s.len() - i,
{
    if 0 <= i && i < s.len() {
        lemma_keyword_end_bounds(s, i + 1);
    }
}

/// A found raw-string terminator lies within the input, at or after the
/// content start, and is the byte `)`.
pub proof fn lemma_raw_end_bounds(s: Seq<u8>, i: int, depth: int)
    ensures
        raw_end(s, i, depth) matches Some(e) ==> i <= e < s.len() && s[e] == RPAREN,
    decreases s.len() - i,
{
    if 0 <= i && i < s.len() {
        lemma_raw_end_bounds(s, i + 1, depth - 1);
        lemma_raw_end_bounds(s, i + 1, depth + 1);
        lemma_raw_end_bounds(s, i + 1, depth);
        if i + 2 <= s.len() {
            lemma_raw_end_bounds(s, i + 2, depth);
        }
    }
}

/// A found hex-string terminator lies within the input, at or after the
/// content start, and is the byte `>`.
pub proof fn lemma_hex_end_bounds(s: Seq<u8>, i: int)
    ensures
        hex_end(s, i) matches Ok(e) ==> i <= e < s.len() && s[e] == RANGLE,
    decreases s.len() - i,
{
    if 0 <= i && i < s.len() {
        lemma_hex_end_bounds(s, i + 1);
    }
}

/// Extends an already-collected token prefix with a stream-or-error tail.
pub open spec fn res_append(ts: Seq<SpecSpanned>, r: Result<Seq<SpecSpanned>, SpecLexError>) -> Result<
    Seq<SpecSpanned>,
    SpecLexError,
> {
    match r {
        Ok(rest) => Ok(ts + rest),
        Err(e) => Err(e),
    }
}

/// Spanned-token view of an exec token vector.
pub open spec fn spanned_seq_view(v: Seq<(usize, Tok, usize)>) -> Seq<SpecSpanned> {
    v.map(|k: int, t: (usize, Tok, usize)| spanned_view(t))
}

/// Copies `v[i..j]` into a fresh vector.
fn copy_range(v: &Vec<u8>, i: usize, j: usize) -> (out: Vec<u8>)
    requires
        i <= j <= v@.len(),
    ensures
        out@ == v@.subrange(i as int, j as int),
{
    let mut out: Vec<u8> = Vec::new();
    let mut k: usize = i;
    assert(out@ =~= v@.subrange(i as int, i as int));
    while k < j
        invariant
            i <= k <= j <= v@.len(),
            out@ == v@.subrange(i as int, k as int),
        decreases j - k,
    {
        out.push(v[k]);
        k = k + 1;
        assert(out@ =~= v@.subrange(i as int, k as int));
    }
    out
}

fn white(b: u8) -> (r: bool)
    ensures
        r == is_white(b),
{
    b == NUL || b == TAB || b == LF || b == FF || b == CR || b == SP
}

fn hex_digit(b: u8) -> (r: bool)
    ensures
        r == is_hex_digit(b),
{
    (0x30 <= b && b <= 0x39) || (0x61 <= b && b <= 0x66) || (0x41 <= b && b <= 0x46)
}

/// Maps a finished bareword to its token: exactly `true` and `false` are
/// recognized keywords.
fn keyword_token(bytes: Vec<u8>) -> (t: Tok)
    ensures
        t@ == keyword_tok(bytes@),
{
    if bytes.len() == 4 && bytes[0] == 0x74 && bytes[1] == 0x72 && bytes[2] == 0x75 && bytes[3]
        == 0x65 {
        proof {
            assert(bytes@ =~= true_bytes());
        }
        Tok::True
    } else if bytes.len() == 5 && bytes[0] == 0x66 && bytes[1] == 0x61 && bytes[2] == 0x6c
        && bytes[3] == 0x73 && bytes[4] == 0x65 {
        proof {
            assert(bytes@ =~= false_bytes());
        }
        Tok::False
    } else {
        proof {
            if bytes@ == true_bytes() {
                assert(bytes@.len() == 4 && bytes@[0] == 0x74 && bytes@[1] == 0x72 && bytes@[2]
                    == 0x75 && bytes@[3] == 0x65);
            }
            if bytes@ == false_bytes() {
                assert(bytes@.len() == 5 && bytes@[0] == 0x66 && bytes@[1] == 0x61 && bytes@[2]
                    == 0x6c && bytes@[3] == 0x73 && bytes@[4] == 0x65);
            }
        }
        Tok::UnknownTok(bytes)
    }
}

/// The forward scanner: a single-pass, pull-based tokenizer.  It owns a copy
/// of the input bytes, the current position, and the automaton state; the
/// state is never exposed for outside mutation.
pub struct PdfLexerForwards {
    input: Vec<u8>,
    pos: usize,
    mode: PdfLexerMode,
}

impl PdfLexerForwards {
    /// The bytes being scanned.
    pub closed spec fn input_seq(&self) -> Seq<u8> {
        self.input@
    }

    /// The current scan position.
    pub closed spec fn spec_pos(&self) -> int {
        self.pos as int
    }

    /// The current automaton state.
    pub closed spec fn spec_mode(&self) -> PdfLexerMode {
        self.mode
    }

    /// The scan position never runs past the end of the input.
    pub open spec fn wf(&self) -> bool {
        0 <= self.spec_pos() <= self.input_seq().len()
    }

    /// The token stream still to be produced from the current state.
    pub open spec fn remaining(&self) -> Result<Seq<SpecSpanned>, SpecLexError> {
        lex_from(self.input_seq(), self.spec_pos(), self.spec_mode())
    }

    /// Strictly decreases with every produced token; bounds the scan.
    pub open spec fn measure(&self) -> int {
        2 * (self.input_seq().len() - self.spec_pos()) + mode_rank(self.spec_mode())
    }

    pub fn new(input: &[u8]) -> (r: PdfLexerForwards)
        ensures
            r.input_seq() == input@,
            r.spec_pos() == 0,
            r.spec_mode() is Base,
            r.wf(),
    {
        PdfLexerForwards { input: slice_to_vec(input), pos: 0, mode: PdfLexerMode::Base }
    }

    /// Collects the content of a raw string entered just after its `(`:
    /// tracks the parenthesis depth, skips the byte after every `\`, and
    /// emits the undecoded content slice when the matching `)` is reached.
    fn lex_raw_string(&mut self) -> (r: Option<Result<(usize, Tok, usize), PdfLexError>>)
        requires
            old(self).wf(),
            old(self).spec_mode() is RawString,
        ensures
            final(self).wf(),
            final(self).input_seq() == old(self).input_seq(),
            ({
                let s = old(self).input_seq();
                let start = old(self).spec_pos();
                match raw_end(s, start, 1) {
                    Some(e) => {
                        &&& r matches Some(Ok(t)) && spanned_view(t) == (
                            start,
                            SpecTok::RawStrContent(s.subrange(start, e)),
                            e,
                        )
                        &&& final(self).spec_pos() == e
                        &&& final(self).spec_mode() is Base
                    },
                    None => r matches Some(Err(x)) && x@ is UnexpectedEOF,
                }
            }),
    {
        let ghost s = self.input@;
        let start = self.pos;
        let mut i: usize = self.pos;
        // Wide enough that the nesting counter can never overflow: it is
        // bounded by the number of bytes scanned so far.
        let mut depth: u128 = 1;
        loop
            invariant
                s == old(self).input_seq(),
                start as int == old(self).spec_pos(),
                self.input@ == s,
                self.pos == start,
                self.spec_mode() is RawString,
                start <= i <= s.len(),
                1 <= depth <= i - start + 1,
                raw_end(s, start as int, 1) == raw_end(s, i as int, depth as int),
            decreases s.len() - i,
        {
            if i >= self.input.len() {
                return Some(Err(PdfLexError::UnexpectedEOF));
            }
            let b = self.input[i];
            if b == RPAREN {
                if depth == 1 {
                    let tok = Tok::RawStrContent(copy_range(&self.input, start, i));
                    self.pos = i;
                    self.mode = PdfLexerMode::Base;
                    return Some(Ok((start, tok, i)));
                } else {
                    depth = depth - 1;
                    i = i + 1;
                }
            } else if b == LPAREN {
                depth = depth + 1;
                i = i + 1;
            } else if b == BACKSLASH {
                if i + 1 < self.input.len() {
                    i = i + 2;
                } else {
                    return Some(Err(PdfLexError::UnexpectedEOF));
                }
            } else {
                i = i + 1;
            }
        }
    }

    /// Collects the content of a hex string entered just after its `<`: only
    /// hex digits may appear before the closing `>`.
    fn lex_hex_string(&mut self) -> (r: Option<Result<(usize, Tok, usize), PdfLexError>>)
        requires
            old(self).wf(),
            old(self).spec_mode() is HexString,
        ensures
            final(self).wf(),
            final(self).input_seq() == old(self).input_seq(),
            ({
                let s = old(self).input_seq();
                let start = old(self).spec_pos();
                match hex_end(s, start) {
                    Ok(e) => {
                        &&& r matches Some(Ok(t)) && spanned_view(t) == (
                            start,
                            SpecTok::HexStrContent(s.subrange(start, e)),
                            e,
                        )
                        &&& final(self).spec_pos() == e
                        &&& final(self).spec_mode() is Base
                    },
                    Err(er) => r matches Some(Err(x)) && x@ == er,
                }
            }),
    {
        let ghost s = self.input@;
        let start = self.pos;
        let mut i: usize = self.pos;
        loop
            invariant
                s == old(self).input_seq(),
                start as int == old(self).spec_pos(),
                self.input@ == s,
                self.pos == start,
                self.spec_mode() is HexString,
                start <= i <= s.len(),
                hex_end(s, start as int) == hex_end(s, i as int),
            decreases s.len() - i,
        {
            if i >= self.input.len() {
                return Some(Err(PdfLexError::UnexpectedEOF));
            }
            let b = self.input[i];
            if b == RANGLE {
                let tok = Tok::HexStrContent(copy_range(&self.input, start, i));
                self.pos = i;
                self.mode = PdfLexerMode::Base;
                return Some(Ok((start, tok, i)));
            } else if hex_digit(b) {
                i = i + 1;
            } else {
                return Some(Err(PdfLexError::UnexpectedChar(i)));
            }
        }
    }

    /// Scans a name whose `/` sits at `start`: everything up to the next
    /// non-NUL whitespace byte (or the end of input) belongs to the name; a
    /// NUL byte before the terminator is a fatal error.
    fn lex_name(&mut self, start: usize) -> (r: Option<Result<(usize, Tok, usize), PdfLexError>>)
        requires
            old(self).wf(),
            old(self).spec_mode() is Base,
            start < old(self).input_seq().len(),
            old(self).spec_pos() == start + 1,
        ensures
            final(self).wf(),
            final(self).input_seq() == old(self).input_seq(),
            final(self).spec_mode() is Base,
            ({
                let s = old(self).input_seq();
                let j = name_end(s, start + 1);
                if j < s.len() && s[j] == NUL {
                    r matches Some(Err(x)) && x@ == SpecLexError::UnexpectedChar(j)
                } else {
                    &&& r matches Some(Ok(t)) && spanned_view(t) == (
                        start as int,
                        SpecTok::Name(s.subrange(start as int, j)),
                        j,
                    )
                    &&& final(self).spec_pos() == j
                }
            }),
    {
        let ghost s = self.input@;
        let mut j: usize = self.pos;
        loop
            invariant
                s == old(self).input_seq(),
                start + 1 == old(self).spec_pos(),
                self.input@ == s,
                self.spec_mode() is Base,
                self.pos == start + 1,
                start + 1 <= j <= s.len(),
                name_end(s, start + 1) == name_end(s, j as int),
            decreases s.len() - j,
        {
            if j >= self.input.len() {
                let tok = Tok::Name(copy_range(&self.input, start, j));
                self.pos = j;
                return Some(Ok((start, tok, j)));
            }
            let b = self.input[j];
            if b == TAB || b == LF || b == FF || b == CR || b == SP {
                let tok = Tok::Name(copy_range(&self.input, start, j));
                self.pos = j;
                return Some(Ok((start, tok, j)));
            } else if b == NUL {
                return Some(Err(PdfLexError::UnexpectedChar(j)));
            } else {
                j = j + 1;
            }
        }
    }

    /// Scans a number whose sign, digit or dot sits at `start`: digits and
    /// dots are consumed; whitespace or the end of input closes the token;
    /// anything else is a fatal error.
    fn lex_number(&mut self, start: usize) -> (r: Option<Result<(usize, Tok, usize), PdfLexError>>)
        requires
            old(self).wf(),
            old(self).spec_mode() is Base,
            start < old(self).input_seq().len(),
            old(self).spec_pos() == start + 1,
        ensures
            final(self).wf(),
            final(self).input_seq() == old(self).input_seq(),
            final(self).spec_mode() is Base,
            ({
                let s = old(self).input_seq();
                let j = number_end(s, start + 1);
                if j == s.len() || is_white(s[j]) {
                    &&& r matches Some(Ok(t)) && spanned_view(t) == (
                        start as int,
                        SpecTok::Number(s.subrange(start as int, j)),
                        j,
                    )
                    &&& final(self).spec_pos() == j
                } else {
                    r matches Some(Err(x)) && x@ == SpecLexError::UnexpectedChar(j)
                }
            }),
    {
        let ghost s = self.input@;
        let mut j: usize = self.pos;
        loop
            invariant
                s == old(self).input_seq(),
                start + 1 == old(self).spec_pos(),
                self.input@ == s,
                self.spec_mode() is Base,
                self.pos == start + 1,
                start + 1 <= j <= s.len(),
                number_end(s, start + 1) == number_end(s, j as int),
            decreases s.len() - j,
        {
            if j >= self.input.len() {
                let tok = Tok::Number(copy_range(&self.input, start, j));
                self.pos = j;
                return Some(Ok((start, tok, j)));
            }
            let b = self.input[j];
            if (0x30 <= b && b <= 0x39) || b == DOT {
                j = j + 1;
            } else if white(b) {
                let tok = Tok::Number(copy_range(&self.input, start, j));
                self.pos = j;
                return Some(Ok((start, tok, j)));
            } else {
                return Some(Err(PdfLexError::UnexpectedChar(j)));
            }
        }
    }

    /// Scans a bareword whose first byte sits at `start`, capped at
    /// `KEYWORD_LOOKAHEAD` bytes as a guard against unbounded scanning.
    fn lex_keyword(&mut self, start: usize) -> (r: Option<Result<(usize, Tok, usize), PdfLexError>>)
        requires
            old(self).wf(),
            old(self).spec_mode() is Base,
            start < old(self).input_seq().len(),
            old(self).spec_pos() == start + 1,
        ensures
            final(self).wf(),
            final(self).input_seq() == old(self).input_seq(),
            final(self).spec_mode() is Base,
            ({
                let s = old(self).input_seq();
                let j = keyword_end(s, start + 1);
                if j - start >= KEYWORD_LOOKAHEAD {
                    r matches Some(Err(x)) && x@ == SpecLexError::TokenTooLong(
                        s.subrange(start as int, start + KEYWORD_LOOKAHEAD),
                    )
                } else {
                    &&& r matches Some(Ok(t)) && spanned_view(t) == (
                        start as int,
                        keyword_tok(s.subrange(start as int, j)),
                        j,
                    )
                    &&& final(self).spec_pos() == j
                }
            }),
    {
        let ghost s = self.input@;
        let mut j: usize = self.pos;
        loop
            invariant
                s == old(self).input_seq(),
                start + 1 == old(self).spec_pos(),
                self.input@ == s,
                self.spec_mode() is Base,
                self.pos == start + 1,
                start + 1 <= j <= s.len(),
                j - start < KEYWORD_LOOKAHEAD,
                keyword_end(s, start + 1) == keyword_end(s, j as int),
            decreases s.len() - j,
        {
            if j >= self.input.len() {
                let tok = keyword_token(copy_range(&self.input, start, j));
                self.pos = j;
                return Some(Ok((start, tok, j)));
            }
            let b = self.input[j];
            if white(b) {
                let tok = keyword_token(copy_range(&self.input, start, j));
                self.pos = j;
                return Some(Ok((start, tok, j)));
            }
            j = j + 1;
            if j - start == KEYWORD_LOOKAHEAD {
                proof {
                    lemma_keyword_end_bounds(s, j as int);
                }
                return Some(Err(PdfLexError::TokenTooLong(copy_range(&self.input, start, j))));
            }
        }
    }

    /// Produces the next spanned token, `None` at the end of the input, or
    /// the first fatal error.  In `Base` mode whitespace and `%` comments are
    /// transparent; delimiters, names, numbers and barewords dispatch to the
    /// scanners above; the string modes collect content.
    ///
    /// The result of each call is fixed by `next_step` from the current
    /// state alone, whatever follows in the input; the stream-level clause
    /// over `remaining` follows from it and drives the eager buffer.
    pub fn next(&mut self) -> (r: Option<Result<(usize, Tok, usize), PdfLexError>>)
        requires
            old(self).wf(),
        ensures
            final(self).wf(),
            final(self).input_seq() == old(self).input_seq(),
            ({
                let step = next_step(
                    old(self).input_seq(),
                    old(self).spec_pos(),
                    old(self).spec_mode(),
                );
                match r {
                    None => {
                        &&& step is Done
                        &&& final(self).spec_pos() == old(self).input_seq().len()
                        &&& final(self).spec_mode() == old(self).spec_mode()
                    },
                    Some(res) => match res {
                        Ok(t) => {
                            &&& step matches SpecStep::Tok(st, pos2, mode2)
                            &&& spanned_view(t) == st
                            &&& final(self).spec_pos() == pos2
                            &&& final(self).spec_mode() == mode2
                            &&& final(self).measure() < old(self).measure()
                        },
                        Err(e) => step matches SpecStep::Fail(se) && e@ == se,
                    },
                }
            }),
            match r {
                None => old(self).remaining() == Ok::<Seq<SpecSpanned>, SpecLexError>(Seq::empty()),
                Some(res) => match res {
                    Ok(t) => old(self).remaining() == res_cons(
                        spanned_view(t),
                        final(self).remaining(),
                    ),
                    Err(e) => old(self).remaining() == Err::<Seq<SpecSpanned>, SpecLexError>(e@),
                },
            },
    {
        let ghost s = self.input@;
        let ghost pos0 = self.pos as int;
        match self.mode {
            PdfLexerMode::RawString => {
                proof {
                    lemma_raw_end_bounds(s, pos0, 1);
                }
                self.lex_raw_string()
            },
            PdfLexerMode::HexString => {
                proof {
                    lemma_hex_end_bounds(s, pos0);
                }
                self.lex_hex_string()
            },
            PdfLexerMode::Base => {
                let mut in_comment = false;
                loop
                    invariant
                        s == old(self).input_seq(),
                        pos0 == old(self).spec_pos(),
                        old(self).spec_mode() is Base,
                        self.input@ == s,
                        self.spec_mode() is Base,
                        pos0 <= self.pos as int <= s.len(),
                        base_skip(s, pos0, false) == base_skip(s, self.pos as int, in_comment),
                    ensures
                        self.input@ == s,
                        self.spec_mode() is Base,
                        pos0 <= self.pos as int,
                        (self.pos as int) < s.len(),
                        base_skip(s, pos0, false) == self.pos as int,
                    decreases s.len() - self.pos,
                {
                    if self.pos >= self.input.len() {
                        return None;
                    }
                    let b = self.input[self.pos];
                    if in_comment {
                        if b == LF {
                            self.pos = self.pos + 1;
                            in_comment = false;
                        } else if b == CR {
                            if self.pos + 1 < self.input.len() && self.input[self.pos + 1] == LF {
                                self.pos = self.pos + 2;
                            } else {
                                self.pos = self.pos + 1;
                            }
                            in_comment = false;
                        } else {
                            self.pos = self.pos + 1;
                        }
                    } else if white(b) {
                        self.pos = self.pos + 1;
                    } else if b == PERCENT {
                        self.pos = self.pos + 1;
                        in_comment = true;
                    } else {
                        break;
                    }
                }
                let p = self.pos;
                let n = self.input.len();
                assert(p < n);
                let b = self.input[p];
                if b == LPAREN {
                    self.pos = p + 1;
                    self.mode = PdfLexerMode::RawString;
                    Some(Ok((p, Tok::RawStrDelimOpen, p + 1)))
                } else if b == RPAREN {
                    self.pos = p + 1;
                    Some(Ok((p, Tok::RawStrDelimClose, p + 1)))
                } else if b == LANGLE {
                    self.pos = p + 1;
                    self.mode = PdfLexerMode::HexString;
                    Some(Ok((p, Tok::HexStrDelimOpen, p + 1)))
                } else if b == RANGLE {
                    self.pos = p + 1;
                    Some(Ok((p, Tok::HexStrDelimClose, p + 1)))
                } else if b == SLASH {
                    self.pos = p + 1;
                    proof {
                        lemma_name_end_bounds(s, p + 1);
                    }
                    self.lex_name(p)
                } else if (0x30 <= b && b <= 0x39) || b == DOT || b == PLUS || b == MINUS {
                    self.pos = p + 1;
                    proof {
                        lemma_number_end_bounds(s, p + 1);
                    }
                    self.lex_number(p)
                } else {
                    self.pos = p + 1;
                    proof {
                        lemma_keyword_end_bounds(s, p + 1);
                    }
                    self.lex_keyword(p)
                }
            },
        }
    }
}

/// The eager token buffer and reversal adapter: it drains the forward
/// scanner to completion — the first error discards everything — and then
/// serves the collected tokens back-to-front, matching the grammar's
/// expectation of a reverse token stream.
#[derive(Debug)]
pub struct PdfLexer {
    toks: Vec<(usize, Tok, usize)>,
}

impl PdfLexer {
    /// The tokens still to be served, in forward (scan) order; `next` serves
    /// them from the back.
    pub closed spec fn toks_seq(&self) -> Seq<SpecSpanned> {
        spanned_seq_view(self.toks@)
    }

    /// Runs the forward scanner over all of `input`.  On success the buffer
    /// holds exactly the token stream of the input; on failure the first
    /// error is returned and no tokens are delivered at all.
    pub fn new(input: &[u8]) -> (r: Result<PdfLexer, PdfLexError>)
        ensures
            match r {
                Ok(l) => lex_from(input@, 0, PdfLexerMode::Base) == Ok::<
                    Seq<SpecSpanned>,
                    SpecLexError,
                >(l.toks_seq()),
                Err(e) => lex_from(input@, 0, PdfLexerMode::Base) == Err::<
                    Seq<SpecSpanned>,
                    SpecLexError,
                >(e@),
            },
    {
        let mut fw = PdfLexerForwards::new(input);
        let mut toks: Vec<(usize, Tok, usize)> = Vec::new();
        proof {
            assert(spanned_seq_view(toks@) =~= Seq::<SpecSpanned>::empty());
            if lex_from(input@, 0, PdfLexerMode::Base) is Ok {
                let all = lex_from(input@, 0, PdfLexerMode::Base)->Ok_0;
                assert(Seq::<SpecSpanned>::empty() + all =~= all);
            }
        }
        loop
            invariant
                fw.wf(),
                fw.input_seq() == input@,
                lex_from(input@, 0, PdfLexerMode::Base) == res_append(
                    spanned_seq_view(toks@),
                    fw.remaining(),
                ),
            decreases fw.measure(),
        {
            let step = fw.next();
            match step {
                None => {
                    proof {
                        assert(spanned_seq_view(toks@) + Seq::<SpecSpanned>::empty()
                            =~= spanned_seq_view(toks@));
                    }
                    return Ok(PdfLexer { toks });
                },
                Some(Err(e)) => {
                    return Err(e);
                },
                Some(Ok(t)) => {
                    let ghost before = spanned_seq_view(toks@);
                    toks.push(t);
                    proof {
                        assert(spanned_seq_view(toks@) =~= before.push(spanned_view(t)));
                        if fw.remaining() is Ok {
                            let rest = fw.remaining()->Ok_0;
                            assert(before + (seq![spanned_view(t)] + rest) =~= before.push(
                                spanned_view(t),
                            ) + rest);
                        }
                    }
                },
            }
        }
    }

    /// Serves the buffered tokens newest-first: each call yields the last
    /// remaining token of the forward stream and removes it; a constructed
    /// adapter never yields an error.
    pub fn next(&mut self) -> (r: Option<Result<(usize, Tok, usize), PdfLexError>>)
        ensures
            match r {
                None => old(self).toks_seq().len() == 0 && final(self).toks_seq() == old(
                    self,
                ).toks_seq(),
                Some(res) => {
                    &&& res matches Ok(t)
                    &&& old(self).toks_seq().len() > 0
                    &&& spanned_view(t) == old(self).toks_seq().last()
                    &&& final(self).toks_seq() == old(self).toks_seq().drop_last()
                },
            },
    {
        let ghost before = spanned_seq_view(self.toks@);
        let popped = self.toks.pop();
        match popped {
            None => None,
            Some(t) => {
                proof {
                    assert(spanned_seq_view(self.toks@) =~= before.drop_last());
                }
                Some(Ok(t))
            },
        }
    }
}

/// Spans are well-formed and ordered: every token's span lies within
/// `[lo, n]` with its start at or before its end, and successive tokens
/// never overlap.
pub open spec fn spans_chained(ts: Seq<SpecSpanned>, lo: int, n: int) -> bool {
    &&& forall|k: int|
        0 <= k < ts.len() ==> lo <= (#[trigger] ts[k]).0 && ts[k].0 <= ts[k].2 && ts[k].2 <= n
    &&& forall|k: int| 0 <= k && k + 1 < ts.len() ==> (#[trigger] ts[k]).2 <= ts[k + 1].0
}

proof fn lemma_cons_spans(
    t: SpecSpanned,
    r: Result<Seq<SpecSpanned>, SpecLexError>,
    lo: int,
    n: int,
)
    requires
        lo <= t.0 <= t.2 <= n,
        r matches Ok(rest) ==> spans_chained(rest, t.2, n),
        res_cons(t, r) is Ok,
    ensures
        spans_chained(res_cons(t, r)->Ok_0, lo, n),
{
    let ts = res_cons(t, r)->Ok_0;
    let rest = r->Ok_0;
    assert forall|k: int|
        0 <= k < ts.len() implies lo <= (#[trigger] ts[k]).0 && ts[k].0 <= ts[k].2 && ts[k].2
        <= n by {
        if k == 0 {
            assert(ts[k] == t);
        } else {
            assert(ts[k] == rest[k - 1]);
        }
    }
    assert forall|k: int| 0 <= k && k + 1 < ts.len() implies (#[trigger] ts[k]).2 <= ts[k
        + 1].0 by {
        if k == 0 {
            assert(ts[k] == t);
            assert(ts[1] == rest[0]);
        } else {
            assert(ts[k] == rest[k - 1]);
            assert(ts[k + 1] == rest[k]);
        }
    }
}

/// Every token's span is a valid sub-range of the input with
/// `start <= end <= input.len()`, and the spans of successive tokens of a
/// scan are monotonically non-decreasing.
pub proof fn lemma_lex_from_spans(s: Seq<u8>, pos: int, mode: PdfLexerMode)
    requires
        0 <= pos,
        lex_from(s, pos, mode) is Ok,
    ensures
        spans_chained(lex_from(s, pos, mode)->Ok_0, pos, s.len() as int),
    decreases s.len() - pos, mode_rank(mode),
{
    let n = s.len() as int;
    match mode {
        PdfLexerMode::Base => {
            lemma_base_skip_bounds(s, pos, false);
            let p = base_skip(s, pos, false);
            if p >= s.len() {
            } else if s[p] == LPAREN {
                lemma_lex_from_spans(s, p + 1, PdfLexerMode::RawString);
                lemma_cons_spans(
                    (p, SpecTok::RawStrDelimOpen, p + 1),
                    lex_from(s, p + 1, PdfLexerMode::RawString),
                    pos,
                    n,
                );
            } else if s[p] == RPAREN {
                lemma_lex_from_spans(s, p + 1, PdfLexerMode::Base);
                lemma_cons_spans(
                    (p, SpecTok::RawStrDelimClose, p + 1),
                    lex_from(s, p + 1, PdfLexerMode::Base),
                    pos,
                    n,
                );
            } else if s[p] == LANGLE {
                lemma_lex_from_spans(s, p + 1, PdfLexerMode::HexString);
                lemma_cons_spans(
                    (p, SpecTok::HexStrDelimOpen, p + 1),
                    lex_from(s, p + 1, PdfLexerMode::HexString),
                    pos,
                    n,
                );
            } else if s[p] == RANGLE {
                lemma_lex_from_spans(s, p + 1, PdfLexerMode::Base);
                lemma_cons_spans(
                    (p, SpecTok::HexStrDelimClose, p + 1),
                    lex_from(s, p + 1, PdfLexerMode::Base),
                    pos,
                    n,
                );
            } else if s[p] == SLASH {
                let j = name_end(s, p + 1);
                lemma_name_end_bounds(s, p + 1);
                lemma_lex_from_spans(s, j, PdfLexerMode::Base);
                lemma_cons_spans(
                    (p, SpecTok::Name(s.subrange(p, j)), j),
                    lex_from(s, j, PdfLexerMode::Base),
                    pos,
                    n,
                );
            } else if is_number_start(s[p]) {
                let j = number_end(s, p + 1);
                lemma_number_end_bounds(s, p + 1);
                lemma_lex_from_spans(s, j, PdfLexerMode::Base);
                lemma_cons_spans(
                    (p, SpecTok::Number(s.subrange(p, j)), j),
                    lex_from(s, j, PdfLexerMode::Base),
                    pos,
                    n,
                );
            } else {
                let j = keyword_end(s, p + 1);
                lemma_keyword_end_bounds(s, p + 1);
                lemma_lex_from_spans(s, j, PdfLexerMode::Base);
                lemma_cons_spans(
                    (p, keyword_tok(s.subrange(p, j)), j),
                    lex_from(s, j, PdfLexerMode::Base),
                    pos,
                    n,
                );
            }
        },
        PdfLexerMode::RawString => {
            let e = raw_end(s, pos, 1)->Some_0;
            lemma_raw_end_bounds(s, pos, 1);
            lemma_lex_from_spans(s, e, PdfLexerMode::Base);
            lemma_cons_spans(
                (pos, SpecTok::RawStrContent(s.subrange(pos, e)), e),
                lex_from(s, e, PdfLexerMode::Base),
                pos,
                n,
            );
        },
        PdfLexerMode::HexString => {
            let e = hex_end(s, pos)->Ok_0;
            lemma_hex_end_bounds(s, pos);
            lemma_lex_from_spans(s, e, PdfLexerMode::Base);
            lemma_cons_spans(
                (pos, SpecTok::HexStrContent(s.subrange(pos, e)), e),
                lex_from(s, e, PdfLexerMode::Base),
                pos,
                n,
            );
        },
    }
}

/// A content-bearing token's payload is exactly the input slice between its
/// offsets; tokens without a payload carry none to compare.
pub open spec fn payload_matches(s: Seq<u8>, t: SpecSpanned) -> bool {
    match t.1 {
        SpecTok::RawStrContent(c) => c == s.subrange(t.0, t.2),
        SpecTok::HexStrContent(c) => c == s.subrange(t.0, t.2),
        SpecTok::Name(c) => c == s.subrange(t.0, t.2),
        SpecTok::Number(c) => c == s.subrange(t.0, t.2),
        SpecTok::UnknownTok(c) => c == s.subrange(t.0, t.2),
        _ => true,
    }
}

pub open spec fn payloads_match(s: Seq<u8>, ts: Seq<SpecSpanned>) -> bool {
    forall|k: int| 0 <= k < ts.len() ==> payload_matches(s, #[trigger] ts[k])
}

/// Each single step emits a token whose span is a valid sub-range of the
/// input starting at or after the scan position, whose end is exactly where
/// the scan resumes, and whose payload is the input slice it spans.
pub proof fn lemma_next_step_token(s: Seq<u8>, pos: int, mode: PdfLexerMode)
    requires
        0 <= pos,
    ensures
        next_step(s, pos, mode) matches SpecStep::Tok(t, pos2, mode2) ==> {
            &&& pos <= t.0 <= t.2 <= s.len()
            &&& t.2 == pos2
            &&& payload_matches(s, t)
        },
{
    lemma_base_skip_bounds(s, pos, false);
    let p = base_skip(s, pos, false);
    lemma_name_end_bounds(s, p + 1);
    lemma_number_end_bounds(s, p + 1);
    lemma_keyword_end_bounds(s, p + 1);
    lemma_raw_end_bounds(s, pos, 1);
    lemma_hex_end_bounds(s, pos);
}

proof fn lemma_cons_payloads(
    s: Seq<u8>,
    t: SpecSpanned,
    r: Result<Seq<SpecSpanned>, SpecLexError>,
)
    requires
        payload_matches(s, t),
        r matches Ok(rest) ==> payloads_match(s, rest),
        res_cons(t, r) is Ok,
    ensures
        payloads_match(s, res_cons(t, r)->Ok_0),
{
    let ts = res_cons(t, r)->Ok_0;
    let rest = r->Ok_0;
    assert forall|k: int| 0 <= k < ts.len() implies payload_matches(s, #[trigger] ts[k]) by {
        if k == 0 {
            assert(ts[k] == t);
        } else {
            assert(ts[k] == rest[k - 1]);
        }
    }
}

/// Every content-bearing token of a successful scan carries exactly the
/// input slice between its offsets.
pub proof fn lemma_lex_from_payloads(s: Seq<u8>, pos: int, mode: PdfLexerMode)
    requires
        0 <= pos,
        lex_from(s, pos, mode) is Ok,
    ensures
        payloads_match(s, lex_from(s, pos, mode)->Ok_0),
    decreases s.len() - pos, mode_rank(mode),
{
    lemma_base_skip_bounds(s, pos, false);
    let p = base_skip(s, pos, false);
    lemma_name_end_bounds(s, p + 1);
    lemma_number_end_bounds(s, p + 1);
    lemma_keyword_end_bounds(s, p + 1);
    lemma_raw_end_bounds(s, pos, 1);
    lemma_hex_end_bounds(s, pos);
    lemma_next_step_token(s, pos, mode);
    match next_step(s, pos, mode) {
        SpecStep::Done => {},
        SpecStep::Fail(_) => {},
        SpecStep::Tok(t, pos2, mode2) => {
            lemma_lex_from_payloads(s, pos2, mode2);
            lemma_cons_payloads(s, t, lex_from(s, pos2, mode2));
        },
    }
}
} // verus!

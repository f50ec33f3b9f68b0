//! Proved properties of the tokenizer and the decoders, stated over their
//! spec-level models.

use vstd::prelude::*;

use crate::lexer::base_skip;
use crate::lexer::hex_end;
use crate::lexer::is_number_start;
use crate::lexer::is_white;
use crate::lexer::keyword_end;
use crate::lexer::lex_from;
use crate::lexer::raw_end;
use crate::lexer::res_cons;
use crate::lexer::PdfLexerMode;
use crate::lexer::SpecLexError;
use crate::lexer::SpecSpanned;
use crate::lexer::SpecTok;
use crate::lexer::BACKSLASH;
use crate::lexer::CR;
use crate::lexer::KEYWORD_LOOKAHEAD;
use crate::lexer::LANGLE;
use crate::lexer::LF;
use crate::lexer::LPAREN;
use crate::lexer::PERCENT;
use crate::lexer::RANGLE;
use crate::lexer::RPAREN;
use crate::lexer::SLASH;
use crate::parser::lexed;
use crate::parser_helper::hex_decode;
use crate::parser_helper::hex_val;
use crate::parser_helper::is_octal;
use crate::parser_helper::name_decode_body;
use crate::parser_helper::oct_digits;
use crate::parser_helper::raw_decode;
use crate::parser_helper::raw_esc_len;

verus! {

/// A raw-string body is balanced when scanning it from inside one open
/// parenthesis consumes it exactly: every unescaped `(` is matched, no
/// unescaped `)` closes the enclosing string early, and no escape dangles
/// off the end.
pub open spec fn raw_balanced_from(c: Seq<u8>, i: int, d: int) -> bool
    decreases c.len() - i,
{
    if i == c.len() {
        d == 1
    } else if i < 0 || i > c.len() {
        false
    } else if c[i] == RPAREN {
        d > 1 && raw_balanced_from(c, i + 1, d - 1)
    } else if c[i] == LPAREN {
        raw_balanced_from(c, i + 1, d + 1)
    } else if c[i] == BACKSLASH {
        i + 2 <= c.len() && raw_balanced_from(c, i + 2, d)
    } else {
        raw_balanced_from(c, i + 1, d)
    }
}

pub open spec fn raw_balanced(c: Seq<u8>) -> bool {
    raw_balanced_from(c, 0, 1)
}

/// The body `c` wrapped in its string delimiters.
pub open spec fn paren_wrap(c: Seq<u8>) -> Seq<u8> {
    seq![LPAREN] + c + seq![RPAREN]
}

proof fn lemma_balanced_raw_end(c: Seq<u8>, i: int, d: int)
    requires
        0 <= i <= c.len(),
        raw_balanced_from(c, i, d),
    ensures
        raw_end(paren_wrap(c), i + 1, d) == Some(c.len() + 1 as int),
    decreases c.len() - i,
{
    let s = paren_wrap(c);
    assert(s.len() == c.len() + 2);
    if i == c.len() {
        assert(s[i + 1] == RPAREN);
    } else {
        assert(s[i + 1] == c[i]);
        if c[i] == RPAREN {
            lemma_balanced_raw_end(c, i + 1, d - 1);
        } else if c[i] == LPAREN {
            lemma_balanced_raw_end(c, i + 1, d + 1);
        } else if c[i] == BACKSLASH {
            lemma_balanced_raw_end(c, i + 2, d);
        } else {
            lemma_balanced_raw_end(c, i + 1, d);
        }
    }
}

/// Depth-balanced nested parentheses round-trip: for every balanced body
/// `c`, lexing `(` + `c` + `)` yields exactly the open delimiter, the
/// content `c` — inner parentheses and escapes retained, the delimiters
/// excluded — and the close delimiter.
pub proof fn lemma_raw_string_round_trip(c: Seq<u8>)
    requires
        raw_balanced(c),
    ensures
        lexed(paren_wrap(c)) == Ok::<Seq<SpecSpanned>, SpecLexError>(
            seq![
                (0int, SpecTok::RawStrDelimOpen, 1int),
                (1int, SpecTok::RawStrContent(c), c.len() + 1 as int),
                (c.len() + 1 as int, SpecTok::RawStrDelimClose, c.len() + 2 as int),
            ],
        ),
{
    let s = paren_wrap(c);
    let n = c.len() as int;
    assert(s.len() == n + 2);
    assert(s[0] == LPAREN);
    assert(base_skip(s, 0, false) == 0);
    lemma_balanced_raw_end(c, 0, 1);
    assert(raw_end(s, 1, 1) == Some(n + 1));
    assert(s.subrange(1, n + 1) =~= c);
    assert(s[n + 1] == RPAREN);
    assert(base_skip(s, n + 1, false) == n + 1);
    assert(base_skip(s, n + 2, false) == n + 2);
    assert(lex_from(s, n + 2, PdfLexerMode::Base) == Ok::<Seq<SpecSpanned>, SpecLexError>(
        Seq::empty(),
    ));
    let t_open: SpecSpanned = (0int, SpecTok::RawStrDelimOpen, 1int);
    let t_content: SpecSpanned = (1int, SpecTok::RawStrContent(c), n + 1);
    let t_close: SpecSpanned = (n + 1, SpecTok::RawStrDelimClose, n + 2);
    assert(lex_from(s, n + 1, PdfLexerMode::Base) == res_cons(
        t_close,
        lex_from(s, n + 2, PdfLexerMode::Base),
    ));
    assert(seq![t_close] + Seq::<SpecSpanned>::empty() =~= seq![t_close]);
    assert(lex_from(s, 1, PdfLexerMode::RawString) == res_cons(
        t_content,
        lex_from(s, n + 1, PdfLexerMode::Base),
    ));
    assert(lexed(s) == res_cons(t_open, lex_from(s, 1, PdfLexerMode::RawString)));
    assert(seq![t_open] + (seq![t_content] + seq![t_close]) =~= seq![
        t_open,
        t_content,
        t_close,
    ]);
}

/// An escaped byte — delimiter or not — never changes the nesting depth:
/// the scan for the closing `)` steps over the escape pair unconditionally.
pub proof fn lemma_escaped_delim_keeps_depth(s: Seq<u8>, i: int, d: int)
    requires
        0 <= i,
        i + 2 <= s.len(),
        s[i] == BACKSLASH,
    ensures
        raw_end(s, i, d) == raw_end(s, i + 2, d),
{
}

/// Every unescaped end-of-line marker — `\r`, `\n` or `\r\n` — decodes to
/// the single byte `\n`, whatever follows it.
pub proof fn lemma_eol_normalization(s: Seq<u8>)
    ensures
        raw_decode(seq![LF] + s) == seq![LF] + raw_decode(s),
        raw_decode(seq![CR, LF] + s) == seq![LF] + raw_decode(s),
        s.len() == 0 || s[0] != LF ==> raw_decode(seq![CR] + s) == seq![LF] + raw_decode(s),
{
    let a = seq![LF] + s;
    assert(a[0] == LF);
    assert(a.skip(1) =~= s);
    let b = seq![CR, LF] + s;
    assert(b[0] == CR && b[1] == LF);
    assert(b.skip(2) =~= s);
    if s.len() == 0 || s[0] != LF {
        let d = seq![CR] + s;
        assert(d[0] == CR);
        assert(d.len() >= 2 ==> d[1] == s[0]);
        assert(d.skip(1) =~= s);
    }
}

/// A three-digit octal escape consumes exactly its digits and emits the
/// octal value when it fits in a byte — and nothing at all when it
/// overflows.
pub proof fn lemma_octal_escape(d1: u8, d2: u8, d3: u8, s: Seq<u8>)
    requires
        is_octal(d1),
        is_octal(d2),
        is_octal(d3),
    ensures
        ({
            let v = (d1 - 0x30) * 64 + (d2 - 0x30) * 8 + (d3 - 0x30);
            raw_decode(seq![BACKSLASH, d1, d2, d3] + s) == (if v <= 255 {
                seq![v as u8]
            } else {
                Seq::<u8>::empty()
            }) + raw_decode(s)
        }),
{
    let a = seq![BACKSLASH, d1, d2, d3] + s;
    assert(a[0] == BACKSLASH && a[1] == d1 && a[2] == d2 && a[3] == d3);
    assert(oct_digits(a) == 3);
    assert(raw_esc_len(a) == 4);
    assert(a.skip(4) =~= s);
}

/// A one-digit octal escape not followed by another octal digit emits
/// exactly that digit's value: missing leading digit slots read as zero.
pub proof fn lemma_octal_escape_short(d1: u8, s: Seq<u8>)
    requires
        is_octal(d1),
        s.len() >= 1 ==> !is_octal(s[0]),
    ensures
        raw_decode(seq![BACKSLASH, d1] + s) == seq![(d1 - 0x30) as u8] + raw_decode(s),
{
    let a = seq![BACKSLASH, d1] + s;
    assert(a[0] == BACKSLASH && a[1] == d1);
    assert(a.len() >= 3 ==> a[2] == s[0]);
    assert(oct_digits(a) == 1);
    assert(raw_esc_len(a) == 2);
    assert(a.skip(2) =~= s);
}

/// Hex decoding is case-insensitive: two slices whose digits carry the
/// same values decode to the same bytes.
pub proof fn lemma_hex_case_insensitive(a: Seq<u8>, b: Seq<u8>)
    requires
        a.len() == b.len(),
        forall|k: int| 0 <= k < a.len() ==> hex_val(#[trigger] a[k]) == hex_val(b[k]),
    ensures
        hex_decode(a) == hex_decode(b),
    decreases a.len(),
{
    if a.len() >= 2 {
        assert(forall|k: int|
            0 <= k < a.skip(2).len() ==> #[trigger] a.skip(2)[k] == a[k + 2]);
        assert(forall|k: int|
            0 <= k < b.skip(2).len() ==> #[trigger] b.skip(2)[k] == b[k + 2]);
        lemma_hex_case_insensitive(a.skip(2), b.skip(2));
    }
}

/// A lower-case hex digit carries the same value as its upper-case form.
pub proof fn lemma_hex_digit_case(c: u8)
    requires
        0x61 <= c <= 0x66,
    ensures
        hex_val(c) == hex_val((c - 0x20) as u8),
{
}

/// Odd-length hex content decodes exactly as if a `0` digit were appended:
/// the final digit is the high nibble of the last byte.
pub proof fn lemma_hex_odd_padding(s: Seq<u8>)
    requires
        s.len() % 2 == 1,
    ensures
        hex_decode(s) == hex_decode(s + seq![0x30u8]),
    decreases s.len(),
{
    let p = s + seq![0x30u8];
    if s.len() == 1 {
        assert(p[0] == s[0] && p[1] == 0x30);
        assert(p.skip(2) =~= Seq::<u8>::empty());
        if hex_val(s[0]) is Some {
            let h = hex_val(s[0])->Some_0;
            assert(seq![(h * 16) as u8] + Seq::<u8>::empty() =~= seq![(h * 16) as u8]);
        }
    } else {
        assert(p[0] == s[0] && p[1] == s[1]);
        assert(p.skip(2) =~= s.skip(2) + seq![0x30u8]);
        lemma_hex_odd_padding(s.skip(2));
        if (hex_val(s[0]), hex_val(s[1])) matches (Some(h), Some(l)) {
            if hex_decode(s.skip(2)) is Some {
                let rest = hex_decode(s.skip(2))->Some_0;
                let rest_p = hex_decode(p.skip(2))->Some_0;
                assert(rest == rest_p);
            }
        }
    }
}

/// A `#` followed by two hex digits decodes to exactly the byte they
/// spell, whatever follows in the name.
pub proof fn lemma_name_hex_escape(h1: u8, h2: u8, s: Seq<u8>)
    requires
        hex_val(h1) is Some,
        hex_val(h2) is Some,
    ensures
        name_decode_body(seq![0x23u8, h1, h2] + s) == match name_decode_body(s) {
            Some(rest) => Some(
                seq![(hex_val(h1)->Some_0 * 16 + hex_val(h2)->Some_0) as u8] + rest,
            ),
            None => None::<Seq<u8>>,
        },
{
    let a = seq![0x23u8, h1, h2] + s;
    assert(a[0] == 0x23 && a[1] == h1 && a[2] == h2);
    assert(a.skip(3) =~= s);
}

/// An unterminated string — the input ends before the closing delimiter —
/// fails with the end-of-file error (and a bad byte inside a hex string
/// with its own error): no partial token list is ever produced.
pub proof fn lemma_unterminated_fails(s: Seq<u8>, pos: int)
    ensures
        raw_end(s, pos, 1) is None ==> lex_from(s, pos, PdfLexerMode::RawString) == Err::<
            Seq<SpecSpanned>,
            SpecLexError,
        >(SpecLexError::UnexpectedEOF),
        hex_end(s, pos) is Err ==> lex_from(s, pos, PdfLexerMode::HexString) == Err::<
            Seq<SpecSpanned>,
            SpecLexError,
        >(hex_end(s, pos)->Err_0),
{
}

/// Bytes that begin a bareword in `Base` mode: anything that is not
/// whitespace, a delimiter, a name or comment introducer, or a number
/// start.
pub open spec fn is_keyword_start(b: u8) -> bool {
    &&& !is_white(b)
    &&& b != LPAREN
    &&& b != RPAREN
    &&& b != LANGLE
    &&& b != RANGLE
    &&& b != SLASH
    &&& b != PERCENT
    &&& !is_number_start(b)
}

proof fn lemma_keyword_end_min(s: Seq<u8>, i: int, m: int)
    requires
        0 <= i <= m <= s.len(),
        forall|k: int| i <= k < m ==> !is_white(#[trigger] s[k]),
    ensures
        keyword_end(s, i) >= m,
    decreases m - i,
{
    crate::lexer::lemma_keyword_end_bounds(s, i);
    if i < m {
        assert(!is_white(s[i]));
        lemma_keyword_end_min(s, i + 1, m);
    }
}

/// A bareword of `KEYWORD_LOOKAHEAD` or more unbroken bytes stops the scan
/// with the length-guard error carrying the truncated prefix, rather than
/// scanning without bound.
pub proof fn lemma_keyword_guard(s: Seq<u8>, pos: int, p: int)
    requires
        base_skip(s, pos, false) == p,
        0 <= p,
        p + KEYWORD_LOOKAHEAD <= s.len(),
        is_keyword_start(s[p]),
        forall|k: int| p <= k < p + KEYWORD_LOOKAHEAD ==> !is_white(#[trigger] s[k]),
    ensures
        lex_from(s, pos, PdfLexerMode::Base) == Err::<Seq<SpecSpanned>, SpecLexError>(
            SpecLexError::TokenTooLong(s.subrange(p, p + KEYWORD_LOOKAHEAD)),
        ),
{
    lemma_keyword_end_min(s, p + 1, p + KEYWORD_LOOKAHEAD);
}

} // verus!

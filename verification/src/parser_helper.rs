//! Escape and content decoders for token payloads.
//!
//! Pure, allocation-producing transforms: they never consult scanner state
//! and operate on an already-extracted token slice.  Each decoder is proved
//! against a recursive spec function that restates its escape rules.

use vstd::prelude::*;
use vstd::slice::slice_to_vec;

use crate::lexer::BACKSLASH;
use crate::lexer::CR;
use crate::lexer::FF;
use crate::lexer::LF;
use crate::lexer::LPAREN;
use crate::lexer::RPAREN;
use crate::lexer::SLASH;
use crate::lexer::TAB;

verus! {

/// The value of one hex digit, or `None` for any other byte.
pub open spec fn hex_val(c: u8) -> Option<u8> {
    if 0x30 <= c && c <= 0x39 {
        Some((c - 0x30) as u8)
    } else if 0x61 <= c && c <= 0x66 {
        Some((c - 0x61 + 10) as u8)
    } else if 0x41 <= c && c <= 0x46 {
        Some((c - 0x41 + 10) as u8)
    } else {
        None
    }
}

/// Hex-string decoding: consecutive digit pairs become bytes; an odd final
/// digit is the high nibble with an implicit `0` low nibble; any non-hex
/// byte makes the whole decode fail.
pub open spec fn hex_decode(s: Seq<u8>) -> Option<Seq<u8>>
    decreases s.len(),
{
    if s.len() == 0 {
        Some(Seq::empty())
    } else if s.len() == 1 {
        match hex_val(s[0]) {
            Some(h) => Some(seq![(h * 16) as u8]),
            None => None,
        }
    } else {
        match (hex_val(s[0]), hex_val(s[1])) {
            (Some(h), Some(l)) => match hex_decode(s.skip(2)) {
                Some(rest) => Some(seq![(h * 16 + l) as u8] + rest),
                None => None,
            },
            _ => None,
        }
    }
}

/// Name decoding after the leading `/`: `#` followed by exactly two hex
/// digits becomes one byte; a `#` not followed by two hex digits fails;
/// every other byte is copied through.
pub open spec fn name_decode_body(s: Seq<u8>) -> Option<Seq<u8>>
    decreases s.len(),
{
    if s.len() == 0 {
        Some(Seq::empty())
    } else if s[0] == 0x23 {
        if s.len() >= 3 {
            match (hex_val(s[1]), hex_val(s[2])) {
                (Some(h), Some(l)) => match name_decode_body(s.skip(3)) {
                    Some(rest) => Some(seq![(h * 16 + l) as u8] + rest),
                    None => None,
                },
                _ => None,
            }
        } else {
            None
        }
    } else {
        match name_decode_body(s.skip(1)) {
            Some(rest) => Some(seq![s[0]] + rest),
            None => None,
        }
    }
}

/// Decoding of a whole name slice, leading `/` included.
pub open spec fn name_decode(s: Seq<u8>) -> Option<Seq<u8>> {
    if s.len() >= 1 && s[0] == SLASH {
        name_decode_body(s.skip(1))
    } else {
        None
    }
}

/// The value of the hex digit `c`, or `None` for bytes outside
/// `0-9 a-f A-F`.
pub fn char_to_val(c: u8) -> (r: Option<u8>)
    ensures
        r == hex_val(c),
{
    if 0x30 <= c && c <= 0x39 {
        Some(c - 0x30)
    } else if 0x61 <= c && c <= 0x66 {
        Some(c - 0x61 + 10)
    } else if 0x41 <= c && c <= 0x46 {
        Some(c - 0x41 + 10)
    } else {
        None
    }
}

/// Decodes the hex representation of a string's content into the actual
/// bytes.
///
/// Returns `None` if any of the bytes are outside
/// `b'0'..=b'9' | b'a'..=b'f' | b'A'..=b'F'`.
pub fn handle_hex_str(val: &[u8]) -> (r: Option<Vec<u8>>)
    ensures
        match hex_decode(val@) {
            Some(d) => r matches Some(v) && v@ == d,
            None => r is None,
        },
{
    let bytes = slice_to_vec(val);
    let ghost s = val@;
    let n = bytes.len();
    let mut out: Vec<u8> = Vec::new();
    let mut i: usize = 0;
    proof {
        assert(s.skip(0) =~= s);
    }
    loop
        invariant
            s == val@,
            bytes@ == s,
            n == s.len(),
            0 <= i <= n,
            out@.len() <= i,
            match hex_decode(s.skip(i as int)) {
                Some(rest) => hex_decode(s) == Some(out@ + rest),
                None => hex_decode(s) is None,
            },
        decreases n - i,
    {
        if i >= n {
            proof {
                assert(s.skip(i as int) =~= Seq::<u8>::empty());
                assert(out@ + Seq::<u8>::empty() =~= out@);
            }
            return Some(out);
        }
        let ghost tail = s.skip(i as int);
        proof {
            assert(tail[0] == s[i as int]);
        }
        if i + 1 >= n {
            let d = char_to_val(bytes[i]);
            match d {
                None => {
                    return None;
                },
                Some(h) => {
                    proof {
                        assert(hex_decode(tail) == Some(seq![(h * 16) as u8]));
                        assert(out@ + seq![(h * 16) as u8] =~= out@.push((h * 16) as u8));
                    }
                    out.push(h * 16);
                    return Some(out);
                },
            }
        }
        proof {
            assert(tail[1] == s[i + 1]);
            assert(tail.skip(2) =~= s.skip(i + 2));
        }
        let d1 = char_to_val(bytes[i]);
        let d2 = char_to_val(bytes[i + 1]);
        match (d1, d2) {
            (Some(h), Some(l)) => {
                let ghost before = out@;
                out.push(h * 16 + l);
                proof {
                    if hex_decode(s.skip(i + 2)) is Some {
                        let rest = hex_decode(s.skip(i + 2))->Some_0;
                        assert(before + (seq![(h * 16 + l) as u8] + rest) =~= out@ + rest);
                    }
                }
                i = i + 2;
            },
            _ => {
                return None;
            },
        }
    }
}

/// Decodes the `#xx` hex escapes of a name slice (leading `/` included,
/// not part of the result).
///
/// Returns `None` when a `#` is not followed by two hex digits.
pub fn handle_name_escapes(val: &[u8]) -> (r: Option<Vec<u8>>)
    requires
        val@.len() >= 1,
        val@[0] == SLASH,
    ensures
        match name_decode(val@) {
            Some(d) => r matches Some(v) && v@ == d,
            None => r is None,
        },
{
    let bytes = slice_to_vec(val);
    let ghost s = val@;
    let n = bytes.len();
    let mut out: Vec<u8> = Vec::new();
    let mut i: usize = 1;
    proof {
        assert(name_decode(s) == name_decode_body(s.skip(1)));
    }
    loop
        invariant
            s == val@,
            bytes@ == s,
            n == s.len(),
            1 <= i <= n,
            match name_decode_body(s.skip(i as int)) {
                Some(rest) => name_decode(s) == Some(out@ + rest),
                None => name_decode(s) is None,
            },
        decreases n - i,
    {
        if i >= n {
            proof {
                assert(s.skip(i as int) =~= Seq::<u8>::empty());
                assert(out@ + Seq::<u8>::empty() =~= out@);
            }
            return Some(out);
        }
        let ghost tail = s.skip(i as int);
        proof {
            assert(tail[0] == s[i as int]);
        }
        let b = bytes[i];
        if b == 0x23 {
            if n - i < 3 {
                return None;
            }
            proof {
                assert(tail[1] == s[i + 1]);
                assert(tail[2] == s[i + 2]);
                assert(tail.skip(3) =~= s.skip(i + 3));
            }
            let d1 = char_to_val(bytes[i + 1]);
            let d2 = char_to_val(bytes[i + 2]);
            match (d1, d2) {
                (Some(h), Some(l)) => {
                    let ghost before = out@;
                    out.push(h * 16 + l);
                    proof {
                        if name_decode_body(s.skip(i + 3)) is Some {
                            let rest = name_decode_body(s.skip(i + 3))->Some_0;
                            assert(before + (seq![(h * 16 + l) as u8] + rest) =~= out@ + rest);
                        }
                    }
                    i = i + 3;
                },
                _ => {
                    return None;
                },
            }
        } else {
            let ghost before = out@;
            out.push(b);
            proof {
                assert(tail.skip(1) =~= s.skip(i + 1));
                if name_decode_body(s.skip(i + 1)) is Some {
                    let rest = name_decode_body(s.skip(i + 1))->Some_0;
                    assert(before + (seq![s[i as int]] + rest) =~= out@ + rest);
                }
            }
            i = i + 1;
        }
    }
}

pub open spec fn is_octal(c: u8) -> bool {
    0x30 <= c && c <= 0x37
}

/// How many octal digits (1 to 3) follow the `\` at the start of `s`;
/// `s[1]` is already known to be octal.
pub open spec fn oct_digits(s: Seq<u8>) -> int {
    if s.len() >= 3 && is_octal(s[2]) {
        if s.len() >= 4 && is_octal(s[3]) {
            3
        } else {
            2
        }
    } else {
        1
    }
}

/// The value of the octal escape at the start of `s`: up to 3 digits read
/// greedily, right-aligned into 3 digit slots with missing leading slots
/// treated as zero.
pub open spec fn oct_value(s: Seq<u8>) -> int {
    if oct_digits(s) == 3 {
        (s[1] - 0x30) * 64 + (s[2] - 0x30) * 8 + (s[3] - 0x30)
    } else if oct_digits(s) == 2 {
        (s[1] - 0x30) * 8 + (s[2] - 0x30)
    } else {
        s[1] - 0x30
    }
}

/// Source bytes consumed by the escape at the start of `s` (where
/// `s[0] == BACKSLASH` and `s.len() >= 2`): 2 for a simple escape, up to 3
/// for a line continuation, up to 4 for an octal escape.
pub open spec fn raw_esc_len(s: Seq<u8>) -> int {
    let c = s[1];
    if c == CR {
        if s.len() >= 3 && s[2] == LF {
            3
        } else {
            2
        }
    } else if is_octal(c) {
        1 + oct_digits(s)
    } else {
        2
    }
}

/// Bytes emitted for the escape at the start of `s`: the named control or
/// literal byte; nothing for a line continuation; the octal value when it
/// fits in a byte, nothing when it overflows; and the escaped byte itself
/// for any other escape (the `\` is ignored).
pub open spec fn raw_esc_out(s: Seq<u8>) -> Seq<u8> {
    let c = s[1];
    if c == 0x6e {
        seq![LF]
    } else if c == 0x72 {
        seq![CR]
    } else if c == 0x74 {
        seq![TAB]
    } else if c == 0x62 {
        seq![0x08u8]
    } else if c == 0x66 {
        seq![FF]
    } else if c == LPAREN {
        seq![LPAREN]
    } else if c == RPAREN {
        seq![RPAREN]
    } else if c == BACKSLASH {
        seq![BACKSLASH]
    } else if c == CR || c == LF {
        Seq::empty()
    } else if is_octal(c) {
        if oct_value(s) <= 255 {
            seq![oct_value(s) as u8]
        } else {
            Seq::empty()
        }
    } else {
        seq![c]
    }
}

/// Raw-string unescaping, applied left to right: a bare end-of-line marker
/// (`\r`, `\n` or `\r\n`) becomes a single `\n`; a `\` escape is decoded by
/// `raw_esc_out`; every other byte is copied through.  A dangling `\` at the
/// very end emits nothing; the scanner never produces such a slice.
pub open spec fn raw_decode(s: Seq<u8>) -> Seq<u8>
    decreases s.len(),
{
    if s.len() == 0 {
        Seq::empty()
    } else if s[0] == CR {
        if s.len() >= 2 && s[1] == LF {
            seq![LF] + raw_decode(s.skip(2))
        } else {
            seq![LF] + raw_decode(s.skip(1))
        }
    } else if s[0] == BACKSLASH {
        if s.len() == 1 {
            Seq::empty()
        } else {
            raw_esc_out(s) + raw_decode(s.skip(raw_esc_len(s)))
        }
    } else {
        seq![s[0]] + raw_decode(s.skip(1))
    }
}

/// The slice never ends in the middle of an escape: every `\` has a byte
/// after it.  The scanner guarantees this of every raw-string content slice
/// it emits, because a `\` unconditionally consumes the following byte.
pub open spec fn raw_str_closed(s: Seq<u8>) -> bool
    decreases s.len(),
{
    if s.len() == 0 {
        true
    } else if s[0] == BACKSLASH {
        s.len() >= 2 && raw_str_closed(s.skip(2))
    } else {
        raw_str_closed(s.skip(1))
    }
}

/// The byte sequence an optional emitted byte stands for.
pub open spec fn emit_seq(o: Option<u8>) -> Seq<u8> {
    match o {
        Some(x) => seq![x],
        None => Seq::empty(),
    }
}

/// Peeling one ordinary byte off a closed slice keeps it closed.
proof fn lemma_closed_step(s: Seq<u8>, i: int)
    requires
        0 <= i < s.len(),
        raw_str_closed(s.skip(i)),
        s[i] != BACKSLASH,
    ensures
        raw_str_closed(s.skip(i + 1)),
{
    assert(s.skip(i)[0] == s[i]);
    assert(s.skip(i).skip(1) =~= s.skip(i + 1));
}

/// Peeling a `\` and the byte it escapes off a closed slice keeps it
/// closed.
proof fn lemma_closed_esc(s: Seq<u8>, i: int)
    requires
        0 <= i,
        i + 2 <= s.len(),
        raw_str_closed(s.skip(i)),
        s[i] == BACKSLASH,
    ensures
        raw_str_closed(s.skip(i + 2)),
{
    assert(s.skip(i)[0] == s[i]);
    assert(s.skip(i).skip(2) =~= s.skip(i + 2));
}

/// Reads the escape that starts at `i` (a `\` with at least one byte after
/// it): how many source bytes it spans and which byte, if any, it emits.
fn raw_escape(bytes: &Vec<u8>, i: usize) -> (r: (usize, Option<u8>))
    requires
        i + 2 <= bytes@.len(),
        bytes@[i as int] == BACKSLASH,
    ensures
        ({
            let tail = bytes@.skip(i as int);
            &&& r.0 == raw_esc_len(tail)
            &&& emit_seq(r.1) == raw_esc_out(tail)
            &&& i + r.0 <= bytes@.len()
            &&& (r.0 >= 3 ==> bytes@[i + 2] != BACKSLASH)
            &&& (r.0 == 4 ==> bytes@[i + 3] != BACKSLASH)
        }),
{
    let ghost s = bytes@;
    let ghost tail = s.skip(i as int);
    let n = bytes.len();
    proof {
        assert(tail[1] == s[i + 1]);
        if i + 2 < n {
            assert(tail[2] == s[i + 2]);
        }
        if i + 3 < n {
            assert(tail[3] == s[i + 3]);
        }
    }
    let c = bytes[i + 1];
    if c == 0x6e {
        (2, Some(LF))
    } else if c == 0x72 {
        (2, Some(CR))
    } else if c == 0x74 {
        (2, Some(TAB))
    } else if c == 0x62 {
        (2, Some(0x08))
    } else if c == 0x66 {
        (2, Some(FF))
    } else if c == LPAREN {
        (2, Some(LPAREN))
    } else if c == RPAREN {
        (2, Some(RPAREN))
    } else if c == BACKSLASH {
        (2, Some(BACKSLASH))
    } else if c == CR {
        if i + 2 < n && bytes[i + 2] == LF {
            (3, None)
        } else {
            (2, None)
        }
    } else if c == LF {
        (2, None)
    } else if 0x30 <= c && c <= 0x37 {
        let mut v: u32 = (c - 0x30) as u32;
        let mut step: usize = 2;
        if i + 2 < n && 0x30 <= bytes[i + 2] && bytes[i + 2] <= 0x37 {
            v = v * 8 + (bytes[i + 2] - 0x30) as u32;
            step = 3;
            if i + 3 < n && 0x30 <= bytes[i + 3] && bytes[i + 3] <= 0x37 {
                v = v * 8 + (bytes[i + 3] - 0x30) as u32;
                step = 4;
            }
        }
        proof {
            assert(v == oct_value(tail));
            assert(step == 1 + oct_digits(tail));
        }
        if v <= 255 {
            (step, Some(v as u8))
        } else {
            (step, None)
        }
    } else {
        (2, Some(c))
    }
}

/// Applies the raw-string escape rules to a content slice.
///
/// The slice must not end on a dangling unescaped `\`; the scanner's
/// escape-skipping guarantees that of every content slice it emits.
pub fn handle_raw_str_escapes(val: &[u8]) -> (out: Vec<u8>)
    requires
        raw_str_closed(val@),
    ensures
        out@ == raw_decode(val@),
{
    let bytes = slice_to_vec(val);
    let ghost s = val@;
    let n = bytes.len();
    let mut out: Vec<u8> = Vec::new();
    let mut i: usize = 0;
    proof {
        assert(s.skip(0) =~= s);
    }
    loop
        invariant
            s == val@,
            bytes@ == s,
            n == s.len(),
            0 <= i <= n,
            raw_str_closed(s.skip(i as int)),
            raw_decode(s) == out@ + raw_decode(s.skip(i as int)),
        decreases n - i,
    {
        if i >= n {
            proof {
                assert(s.skip(i as int) =~= Seq::<u8>::empty());
                assert(out@ + Seq::<u8>::empty() =~= out@);
            }
            return out;
        }
        let ghost tail = s.skip(i as int);
        proof {
            assert(tail[0] == s[i as int]);
        }
        let b = bytes[i];
        if b == CR {
            let two = i + 1 < n && bytes[i + 1] == LF;
            let step: usize = if two {
                2
            } else {
                1
            };
            let ghost before = out@;
            out.push(LF);
            proof {
                lemma_closed_step(s, i as int);
                if two {
                    assert(tail[1] == s[i + 1]);
                    lemma_closed_step(s, i + 1);
                }
                assert(tail.skip(step as int) =~= s.skip(i + step));
                let rest = raw_decode(s.skip(i + step));
                assert(raw_decode(tail) == seq![LF] + rest);
                assert(before + (seq![LF] + rest) =~= out@ + rest);
            }
            i = i + step;
        } else if b == BACKSLASH {
            assert(i + 1 < n);
            let r = raw_escape(&bytes, i);
            let step = r.0;
            let emit = r.1;
            proof {
                lemma_closed_esc(s, i as int);
                if step >= 3 {
                    lemma_closed_step(s, i + 2);
                }
                if step == 4 {
                    lemma_closed_step(s, i + 3);
                }
                assert(tail.skip(step as int) =~= s.skip(i + step));
            }
            let ghost before = out@;
            match emit {
                Some(x) => {
                    out.push(x);
                },
                None => {},
            }
            proof {
                let rest = raw_decode(s.skip(i + step));
                assert(raw_decode(tail) == raw_esc_out(tail) + rest);
                assert(emit_seq(emit) == raw_esc_out(tail));
                assert(before + (raw_esc_out(tail) + rest) =~= out@ + rest);
            }
            i = i + step;
        } else {
            let ghost before = out@;
            out.push(b);
            proof {
                lemma_closed_step(s, i as int);
                assert(tail.skip(1) =~= s.skip(i + 1));
                let rest = raw_decode(s.skip(i + 1));
                assert(raw_decode(tail) == seq![s[i as int]] + rest);
                assert(before + (seq![s[i as int]] + rest) =~= out@ + rest);
            }
            i = i + 1;
        }
    }
}

} // verus!

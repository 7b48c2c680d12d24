//! ANSI escape sequences in rendered text: removing them gives back the text
//! that was coloured.
use vstd::prelude::*;
use vstd::string::StringSliceAdditionalSpecFns;
use vstd::utf8::*;

use crate::text::lacks_byte;
use crate::highlight::{
    apply_fold, color_of, spec_apply_line_highlights, spec_colored_scheme, ColorScheme, StyleMarker,
};

verus! {

/// An ASCII letter, the byte that ends a control sequence.
pub open spec fn is_ascii_letter(b: u8) -> bool {
    (65 <= b <= 90) || (97 <= b <= 122)
}

/// The index of the first ASCII letter at or after `i` (the length when there is none).
pub open spec fn first_letter(bytes: Seq<u8>, i: int) -> int
    decreases bytes.len() - i,
{
    if i >= bytes.len() {
        bytes.len() as int
    } else if is_ascii_letter(bytes[i]) {
        i
    } else {
        first_letter(bytes, i + 1)
    }
}

/// `first_letter` stays between its start and the end.
pub proof fn lemma_first_letter(bytes: Seq<u8>, i: int)
    requires
        0 <= i,
    ensures
        i <= first_letter(bytes, i) || i > bytes.len(),
        first_letter(bytes, i) <= bytes.len(),
        first_letter(bytes, i) < bytes.len() ==> is_ascii_letter(bytes[first_letter(bytes, i)]),
    decreases bytes.len() - i,
{
    if i < bytes.len() && !is_ascii_letter(bytes[i]) {
        lemma_first_letter(bytes, i + 1);
    }
}

/// Where the text after an escape at the start of `bytes` resumes: past the
/// letter that ends a control sequence `ESC [ ... letter`, otherwise past the
/// byte after the escape.
pub open spec fn escape_end(bytes: Seq<u8>) -> int {
    if bytes.len() >= 2 && bytes[1] == 91u8 {
        if first_letter(bytes, 2) < bytes.len() {
            first_letter(bytes, 2) + 1
        } else {
            bytes.len() as int
        }
    } else if bytes.len() >= 2 {
        2
    } else {
        bytes.len() as int
    }
}

/// `escape_end` moves past the escape byte and stays within the text.
pub proof fn lemma_escape_end(bytes: Seq<u8>)
    requires
        bytes.len() >= 1,
    ensures
        1 <= escape_end(bytes) <= bytes.len(),
{
    lemma_first_letter(bytes, 2);
}

/// `bytes` with its ANSI escape sequences removed: an ESC byte is dropped
/// with the byte after it and, when that byte is `[`, with everything up to
/// and including the next ASCII letter.
pub open spec fn strip_ansi(bytes: Seq<u8>) -> Seq<u8>
    decreases bytes.len(),
{
    if bytes.len() == 0 {
        seq![]
    } else if bytes[0] == 27u8 {
        proof {
            lemma_escape_end(bytes);
        }
        strip_ansi(bytes.subrange(escape_end(bytes), bytes.len() as int))
    } else {
        seq![bytes[0]] + strip_ansi(bytes.subrange(1, bytes.len() as int))
    }
}

/// Every escape in `bytes` is a complete control sequence `ESC [ ... letter`.
pub open spec fn escapes_closed(bytes: Seq<u8>) -> bool
    decreases bytes.len(),
{
    if bytes.len() == 0 {
        true
    } else if bytes[0] == 27u8 {
        proof {
            lemma_first_letter(bytes, 2);
        }
        &&& bytes.len() >= 2
        &&& bytes[1] == 91u8
        &&& first_letter(bytes, 2) < bytes.len()
        &&& escapes_closed(bytes.subrange(first_letter(bytes, 2) + 1, bytes.len() as int))
    } else {
        escapes_closed(bytes.subrange(1, bytes.len() as int))
    }
}

/// Bytes without an escape byte.
pub open spec fn no_escape(bytes: Seq<u8>) -> bool {
    lacks_byte(bytes, 27u8)
}

/// A letter found in `x` is found at the same place in `x + y`.
proof fn lemma_first_letter_concat(x: Seq<u8>, y: Seq<u8>, i: int)
    requires
        0 <= i,
        first_letter(x, i) < x.len(),
    ensures
        first_letter(x + y, i) == first_letter(x, i),
    decreases x.len() - i,
{
    if i < x.len() && !is_ascii_letter(x[i]) {
        lemma_first_letter_concat(x, y, i + 1);
    }
}

/// Stripping distributes over a concatenation whose first part has only
/// complete escapes, and complete escapes stay complete when concatenated.
pub proof fn lemma_strip_concat(x: Seq<u8>, y: Seq<u8>)
    requires
        escapes_closed(x),
    ensures
        strip_ansi(x + y) == strip_ansi(x) + strip_ansi(y),
        escapes_closed(y) ==> escapes_closed(x + y),
    decreases x.len(),
{
    let xy = x + y;
    if x.len() == 0 {
        assert(xy =~= y);
    } else if x[0] == 27u8 {
        lemma_first_letter(x, 2);
        lemma_first_letter_concat(x, y, 2);
        let c = first_letter(x, 2) + 1;
        assert(escape_end(xy) == c);
        assert(escape_end(x) == c);
        let rest = x.subrange(c, x.len() as int);
        lemma_strip_concat(rest, y);
        assert(xy.subrange(c, xy.len() as int) =~= rest + y);
    } else {
        let rest = x.subrange(1, x.len() as int);
        lemma_strip_concat(rest, y);
        assert(xy.subrange(1, xy.len() as int) =~= rest + y);
    }
}

/// Bytes without an escape are complete and strip to themselves.
pub proof fn lemma_strip_plain(bytes: Seq<u8>)
    requires
        no_escape(bytes),
    ensures
        escapes_closed(bytes),
        strip_ansi(bytes) == bytes,
    decreases bytes.len(),
{
    if bytes.len() > 0 {
        let rest = bytes.subrange(1, bytes.len() as int);
        assert(bytes[0] != 27u8);
        lemma_strip_plain(rest);
        assert(seq![bytes[0]] + rest =~= bytes);
    }
}

/// A code that disappears when escapes are stripped.
pub open spec fn strips_away(code: Seq<u8>) -> bool {
    escapes_closed(code) && strip_ansi(code) == Seq::<u8>::empty()
}

/// Every code of `cs` disappears when escapes are stripped.
pub open spec fn scheme_strips_away(cs: ColorScheme) -> bool {
    &&& strips_away(cs.reset.spec_bytes())
    &&& strips_away(cs.keyword.spec_bytes())
    &&& strips_away(cs.identifier.spec_bytes())
    &&& strips_away(cs.string.spec_bytes())
    &&& strips_away(cs.number.spec_bytes())
    &&& strips_away(cs.regex.spec_bytes())
    &&& strips_away(cs.comment.spec_bytes())
    &&& strips_away(cs.gutter.spec_bytes())
    &&& strips_away(cs.marker.spec_bytes())
}

/// A control sequence `ESC [ d m` with one digit `d`.
proof fn lemma_code1(d: u8)
    requires
        48 <= d <= 57,
    ensures
        strips_away(seq![27u8, 91u8, d, 109u8]),
{
    let s = seq![27u8, 91u8, d, 109u8];
    reveal_with_fuel(first_letter, 3);
    assert(first_letter(s, 2) == 3);
    assert(s.subrange(4, 4) =~= Seq::<u8>::empty());
    assert(escape_end(s) == 4);
    assert(escapes_closed(Seq::<u8>::empty()));
    assert(strip_ansi(Seq::<u8>::empty()) == Seq::<u8>::empty());
}

/// A control sequence `ESC [ d e m` with two digits.
proof fn lemma_code2(d: u8, e: u8)
    requires
        48 <= d <= 57,
        48 <= e <= 57,
    ensures
        strips_away(seq![27u8, 91u8, d, e, 109u8]),
{
    let s = seq![27u8, 91u8, d, e, 109u8];
    reveal_with_fuel(first_letter, 4);
    assert(first_letter(s, 2) == 4);
    assert(s.subrange(5, 5) =~= Seq::<u8>::empty());
    assert(escape_end(s) == 5);
    assert(escapes_closed(Seq::<u8>::empty()));
    assert(strip_ansi(Seq::<u8>::empty()) == Seq::<u8>::empty());
}

/// The bytes of an ASCII string literal are its characters.
proof fn lemma_ascii_bytes(s: &str, b: Seq<u8>)
    requires
        s@.len() == b.len(),
        forall|i: int| 0 <= i < b.len() ==> #[trigger] s@[i] == b[i] as char && b[i] < 128,
    ensures
        s.spec_bytes() == b,
{
    assert(is_ascii_chars(s@));
    vstd::utf8::is_ascii_chars_encode_utf8(s@);
    assert(s.spec_bytes() =~= b);
}

/// The bytes of the codes of the ANSI colour scheme.
pub proof fn lemma_colored_scheme_bytes()
    ensures
        spec_colored_scheme().reset.spec_bytes() == seq![27u8, 91u8, 48u8, 109u8],
        spec_colored_scheme().keyword.spec_bytes() == seq![27u8, 91u8, 51u8, 54u8, 109u8],
        spec_colored_scheme().identifier.spec_bytes() == seq![27u8, 91u8, 51u8, 51u8, 109u8],
        spec_colored_scheme().string.spec_bytes() == seq![27u8, 91u8, 51u8, 50u8, 109u8],
        spec_colored_scheme().number.spec_bytes() == seq![27u8, 91u8, 51u8, 53u8, 109u8],
        spec_colored_scheme().regex.spec_bytes() == seq![27u8, 91u8, 51u8, 53u8, 109u8],
        spec_colored_scheme().comment.spec_bytes() == seq![27u8, 91u8, 57u8, 48u8, 109u8],
        spec_colored_scheme().gutter.spec_bytes() == seq![27u8, 91u8, 57u8, 48u8, 109u8],
        spec_colored_scheme().marker.spec_bytes() == seq![27u8, 91u8, 51u8, 49u8, 109u8]
            + seq![27u8, 91u8, 49u8, 109u8],
{
    let cs = spec_colored_scheme();
    reveal_strlit("\x1b[0m");
    reveal_strlit("\x1b[36m");
    reveal_strlit("\x1b[33m");
    reveal_strlit("\x1b[32m");
    reveal_strlit("\x1b[35m");
    reveal_strlit("\x1b[90m");
    reveal_strlit("\x1b[31m\x1b[1m");
    lemma_ascii_bytes(cs.reset, seq![27u8, 91u8, 48u8, 109u8]);
    lemma_ascii_bytes(cs.keyword, seq![27u8, 91u8, 51u8, 54u8, 109u8]);
    lemma_ascii_bytes(cs.identifier, seq![27u8, 91u8, 51u8, 51u8, 109u8]);
    lemma_ascii_bytes(cs.string, seq![27u8, 91u8, 51u8, 50u8, 109u8]);
    lemma_ascii_bytes(cs.number, seq![27u8, 91u8, 51u8, 53u8, 109u8]);
    lemma_ascii_bytes(cs.comment, seq![27u8, 91u8, 57u8, 48u8, 109u8]);
    lemma_ascii_bytes(cs.marker, seq![27u8, 91u8, 51u8, 49u8, 109u8] + seq![27u8, 91u8, 49u8, 109u8]);
}

/// The codes of the ANSI colour scheme are complete control sequences.
pub proof fn lemma_colored_scheme_strips_away()
    ensures
        scheme_strips_away(spec_colored_scheme()),
{
    lemma_colored_scheme_bytes();
    let red = seq![27u8, 91u8, 51u8, 49u8, 109u8];
    let bold = seq![27u8, 91u8, 49u8, 109u8];
    lemma_code1(48u8);
    lemma_code1(49u8);
    lemma_code2(51u8, 54u8);
    lemma_code2(51u8, 51u8);
    lemma_code2(51u8, 50u8);
    lemma_code2(51u8, 53u8);
    lemma_code2(57u8, 48u8);
    lemma_code2(51u8, 49u8);
    lemma_strip_concat(red, bold);
    assert(Seq::<u8>::empty() + Seq::<u8>::empty() =~= Seq::<u8>::empty());
}

/// Stripping the fold's output of a scheme whose codes strip away leaves the
/// line up to the offset the fold reached.
proof fn lemma_strip_fold(line: Seq<u8>, markers: Seq<StyleMarker>, cs: ColorScheme)
    requires
        no_escape(line),
        scheme_strips_away(cs),
    ensures
        0 <= apply_fold(line, markers, cs).1 <= line.len(),
        escapes_closed(apply_fold(line, markers, cs).0),
        strip_ansi(apply_fold(line, markers, cs).0) == line.subrange(0, apply_fold(line, markers, cs).1),
    decreases markers.len(),
{
    if markers.len() == 0 {
        assert(line.subrange(0, 0) =~= Seq::<u8>::empty());
    } else {
        let prev = apply_fold(line, markers.drop_last(), cs);
        lemma_strip_fold(line, markers.drop_last(), cs);
        let m = markers.last();
        let end = if m.offset < line.len() {
            m.offset as int
        } else {
            line.len() as int
        };
        let out1 = if m.offset > prev.1 {
            let piece = line.subrange(prev.1, end);
            assert(no_escape(piece)) by {
                assert forall|i: int| 0 <= i < piece.len() implies #[trigger] piece[i] != 27u8 by {
                    assert(piece[i] == line[prev.1 + i]);
                }
            }
            lemma_strip_plain(piece);
            lemma_strip_concat(prev.0, piece);
            assert(line.subrange(0, prev.1) + piece =~= line.subrange(0, end));
            prev.0 + piece
        } else {
            prev.0
        };
        let code = color_of(cs, m.token_type).spec_bytes();
        assert(strips_away(code));
        lemma_strip_concat(out1, code);
        lemma_strip_concat(out1, cs.reset.spec_bytes());
        let r = strip_ansi(out1);
        assert(r + Seq::<u8>::empty() =~= r);
    }
}

/// Removing the escape sequences from a line highlighted with a scheme whose
/// codes are complete control sequences gives back the line, when the line
/// itself has no escape byte.
pub proof fn law_stripped_highlighting_keeps_line(line: Seq<u8>, markers: Seq<StyleMarker>, cs: ColorScheme)
    requires
        no_escape(line),
        scheme_strips_away(cs),
    ensures
        strip_ansi(spec_apply_line_highlights(line, markers, cs)) == line,
        escapes_closed(spec_apply_line_highlights(line, markers, cs)),
{
    lemma_strip_plain(line);
    if markers.len() > 0 {
        lemma_strip_fold(line, markers, cs);
        let st = apply_fold(line, markers, cs);
        let tail = line.subrange(st.1, line.len() as int);
        assert(no_escape(tail)) by {
            assert forall|i: int| 0 <= i < tail.len() implies #[trigger] tail[i] != 27u8 by {
                assert(tail[i] == line[st.1 + i]);
            }
        }
        lemma_strip_plain(tail);
        lemma_strip_concat(st.0, tail);
        assert(line.subrange(0, st.1) + tail =~= line);
        let out = if st.1 < line.len() {
            st.0 + tail
        } else {
            assert(line.subrange(0, st.1) =~= line);
            st.0
        };
        lemma_strip_concat(out, cs.reset.spec_bytes());
        assert(line + Seq::<u8>::empty() =~= line);
    }
}

/// Highlighting with the ANSI colour scheme only adds escape sequences: with
/// them removed, a line without escape bytes comes back unchanged.
pub proof fn law_colored_highlighting_keeps_text(line: Seq<u8>, markers: Seq<StyleMarker>)
    requires
        no_escape(line),
    ensures
        strip_ansi(spec_apply_line_highlights(line, markers, spec_colored_scheme())) == line,
{
    lemma_colored_scheme_strips_away();
    law_stripped_highlighting_keeps_line(line, markers, spec_colored_scheme());
}

} // verus!

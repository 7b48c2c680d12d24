//! Syntax-highlighting data: style markers, per-line highlights, colour schemes,
//! and the operations that group, shift and render markers.
use std::ops::Range;
use vstd::prelude::*;
use vstd::string::StringSliceAdditionalSpecFns;
use vstd::utf8::*;

use crate::lines::{
    compute_line_starts, lemma_line_starts, line_bounds, line_starts_wf, lookup_line,
    lemma_lookup_line, spec_line_bounds, spec_line_starts, spec_lookup_line,
};
use crate::patterns::regex_compiles;
use crate::scanner::{
    extract_markers, spec_scan, LastToken, ScanCtx, Tokenizer, REGEX_LITERAL_PATTERN, TOKEN_PATTERN,
};
use crate::text::{
    into_string, lacks_byte, lemma_empty_utf8, lemma_str_bytes, lemma_utf8_valid, push_str, str_eq,
    str_len, str_slice, utf8_valid,
};

verus! {

broadcast use vstd::utf8::encode_utf8_valid_utf8;

/// Token types for syntax highlighting
#[derive(Debug, Clone, Copy, PartialEq, Eq, Structural, PartialOrd, Ord, Hash)]
pub enum TokenType {
    Keyword,
    Identifier,
    String,
    Number,
    Regex,
    Comment,
}

/// Position of a token type in declaration order; markers sort by it last.
pub open spec fn token_rank(t: TokenType) -> int {
    match t {
        TokenType::Keyword => 0,
        TokenType::Identifier => 1,
        TokenType::String => 2,
        TokenType::Number => 3,
        TokenType::Regex => 4,
        TokenType::Comment => 5,
    }
}

/// A style marker at a specific byte offset in the source
/// Represents either the start or end of a styled region
#[derive(Debug, Clone, Copy, PartialEq, Eq, Structural, PartialOrd, Ord, Hash)]
pub struct StyleMarker {
    /// Byte offset in the source (0-indexed)
    pub offset: usize,
    /// Whether this is a start (true) or end (false) marker
    pub is_start: bool,
    /// The token type being styled
    pub token_type: TokenType,
}

/// The order in which markers are sorted: by offset, then end markers before
/// start markers, then by token type.
pub open spec fn marker_le(a: StyleMarker, b: StyleMarker) -> bool {
    if a.offset != b.offset {
        a.offset < b.offset
    } else if a.is_start != b.is_start {
        !a.is_start
    } else {
        token_rank(a.token_type) <= token_rank(b.token_type)
    }
}

/// The sorting order of markers as a relation.
pub open spec fn marker_order() -> spec_fn(StyleMarker, StyleMarker) -> bool {
    |a: StyleMarker, b: StyleMarker| marker_le(a, b)
}

/// The marker order is a total order.
pub proof fn lemma_marker_order_total()
    ensures
        vstd::relations::total_ordering(marker_order()),
{
    let r = marker_order();
    assert forall|a: StyleMarker, b: StyleMarker| #[trigger] r(a, b) && #[trigger] r(b, a) implies a == b by {
        assert(token_rank(a.token_type) == token_rank(b.token_type) ==> a.token_type == b.token_type);
    }
}

/// Whether `a` sorts before or together with `b`.
pub fn marker_le_exec(a: &StyleMarker, b: &StyleMarker) -> (res: bool)
    ensures
        res == marker_le(*a, *b),
{
    if a.offset != b.offset {
        a.offset < b.offset
    } else if a.is_start != b.is_start {
        !a.is_start
    } else {
        token_rank_exec(a.token_type) <= token_rank_exec(b.token_type)
    }
}

/// Position of a token type in declaration order.
fn token_rank_exec(t: TokenType) -> (r: u8)
    ensures
        r == token_rank(t),
{
    match t {
        TokenType::Keyword => 0,
        TokenType::Identifier => 1,
        TokenType::String => 2,
        TokenType::Number => 3,
        TokenType::Regex => 4,
        TokenType::Comment => 5,
    }
}

/// Markers in sorted order (by offset, then end before start, then token type).
pub fn sort_markers(markers: &Vec<StyleMarker>) -> (res: Vec<StyleMarker>)
    ensures
        res@ == markers@.sort_by(marker_order()),
        offsets_sorted(res@),
{
    broadcast use vstd::seq_lib::group_to_multiset_ensures;

    let ghost ord = marker_order();
    let mut out: Vec<StyleMarker> = Vec::new();
    let mut i: usize = 0;
    while i < markers.len()
        invariant
            0 <= i <= markers@.len(),
            ord == marker_order(),
            vstd::relations::sorted_by(out@, ord),
            out@.to_multiset() == markers@.subrange(0, i as int).to_multiset(),
        decreases markers@.len() - i,
    {
        let x = markers[i];
        let mut p = out.len();
        while p > 0 && !marker_le_exec(&out[p - 1], &x)
            invariant
                0 <= p <= out@.len(),
                forall|k: int| p <= k < out@.len() ==> !marker_le(#[trigger] out@[k], x),
            decreases p,
        {
            p = p - 1;
        }
        let ghost before = out@;
        proof {
            assert forall|k: int| 0 <= k < p implies marker_le(#[trigger] before[k], x) by {
                assert(ord(before[k], before[p - 1]));
            }
        }
        out.insert(p, x);
        proof {
            vstd::seq_lib::to_multiset_insert(before, p as int, x);
            assert(markers@.subrange(0, i + 1) =~= markers@.subrange(0, i as int).push(x));
            vstd::seq_lib::to_multiset_build(markers@.subrange(0, i as int), x);
            assert(out@ == before.insert(p as int, x));
            assert(out@.to_multiset() == markers@.subrange(0, i + 1).to_multiset());
            assert forall|a: int, b: int| 0 <= a < b < out@.len() implies #[trigger] ord(out@[a], out@[b]) by {
                if b < p {
                    assert(out@[a] == before[a] && out@[b] == before[b]);
                } else if b == p {
                    assert(out@[a] == before[a]);
                } else if a < p {
                    assert(out@[a] == before[a] && out@[b] == before[b - 1]);
                    assert(!marker_le(before[b - 1], x));
                } else if a == p {
                    assert(out@[b] == before[b - 1]);
                    assert(!marker_le(before[b - 1], x));
                } else {
                    assert(out@[a] == before[a - 1] && out@[b] == before[b - 1]);
                }
            }
        }
        i = i + 1;
    }
    proof {
        assert(markers@.subrange(0, markers@.len() as int) =~= markers@);
        lemma_marker_order_total();
        markers@.lemma_sort_by_ensures(ord);
        vstd::seq_lib::lemma_sorted_unique(out@, markers@.sort_by(ord), ord);
        assert forall|a: int, b: int| 0 <= a <= b < out@.len() implies #[trigger] out@[a].offset <= #[trigger] out@[b].offset by {
            if a < b {
                assert(ord(out@[a], out@[b]));
            }
        }
    }
    out
}

/// Markers whose offsets never decrease.
pub open spec fn offsets_sorted(m: Seq<StyleMarker>) -> bool {
    forall|i: int, j: int| 0 <= i <= j < m.len() ==> #[trigger] m[i].offset <= #[trigger] m[j].offset
}

/// Highlighting information for a single line
/// Contains sorted style markers that should be applied when rendering the line
#[derive(Debug, Clone)]
pub struct LineHighlight {
    /// Line number (1-indexed)
    pub line: usize,
    /// Byte offset where this line starts in the source
    pub line_start_offset: usize,
    /// Byte offset where this line ends (exclusive) in the source
    pub line_end_offset: usize,
    /// Style markers for this line, sorted by offset
    /// Offsets are relative to line_start_offset
    pub markers: Vec<StyleMarker>,
}

/// Language hint for keyword highlighting.
///
/// Determines which set of keywords are recognized as `TokenType::Keyword`.
/// Non-keyword tokens (strings, comments, numbers, etc.) are language-agnostic.
#[derive(Debug, Clone, Copy, PartialEq, Eq, Structural, Default)]
pub enum Language {
    /// JavaScript/TypeScript keywords
    #[default]
    JavaScript,
    /// CSS keywords (currently empty — CSS has no keyword highlighting)
    Css,
}

/// The JavaScript/TypeScript keywords.
pub open spec fn is_js_keyword(s: Seq<char>) -> bool {
    ||| s == "as"@ ||| s == "async"@ ||| s == "await"@ ||| s == "break"@
    ||| s == "case"@ ||| s == "catch"@ ||| s == "class"@ ||| s == "const"@
    ||| s == "continue"@ ||| s == "debugger"@ ||| s == "default"@ ||| s == "delete"@
    ||| s == "do"@ ||| s == "else"@ ||| s == "enum"@ ||| s == "export"@
    ||| s == "extends"@ ||| s == "false"@ ||| s == "finally"@ ||| s == "for"@
    ||| s == "from"@ ||| s == "function"@ ||| s == "if"@ ||| s == "implements"@
    ||| s == "import"@ ||| s == "in"@ ||| s == "instanceof"@ ||| s == "interface"@
    ||| s == "let"@ ||| s == "new"@ ||| s == "null"@ ||| s == "of"@
    ||| s == "package"@ ||| s == "private"@ ||| s == "protected"@ ||| s == "public"@
    ||| s == "return"@ ||| s == "static"@ ||| s == "super"@ ||| s == "switch"@
    ||| s == "this"@ ||| s == "throw"@ ||| s == "true"@ ||| s == "try"@
    ||| s == "type"@ ||| s == "typeof"@ ||| s == "undefined"@ ||| s == "var"@
    ||| s == "void"@ ||| s == "while"@ ||| s == "with"@ ||| s == "yield"@
}

/// Whether `s` is a keyword of `lang`.
pub open spec fn spec_is_keyword(lang: Language, s: Seq<char>) -> bool {
    match lang {
        Language::JavaScript => is_js_keyword(s),
        Language::Css => false,
    }
}

impl Language {
    /// Returns true if the given identifier is a keyword in this language.
    pub fn is_keyword(self, ident: &str) -> (res: bool)
        ensures
            res == spec_is_keyword(self, ident@),
    {
        match self {
            Language::JavaScript => {
                str_eq(ident, "as") || str_eq(ident, "async") || str_eq(ident, "await")
                    || str_eq(ident, "break") || str_eq(ident, "case") || str_eq(ident, "catch")
                    || str_eq(ident, "class") || str_eq(ident, "const") || str_eq(
                    ident,
                    "continue",
                ) || str_eq(ident, "debugger") || str_eq(ident, "default") || str_eq(
                    ident,
                    "delete",
                ) || str_eq(ident, "do") || str_eq(ident, "else") || str_eq(ident, "enum")
                    || str_eq(ident, "export") || str_eq(ident, "extends") || str_eq(
                    ident,
                    "false",
                ) || str_eq(ident, "finally") || str_eq(ident, "for") || str_eq(ident, "from")
                    || str_eq(ident, "function") || str_eq(ident, "if") || str_eq(
                    ident,
                    "implements",
                ) || str_eq(ident, "import") || str_eq(ident, "in") || str_eq(
                    ident,
                    "instanceof",
                ) || str_eq(ident, "interface") || str_eq(ident, "let") || str_eq(ident, "new")
                    || str_eq(ident, "null") || str_eq(ident, "of") || str_eq(ident, "package")
                    || str_eq(ident, "private") || str_eq(ident, "protected") || str_eq(
                    ident,
                    "public",
                ) || str_eq(ident, "return") || str_eq(ident, "static") || str_eq(
                    ident,
                    "super",
                ) || str_eq(ident, "switch") || str_eq(ident, "this") || str_eq(ident, "throw")
                    || str_eq(ident, "true") || str_eq(ident, "try") || str_eq(ident, "type")
                    || str_eq(ident, "typeof") || str_eq(ident, "undefined") || str_eq(
                    ident,
                    "var",
                ) || str_eq(ident, "void") || str_eq(ident, "while") || str_eq(ident, "with")
                    || str_eq(ident, "yield")
            },
            Language::Css => false,
        }
    }
}

/// ANSI color codes for token types
#[derive(Debug, Clone, Copy)]
pub struct ColorScheme {
    pub reset: &'static str,
    pub keyword: &'static str,
    pub identifier: &'static str,
    pub string: &'static str,
    pub number: &'static str,
    pub regex: &'static str,
    pub comment: &'static str,
    pub gutter: &'static str,
    pub marker: &'static str,
}

/// The colour that `cs` gives to token type `t`.
pub open spec fn color_of(cs: ColorScheme, t: TokenType) -> &'static str {
    match t {
        TokenType::Keyword => cs.keyword,
        TokenType::Identifier => cs.identifier,
        TokenType::String => cs.string,
        TokenType::Number => cs.number,
        TokenType::Regex => cs.regex,
        TokenType::Comment => cs.comment,
    }
}

/// A colour scheme whose every code is the empty string.
pub open spec fn is_plain_scheme(cs: ColorScheme) -> bool {
    &&& cs.reset@ == Seq::<char>::empty()
    &&& cs.keyword@ == Seq::<char>::empty()
    &&& cs.identifier@ == Seq::<char>::empty()
    &&& cs.string@ == Seq::<char>::empty()
    &&& cs.number@ == Seq::<char>::empty()
    &&& cs.regex@ == Seq::<char>::empty()
    &&& cs.comment@ == Seq::<char>::empty()
    &&& cs.gutter@ == Seq::<char>::empty()
    &&& cs.marker@ == Seq::<char>::empty()
}

/// The ANSI colour scheme.
pub open spec fn spec_colored_scheme() -> ColorScheme {
    ColorScheme {
        reset: "\x1b[0m",
        keyword: "\x1b[36m",
        identifier: "\x1b[33m",
        string: "\x1b[32m",
        number: "\x1b[35m",
        regex: "\x1b[35m",
        comment: "\x1b[90m",
        gutter: "\x1b[90m",
        marker: "\x1b[31m\x1b[1m",
    }
}

/// The colour scheme without colours.
pub open spec fn spec_plain_scheme() -> ColorScheme {
    ColorScheme {
        reset: "",
        keyword: "",
        identifier: "",
        string: "",
        number: "",
        regex: "",
        comment: "",
        gutter: "",
        marker: "",
    }
}

impl ColorScheme {
    /// Get a color scheme with ANSI colors (matching babel-code-frame)
    pub fn colored() -> (res: Self)
        ensures
            res == spec_colored_scheme(),
            res.reset@ == "\x1b[0m"@,
            res.keyword@ == "\x1b[36m"@,
            res.identifier@ == "\x1b[33m"@,
            res.string@ == "\x1b[32m"@,
            res.number@ == "\x1b[35m"@,
            res.regex@ == "\x1b[35m"@,
            res.comment@ == "\x1b[90m"@,
            res.gutter@ == "\x1b[90m"@,
            res.marker@ == "\x1b[31m\x1b[1m"@,
    {
        ColorScheme {
            reset: "\x1b[0m",
            keyword: "\x1b[36m",  // cyan
            identifier: "\x1b[33m",  // yellow
            string: "\x1b[32m",  // green
            number: "\x1b[35m",  // magenta
            regex: "\x1b[35m",  // magenta
            comment: "\x1b[90m",  // gray
            gutter: "\x1b[90m",  // gray
            marker: "\x1b[31m\x1b[1m",  // red + bold
        }
    }

    /// Get a plain color scheme with no ANSI codes (all empty strings)
    pub fn plain() -> (res: Self)
        ensures
            res == spec_plain_scheme(),
            is_plain_scheme(res),
    {
        proof {
            reveal_strlit("");
            assert(""@ =~= Seq::<char>::empty());
        }
        ColorScheme {
            reset: "",
            keyword: "",
            identifier: "",
            string: "",
            number: "",
            regex: "",
            comment: "",
            gutter: "",
            marker: "",
        }
    }

    /// Get the color for a token type
    pub fn color_for_token(&self, token_type: TokenType) -> (res: &'static str)
        ensures
            res == color_of(*self, token_type),
    {
        match token_type {
            TokenType::Keyword => self.keyword,
            TokenType::Identifier => self.identifier,
            TokenType::String => self.string,
            TokenType::Number => self.number,
            TokenType::Regex => self.regex,
            TokenType::Comment => self.comment,
        }
    }
}

// ---------------------------------------------------------------------------
// Marker pairs
// ---------------------------------------------------------------------------

/// A start marker.
pub open spec fn start_marker(offset: int, t: TokenType) -> StyleMarker {
    StyleMarker { offset: offset as usize, is_start: true, token_type: t }
}

/// An end marker.
pub open spec fn end_marker(offset: int, t: TokenType) -> StyleMarker {
    StyleMarker { offset: offset as usize, is_start: false, token_type: t }
}

/// Whether the span `[s, e)` reaches into the byte range `range`.
pub open spec fn touches(s: int, e: int, range: (usize, usize)) -> bool {
    !(e <= range.0 || s >= range.1)
}

/// The markers of a span `[start, end)` cut at the lines `from..to`: for each
/// line, the part of the span on it, when non-empty and inside `range`.
pub open spec fn spec_split_pair(
    ls: Seq<usize>,
    len: int,
    start: int,
    end: int,
    t: TokenType,
    range: (usize, usize),
    from: int,
    to: int,
) -> Seq<StyleMarker>
    decreases to - from,
{
    if to <= from {
        seq![]
    } else {
        let prev = spec_split_pair(ls, len, start, end, t, range, from, to - 1);
        let b = spec_line_bounds(ls, len, to - 1);
        let ms = if start > b.0 {
            start
        } else {
            b.0
        };
        let me = if end < b.1 {
            end
        } else {
            b.1
        };
        if ms < me && touches(ms, me, range) {
            prev + seq![start_marker(ms, t), end_marker(me, t)]
        } else {
            prev
        }
    }
}

/// The markers for a token spanning `[start, end)`: nothing when the span is
/// empty or outside `range`; one start/end pair when it lies on one line;
/// otherwise one pair per line it covers.
pub open spec fn spec_marker_pair(
    ls: Seq<usize>,
    len: int,
    start: int,
    end: int,
    t: TokenType,
    range: (usize, usize),
) -> Seq<StyleMarker> {
    if start >= end || end <= range.0 || start >= range.1 {
        seq![]
    } else {
        let sl = spec_lookup_line(ls, start);
        let el = spec_lookup_line(ls, end - 1);
        if sl != el {
            spec_split_pair(ls, len, start, end, t, range, sl, el + 1)
        } else {
            seq![start_marker(start, t), end_marker(end, t)]
        }
    }
}

/// Markers that come in pairs of type `t` within `[start, end]`: each pair a
/// start marker followed by an end marker further on, reaching into `range`.
pub open spec fn paired_markers(m: Seq<StyleMarker>, start: int, end: int, t: TokenType, range: (usize, usize)) -> bool
    decreases m.len(),
{
    if m.len() == 0 {
        true
    } else if m.len() == 1 {
        false
    } else {
        let s = m[m.len() - 2];
        let e = m[m.len() - 1];
        &&& paired_markers(m.subrange(0, m.len() - 2), start, end, t, range)
        &&& s.is_start && !e.is_start
        &&& s.token_type == t && e.token_type == t
        &&& start <= s.offset < e.offset <= end
        &&& touches(s.offset as int, e.offset as int, range)
    }
}

/// Adding one more pair within the span keeps markers paired.
proof fn lemma_pairs_push(
    prev: Seq<StyleMarker>,
    ms: int,
    me: int,
    start: int,
    end: int,
    t: TokenType,
    range: (usize, usize),
)
    requires
        paired_markers(prev, start, end, t, range),
        0 <= start <= ms < me <= end <= usize::MAX,
        touches(ms, me, range),
    ensures
        paired_markers(prev + seq![start_marker(ms, t), end_marker(me, t)], start, end, t, range),
{
    let m = prev + seq![start_marker(ms, t), end_marker(me, t)];
    assert(m.subrange(0, m.len() - 2) =~= prev);
}

/// The per-line pieces of a span come in pairs.
proof fn lemma_split_pairs(
    ls: Seq<usize>,
    len: int,
    start: int,
    end: int,
    t: TokenType,
    range: (usize, usize),
    from: int,
    to: int,
)
    requires
        0 <= start,
        end <= usize::MAX,
    ensures
        paired_markers(spec_split_pair(ls, len, start, end, t, range, from, to), start, end, t, range),
    decreases to - from,
{
    if to > from {
        let prev = spec_split_pair(ls, len, start, end, t, range, from, to - 1);
        lemma_split_pairs(ls, len, start, end, t, range, from, to - 1);
        let b = spec_line_bounds(ls, len, to - 1);
        let ms = if start > b.0 {
            start
        } else {
            b.0
        };
        let me = if end < b.1 {
            end
        } else {
            b.1
        };
        if ms < me && touches(ms, me, range) {
            lemma_pairs_push(prev, ms, me, start, end, t, range);
        }
    }
}

/// The markers of a span come in pairs: a start marker followed by the end
/// marker of the same type further on, both within the span, each pair
/// reaching into the kept byte range.
pub proof fn law_marker_pairs(
    ls: Seq<usize>,
    len: int,
    start: int,
    end: int,
    t: TokenType,
    range: (usize, usize),
)
    requires
        0 <= start,
        end <= usize::MAX,
    ensures
        paired_markers(spec_marker_pair(ls, len, start, end, t, range), start, end, t, range),
{
    if !(start >= end || end <= range.0 || start >= range.1) {
        let sl = spec_lookup_line(ls, start);
        let el = spec_lookup_line(ls, end - 1);
        if sl != el {
            lemma_split_pairs(ls, len, start, end, t, range, sl, el + 1);
        } else {
            let e = Seq::<StyleMarker>::empty();
            lemma_pairs_push(e, start, end, start, end, t, range);
            assert(e + seq![start_marker(start, t), end_marker(end, t)] =~= seq![
                start_marker(start, t),
                end_marker(end, t),
            ]);
        }
    }
}

/// Push a start+end marker pair for a byte range, splitting at line boundaries
/// for multiline spans. Skips markers outside `byte_range`.
pub fn add_marker_pair(
    markers: &mut Vec<StyleMarker>,
    line_starts: &[usize],
    source_len: usize,
    start: usize,
    end: usize,
    token_type: TokenType,
    byte_range: (usize, usize),
)
    requires
        line_starts_wf(line_starts@, source_len as int),
    ensures
        final(markers)@ == old(markers)@ + spec_marker_pair(
            line_starts@,
            source_len as int,
            start as int,
            end as int,
            token_type,
            byte_range,
        ),
{
    let ghost old_markers = markers@;
    if start >= end {
        assert(markers@ =~= old_markers + Seq::<StyleMarker>::empty());
        return ;
    }
    let (range_start, range_end) = byte_range;
    if end <= range_start || start >= range_end {
        assert(markers@ =~= old_markers + Seq::<StyleMarker>::empty());
        return ;
    }
    let start_line = lookup_line(line_starts, start);
    let end_line = lookup_line(line_starts, end - 1);
    proof {
        lemma_lookup_line(line_starts@, source_len as int, start as int);
        lemma_lookup_line(line_starts@, source_len as int, end - 1);
    }
    if start_line != end_line {
        let mut line_idx = start_line;
        while line_idx <= end_line
            invariant
                start_line <= line_idx <= end_line + 1,
                end_line < line_starts@.len(),
                end_line < line_starts.len(),
                markers@ == old_markers + spec_split_pair(
                    line_starts@,
                    source_len as int,
                    start as int,
                    end as int,
                    token_type,
                    byte_range,
                    start_line as int,
                    line_idx as int,
                ),
                byte_range == (range_start, range_end),
            decreases end_line + 1 - line_idx,
        {
            let (line_start, line_end) = line_bounds(line_starts, source_len, line_idx);
            let marker_start = if start > line_start {
                start
            } else {
                line_start
            };
            let marker_end = if end < line_end {
                end
            } else {
                line_end
            };
            let ghost before = markers@;
            if marker_start < marker_end && !(marker_end <= range_start || marker_start
                >= range_end) {
                markers.push(StyleMarker { offset: marker_start, is_start: true, token_type });
                markers.push(StyleMarker { offset: marker_end, is_start: false, token_type });
                assert(markers@ =~= before + seq![
                    start_marker(marker_start as int, token_type),
                    end_marker(marker_end as int, token_type),
                ]);
            }
            line_idx = line_idx + 1;
        }
        return ;
    }
    markers.push(StyleMarker { offset: start, is_start: true, token_type });
    markers.push(StyleMarker { offset: end, is_start: false, token_type });
    assert(markers@ =~= old_markers + seq![
        start_marker(start as int, token_type),
        end_marker(end as int, token_type),
    ]);
}

/// Markers that all point into the text, at character boundaries.
pub open spec fn markers_in_text(m: Seq<StyleMarker>, bytes: Seq<u8>) -> bool {
    forall|i: int|
        0 <= i < m.len() ==> (#[trigger] m[i]).offset <= bytes.len() && is_char_boundary(
            bytes,
            m[i].offset as int,
        )
}

/// Line starts that all fall on character boundaries of the text.
pub open spec fn line_starts_on_boundaries(ls: Seq<usize>, bytes: Seq<u8>) -> bool {
    forall|k: int| 0 <= k < ls.len() ==> is_char_boundary(bytes, #[trigger] ls[k] as int)
}

/// Two sequences of markers pointing into the text concatenate to one.
pub proof fn lemma_in_text_concat(a: Seq<StyleMarker>, b: Seq<StyleMarker>, bytes: Seq<u8>)
    requires
        markers_in_text(a, bytes),
        markers_in_text(b, bytes),
    ensures
        markers_in_text(a + b, bytes),
{
    assert forall|i: int| 0 <= i < (a + b).len() implies (#[trigger] (a + b)[i]).offset <= bytes.len()
        && is_char_boundary(bytes, (a + b)[i].offset as int) by {
        if i < a.len() {
            assert((a + b)[i] == a[i]);
        } else {
            assert((a + b)[i] == b[i - a.len()]);
        }
    }
}

/// The pieces of a span cut at lines point into the text when the span and the
/// line starts do.
proof fn lemma_split_pair_in_text(
    ls: Seq<usize>,
    bytes: Seq<u8>,
    start: int,
    end: int,
    t: TokenType,
    range: (usize, usize),
    from: int,
    to: int,
)
    requires
        valid_utf8(bytes),
        bytes.len() <= usize::MAX,
        line_starts_wf(ls, bytes.len() as int),
        line_starts_on_boundaries(ls, bytes),
        0 <= start <= end <= bytes.len(),
        is_char_boundary(bytes, start),
        is_char_boundary(bytes, end),
        0 <= from,
        to <= ls.len(),
    ensures
        markers_in_text(spec_split_pair(ls, bytes.len() as int, start, end, t, range, from, to), bytes),
    decreases to - from,
{
    if to > from {
        lemma_split_pair_in_text(ls, bytes, start, end, t, range, from, to - 1);
        is_char_boundary_start_end_of_seq(bytes);
        let prev = spec_split_pair(ls, bytes.len() as int, start, end, t, range, from, to - 1);
        let b = spec_line_bounds(ls, bytes.len() as int, to - 1);
        assert(is_char_boundary(bytes, ls[to - 1] as int));
        if to < ls.len() {
            assert(is_char_boundary(bytes, ls[to] as int));
        }
        let ms = if start > b.0 { start } else { b.0 };
        let me = if end < b.1 { end } else { b.1 };
        if ms < me && touches(ms, me, range) {
            let pair = seq![start_marker(ms, t), end_marker(me, t)];
            assert(is_char_boundary(bytes, ms));
            assert(is_char_boundary(bytes, me));
            assert(pair[0].offset == ms);
            assert(pair[1].offset == me);
            assert(markers_in_text(pair, bytes));
            lemma_in_text_concat(prev, pair, bytes);
        }
    }
}

/// The markers of a span point into the text when the span and the line starts do.
pub proof fn lemma_marker_pair_in_text(
    ls: Seq<usize>,
    bytes: Seq<u8>,
    start: int,
    end: int,
    t: TokenType,
    range: (usize, usize),
)
    requires
        valid_utf8(bytes),
        bytes.len() <= usize::MAX,
        line_starts_wf(ls, bytes.len() as int),
        line_starts_on_boundaries(ls, bytes),
        0 <= start <= end <= bytes.len(),
        is_char_boundary(bytes, start),
        is_char_boundary(bytes, end),
    ensures
        markers_in_text(spec_marker_pair(ls, bytes.len() as int, start, end, t, range), bytes),
{
    if !(start >= end || end <= range.0 || start >= range.1) {
        lemma_lookup_line(ls, bytes.len() as int, start);
        lemma_lookup_line(ls, bytes.len() as int, end - 1);
        let sl = spec_lookup_line(ls, start);
        let el = spec_lookup_line(ls, end - 1);
        if sl != el {
            lemma_split_pair_in_text(ls, bytes, start, end, t, range, sl, el + 1);
        } else {
            let pair = seq![start_marker(start, t), end_marker(end, t)];
            assert(pair[0].offset == start);
            assert(pair[1].offset == end);
            assert(markers_in_text(pair, bytes));
        }
    }
}

// ---------------------------------------------------------------------------
// Selecting the markers of a window
// ---------------------------------------------------------------------------

/// The markers of `m` whose offsets lie in `[lo, hi)`, in order, each moved to
/// offset `offset - base + add`.
pub open spec fn window(m: Seq<StyleMarker>, lo: int, hi: int, base: int, add: int) -> Seq<
    StyleMarker,
>
    decreases m.len(),
{
    if m.len() == 0 {
        seq![]
    } else {
        let prev = window(m.drop_last(), lo, hi, base, add);
        let x = m.last();
        if lo <= x.offset < hi {
            prev.push(
                StyleMarker {
                    offset: (x.offset - base + add) as usize,
                    is_start: x.is_start,
                    token_type: x.token_type,
                },
            )
        } else {
            prev
        }
    }
}

/// Selecting a window distributes over concatenation.
pub proof fn lemma_window_concat(a: Seq<StyleMarker>, b: Seq<StyleMarker>, lo: int, hi: int, base: int, add: int)
    ensures
        window(a + b, lo, hi, base, add) == window(a, lo, hi, base, add) + window(b, lo, hi, base, add),
    decreases b.len(),
{
    if b.len() == 0 {
        assert(a + b =~= a);
    } else {
        lemma_window_concat(a, b.drop_last(), lo, hi, base, add);
        assert((a + b).drop_last() =~= a + b.drop_last());
        assert((a + b).last() == b.last());
    }
}

/// A window of markers that all lie outside it is empty.
pub proof fn lemma_window_outside(m: Seq<StyleMarker>, lo: int, hi: int, base: int, add: int)
    requires
        forall|i: int| 0 <= i < m.len() ==> !(lo <= #[trigger] m[i].offset < hi),
    ensures
        window(m, lo, hi, base, add) == Seq::<StyleMarker>::empty(),
    decreases m.len(),
{
    if m.len() > 0 {
        lemma_window_outside(m.drop_last(), lo, hi, base, add);
        assert(m[m.len() - 1] == m.last());
    }
}

/// Extending the prefix by one marker extends the window by at most that marker.
pub proof fn lemma_window_step(m: Seq<StyleMarker>, i: int, lo: int, hi: int, base: int, add: int)
    requires
        0 <= i < m.len(),
    ensures
        window(m.subrange(0, i + 1), lo, hi, base, add) == if lo <= m[i].offset < hi {
            window(m.subrange(0, i), lo, hi, base, add).push(
                StyleMarker {
                    offset: (m[i].offset - base + add) as usize,
                    is_start: m[i].is_start,
                    token_type: m[i].token_type,
                },
            )
        } else {
            window(m.subrange(0, i), lo, hi, base, add)
        },
{
    assert(m.subrange(0, i + 1).drop_last() =~= m.subrange(0, i));
}

/// Every marker of a window comes from a marker inside it, in order.
pub proof fn lemma_window_members(m: Seq<StyleMarker>, lo: int, hi: int, base: int, add: int)
    ensures
        forall|j: int|
            0 <= j < window(m, lo, hi, base, add).len() ==> exists|i: int|
                0 <= i < m.len() && lo <= #[trigger] m[i].offset < hi
                    && #[trigger] window(m, lo, hi, base, add)[j] == (StyleMarker {
                    offset: (m[i].offset - base + add) as usize,
                    is_start: m[i].is_start,
                    token_type: m[i].token_type,
                }),
        window(m, lo, hi, base, add).len() <= m.len(),
    decreases m.len(),
{
    if m.len() > 0 {
        let p = m.drop_last();
        lemma_window_members(p, lo, hi, base, add);
        let w = window(m, lo, hi, base, add);
        let wp = window(p, lo, hi, base, add);
        assert forall|j: int| 0 <= j < w.len() implies exists|i: int|
            0 <= i < m.len() && lo <= #[trigger] m[i].offset < hi && #[trigger] w[j] == (
            StyleMarker {
                offset: (m[i].offset - base + add) as usize,
                is_start: m[i].is_start,
                token_type: m[i].token_type,
            }) by {
            if j < wp.len() {
                assert(w[j] == wp[j]);
                let i = choose|i: int|
                    0 <= i < p.len() && lo <= #[trigger] p[i].offset < hi && #[trigger] wp[j] == (
                    StyleMarker {
                        offset: (p[i].offset - base + add) as usize,
                        is_start: p[i].is_start,
                        token_type: p[i].token_type,
                    });
                assert(m[i] == p[i]);
            } else {
                assert(m[m.len() - 1] == m.last());
            }
        }
    }
}

/// The markers of a window keep the order of their offsets.
pub proof fn lemma_window_sorted(m: Seq<StyleMarker>, lo: int, hi: int, base: int, add: int)
    requires
        offsets_sorted(m),
        base <= lo,
        hi - base + add <= usize::MAX + 1,
        0 <= add,
    ensures
        offsets_sorted(window(m, lo, hi, base, add)),
        forall|j: int|
            0 <= j < window(m, lo, hi, base, add).len() ==> add <= #[trigger] window(
                m,
                lo,
                hi,
                base,
                add,
            )[j].offset < hi - base + add,
    decreases m.len(),
{
    if m.len() > 0 {
        let p = m.drop_last();
        assert forall|i: int, j: int| 0 <= i <= j < p.len() implies #[trigger] p[i].offset <= #[trigger] p[j].offset by {
            assert(p[i] == m[i] && p[j] == m[j]);
        }
        lemma_window_sorted(p, lo, hi, base, add);
        let wp = window(p, lo, hi, base, add);
        let x = m.last();
        if lo <= x.offset < hi {
            lemma_window_members(p, lo, hi, base, add);
            assert forall|j: int| 0 <= j < wp.len() implies #[trigger] wp[j].offset <= x.offset - base + add by {
                let i = choose|i: int|
                    0 <= i < p.len() && lo <= #[trigger] p[i].offset < hi && #[trigger] wp[j] == (
                    StyleMarker {
                        offset: (p[i].offset - base + add) as usize,
                        is_start: p[i].is_start,
                        token_type: p[i].token_type,
                    });
                assert(m[i] == p[i]);
                assert(m[i].offset <= m[m.len() - 1].offset);
            }
        }
    }
}

/// Markers in the full marker order: by offset, then end markers before start
/// markers, then by token type.
pub open spec fn markers_ordered(m: Seq<StyleMarker>) -> bool {
    forall|i: int, j: int| 0 <= i < j < m.len() ==> marker_le(#[trigger] m[i], #[trigger] m[j])
}

/// Moving two markers by the same amount keeps their order.
proof fn lemma_shift_keeps_order(a: StyleMarker, b: StyleMarker, base: int, add: int)
    requires
        marker_le(a, b),
        0 <= a.offset - base + add <= usize::MAX,
        0 <= b.offset - base + add <= usize::MAX,
    ensures
        marker_le(
            StyleMarker { offset: (a.offset - base + add) as usize, is_start: a.is_start, token_type: a.token_type },
            StyleMarker { offset: (b.offset - base + add) as usize, is_start: b.is_start, token_type: b.token_type },
        ),
{
}

/// A window of ordered markers is ordered.
pub proof fn lemma_window_ordered(m: Seq<StyleMarker>, lo: int, hi: int, base: int, add: int)
    requires
        markers_ordered(m),
        base <= lo,
        hi - base + add <= usize::MAX + 1,
        0 <= add,
    ensures
        markers_ordered(window(m, lo, hi, base, add)),
    decreases m.len(),
{
    if m.len() > 0 {
        let p = m.drop_last();
        assert forall|i: int, j: int| 0 <= i < j < p.len() implies marker_le(#[trigger] p[i], #[trigger] p[j]) by {
            assert(p[i] == m[i] && p[j] == m[j]);
        }
        lemma_window_ordered(p, lo, hi, base, add);
        let wp = window(p, lo, hi, base, add);
        let x = m.last();
        if lo <= x.offset < hi {
            lemma_window_members(p, lo, hi, base, add);
            let y = StyleMarker { offset: (x.offset - base + add) as usize, is_start: x.is_start, token_type: x.token_type };
            let w = wp.push(y);
            assert forall|i: int, j: int| 0 <= i < j < w.len() implies marker_le(#[trigger] w[i], #[trigger] w[j]) by {
                if j < wp.len() {
                    assert(w[i] == wp[i] && w[j] == wp[j]);
                } else {
                    assert(w[i] == wp[i]);
                    let k = choose|k: int|
                        0 <= k < p.len() && lo <= #[trigger] p[k].offset < hi && #[trigger] wp[i] == (
                        StyleMarker {
                            offset: (p[k].offset - base + add) as usize,
                            is_start: p[k].is_start,
                            token_type: p[k].token_type,
                        });
                    assert(m[k] == p[k]);
                    assert(marker_le(m[k], m[m.len() - 1]));
                    lemma_shift_keeps_order(p[k], x, base, add);
                }
            }
        }
    }
}

/// The highlights of grouped ordered markers have ordered markers that lie
/// inside their line (offsets below the line's length).
pub proof fn lemma_group_ordered(
    markers: Seq<StyleMarker>,
    ls: Seq<usize>,
    len: int,
    range_start: int,
    range_end: int,
)
    requires
        markers_ordered(markers),
        offsets_sorted(markers),
        line_starts_wf(ls, len),
        len <= usize::MAX,
        0 <= range_start,
    ensures
        forall|j: int|
            0 <= j < spec_group_markers(markers, ls, len, range_start, range_end).len() ==> {
                let h = #[trigger] spec_group_markers(markers, ls, len, range_start, range_end)[j];
                &&& markers_ordered(h.markers)
                &&& forall|i: int|
                    0 <= i < h.markers.len() ==> (#[trigger] h.markers[i]).offset < h.line_end_offset
                        - h.line_start_offset
            },
{
    let g = spec_group_markers(markers, ls, len, range_start, range_end);
    let first = if range_start < ls.len() {
        range_start
    } else {
        ls.len() as int
    };
    assert forall|j: int| 0 <= j < g.len() implies {
        let h = #[trigger] g[j];
        &&& markers_ordered(h.markers)
        &&& forall|i: int| 0 <= i < h.markers.len() ==> (#[trigger] h.markers[i]).offset < h.line_end_offset - h.line_start_offset
    } by {
        let k = first + j;
        let b = spec_line_bounds(ls, len, k);
        let last = if range_end < ls.len() { range_end } else { ls.len() as int };
        assert(!(len == 0 || last <= first));
        assert(g[j] == spec_line_highlight(markers, ls, len, k));
        assert(0 <= k < ls.len());
        if k + 1 < ls.len() {
            assert(ls[k] < ls[k + 1]);
        }
        assert(ls[k] <= len);
        lemma_window_ordered(markers, b.0, b.1, b.0, 0);
        lemma_window_sorted(markers, b.0, b.1, b.0, 0);
    }
}

// ---------------------------------------------------------------------------
// Marker -> LineHighlight grouping
// ---------------------------------------------------------------------------

/// The mathematical content of a `LineHighlight`.
pub struct LineHighlightView {
    pub line: int,
    pub line_start_offset: int,
    pub line_end_offset: int,
    pub markers: Seq<StyleMarker>,
}

impl View for LineHighlight {
    type V = LineHighlightView;

    open spec fn view(&self) -> LineHighlightView {
        LineHighlightView {
            line: self.line as int,
            line_start_offset: self.line_start_offset as int,
            line_end_offset: self.line_end_offset as int,
            markers: self.markers@,
        }
    }
}

/// The views of a sequence of line highlights.
pub open spec fn highlights_view(v: Seq<LineHighlight>) -> Seq<LineHighlightView> {
    v.map_values(|h: LineHighlight| h@)
}

/// The highlight of line `k`: its number, its byte range, and the markers that
/// fall inside that range, made relative to the line start.
pub open spec fn spec_line_highlight(
    markers: Seq<StyleMarker>,
    ls: Seq<usize>,
    len: int,
    k: int,
) -> LineHighlightView {
    let b = spec_line_bounds(ls, len, k);
    LineHighlightView {
        line: k + 1,
        line_start_offset: b.0,
        line_end_offset: b.1,
        markers: window(markers, b.0, b.1, b.0, 0),
    }
}

/// The highlights of the lines `range_start..range_end` that exist (none for an
/// empty source).
pub open spec fn spec_group_markers(
    markers: Seq<StyleMarker>,
    ls: Seq<usize>,
    len: int,
    range_start: int,
    range_end: int,
) -> Seq<LineHighlightView> {
    let first = if range_start < ls.len() {
        range_start
    } else {
        ls.len() as int
    };
    let last = if range_end < ls.len() {
        range_end
    } else {
        ls.len() as int
    };
    if len == 0 || last <= first {
        seq![]
    } else {
        Seq::new((last - first) as nat, |j: int| spec_line_highlight(markers, ls, len, first + j))
    }
}

/// Group markers by line using line_starts lookup.
/// Complexity: O(markers + lines) using a single pass with marker index.
/// Only returns LineHighlight entries for lines within the specified range.
pub fn group_markers_by_line(
    markers: &[StyleMarker],
    line_starts: &[usize],
    source: &str,
    line_range: Range<usize>,
) -> (res: Vec<LineHighlight>)
    requires
        line_starts_wf(line_starts@, source.spec_bytes().len() as int),
        offsets_sorted(markers@),
    ensures
        highlights_view(res@) == spec_group_markers(
            markers@,
            line_starts@,
            source.spec_bytes().len() as int,
            line_range.start as int,
            line_range.end as int,
        ),
{
    let range_start = line_range.start;
    let range_end = line_range.end;
    if source.is_empty() {
        proof {
            vstd::utf8::encode_utf8_valid_utf8(source@);
            assert(source.spec_bytes().len() == 0);
        }
        let res = Vec::new();
        assert(highlights_view(res@) =~= Seq::<LineHighlightView>::empty());
        return res;
    }
    let ghost len = source.spec_bytes().len() as int;
    let source_len = str_len(source);
    let line_count = line_starts.len();
    let start_line_idx = if range_start < line_count {
        range_start
    } else {
        line_count
    };
    let end_line_idx = if range_end < line_count {
        range_end
    } else {
        line_count
    };
    let mut line_highlights: Vec<LineHighlight> = Vec::new();
    let mut marker_idx: usize = 0;
    let mut line_idx = start_line_idx;
    while line_idx < end_line_idx
        invariant
            line_count == line_starts@.len(),
            start_line_idx <= line_idx,
            line_idx == start_line_idx || line_idx <= end_line_idx,
            end_line_idx <= line_count,
            len == source.spec_bytes().len(),
            source_len == len,
            len > 0,
            line_starts_wf(line_starts@, len),
            offsets_sorted(markers@),
            0 <= marker_idx <= markers@.len(),
            line_idx < line_count ==> forall|i: int|
                0 <= i < marker_idx ==> #[trigger] markers@[i].offset < line_starts@[line_idx as int],
            line_highlights@.len() == line_idx - start_line_idx,
            forall|j: int|
                0 <= j < line_highlights@.len() ==> #[trigger] line_highlights@[j]@
                    == spec_line_highlight(markers@, line_starts@, len, start_line_idx + j),
        ensures
            line_idx >= end_line_idx || line_idx >= line_count,
        decreases end_line_idx - line_idx,
    {
        if line_idx >= line_count {
            break;
        }
        let (line_start, line_end) = line_bounds(line_starts, source_len, line_idx);
        let mut line_markers: Vec<StyleMarker> = Vec::new();
        let ghost entry_idx = marker_idx;
        proof {
            assert(line_start == line_starts@[line_idx as int]);
            assert(line_idx + 1 < line_count ==> line_end == line_starts@[line_idx + 1]);
            assert(line_idx + 1 >= line_count ==> line_end == len);
            if line_idx + 1 < line_count {
                assert(line_starts@[line_idx as int] < line_starts@[line_idx + 1]);
            } else {
                assert(line_starts@[line_idx as int] <= len);
            }
            lemma_window_outside(markers@.subrange(0, marker_idx as int), line_start as int, line_end as int, line_start as int, 0);
        }
        while marker_idx < markers.len()
            invariant_except_break
                0 <= marker_idx <= markers@.len(),
                offsets_sorted(markers@),
                line_markers@ == window(markers@.subrange(0, marker_idx as int), line_start as int, line_end as int, line_start as int, 0),
                forall|i: int| 0 <= i < marker_idx ==> #[trigger] markers@[i].offset < line_end,
                line_start <= line_end,
            ensures
                0 <= marker_idx <= markers@.len(),
                line_markers@ == window(markers@.subrange(0, marker_idx as int), line_start as int, line_end as int, line_start as int, 0),
                forall|i: int| 0 <= i < marker_idx ==> #[trigger] markers@[i].offset < line_end,
                forall|i: int| marker_idx <= i < markers@.len() ==> #[trigger] markers@[i].offset >= line_end,
            decreases markers@.len() - marker_idx,
        {
            let marker = markers[marker_idx];
            let abs_offset = marker.offset;
            if abs_offset >= line_end {
                assert forall|i: int| marker_idx <= i < markers@.len() implies #[trigger] markers@[i].offset >= line_end by {
                    assert(markers@[marker_idx as int].offset <= markers@[i].offset);
                }
                break;
            }
            proof {
                lemma_window_step(markers@, marker_idx as int, line_start as int, line_end as int, line_start as int, 0);
            }
            if abs_offset < line_start {
                marker_idx = marker_idx + 1;
                continue;
            }
            let rel_offset = abs_offset - line_start;
            line_markers.push(StyleMarker { offset: rel_offset, is_start: marker.is_start, token_type: marker.token_type });
            marker_idx = marker_idx + 1;
        }
        proof {
            let m = markers@;
            lemma_window_outside(m.subrange(marker_idx as int, m.len() as int), line_start as int, line_end as int, line_start as int, 0);
            lemma_window_concat(m.subrange(0, marker_idx as int), m.subrange(marker_idx as int, m.len() as int), line_start as int, line_end as int, line_start as int, 0);
            assert(m.subrange(0, marker_idx as int) + m.subrange(marker_idx as int, m.len() as int) =~= m);
        }
        let ghost new_view = LineHighlightView {
            line: line_idx + 1,
            line_start_offset: line_start as int,
            line_end_offset: line_end as int,
            markers: line_markers@,
        };
        line_highlights.push(LineHighlight {
            line: line_idx + 1,
            line_start_offset: line_start,
            line_end_offset: line_end,
            markers: line_markers,
        });
        proof {
            assert(line_highlights@[line_highlights@.len() - 1]@ == spec_line_highlight(markers@, line_starts@, len, line_idx as int));
            if line_idx + 1 < line_count {
                assert(line_end == line_starts@[line_idx + 1]);
            }
        }
        line_idx = line_idx + 1;
    }
    proof {
        let r = highlights_view(line_highlights@);
        let sp = spec_group_markers(markers@, line_starts@, len, range_start as int, range_end as int);
        if end_line_idx <= start_line_idx {
            assert(r =~= sp);
        } else {
            assert(line_idx == end_line_idx);
            assert(r.len() == sp.len());
            assert forall|j: int| 0 <= j < r.len() implies r[j] == sp[j] by {
                assert(r[j] == line_highlights@[j]@);
            }
            assert(r =~= sp);
        }
    }
    line_highlights
}

/// A highlight computed for line `k` of `bytes`: it starts at the line start,
/// its markers are sorted by offset, and each marker, made absolute, lies on
/// a character boundary before the end of the line's byte range.
pub open spec fn highlight_fits_line(h: LineHighlightView, bytes: Seq<u8>, ls: Seq<usize>, k: int) -> bool {
    &&& h.line_start_offset == ls[k]
    &&& offsets_sorted(h.markers)
    &&& forall|i: int|
        0 <= i < h.markers.len() ==> ls[k] + (#[trigger] h.markers[i]).offset < spec_line_bounds(
            ls,
            bytes.len() as int,
            k,
        ).1 && is_char_boundary(bytes, ls[k] + h.markers[i].offset)
}

/// Grouping sorted markers that point into the text gives highlights that fit their lines.
pub proof fn lemma_group_fits(
    markers: Seq<StyleMarker>,
    ls: Seq<usize>,
    bytes: Seq<u8>,
    range_start: int,
    range_end: int,
)
    requires
        markers_in_text(markers, bytes),
        offsets_sorted(markers),
        line_starts_wf(ls, bytes.len() as int),
        bytes.len() <= usize::MAX,
        0 <= range_start,
    ensures
        forall|j: int|
            0 <= j < spec_group_markers(markers, ls, bytes.len() as int, range_start, range_end).len()
                ==> highlight_fits_line(
                #[trigger] spec_group_markers(markers, ls, bytes.len() as int, range_start, range_end)[j],
                bytes,
                ls,
                (if range_start < ls.len() {
                    range_start
                } else {
                    ls.len() as int
                }) + j,
            ),
{
    let len = bytes.len() as int;
    let g = spec_group_markers(markers, ls, len, range_start, range_end);
    let first = if range_start < ls.len() {
        range_start
    } else {
        ls.len() as int
    };
    assert forall|j: int| 0 <= j < g.len() implies highlight_fits_line(#[trigger] g[j], bytes, ls, first + j) by {
        let k = first + j;
        let b = spec_line_bounds(ls, len, k);
        let last = if range_end < ls.len() { range_end } else { ls.len() as int };
        assert(!(len == 0 || last <= first));
        assert(g.len() == last - first);
        assert(g[j] == spec_line_highlight(markers, ls, len, k));
        assert(0 <= k < ls.len());
        if k + 1 < ls.len() {
            assert(ls[k] < ls[k + 1]);
        }
        assert(ls[k] <= len);
        lemma_window_sorted(markers, b.0, b.1, b.0, 0);
        lemma_window_members(markers, b.0, b.1, b.0, 0);
        let w = window(markers, b.0, b.1, b.0, 0);
        assert forall|i: int| 0 <= i < w.len() implies ls[k] + (#[trigger] w[i]).offset < b.1
            && is_char_boundary(bytes, ls[k] + w[i].offset) by {
            let m = choose|m: int|
                0 <= m < markers.len() && b.0 <= #[trigger] markers[m].offset < b.1 && #[trigger] w[i] == (
                StyleMarker {
                    offset: (markers[m].offset - b.0 + 0) as usize,
                    is_start: markers[m].is_start,
                    token_type: markers[m].token_type,
                });
            assert(ls[k] + w[i].offset == markers[m].offset);
        }
    }
}

/// Sorting keeps markers pointing into the text.
pub proof fn lemma_sorted_in_text(markers: Seq<StyleMarker>, bytes: Seq<u8>)
    requires
        markers_in_text(markers, bytes),
    ensures
        markers_in_text(markers.sort_by(marker_order()), bytes),
{
    lemma_marker_order_total();
    markers.lemma_sort_by_ensures(marker_order());
    let s = markers.sort_by(marker_order());
    assert forall|i: int| 0 <= i < s.len() implies (#[trigger] s[i]).offset <= bytes.len()
        && is_char_boundary(bytes, s[i].offset as int) by {
        assert(s.contains(s[i]));
        assert(markers.contains(s[i]));
        let m = choose|m: int| 0 <= m < markers.len() && markers[m] == s[i];
        assert(markers[m] == s[i]);
    }
}

// ---------------------------------------------------------------------------
// Public entry point
// ---------------------------------------------------------------------------

/// The byte range whose markers are kept when highlighting the lines
/// `range_start..range_end`: from the first line's start (or past everything
/// when it does not exist) to the start of line `range_end` (or the end).
pub open spec fn highlight_byte_range(ls: Seq<usize>, len: int, range_start: int, range_end: int) -> (
    usize,
    usize,
) {
    (
        if range_start < ls.len() {
            ls[range_start]
        } else {
            usize::MAX
        },
        if range_end < ls.len() {
            spec_line_bounds(ls, len, range_end).0 as usize
        } else {
            len as usize
        },
    )
}

/// The highlights of the lines `range_start..range_end` of `text` for `lang`:
/// the tokenizer's markers for the kept byte range, sorted, grouped by line.
#[verifier::opaque]
pub open spec fn spec_extract_highlights(
    text: Seq<char>,
    range_start: int,
    range_end: int,
    lang: Language,
) -> Seq<LineHighlightView> {
    let bytes = encode_utf8(text);
    let len = bytes.len() as int;
    let ls = spec_line_starts(bytes);
    let c = ScanCtx {
        text: text,
        ls: ls,
        range: highlight_byte_range(ls, len, range_start, range_end),
        lang: lang,
    };
    let markers = spec_scan(c, 0, len, 0u32, LastToken::Start).0;
    spec_group_markers(markers.sort_by(marker_order()), ls, len, range_start, range_end)
}

/// Extract syntax highlighting markers for source code.
///
/// Uses a language-agnostic tokenizer inspired by the `js-tokens` regex
/// approach. It never fails and produces best-effort highlighting for any
/// input — recognizing quoted strings, comments, numbers, regex literals, and
/// capitalized identifiers.
///
/// # Parameters
/// - `source`: The source code to highlight
/// - `line_range`: Range of line indices (0-indexed, start inclusive, end exclusive). Style markers
///   are only produced for lines within this range. Pass `0..usize::MAX` to produce markers for all
///   lines.
///
/// When the tokenizer's patterns do not compile, no line is highlighted.
pub fn extract_highlights(source: &str, line_range: Range<usize>, language: Language) -> (res: Vec<
    LineHighlight,
>)
    ensures
        regex_compiles(TOKEN_PATTERN@) && regex_compiles(REGEX_LITERAL_PATTERN@) ==> highlights_view(res@)
            == spec_extract_highlights(source@, line_range.start as int, line_range.end as int, language),
        !(regex_compiles(TOKEN_PATTERN@) && regex_compiles(REGEX_LITERAL_PATTERN@)) ==> res@.len() == 0,
        forall|j: int|
            0 <= j < res@.len() ==> highlight_fits_line(
                (#[trigger] res@[j])@,
                source.spec_bytes(),
                spec_line_starts(source.spec_bytes()),
                (if line_range.start < spec_line_starts(source.spec_bytes()).len() {
                    line_range.start as int
                } else {
                    spec_line_starts(source.spec_bytes()).len() as int
                }) + j,
            ),
        forall|j: int|
            0 <= j < res@.len() ==> markers_ordered((#[trigger] res@[j]).markers@) && forall|i: int|
                0 <= i < res@[j].markers@.len() ==> (#[trigger] res@[j].markers@[i]).offset
                    < res@[j].line_end_offset - res@[j].line_start_offset,
{
    proof {
        reveal(spec_extract_highlights);
    }
    let tok = match Tokenizer::new() {
        Some(t) => t,
        None => return Vec::new(),
    };
    let line_starts = compute_line_starts(source);
    let line_count = line_starts.len();
    let len = str_len(source);
    let start_byte = if line_range.start < line_count {
        line_starts[line_range.start]
    } else {
        usize::MAX
    };
    let end_byte = if line_range.end < line_count {
        line_bounds(line_starts.as_slice(), len, line_range.end).0
    } else {
        len
    };
    let byte_range = (start_byte, end_byte);
    proof {
        lemma_str_bytes(source);
        lemma_line_starts(source.spec_bytes());
    }
    let all_markers = extract_markers(&tok, source, line_starts.as_slice(), byte_range, language);
    let sorted = sort_markers(&all_markers);
    proof {
        lemma_sorted_in_text(all_markers@, source.spec_bytes());
        lemma_group_fits(sorted@, line_starts@, source.spec_bytes(), line_range.start as int, line_range.end as int);
        lemma_sorted_ordered(all_markers@);
        lemma_group_ordered(sorted@, line_starts@, len as int, line_range.start as int, line_range.end as int);
    }
    let res = group_markers_by_line(sorted.as_slice(), line_starts.as_slice(), source, line_range);
    proof {
        let g = spec_group_markers(sorted@, line_starts@, len as int, line_range.start as int, line_range.end as int);
        assert forall|j: int| 0 <= j < res@.len() implies #[trigger] res@[j]@ == g[j] by {
            assert(highlights_view(res@)[j] == res@[j]@);
        }
        assert forall|j: int| 0 <= j < res@.len() implies markers_ordered((#[trigger] res@[j]).markers@)
            && forall|i: int|
            0 <= i < res@[j].markers@.len() ==> (#[trigger] res@[j].markers@[i]).offset
                < res@[j].line_end_offset - res@[j].line_start_offset by {
            assert(highlights_view(res@)[j] == res@[j]@);
            assert(res@[j]@ == g[j]);
            assert(res@[j].markers@ == g[j].markers);
        }
    }
    res
}

/// Sorting markers puts them in the full marker order.
proof fn lemma_sorted_ordered(markers: Seq<StyleMarker>)
    ensures
        markers_ordered(markers.sort_by(marker_order())),
{
    lemma_marker_order_total();
    markers.lemma_sort_by_ensures(marker_order());
    let s = markers.sort_by(marker_order());
    assert forall|i: int, j: int| 0 <= i < j < s.len() implies marker_le(#[trigger] s[i], #[trigger] s[j]) by {
        assert(marker_order()(s[i], s[j]));
    }
}

// ---------------------------------------------------------------------------
// Truncation adjustment + line rendering
// ---------------------------------------------------------------------------

/// The number of bytes of `vis_len` left after a prefix of `prefix_len` bytes.
pub open spec fn sat_sub(a: int, b: int) -> int {
    if a >= b {
        a - b
    } else {
        0
    }
}

/// The highlight of the visible part of a line that starts `trunc` bytes in and
/// shows `vis_len` bytes, the first `prefix_len` of which are a prefix that is
/// not source text: markers from `trunc` to the visible end (inclusive) are
/// kept and moved so that source offset `trunc` lands at `prefix_len`.
pub open spec fn spec_adjust_highlight(
    h: LineHighlightView,
    trunc: int,
    vis_len: int,
    prefix_len: int,
) -> LineHighlightView {
    let visible_end = trunc + sat_sub(vis_len, prefix_len);
    LineHighlightView {
        line: h.line,
        line_start_offset: h.line_start_offset + trunc,
        line_end_offset: if h.line_start_offset + visible_end < h.line_end_offset {
            h.line_start_offset + visible_end
        } else {
            h.line_end_offset
        },
        markers: window(h.markers, trunc, visible_end + 1, trunc, prefix_len),
    }
}

/// A window over markers that all lie in it, moved by nothing, keeps them.
proof fn lemma_window_all(m: Seq<StyleMarker>, lo: int, hi: int)
    requires
        forall|i: int| 0 <= i < m.len() ==> lo <= #[trigger] m[i].offset < hi,
    ensures
        window(m, lo, hi, 0, 0) == m,
    decreases m.len(),
{
    if m.len() > 0 {
        let p = m.drop_last();
        assert forall|i: int| 0 <= i < p.len() implies lo <= #[trigger] p[i].offset < hi by {
            assert(p[i] == m[i]);
        }
        lemma_window_all(p, lo, hi);
        assert(m[m.len() - 1] == m.last());
        assert(p.push(m.last()) =~= m);
    }
}

/// Adjusting a highlight for a line shown whole (no truncation offset, no
/// prefix, `len` visible bytes covering every marker) keeps its line and
/// markers, and ends it at most `len` bytes after its start.
pub proof fn law_adjust_without_truncation(h: LineHighlightView, len: int)
    requires
        0 <= len,
        forall|i: int| 0 <= i < h.markers.len() ==> #[trigger] h.markers[i].offset <= len,
    ensures
        spec_adjust_highlight(h, 0, len, 0) == (LineHighlightView {
            line: h.line,
            line_start_offset: h.line_start_offset,
            line_end_offset: if h.line_start_offset + len < h.line_end_offset {
                h.line_start_offset + len
            } else {
                h.line_end_offset
            },
            markers: h.markers,
        }),
{
    lemma_window_all(h.markers, 0, len + 1);
}

/// The index of the first marker at or after `offset` in markers sorted by offset.
fn first_marker_at(markers: &[StyleMarker], offset: usize) -> (idx: usize)
    requires
        offsets_sorted(markers@),
    ensures
        idx <= markers@.len(),
        forall|i: int| 0 <= i < idx ==> #[trigger] markers@[i].offset < offset,
        forall|i: int| idx <= i < markers@.len() ==> #[trigger] markers@[i].offset >= offset,
{
    let mut lo: usize = 0;
    let mut hi: usize = markers.len();
    while lo < hi
        invariant
            0 <= lo <= hi <= markers@.len(),
            offsets_sorted(markers@),
            forall|i: int| 0 <= i < lo ==> #[trigger] markers@[i].offset < offset,
            forall|i: int| hi <= i < markers@.len() ==> #[trigger] markers@[i].offset >= offset,
        decreases hi - lo,
    {
        let mid = lo + (hi - lo) / 2;
        if markers[mid].offset < offset {
            proof {
                assert forall|i: int| 0 <= i < mid + 1 implies #[trigger] markers@[i].offset < offset by {
                    assert(markers@[i].offset <= markers@[mid as int].offset);
                }
            }
            lo = mid + 1;
        } else {
            proof {
                assert forall|i: int| mid <= i < markers@.len() implies #[trigger] markers@[i].offset >= offset by {
                    assert(markers@[mid as int].offset <= markers@[i].offset);
                }
            }
            hi = mid;
        }
    }
    lo
}

/// Adjust line highlights for a truncated view of the line.
/// Returns a new LineHighlight with markers adjusted for the truncation offset.
///
/// - `truncation_offset`: byte offset in the untruncated line where visible source content starts
/// - `visible_length`: byte length of the visible content string (including any "..." prefix)
/// - `prefix_len`: byte length of any prefix added before source content (e.g., "..." = 3)
///
/// Markers are shifted so that offset 0 in the adjusted markers corresponds to
/// `prefix_len` in the visible content string.
pub fn adjust_highlights_for_truncation(
    line_highlight: &LineHighlight,
    truncation_offset: usize,
    visible_length: usize,
    prefix_len: usize,
) -> (res: LineHighlight)
    requires
        offsets_sorted(line_highlight.markers@),
        truncation_offset + sat_sub(visible_length as int, prefix_len as int) <= usize::MAX,
        line_highlight.line_start_offset + truncation_offset + sat_sub(
            visible_length as int,
            prefix_len as int,
        ) <= usize::MAX,
    ensures
        res@ == spec_adjust_highlight(
            line_highlight@,
            truncation_offset as int,
            visible_length as int,
            prefix_len as int,
        ),
{
    let visible_end = truncation_offset + visible_length.saturating_sub(prefix_len);
    let mut adjusted_markers: Vec<StyleMarker> = Vec::new();
    let markers = &line_highlight.markers;
    let ghost m = markers@;
    let ghost hi = visible_end + 1;
    let start_idx = first_marker_at(markers.as_slice(), truncation_offset);
    proof {
        lemma_window_outside(m.subrange(0, start_idx as int), truncation_offset as int, hi, truncation_offset as int, prefix_len as int);
    }
    let mut i = start_idx;
    while i < markers.len()
        invariant_except_break
            start_idx <= i <= m.len(),
            m == markers@,
            forall|k: int| 0 <= k < start_idx ==> #[trigger] m[k].offset < truncation_offset,
            forall|k: int| start_idx <= k < m.len() ==> #[trigger] m[k].offset >= truncation_offset,
            offsets_sorted(m),
            adjusted_markers@ == window(m.subrange(0, i as int), truncation_offset as int, hi, truncation_offset as int, prefix_len as int),
            visible_end == truncation_offset + sat_sub(visible_length as int, prefix_len as int),
            hi == visible_end + 1,
        ensures
            start_idx <= i <= m.len(),
            adjusted_markers@ == window(m.subrange(0, i as int), truncation_offset as int, hi, truncation_offset as int, prefix_len as int),
            forall|k: int| i <= k < m.len() ==> #[trigger] m[k].offset > visible_end,
        decreases m.len() - i,
    {
        let marker = markers[i];
        if marker.offset > visible_end {
            assert forall|k: int| i <= k < m.len() implies #[trigger] m[k].offset > visible_end by {
                assert(m[i as int].offset <= m[k].offset);
            }
            break;
        }
        proof {
            lemma_window_step(m, i as int, truncation_offset as int, hi, truncation_offset as int, prefix_len as int);
        }
        adjusted_markers.push(StyleMarker {
            offset: (marker.offset - truncation_offset) + prefix_len,
            is_start: marker.is_start,
            token_type: marker.token_type,
        });
        i = i + 1;
    }
    proof {
        lemma_window_outside(m.subrange(i as int, m.len() as int), truncation_offset as int, hi, truncation_offset as int, prefix_len as int);
        lemma_window_concat(m.subrange(0, i as int), m.subrange(i as int, m.len() as int), truncation_offset as int, hi, truncation_offset as int, prefix_len as int);
        assert(m.subrange(0, i as int) + m.subrange(i as int, m.len() as int) =~= m);
    }
    let end_candidate = line_highlight.line_start_offset + visible_end;
    LineHighlight {
        line: line_highlight.line,
        line_start_offset: line_highlight.line_start_offset + truncation_offset,
        line_end_offset: if end_candidate < line_highlight.line_end_offset {
            end_candidate
        } else {
            line_highlight.line_end_offset
        },
        markers: adjusted_markers,
    }
}

/// The state after rendering a prefix of the markers: the bytes written, the
/// offset in the line reached so far, and the style left open.
pub open spec fn apply_fold(line: Seq<u8>, markers: Seq<StyleMarker>, cs: ColorScheme) -> (
    Seq<u8>,
    int,
    Option<TokenType>,
)
    decreases markers.len(),
{
    if markers.len() == 0 {
        (seq![], 0, None)
    } else {
        let prev = apply_fold(line, markers.drop_last(), cs);
        let m = markers.last();
        let end = if m.offset < line.len() {
            m.offset as int
        } else {
            line.len() as int
        };
        let (out1, last1) = if m.offset > prev.1 {
            (prev.0 + line.subrange(prev.1, end), end)
        } else {
            (prev.0, prev.1)
        };
        if m.is_start {
            (out1 + color_of(cs, m.token_type).spec_bytes(), last1, Some(m.token_type))
        } else if prev.2 == Some(m.token_type) {
            (out1 + cs.reset.spec_bytes(), last1, None)
        } else {
            (out1, last1, prev.2)
        }
    }
}

/// A line rendered with its markers: the line text with the colour of each
/// start marker inserted at its offset and a reset at each end marker that
/// closes the open style; a style still open at the end is reset.
pub open spec fn spec_apply_line_highlights(
    line: Seq<u8>,
    markers: Seq<StyleMarker>,
    cs: ColorScheme,
) -> Seq<u8> {
    if markers.len() == 0 {
        line
    } else {
        let st = apply_fold(line, markers, cs);
        let out = if st.1 < line.len() {
            st.0 + line.subrange(st.1, line.len() as int)
        } else {
            st.0
        };
        if st.2 is Some {
            out + cs.reset.spec_bytes()
        } else {
            out
        }
    }
}

/// Markers whose offsets, capped at the line length, fall on character boundaries of `line`.
pub open spec fn markers_on_boundaries(line: Seq<u8>, markers: Seq<StyleMarker>) -> bool {
    forall|i: int|
        0 <= i < markers.len() ==> is_char_boundary(
            line,
            if #[trigger] markers[i].offset < line.len() {
                markers[i].offset as int
            } else {
                line.len() as int
            },
        )
}

/// How far into the line the markers have moved the rendering: each marker
/// past the offset reached so far moves it to the marker's offset, capped at
/// the line end.
pub open spec fn fold_reach(line: Seq<u8>, markers: Seq<StyleMarker>) -> int
    decreases markers.len(),
{
    if markers.len() == 0 {
        0
    } else {
        let prev = fold_reach(line, markers.drop_last());
        let m = markers.last();
        if m.offset > prev {
            if m.offset < line.len() {
                m.offset as int
            } else {
                line.len() as int
            }
        } else {
            prev
        }
    }
}

/// The offset the fold reaches does not depend on the colours.
proof fn lemma_fold_reach(line: Seq<u8>, markers: Seq<StyleMarker>, cs: ColorScheme)
    ensures
        apply_fold(line, markers, cs).1 == fold_reach(line, markers),
    decreases markers.len(),
{
    if markers.len() > 0 {
        lemma_fold_reach(line, markers.drop_last(), cs);
    }
}

/// Every marker that moves the rendering forward lands (capped at the line
/// end) on a character boundary of the line, so that the line is only cut
/// between characters.
pub open spec fn advances_on_boundaries(line: Seq<u8>, markers: Seq<StyleMarker>) -> bool {
    forall|i: int|
        0 <= i < markers.len() && #[trigger] markers[i].offset > fold_reach(line, markers.subrange(0, i))
            ==> is_char_boundary(
            line,
            if markers[i].offset < line.len() {
                markers[i].offset as int
            } else {
                line.len() as int
            },
        )
}

/// Markers that all lie on boundaries move the rendering only to boundaries.
pub proof fn lemma_advances_on_boundaries(line: Seq<u8>, markers: Seq<StyleMarker>)
    requires
        markers_on_boundaries(line, markers),
    ensures
        advances_on_boundaries(line, markers),
{
}

/// Apply highlights to a line of text
/// Returns the styled text with ANSI codes inserted
pub fn apply_line_highlights(line: &str, line_highlight: &LineHighlight, color_scheme: &ColorScheme) -> (res:
    String)
    requires
        advances_on_boundaries(line.spec_bytes(), line_highlight.markers@),
    ensures
        res@ == decode_utf8(
            spec_apply_line_highlights(line.spec_bytes(), line_highlight.markers@, *color_scheme),
        ),
        valid_utf8(spec_apply_line_highlights(line.spec_bytes(), line_highlight.markers@, *color_scheme)),
{
    let ghost lb = line.spec_bytes();
    proof {
        lemma_str_bytes(line);
    }
    if line_highlight.markers.len() == 0 {
        let mut out: Vec<u8> = Vec::new();
        proof {
            lemma_empty_utf8();
        }
        push_str(&mut out, line);
        assert(out@ =~= lb);
        return into_string(out);
    }
    let markers = &line_highlight.markers;
    let line_len = str_len(line);
    let mut result: Vec<u8> = Vec::new();
    let mut last_offset: usize = 0;
    let mut active_style: Option<TokenType> = None;
    let mut i: usize = 0;
    proof {
        lemma_empty_utf8();
        assert(markers@.subrange(0, 0) =~= Seq::<StyleMarker>::empty());
    }
    while i < markers.len()
        invariant
            0 <= i <= markers@.len(),
            line_len == lb.len(),
            lb == line.spec_bytes(),
            valid_utf8(lb),
            advances_on_boundaries(lb, markers@),
            is_char_boundary(lb, last_offset as int),
            last_offset <= line_len,
            utf8_valid(result@),
            apply_fold(lb, markers@.subrange(0, i as int), *color_scheme) == (result@, last_offset as int, active_style),
        decreases markers@.len() - i,
    {
        let marker = markers[i];
        proof {
            assert(markers@.subrange(0, i + 1).drop_last() =~= markers@.subrange(0, i as int));
            assert(markers@.subrange(0, i + 1).last() == marker);
            lemma_fold_reach(lb, markers@.subrange(0, i as int), *color_scheme);
            assert(markers@[i as int] == marker);
        }
        if marker.offset > last_offset {
            let end = if marker.offset < line_len {
                marker.offset
            } else {
                line_len
            };
            let piece = str_slice(line, last_offset, end);
            push_str(&mut result, piece);
            last_offset = end;
        }
        if marker.is_start {
            push_str(&mut result, color_scheme.color_for_token(marker.token_type));
            active_style = Some(marker.token_type);
        } else if active_style == Some(marker.token_type) {
            push_str(&mut result, color_scheme.reset);
            active_style = None;
        }
        i = i + 1;
    }
    proof {
        assert(markers@.subrange(0, markers@.len() as int) =~= markers@);
    }
    if last_offset < line_len {
        proof {
            is_char_boundary_start_end_of_seq(lb);
        }
        let piece = str_slice(line, last_offset, line_len);
        push_str(&mut result, piece);
    }
    if active_style.is_some() {
        push_str(&mut result, color_scheme.reset);
    }
    proof {
        lemma_utf8_valid(result@);
    }
    into_string(result)
}

// ---------------------------------------------------------------------------
// Properties of highlighting
// ---------------------------------------------------------------------------

/// Without colour codes the fold has written exactly the line up to the offset
/// it reached, which never passes the line end.
proof fn lemma_plain_fold(line: Seq<u8>, markers: Seq<StyleMarker>, cs: ColorScheme)
    requires
        is_plain_scheme(cs),
    ensures
        0 <= apply_fold(line, markers, cs).1 <= line.len(),
        apply_fold(line, markers, cs).0 == line.subrange(0, apply_fold(line, markers, cs).1),
    decreases markers.len(),
{
    if markers.len() == 0 {
        assert(line.subrange(0, 0) =~= Seq::<u8>::empty());
    } else {
        let prev = apply_fold(line, markers.drop_last(), cs);
        lemma_plain_fold(line, markers.drop_last(), cs);
        let m = markers.last();
        let end = if m.offset < line.len() {
            m.offset as int
        } else {
            line.len() as int
        };
        assert(encode_utf8(Seq::<char>::empty()) =~= Seq::<u8>::empty());
        assert(color_of(cs, m.token_type)@ == Seq::<char>::empty());
        if m.offset > prev.1 {
            assert(prev.0 + line.subrange(prev.1, end) =~= line.subrange(0, end));
        }
    }
}

/// Highlighting with a scheme whose codes are all empty (such as the plain
/// scheme) gives the line back unchanged, whatever the markers.
pub proof fn law_plain_highlighting_keeps_line(line: Seq<u8>, markers: Seq<StyleMarker>, cs: ColorScheme)
    requires
        is_plain_scheme(cs),
    ensures
        spec_apply_line_highlights(line, markers, cs) == line,
{
    if markers.len() > 0 {
        lemma_plain_fold(line, markers, cs);
        let st = apply_fold(line, markers, cs);
        assert(encode_utf8(Seq::<char>::empty()) =~= Seq::<u8>::empty());
        assert(st.0 + line.subrange(st.1, line.len() as int) =~= line);
        assert(line.subrange(0, line.len() as int) =~= line);
    }
}

/// `extract_highlights` gives one highlight per requested line that exists,
/// in order: the highlight at position `j` is for line `range_start + j`
/// (numbered from 1), and the highlights cover the lines from `range_start`
/// to `range_end` capped at the line count (none for an empty text).
pub proof fn law_highlight_lines(text: Seq<char>, range_start: int, range_end: int, lang: Language)
    ensures
        ({
            let hl = spec_extract_highlights(text, range_start, range_end, lang);
            let n = spec_line_starts(encode_utf8(text)).len() as int;
            let first = if range_start < n {
                range_start
            } else {
                n
            };
            let last = if range_end < n {
                range_end
            } else {
                n
            };
            &&& hl.len() == (if encode_utf8(text).len() == 0 || last <= first {
                0
            } else {
                last - first
            })
            &&& forall|j: int| 0 <= j < hl.len() ==> (#[trigger] hl[j]).line == range_start + j + 1
        }),
{
    reveal(spec_extract_highlights);
}

/// No code of `cs` holds the byte `c`.
pub open spec fn scheme_lacks(cs: ColorScheme, c: u8) -> bool {
    &&& lacks_byte(cs.reset.spec_bytes(), c)
    &&& lacks_byte(cs.keyword.spec_bytes(), c)
    &&& lacks_byte(cs.identifier.spec_bytes(), c)
    &&& lacks_byte(cs.string.spec_bytes(), c)
    &&& lacks_byte(cs.number.spec_bytes(), c)
    &&& lacks_byte(cs.regex.spec_bytes(), c)
    &&& lacks_byte(cs.comment.spec_bytes(), c)
    &&& lacks_byte(cs.gutter.spec_bytes(), c)
    &&& lacks_byte(cs.marker.spec_bytes(), c)
}

/// The fold writes only pieces of the line and codes of the scheme.
proof fn lemma_fold_lacks(line: Seq<u8>, markers: Seq<StyleMarker>, cs: ColorScheme, c: u8)
    requires
        lacks_byte(line, c),
        scheme_lacks(cs, c),
    ensures
        0 <= apply_fold(line, markers, cs).1 <= line.len(),
        lacks_byte(apply_fold(line, markers, cs).0, c),
    decreases markers.len(),
{
    if markers.len() > 0 {
        lemma_fold_lacks(line, markers.drop_last(), cs, c);
        let prev = apply_fold(line, markers.drop_last(), cs);
        let m = markers.last();
        let end = if m.offset < line.len() {
            m.offset as int
        } else {
            line.len() as int
        };
        if m.offset > prev.1 {
            let piece = line.subrange(prev.1, end);
            assert forall|i: int| 0 <= i < piece.len() implies #[trigger] piece[i] != c by {
                assert(piece[i] == line[prev.1 + i]);
            }
        }
        assert(lacks_byte(color_of(cs, m.token_type).spec_bytes(), c));
    }
}

/// Highlighting a line that lacks a byte, with codes that lack it, gives text
/// that lacks it.
pub proof fn lemma_apply_lacks(line: Seq<u8>, markers: Seq<StyleMarker>, cs: ColorScheme, c: u8)
    requires
        lacks_byte(line, c),
        scheme_lacks(cs, c),
    ensures
        lacks_byte(spec_apply_line_highlights(line, markers, cs), c),
{
    if markers.len() > 0 {
        lemma_fold_lacks(line, markers, cs, c);
        let st = apply_fold(line, markers, cs);
        let tail = line.subrange(st.1, line.len() as int);
        assert forall|i: int| 0 <= i < tail.len() implies #[trigger] tail[i] != c by {
            assert(tail[i] == line[st.1 + i]);
        }
    }
}

/// The JavaScript keywords, listed in alphabetical order.
pub open spec fn js_keyword_list() -> Seq<Seq<char>> {
    seq![
        "as"@,
        "async"@,
        "await"@,
        "break"@,
        "case"@,
        "catch"@,
        "class"@,
        "const"@,
        "continue"@,
        "debugger"@,
        "default"@,
        "delete"@,
        "do"@,
        "else"@,
        "enum"@,
        "export"@,
        "extends"@,
        "false"@,
        "finally"@,
        "for"@,
        "from"@,
        "function"@,
        "if"@,
        "implements"@,
        "import"@,
        "in"@,
        "instanceof"@,
        "interface"@,
        "let"@,
        "new"@,
        "null"@,
        "of"@,
        "package"@,
        "private"@,
        "protected"@,
        "public"@,
        "return"@,
        "static"@,
        "super"@,
        "switch"@,
        "this"@,
        "throw"@,
        "true"@,
        "try"@,
        "type"@,
        "typeof"@,
        "undefined"@,
        "var"@,
        "void"@,
        "while"@,
        "with"@,
        "yield"@,
    ]
}

/// For JavaScript, exactly the words of the keyword list are keywords: every
/// listed word is one, and no other word is.
pub proof fn law_js_keywords_are_the_list(word: Seq<char>)
    ensures
        spec_is_keyword(Language::JavaScript, word) <==> js_keyword_list().contains(word),
        spec_is_keyword(Language::Css, word) == false,
{
    let l = js_keyword_list();
    assert(l.len() == 52);
    if is_js_keyword(word) {
        assert(l.contains(word));
    }
    if l.contains(word) {
        let i = choose|i: int| 0 <= i < l.len() && l[i] == word;
        assert(is_js_keyword(l[i]));
    }
}

/// An end marker of the open style closes it: the output ends with the reset
/// code and no style is left open.
pub proof fn law_end_marker_closes_style(line: Seq<u8>, markers: Seq<StyleMarker>, e: StyleMarker, cs: ColorScheme)
    requires
        !e.is_start,
        apply_fold(line, markers, cs).2 == Some(e.token_type),
    ensures
        ({
            let out = apply_fold(line, markers.push(e), cs).0;
            let r = cs.reset.spec_bytes();
            &&& apply_fold(line, markers.push(e), cs).2 is None
            &&& out.len() >= r.len()
            &&& out.subrange(out.len() - r.len(), out.len() as int) == r
        }),
{
    let m2 = markers.push(e);
    assert(m2.drop_last() =~= markers);
    assert(m2.last() == e);
    let out = apply_fold(line, m2, cs).0;
    let r = cs.reset.spec_bytes();
    let prev = apply_fold(line, markers, cs);
    let end = if e.offset < line.len() {
        e.offset as int
    } else {
        line.len() as int
    };
    let out1 = if e.offset > prev.1 {
        prev.0 + line.subrange(prev.1, end)
    } else {
        prev.0
    };
    assert(out == out1 + r);
    assert(out.subrange(out.len() - r.len(), out.len() as int) =~= r);
}

/// A line with one token `[a, b)` of type `t` is the text before it, the
/// token's colour, the token's text, the reset code, and the text after it:
/// the colour covers exactly the token.
pub proof fn law_one_token_coloring(line: Seq<u8>, a: int, b: int, t: TokenType, cs: ColorScheme)
    requires
        0 <= a < b <= line.len(),
        line.len() <= usize::MAX,
    ensures
        spec_apply_line_highlights(line, seq![start_marker(a, t), end_marker(b, t)], cs) == line.subrange(0, a)
            + color_of(cs, t).spec_bytes() + line.subrange(a, b) + cs.reset.spec_bytes() + line.subrange(
            b,
            line.len() as int,
        ),
{
    let m = seq![start_marker(a, t), end_marker(b, t)];
    let m1 = seq![start_marker(a, t)];
    assert(m.drop_last() =~= m1);
    assert(m1.drop_last() =~= Seq::<StyleMarker>::empty());
    let f0 = apply_fold(line, Seq::<StyleMarker>::empty(), cs);
    let f1 = apply_fold(line, m1, cs);
    assert(f1.0 == Seq::<u8>::empty() + line.subrange(0, a) + color_of(cs, t).spec_bytes());
    assert(f1.1 == a);
    let f2 = apply_fold(line, m, cs);
    assert(f2.0 == f1.0 + line.subrange(a, b) + cs.reset.spec_bytes());
    assert(f2.1 == b);
    assert(f2.2 is None);
    let lhs = spec_apply_line_highlights(line, m, cs);
    let rhs = line.subrange(0, a) + color_of(cs, t).spec_bytes() + line.subrange(a, b) + cs.reset.spec_bytes()
        + line.subrange(b, line.len() as int);
    if b < line.len() {
        assert(lhs == f2.0 + line.subrange(b, line.len() as int));
    } else {
        assert(lhs == f2.0);
        assert(line.subrange(b, line.len() as int) =~= Seq::<u8>::empty());
    }
    assert(lhs =~= rhs);
}

} // verus!

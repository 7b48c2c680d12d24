//! The tokenizer: a single token regex is matched at each position and the
//! matched group decides the style markers; a separate regex recognises regex
//! literals where the context expects one; template literals are split into
//! their string parts and their `${...}` expressions, which are tokenized in turn.
use vstd::prelude::*;
use vstd::string::StringSliceAdditionalSpecFns;
use vstd::utf8::*;

use crate::highlight::{
    add_marker_pair, lemma_in_text_concat, lemma_marker_pair_in_text, line_starts_on_boundaries,
    markers_in_text, spec_is_keyword, spec_marker_pair, Language, StyleMarker, TokenType,
};
use crate::lines::line_starts_wf;
use crate::patterns::{
    capture_count, capture_get, capture_locations, captures_read_at, compile_regex, find_at,
    regex_captures_at, regex_compiles,
    regex_find_at, CaptureSlots, CompiledRegex,
};
use crate::text::{lemma_ascii_byte_boundaries, lemma_str_bytes, str_len, str_slice};

verus! {

broadcast use vstd::utf8::encode_utf8_valid_utf8, vstd::utf8::encode_utf8_decode_utf8;

/// A single regex that matches the next token at each position.
/// Named capture groups identify the token type; earlier alternatives take
/// priority (e.g., `//` and `/*` before `/`).
///
/// Groups, in order:
/// - `string`:  single/double quoted strings with escape handling
/// - `template`: backtick template literals with escape handling
/// - `line_comment`: `// ...` through end of line
/// - `block_comment`: `/* ... */` (non-greedy, spans lines)
/// - `number`:  hex, octal, binary, decimal (with optional exponent)
/// - `ident`:   identifiers (letter/$/_ start, includes non-ASCII)
/// - `close`:   `)` or `]`
/// - `open`:    `(`, `[`, `{`, `}`
/// - `postfix`: `++` or `--`
/// - `slash`:   a lone `/` (regex-or-division — disambiguated by context)
/// - `op`:      operators and punctuation, so that the last token is tracked
pub const TOKEN_PATTERN: &'static str = r#"(?P<string>"(?:[^"\\]|\\.)*"?|'(?:[^'\\]|\\.)*'?)|(?P<template>`(?:[^`\\]|\\.)*`?)|(?P<line_comment>//[^\n]*)|(?P<block_comment>/\*[\s\S]*?\*/)|(?P<number>0[xX][\da-fA-F]+|0[oO][0-7]+|0[bB][01]+|(?:\d*\.\d+|\d+\.?)(?:[eE][+-]?\d+)?)|(?P<ident>[A-Za-z_$\x80-\xff][\w$\x80-\xff]*)|(?P<close>[)\]])|(?P<open>[(\[{}])|(?P<postfix>\+\+|--)|(?P<slash>/)|(?P<op>[=+\-*%<>&|^!~?:;,.])"#;

/// A regex literal starting at its opening `/`: a body of ordinary characters,
/// escapes and character classes (in which `/` is literal), the closing `/`,
/// then flags. It does not span lines.
pub const REGEX_LITERAL_PATTERN: &'static str = r#"/(?:[^\\/\[\n\r]|\\.|\[(?:[^\]\\\n\r]|\\.)*\])+/[A-Za-z]*"#;

/// Group indices in the token regex.
pub const GRP_STRING: usize = 1;
pub const GRP_TEMPLATE: usize = 2;
pub const GRP_LINE_COMMENT: usize = 3;
pub const GRP_BLOCK_COMMENT: usize = 4;
pub const GRP_NUMBER: usize = 5;
pub const GRP_IDENT: usize = 6;
pub const GRP_CLOSE: usize = 7;
pub const GRP_OPEN: usize = 8;
pub const GRP_POSTFIX: usize = 9;
pub const GRP_SLASH: usize = 10;
pub const GRP_OP: usize = 11;

/// Tracks the kind of the last non-whitespace, non-comment token for regex
/// disambiguation.
#[derive(Debug, Clone, Copy, PartialEq, Eq, Structural)]
pub enum LastToken {
    /// Start of input
    Start,
    /// Identifier, number, string, regex — values that end expressions
    Value,
    /// `)` or `]` — could end an expression
    CloseBracket,
    /// `++` or `--` — postfix operators end expressions
    PostfixOp,
    /// Operators, open brackets, commas, semicolons, `{`, `}` — regex follows
    Operator,
}

/// A `/` after this token starts a regex literal.
pub open spec fn spec_expects_regex(t: LastToken) -> bool {
    t is Start || t is Operator
}

impl LastToken {
    /// Returns true if a `/` at this position should be treated as starting a regex literal.
    pub fn expects_regex(self) -> (res: bool)
        ensures
            res == spec_expects_regex(self),
    {
        match self {
            LastToken::Start | LastToken::Operator => true,
            LastToken::Value | LastToken::CloseBracket | LastToken::PostfixOp => false,
        }
    }
}

/// The first group from `i` on that took part in the match, or 0 when none did.
pub open spec fn first_group_from(slots: Seq<Option<(usize, usize)>>, i: int) -> int
    decreases slots.len() - i,
{
    if i >= slots.len() || i < 1 {
        0
    } else if slots[i] is Some {
        i
    } else {
        first_group_from(slots, i + 1)
    }
}

/// The group (1-based) that matched, or 0 when no group did.
pub open spec fn spec_matched_group(slots: Seq<Option<(usize, usize)>>) -> int {
    first_group_from(slots, 1)
}

/// Find which capture group matched (returns the group index, 1-based).
fn matched_group(locs: &CaptureSlots) -> (res: usize)
    ensures
        res == spec_matched_group(locs.slots()),
{
    let n = capture_count(locs);
    let mut i: usize = 1;
    while i < n
        invariant
            1 <= i,
            n == locs.slots().len(),
            first_group_from(locs.slots(), 1) == first_group_from(locs.slots(), i as int),
        decreases n - i,
    {
        if capture_get(locs, i).is_some() {
            return i;
        }
        i = i + 1;
    }
    0
}

/// What the tokenizer reads: the source text, its line starts, the byte range
/// that markers are kept for, and the language.
pub struct ScanCtx {
    pub text: Seq<char>,
    pub ls: Seq<usize>,
    pub range: (usize, usize),
    pub lang: Language,
}

/// The source bytes.
pub open spec fn ctx_bytes(c: ScanCtx) -> Seq<u8> {
    encode_utf8(c.text)
}

/// The next token from `pos`: its start, its end and its group.
pub open spec fn token_at(c: ScanCtx, pos: int) -> Option<(int, int, int)> {
    match regex_captures_at(TOKEN_PATTERN@, c.text, pos) {
        Some(slots) => if slots.len() >= 1 && slots[0] is Some {
            let span = slots[0]->0;
            Some((span.0 as int, span.1 as int, spec_matched_group(slots)))
        } else {
            None
        },
        None => None,
    }
}

/// `a`, capped at `b`.
pub open spec fn min_int(a: int, b: int) -> int {
    if a < b {
        a
    } else {
        b
    }
}

/// An ASCII uppercase letter.
pub open spec fn is_upper_ascii(b: u8) -> bool {
    65 <= b <= 90
}

/// The style of the identifier at `[start, end)`: a keyword of the language,
/// else an identifier when it starts with an ASCII capital, else none.
pub open spec fn ident_token_type(c: ScanCtx, start: int, end: int) -> Option<TokenType> {
    let bytes = ctx_bytes(c);
    if spec_is_keyword(c.lang, decode_utf8(bytes.subrange(start, end))) {
        Some(TokenType::Keyword)
    } else if end > start && is_upper_ascii(bytes[start]) {
        Some(TokenType::Identifier)
    } else {
        None
    }
}

/// What one token does: the markers it adds, whether it closes the template
/// expression being scanned, where scanning goes on, and the new last token
/// and brace depth.
pub struct TokenEffect {
    pub markers: Seq<StyleMarker>,
    pub closes: bool,
    pub next: int,
    pub last: LastToken,
    pub depth: u32,
}

/// The effect of the token `[start, raw_end)` of group `g`, scanned up to `scan_end`.
pub open spec fn spec_scan_token(
    c: ScanCtx,
    start: int,
    raw_end: int,
    g: int,
    scan_end: int,
    depth: u32,
    last: LastToken,
) -> TokenEffect
    decreases ctx_bytes(c).len() - start, 0int, ctx_bytes(c).len() + 3,
{
    let bytes = ctx_bytes(c);
    let len = bytes.len() as int;
    let end = min_int(raw_end, scan_end);
    let keep = TokenEffect { markers: seq![], closes: false, next: raw_end, last: last, depth: depth };
    if start < 0 || start >= len || end > len {
        keep
    } else if g == GRP_STRING {
        TokenEffect {
            markers: spec_marker_pair(c.ls, len, start, end, TokenType::String, c.range),
            last: LastToken::Value,
            ..keep
        }
    } else if g == GRP_TEMPLATE {
        TokenEffect { markers: spec_template(c, start, end), last: LastToken::Value, ..keep }
    } else if g == GRP_LINE_COMMENT || g == GRP_BLOCK_COMMENT {
        TokenEffect {
            markers: spec_marker_pair(c.ls, len, start, end, TokenType::Comment, c.range),
            ..keep
        }
    } else if g == GRP_POSTFIX {
        TokenEffect { last: LastToken::PostfixOp, ..keep }
    } else if g == GRP_SLASH {
        if spec_expects_regex(last) {
            match regex_find_at(REGEX_LITERAL_PATTERN@, c.text, start) {
                Some(m) => {
                    let re_end = min_int(m.1 as int, scan_end);
                    if m.0 == start && re_end > start && re_end <= len {
                        TokenEffect {
                            markers: spec_marker_pair(
                                c.ls,
                                len,
                                start,
                                re_end,
                                TokenType::Regex,
                                c.range,
                            ),
                            next: re_end,
                            last: LastToken::Value,
                            ..keep
                        }
                    } else {
                        TokenEffect { last: LastToken::Operator, ..keep }
                    }
                },
                None => TokenEffect { last: LastToken::Operator, ..keep },
            }
        } else {
            TokenEffect { last: LastToken::Operator, ..keep }
        }
    } else if g == GRP_CLOSE {
        TokenEffect { last: LastToken::CloseBracket, ..keep }
    } else if g == GRP_OPEN {
        if bytes[start] == 123u8 {
            TokenEffect {
                depth: if depth > 0 && depth < u32::MAX {
                    (depth + 1) as u32
                } else {
                    depth
                },
                last: LastToken::Operator,
                ..keep
            }
        } else if bytes[start] == 125u8 && depth > 0 {
            if depth == 1 {
                TokenEffect { closes: true, depth: 0, ..keep }
            } else {
                TokenEffect { depth: (depth - 1) as u32, last: LastToken::Operator, ..keep }
            }
        } else {
            TokenEffect { last: LastToken::Operator, ..keep }
        }
    } else if g == GRP_OP {
        TokenEffect { last: LastToken::Operator, ..keep }
    } else if g == GRP_NUMBER {
        TokenEffect {
            markers: spec_marker_pair(c.ls, len, start, end, TokenType::Number, c.range),
            last: LastToken::Value,
            ..keep
        }
    } else if g == GRP_IDENT {
        match ident_token_type(c, start, end) {
            Some(t) => TokenEffect {
                markers: spec_marker_pair(c.ls, len, start, end, t, c.range),
                last: LastToken::Value,
                ..keep
            },
            None => TokenEffect { last: LastToken::Value, ..keep },
        }
    } else {
        keep
    }
}

/// The markers that scanning from `pos` up to `scan_end` adds, and where it
/// stops: just past the `}` that brings the brace depth back to 0, or `scan_end`.
pub open spec fn spec_scan(c: ScanCtx, pos: int, scan_end: int, depth: u32, last: LastToken) -> (
    Seq<StyleMarker>,
    int,
)
    decreases ctx_bytes(c).len() - pos, 1int, 0int,
{
    let len = ctx_bytes(c).len() as int;
    if pos < 0 || pos > len || scan_end > len {
        (seq![], scan_end)
    } else {
        match token_at(c, pos) {
            None => (seq![], scan_end),
            Some(tok) => {
                let start = tok.0;
                let raw_end = tok.1;
                if start >= scan_end || start < pos || raw_end <= pos || raw_end > len {
                    (seq![], scan_end)
                } else {
                    let eff = spec_scan_token(c, start, raw_end, tok.2, scan_end, depth, last);
                    if eff.closes {
                        (eff.markers, min_int(raw_end, scan_end))
                    } else if eff.next <= pos || eff.next > len {
                        (eff.markers, scan_end)
                    } else {
                        let rest = spec_scan(c, eff.next, scan_end, eff.depth, eff.last);
                        (eff.markers + rest.0, rest.1)
                    }
                }
            },
        }
    }
}

/// Where a template literal's content ends: before its closing backtick, if it has one.
pub open spec fn template_content_end(c: ScanCtx, tpl_start: int, tpl_end: int) -> int {
    let bytes = ctx_bytes(c);
    if tpl_end > tpl_start && 0 <= tpl_end - 1 < bytes.len() && bytes[tpl_end - 1] == 96u8 {
        tpl_end - 1
    } else {
        tpl_end
    }
}

/// The markers of a template literal spanning `[tpl_start, tpl_end)`.
pub open spec fn spec_template(c: ScanCtx, tpl_start: int, tpl_end: int) -> Seq<StyleMarker>
    decreases ctx_bytes(c).len() - tpl_start, 0int, ctx_bytes(c).len() + 2,
{
    let len = ctx_bytes(c).len() as int;
    if tpl_start < 0 || tpl_start >= len || tpl_end > len {
        seq![]
    } else {
        spec_template_loop(
            c,
            tpl_start,
            tpl_end,
            template_content_end(c, tpl_start, tpl_end),
            tpl_start + 1,
            tpl_start,
        )
    }
}

/// The markers of a template literal from content position `i` on, the current
/// string segment having started at `seg_start`: each string segment (from the
/// opening backtick or a closing `}` up to a `${`, and the last one up to the
/// end) is a string, and each `${...}` expression is tokenized.
pub open spec fn spec_template_loop(
    c: ScanCtx,
    tpl_start: int,
    tpl_end: int,
    content_end: int,
    i: int,
    seg_start: int,
) -> Seq<StyleMarker>
    decreases ctx_bytes(c).len() - tpl_start, 0int, ctx_bytes(c).len() + 2 - i,
{
    let bytes = ctx_bytes(c);
    let len = bytes.len() as int;
    let last_segment = if tpl_end > seg_start {
        spec_marker_pair(c.ls, len, seg_start, tpl_end, TokenType::String, c.range)
    } else {
        seq![]
    };
    if i >= content_end || i < tpl_start + 1 || tpl_start < 0 || content_end > len {
        last_segment
    } else if bytes[i] == 92u8 {
        spec_template_loop(c, tpl_start, tpl_end, content_end, i + 2, seg_start)
    } else if bytes[i] == 36u8 && i + 1 < content_end && bytes[i + 1] == 123u8 {
        let seg = if i > seg_start {
            spec_marker_pair(c.ls, len, seg_start, i, TokenType::String, c.range)
        } else {
            seq![]
        };
        let r = spec_scan(c, i + 2, content_end, 1u32, LastToken::Start);
        let expr_end = r.1;
        let new_seg = if expr_end > i + 2 && expr_end <= content_end && bytes[expr_end - 1]
            == 125u8 {
            expr_end - 1
        } else {
            expr_end
        };
        if expr_end <= i || expr_end > content_end {
            seg + r.0
        } else {
            seg + r.0 + spec_template_loop(c, tpl_start, tpl_end, content_end, expr_end, new_seg)
        }
    } else {
        spec_template_loop(c, tpl_start, tpl_end, content_end, i + 1, seg_start)
    }
}

/// The two compiled regexes that the tokenizer runs.
pub struct Tokenizer {
    token_re: CompiledRegex,
    literal_re: CompiledRegex,
}

impl Tokenizer {
    /// Both regexes were compiled from the tokenizer's patterns.
    pub closed spec fn wf(&self) -> bool {
        &&& self.token_re.pattern() == TOKEN_PATTERN@
        &&& self.literal_re.pattern() == REGEX_LITERAL_PATTERN@
    }

    /// Compiles the token and regex-literal patterns; `None` if either does not compile.
    pub fn new() -> (res: Option<Tokenizer>)
        ensures
            res is Some <==> (regex_compiles(TOKEN_PATTERN@) && regex_compiles(
                REGEX_LITERAL_PATTERN@,
            )),
            res matches Some(t) ==> t.wf(),
    {
        let token_re = match compile_regex(TOKEN_PATTERN) {
            Some(r) => r,
            None => return None,
        };
        let literal_re = match compile_regex(REGEX_LITERAL_PATTERN) {
            Some(r) => r,
            None => return None,
        };
        Some(Tokenizer { token_re, literal_re })
    }
}

/// Preconditions shared by the scanning functions.
pub open spec fn scan_ready(c: ScanCtx) -> bool {
    &&& line_starts_wf(c.ls, ctx_bytes(c).len() as int)
    &&& line_starts_on_boundaries(c.ls, ctx_bytes(c))
}

/// Scan the content of a template literal (between the backticks), emitting
/// String markers for the quasis (string parts) and recursively tokenizing
/// the expressions inside `${...}` holes using the main tokenizer.
///
/// `tpl_start` is the byte offset of the opening backtick, `tpl_end` is one
/// past the closing backtick (or the end of the regex match for unclosed
/// templates).
#[verifier::rlimit(40)]
fn scan_template_content(
    markers: &mut Vec<StyleMarker>,
    line_starts: &[usize],
    source: &str,
    tpl_start: usize,
    tpl_end: usize,
    byte_range: (usize, usize),
    language: Language,
    tok: &Tokenizer,
)
    requires
        tok.wf(),
        scan_ready(ScanCtx { text: source@, ls: line_starts@, range: byte_range, lang: language }),
        tpl_start <= tpl_end <= source.spec_bytes().len(),
        tpl_start < source.spec_bytes().len(),
        is_char_boundary(source.spec_bytes(), tpl_start as int),
        is_char_boundary(source.spec_bytes(), tpl_end as int),
        markers_in_text(old(markers)@, source.spec_bytes()),
    ensures
        final(markers)@ == old(markers)@ + spec_template(
            ScanCtx { text: source@, ls: line_starts@, range: byte_range, lang: language },
            tpl_start as int,
            tpl_end as int,
        ),
        markers_in_text(final(markers)@, source.spec_bytes()),
    decreases source.spec_bytes().len() - tpl_start, 0int, source.spec_bytes().len() + 2,
{
    let ghost c = ScanCtx { text: source@, ls: line_starts@, range: byte_range, lang: language };
    let ghost bytes_s = source.spec_bytes();
    proof {
        lemma_str_bytes(source);
    }
    let bytes = source.as_bytes();
    let len = str_len(source);
    // Start after the opening backtick
    let mut i = tpl_start + 1;
    let content_end = if tpl_end > tpl_start && tpl_end - 1 < bytes.len() && bytes[tpl_end - 1]
        == 96u8 {
        tpl_end - 1
    } else {
        tpl_end
    };
    proof {
        if content_end < tpl_end {
            lemma_ascii_byte_boundaries(bytes_s, content_end as int);
        }
    }
    // Track start of current string segment (includes the backtick/closing brace)
    let mut seg_start = tpl_start;
    let ghost old_m = markers@;
    let ghost mut produced: Seq<StyleMarker> = seq![];
    assert(content_end == template_content_end(c, tpl_start as int, tpl_end as int));
    while i < content_end
        invariant
            tok.wf(),
            scan_ready(c),
            c == (ScanCtx { text: source@, ls: line_starts@, range: byte_range, lang: language }),
            bytes@ == bytes_s,
            bytes_s == source.spec_bytes(),
            bytes_s == ctx_bytes(c),
            valid_utf8(bytes_s),
            len == bytes_s.len(),
            tpl_start <= tpl_end <= len,
            tpl_start < len,
            content_end <= tpl_end,
            content_end == template_content_end(c, tpl_start as int, tpl_end as int),
            is_char_boundary(bytes_s, tpl_end as int),
            is_char_boundary(bytes_s, content_end as int),
            tpl_start + 1 <= i,
            tpl_start <= seg_start <= len,
            is_char_boundary(bytes_s, seg_start as int),
            markers@ == old_m + produced,
            markers_in_text(markers@, bytes_s),
            spec_template(c, tpl_start as int, tpl_end as int) == produced + spec_template_loop(
                c,
                tpl_start as int,
                tpl_end as int,
                content_end as int,
                i as int,
                seg_start as int,
            ),
        decreases usize::MAX - i,
    {
        if bytes[i] == 92u8 {
            // Skip escape sequence
            let ghost i_old = i;
            i = i.saturating_add(2);
            proof {
                if i_old + 2 > usize::MAX {
                    assert(spec_template_loop(c, tpl_start as int, tpl_end as int, content_end as int, i_old + 2, seg_start as int)
                        == spec_template_loop(c, tpl_start as int, tpl_end as int, content_end as int, i as int, seg_start as int));
                }
            }
            continue;
        }
        if bytes[i] == 36u8 && i + 1 < content_end && bytes[i + 1] == 123u8 {
            let ghost before = markers@;
            let ghost i_old = i;
            let ghost seg_old = seg_start;
            proof {
                lemma_ascii_byte_boundaries(bytes_s, i as int);
                lemma_ascii_byte_boundaries(bytes_s, i + 1);
            }
            // End the current string segment at the `$` (include everything up to it)
            if i > seg_start {
                proof {
                    lemma_marker_pair_in_text(line_starts@, bytes_s, seg_start as int, i as int, TokenType::String, byte_range);
                    lemma_in_text_concat(markers@, spec_marker_pair(line_starts@, len as int, seg_start as int, i as int, TokenType::String, byte_range), bytes_s);
                }
                add_marker_pair(markers, line_starts, len, seg_start, i, TokenType::String, byte_range);
            }
            let ghost seg_markers = if i_old > seg_old {
                spec_marker_pair(line_starts@, len as int, seg_old as int, i_old as int, TokenType::String, byte_range)
            } else {
                seq![]
            };
            assert(markers@ =~= before + seg_markers);
            // Tokenize the expression using the main scanner with brace_depth=1.
            // It will stop when it sees the matching `}` and return the position
            // after the `}`.
            let expr_start = i + 2;
            let ghost before_expr = markers@;
            let expr_end = scan_tokens(
                markers,
                line_starts,
                source,
                byte_range,
                language,
                expr_start,
                content_end,
                1,
                tok,
            );
            // The next string segment starts at the closing `}`
            if expr_end > expr_start && expr_end <= content_end && bytes[expr_end - 1] == 125u8 {
                proof {
                    lemma_ascii_byte_boundaries(bytes_s, expr_end - 1);
                }
                seg_start = expr_end - 1;
            } else {
                // Unclosed expression — no more string segments
                seg_start = expr_end;
            }
            i = expr_end;
            proof {
                let r = spec_scan(c, i_old + 2, content_end as int, 1u32, LastToken::Start);
                assert(markers@ =~= old_m + (produced + seg_markers + r.0));
                produced = produced + seg_markers + r.0;
            }
            continue;
        }
        i = i + 1;
    }
    // Emit the final string segment (includes the closing backtick)
    let ghost before_final = markers@;
    if tpl_end > seg_start {
        proof {
            lemma_marker_pair_in_text(line_starts@, bytes_s, seg_start as int, tpl_end as int, TokenType::String, byte_range);
            lemma_in_text_concat(markers@, spec_marker_pair(line_starts@, len as int, seg_start as int, tpl_end as int, TokenType::String, byte_range), bytes_s);
        }
        add_marker_pair(markers, line_starts, len, seg_start, tpl_end, TokenType::String, byte_range);
    }
    proof {
        let last_seg = if tpl_end > seg_start {
            spec_marker_pair(line_starts@, len as int, seg_start as int, tpl_end as int, TokenType::String, byte_range)
        } else {
            seq![]
        };
        assert(markers@ =~= old_m + (produced + last_seg));
    }
}

/// Handles one token `[start, raw_end)` of group `g` found by the token regex
/// while scanning up to `scan_end`: appends its markers and returns whether it
/// closes the template expression being scanned, where scanning goes on, and
/// the new last token and brace depth.
pub fn scan_token(
    markers: &mut Vec<StyleMarker>,
    line_starts: &[usize],
    source: &str,
    byte_range: (usize, usize),
    language: Language,
    tok: &Tokenizer,
    start: usize,
    raw_end: usize,
    g: usize,
    scan_end: usize,
    brace_depth: u32,
    last_token: LastToken,
) -> (res: (bool, usize, LastToken, u32))
    requires
        tok.wf(),
        scan_ready(ScanCtx { text: source@, ls: line_starts@, range: byte_range, lang: language }),
        start < scan_end <= source.spec_bytes().len(),
        start <= raw_end <= source.spec_bytes().len(),
        is_char_boundary(source.spec_bytes(), start as int),
        is_char_boundary(source.spec_bytes(), raw_end as int),
        is_char_boundary(source.spec_bytes(), scan_end as int),
        markers_in_text(old(markers)@, source.spec_bytes()),
    ensures
        ({
            let eff = spec_scan_token(
                ScanCtx { text: source@, ls: line_starts@, range: byte_range, lang: language },
                start as int,
                raw_end as int,
                g as int,
                scan_end as int,
                brace_depth,
                last_token,
            );
            &&& final(markers)@ == old(markers)@ + eff.markers
            &&& res.0 == eff.closes
            &&& res.1 == eff.next
            &&& res.2 == eff.last
            &&& res.3 == eff.depth
        }),
        res.1 == raw_end || (start < res.1 <= scan_end && is_char_boundary(
            source.spec_bytes(),
            res.1 as int,
        )),
        markers_in_text(final(markers)@, source.spec_bytes()),
    decreases source.spec_bytes().len() - start, 0int, source.spec_bytes().len() + 3,
{
    let ghost c = ScanCtx { text: source@, ls: line_starts@, range: byte_range, lang: language };
    let ghost bytes_s = source.spec_bytes();
    proof {
        lemma_str_bytes(source);
    }
    let bytes = source.as_bytes();
    let len = str_len(source);
    // Clamp the match end to scan_end
    let end = if raw_end < scan_end {
        raw_end
    } else {
        scan_end
    };
    let ghost eff = spec_scan_token(c, start as int, raw_end as int, g as int, scan_end as int, brace_depth, last_token);
    let ghost old_m = markers@;
    if g == GRP_STRING {
        proof {
            lemma_marker_pair_in_text(line_starts@, bytes_s, start as int, end as int, TokenType::String, byte_range);
            lemma_in_text_concat(markers@, spec_marker_pair(line_starts@, len as int, start as int, end as int, TokenType::String, byte_range), bytes_s);
        }
        add_marker_pair(markers, line_starts, len, start, end, TokenType::String, byte_range);
        (false, raw_end, LastToken::Value, brace_depth)
    } else if g == GRP_TEMPLATE {
        // Split template literal into string parts and expression holes.
        scan_template_content(markers, line_starts, source, start, end, byte_range, language, tok);
        (false, raw_end, LastToken::Value, brace_depth)
    } else if g == GRP_LINE_COMMENT || g == GRP_BLOCK_COMMENT {
        proof {
            lemma_marker_pair_in_text(line_starts@, bytes_s, start as int, end as int, TokenType::Comment, byte_range);
            lemma_in_text_concat(markers@, spec_marker_pair(line_starts@, len as int, start as int, end as int, TokenType::Comment, byte_range), bytes_s);
        }
        add_marker_pair(markers, line_starts, len, start, end, TokenType::Comment, byte_range);
        // Comments don't update last_token
        (false, raw_end, last_token, brace_depth)
    } else if g == GRP_POSTFIX {
        proof {
            assert(markers@ =~= old_m + eff.markers);
        }
        (false, raw_end, LastToken::PostfixOp, brace_depth)
    } else if g == GRP_SLASH {
        let mut literal_end: Option<usize> = None;
        if last_token.expects_regex() {
            if let Some(re_match) = find_at(&tok.literal_re, source, start) {
                let re_end = if re_match.1 < scan_end {
                    re_match.1
                } else {
                    scan_end
                };
                if re_match.0 == start && re_end > start {
                    literal_end = Some(re_end);
                }
            }
        }
        match literal_end {
            Some(re_end) => {
                proof {
                    lemma_marker_pair_in_text(line_starts@, bytes_s, start as int, re_end as int, TokenType::Regex, byte_range);
                    lemma_in_text_concat(markers@, spec_marker_pair(line_starts@, len as int, start as int, re_end as int, TokenType::Regex, byte_range), bytes_s);
                }
                add_marker_pair(markers, line_starts, len, start, re_end, TokenType::Regex, byte_range);
                (false, re_end, LastToken::Value, brace_depth)
            },
            None => {
                proof {
                    assert(markers@ =~= old_m + eff.markers);
                }
                (false, raw_end, LastToken::Operator, brace_depth)
            },
        }
    } else if g == GRP_CLOSE {
        proof {
            assert(markers@ =~= old_m + eff.markers);
        }
        (false, raw_end, LastToken::CloseBracket, brace_depth)
    } else if g == GRP_OPEN {
        proof {
            assert(markers@ =~= old_m + eff.markers);
        }
        let ch = bytes[start];
        if ch == 123u8 {
            let depth = if brace_depth > 0 && brace_depth < u32::MAX {
                brace_depth + 1
            } else {
                brace_depth
            };
            (false, raw_end, LastToken::Operator, depth)
        } else if ch == 125u8 && brace_depth > 0 {
            let depth = brace_depth - 1;
            if depth == 0 {
                (true, raw_end, last_token, depth)
            } else {
                (false, raw_end, LastToken::Operator, depth)
            }
        } else {
            (false, raw_end, LastToken::Operator, brace_depth)
        }
    } else if g == GRP_OP {
        proof {
            assert(markers@ =~= old_m + eff.markers);
        }
        (false, raw_end, LastToken::Operator, brace_depth)
    } else if g == GRP_NUMBER {
        proof {
            lemma_marker_pair_in_text(line_starts@, bytes_s, start as int, end as int, TokenType::Number, byte_range);
            lemma_in_text_concat(markers@, spec_marker_pair(line_starts@, len as int, start as int, end as int, TokenType::Number, byte_range), bytes_s);
        }
        add_marker_pair(markers, line_starts, len, start, end, TokenType::Number, byte_range);
        (false, raw_end, LastToken::Value, brace_depth)
    } else if g == GRP_IDENT {
        let ident = str_slice(source, start, end);
        proof {
            assert(ident@ == decode_utf8(ident.spec_bytes()));
        }
        let token_type = if language.is_keyword(ident) {
            Some(TokenType::Keyword)
        } else if end > start && 65u8 <= bytes[start] && bytes[start] <= 90u8 {
            // Highlight capitalized identifiers (matching Babel behavior)
            Some(TokenType::Identifier)
        } else {
            None
        };
        if let Some(tt) = token_type {
            proof {
                lemma_marker_pair_in_text(line_starts@, bytes_s, start as int, end as int, tt, byte_range);
                lemma_in_text_concat(markers@, spec_marker_pair(line_starts@, len as int, start as int, end as int, tt, byte_range), bytes_s);
            }
            add_marker_pair(markers, line_starts, len, start, end, tt, byte_range);
        } else {
            assert(markers@ =~= old_m + eff.markers);
        }
        (false, raw_end, LastToken::Value, brace_depth)
    } else {
        proof {
            assert(markers@ =~= old_m + eff.markers);
        }
        (false, raw_end, last_token, brace_depth)
    }
}

/// Extract style markers by scanning source with a single regex.
///
/// Most tokens are handled directly from regex matches. Regex literals are
/// matched by a separate regex at `/` positions where the expression context
/// expects a regex (not division).
pub fn extract_markers(
    tok: &Tokenizer,
    source: &str,
    line_starts: &[usize],
    byte_range: (usize, usize),
    language: Language,
) -> (markers: Vec<StyleMarker>)
    requires
        tok.wf(),
        scan_ready(ScanCtx { text: source@, ls: line_starts@, range: byte_range, lang: language }),
    ensures
        markers@ == spec_scan(
            ScanCtx { text: source@, ls: line_starts@, range: byte_range, lang: language },
            0,
            source.spec_bytes().len() as int,
            0u32,
            LastToken::Start,
        ).0,
        markers_in_text(markers@, source.spec_bytes()),
{
    let mut markers: Vec<StyleMarker> = Vec::new();
    proof {
        lemma_str_bytes(source);
    }
    let len = str_len(source);
    scan_tokens(&mut markers, line_starts, source, byte_range, language, 0, len, 0, tok);
    assert(markers@ =~= Seq::<StyleMarker>::empty() + spec_scan(
        ScanCtx { text: source@, ls: line_starts@, range: byte_range, lang: language },
        0,
        len as int,
        0u32,
        LastToken::Start,
    ).0);
    markers
}

/// Core tokenizer loop. Scans `source[start_pos..scan_end]` and appends style
/// markers.
///
/// When `brace_depth > 0` we are inside a template expression `${...}`. The
/// scanner tracks `{` / `}` tokens and returns as soon as the matching `}`
/// brings the depth back to 0, returning the byte position just past the `}`.
/// Otherwise it returns `scan_end`.
fn scan_tokens(
    markers: &mut Vec<StyleMarker>,
    line_starts: &[usize],
    source: &str,
    byte_range: (usize, usize),
    language: Language,
    start_pos: usize,
    scan_end: usize,
    brace_depth: u32,
    tok: &Tokenizer,
) -> (res: usize)
    requires
        tok.wf(),
        scan_ready(ScanCtx { text: source@, ls: line_starts@, range: byte_range, lang: language }),
        start_pos <= scan_end <= source.spec_bytes().len(),
        is_char_boundary(source.spec_bytes(), scan_end as int),
        markers_in_text(old(markers)@, source.spec_bytes()),
    ensures
        final(markers)@ == old(markers)@ + spec_scan(
            ScanCtx { text: source@, ls: line_starts@, range: byte_range, lang: language },
            start_pos as int,
            scan_end as int,
            brace_depth,
            LastToken::Start,
        ).0,
        res == spec_scan(
            ScanCtx { text: source@, ls: line_starts@, range: byte_range, lang: language },
            start_pos as int,
            scan_end as int,
            brace_depth,
            LastToken::Start,
        ).1,
        start_pos <= res <= scan_end,
        is_char_boundary(source.spec_bytes(), res as int),
        markers_in_text(final(markers)@, source.spec_bytes()),
    decreases source.spec_bytes().len() - start_pos, 1int, 0int,
{
    let ghost c = ScanCtx { text: source@, ls: line_starts@, range: byte_range, lang: language };
    let ghost bytes_s = source.spec_bytes();
    proof {
        lemma_str_bytes(source);
    }
    let bytes = source.as_bytes();
    let len = str_len(source);
    let mut pos = start_pos;
    let mut locs = capture_locations(&tok.token_re);
    let ghost depth_init = brace_depth;
    let mut depth = brace_depth;
    // Track the last non-whitespace, non-comment token kind for regex disambiguation.
    // A `/` following a value or close bracket is division;
    // following an operator or at start of input it's a regex.
    let mut last_token = LastToken::Start;
    let ghost old_m = markers@;
    let ghost mut produced: Seq<StyleMarker> = seq![];
    let ghost whole = spec_scan(c, start_pos as int, scan_end as int, depth_init, LastToken::Start);
    loop
        invariant
            tok.wf(),
            scan_ready(c),
            c == (ScanCtx { text: source@, ls: line_starts@, range: byte_range, lang: language }),
            bytes@ == bytes_s,
            bytes_s == source.spec_bytes(),
            bytes_s == ctx_bytes(c),
            valid_utf8(bytes_s),
            len == bytes_s.len(),
            start_pos <= pos <= len,
            scan_end <= len,
            start_pos <= scan_end,
            is_char_boundary(bytes_s, scan_end as int),
            locs.pattern() == TOKEN_PATTERN@,
            markers@ == old_m + produced,
            markers_in_text(markers@, bytes_s),
            whole == spec_scan(c, start_pos as int, scan_end as int, depth_init, LastToken::Start),
            depth_init == brace_depth,
            old_m == old(markers)@,
            whole.0 == produced + spec_scan(c, pos as int, scan_end as int, depth, last_token).0,
            whole.1 == spec_scan(c, pos as int, scan_end as int, depth, last_token).1,
        ensures
            markers@ == old_m + whole.0,
            whole.1 == scan_end,
        decreases len - pos,
    {
        let ghost pos0 = pos;
        let ghost depth0 = depth;
        let ghost last0 = last_token;
        let found = captures_read_at(&tok.token_re, &mut locs, source, pos);
        let (start, raw_end) = match found {
            Some(m) => m,
            None => {
                assert(token_at(c, pos as int) is None);
                assert(spec_scan(c, pos as int, scan_end as int, depth, last_token) == (Seq::<StyleMarker>::empty(), scan_end as int));
                assert(markers@ =~= old_m + whole.0);
                break;
            },
        };
        let ghost slots = regex_captures_at(TOKEN_PATTERN@, source@, pos as int)->0;
        assert(locs.slots() == slots);
        assert(token_at(c, pos as int) == Some((start as int, raw_end as int, spec_matched_group(slots))));
        // Stop if the match starts at or past our scan boundary
        if start >= scan_end {
            assert(spec_scan(c, pos as int, scan_end as int, depth, last_token) == (Seq::<StyleMarker>::empty(), scan_end as int));
            assert(markers@ =~= old_m + whole.0);
            break;
        }
        // A match that does not move past `pos` would scan forever
        if raw_end <= pos {
            assert(spec_scan(c, pos as int, scan_end as int, depth, last_token) == (Seq::<StyleMarker>::empty(), scan_end as int));
            assert(markers@ =~= old_m + whole.0);
            break;
        }
        // Clamp the match end to scan_end
        let end = if raw_end < scan_end {
            raw_end
        } else {
            scan_end
        };
        let g = matched_group(&locs);
        let ghost eff = spec_scan_token(c, start as int, raw_end as int, g as int, scan_end as int, depth, last_token);
        let (closes, next, next_last, next_depth) = scan_token(
            markers,
            line_starts,
            source,
            byte_range,
            language,
            tok,
            start,
            raw_end,
            g,
            scan_end,
            depth,
            last_token,
        );
        proof {
            assert(markers@ =~= old_m + (produced + eff.markers));
            produced = produced + eff.markers;
        }
        if closes {
            // Found the closing `}` of a template expression: return the
            // position past it so the caller knows where the expression ended.
            assert(markers@ =~= old_m + whole.0);
            return end;
        }
        pos = next;
        depth = next_depth;
        last_token = next_last;
    }
    scan_end
}

/// After a `)` or `]`, a `/` is division: a close bracket leaves a state that
/// does not expect a regex, adds no marker, and the slash that follows it adds
/// no marker and leaves an operator behind.
pub proof fn law_close_bracket_then_division(
    c: ScanCtx,
    start: int,
    raw_end: int,
    scan_end: int,
    depth: u32,
    last: LastToken,
    slash_start: int,
    slash_end: int,
    slash_scan_end: int,
    slash_depth: u32,
)
    requires
        0 <= start < ctx_bytes(c).len(),
        min_int(raw_end, scan_end) <= ctx_bytes(c).len(),
    ensures
        ({
            let eff = spec_scan_token(c, start, raw_end, GRP_CLOSE as int, scan_end, depth, last);
            let slash = spec_scan_token(c, slash_start, slash_end, GRP_SLASH as int, slash_scan_end, slash_depth, eff.last);
            &&& !spec_expects_regex(eff.last)
            &&& eff.markers.len() == 0
            &&& !eff.closes
            &&& slash.markers.len() == 0
            &&& (0 <= slash_start < ctx_bytes(c).len() && min_int(slash_end, slash_scan_end) <= ctx_bytes(c).len())
                ==> slash.last == LastToken::Operator
        }),
{
}

} // verus!

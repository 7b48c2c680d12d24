//! The tokenizer's markers come in pairs: a start marker, then the end
//! marker of the same token type further on.
use vstd::prelude::*;
use vstd::utf8::*;

use crate::highlight::{law_marker_pairs, paired_markers, spec_marker_pair, StyleMarker, TokenType};
use crate::scanner::{
    ctx_bytes, ident_token_type, min_int, spec_scan, spec_scan_token, spec_template,
    spec_template_loop, template_content_end, token_at, LastToken, ScanCtx, GRP_BLOCK_COMMENT,
    GRP_IDENT, GRP_LINE_COMMENT, GRP_NUMBER, GRP_SLASH, GRP_STRING, GRP_TEMPLATE,
};

verus! {

/// Markers that come in pairs: each pair a start marker followed by an end
/// marker of the same type further on, no later than `len`.
pub open spec fn in_pairs(m: Seq<StyleMarker>, len: int) -> bool
    decreases m.len(),
{
    if m.len() == 0 {
        true
    } else if m.len() == 1 {
        false
    } else {
        let s = m[m.len() - 2];
        let e = m[m.len() - 1];
        &&& in_pairs(m.subrange(0, m.len() - 2), len)
        &&& s.is_start && !e.is_start
        &&& s.token_type == e.token_type
        &&& s.offset < e.offset <= len
    }
}

/// Pairs followed by pairs are pairs.
proof fn lemma_pairs_concat(a: Seq<StyleMarker>, b: Seq<StyleMarker>, len: int)
    requires
        in_pairs(a, len),
        in_pairs(b, len),
    ensures
        in_pairs(a + b, len),
    decreases b.len(),
{
    if b.len() == 0 {
        assert(a + b =~= a);
    } else {
        let bb = b.subrange(0, b.len() - 2);
        lemma_pairs_concat(a, bb, len);
        let ab = a + b;
        assert(ab.subrange(0, ab.len() - 2) =~= a + bb);
        assert(ab[ab.len() - 2] == b[b.len() - 2]);
        assert(ab[ab.len() - 1] == b[b.len() - 1]);
    }
}

/// The pairs of one span, of one type, within the text, are pairs.
proof fn lemma_paired_in_pairs(m: Seq<StyleMarker>, start: int, end: int, t: TokenType, r: (usize, usize), len: int)
    requires
        paired_markers(m, start, end, t, r),
        end <= len,
    ensures
        in_pairs(m, len),
    decreases m.len(),
{
    if m.len() >= 2 {
        lemma_paired_in_pairs(m.subrange(0, m.len() - 2), start, end, t, r, len);
    }
}

/// The markers of a span are pairs.
proof fn lemma_span_pairs(c: ScanCtx, start: int, end: int, t: TokenType)
    requires
        0 <= start,
        end <= ctx_bytes(c).len(),
        ctx_bytes(c).len() <= usize::MAX,
    ensures
        in_pairs(spec_marker_pair(c.ls, ctx_bytes(c).len() as int, start, end, t, c.range), ctx_bytes(c).len() as int),
{
    let len = ctx_bytes(c).len() as int;
    law_marker_pairs(c.ls, len, start, end, t, c.range);
    lemma_paired_in_pairs(spec_marker_pair(c.ls, len, start, end, t, c.range), start, end, t, c.range, len);
}

/// Scanning yields markers in pairs.
proof fn lemma_scan_pairs(c: ScanCtx, pos: int, scan_end: int, depth: u32, last: LastToken)
    requires
        ctx_bytes(c).len() <= usize::MAX,
    ensures
        in_pairs(spec_scan(c, pos, scan_end, depth, last).0, ctx_bytes(c).len() as int),
    decreases ctx_bytes(c).len() - pos, 1int, 0int,
{
    let len = ctx_bytes(c).len() as int;
    if !(pos < 0 || pos > len || scan_end > len) {
        if let Some(tok) = token_at(c, pos) {
            let start = tok.0;
            let raw_end = tok.1;
            if !(start >= scan_end || start < pos || raw_end <= pos || raw_end > len) {
                lemma_token_pairs(c, start, raw_end, tok.2, scan_end, depth, last);
                let eff = spec_scan_token(c, start, raw_end, tok.2, scan_end, depth, last);
                if !eff.closes && !(eff.next <= pos || eff.next > len) {
                    lemma_scan_pairs(c, eff.next, scan_end, eff.depth, eff.last);
                    lemma_pairs_concat(eff.markers, spec_scan(c, eff.next, scan_end, eff.depth, eff.last).0, len);
                }
            }
        }
    }
}

/// One token yields markers in pairs.
proof fn lemma_token_pairs(c: ScanCtx, start: int, raw_end: int, g: int, scan_end: int, depth: u32, last: LastToken)
    requires
        ctx_bytes(c).len() <= usize::MAX,
    ensures
        in_pairs(spec_scan_token(c, start, raw_end, g, scan_end, depth, last).markers, ctx_bytes(c).len() as int),
    decreases ctx_bytes(c).len() - start, 0int, ctx_bytes(c).len() + 3,
{
    let len = ctx_bytes(c).len() as int;
    let end = min_int(raw_end, scan_end);
    if !(start < 0 || start >= len || end > len) {
        if g == GRP_STRING {
            lemma_span_pairs(c, start, end, TokenType::String);
        } else if g == GRP_TEMPLATE {
            lemma_template_pairs(c, start, end);
        } else if g == GRP_LINE_COMMENT || g == GRP_BLOCK_COMMENT {
            lemma_span_pairs(c, start, end, TokenType::Comment);
        } else if g == GRP_SLASH {
            if let Some(m) = crate::patterns::regex_find_at(crate::scanner::REGEX_LITERAL_PATTERN@, c.text, start) {
                let re_end = min_int(m.1 as int, scan_end);
                if re_end <= len {
                    lemma_span_pairs(c, start, re_end, TokenType::Regex);
                }
            }
        } else if g == GRP_NUMBER {
            lemma_span_pairs(c, start, end, TokenType::Number);
        } else if g == GRP_IDENT {
            if let Some(t) = ident_token_type(c, start, end) {
                lemma_span_pairs(c, start, end, t);
            }
        }
    }
}

/// A template literal yields markers in pairs.
proof fn lemma_template_pairs(c: ScanCtx, tpl_start: int, tpl_end: int)
    requires
        ctx_bytes(c).len() <= usize::MAX,
    ensures
        in_pairs(spec_template(c, tpl_start, tpl_end), ctx_bytes(c).len() as int),
    decreases ctx_bytes(c).len() - tpl_start, 0int, ctx_bytes(c).len() + 2,
{
    let len = ctx_bytes(c).len() as int;
    if !(tpl_start < 0 || tpl_start >= len || tpl_end > len) {
        lemma_template_loop_pairs(
            c,
            tpl_start,
            tpl_end,
            template_content_end(c, tpl_start, tpl_end),
            tpl_start + 1,
            tpl_start,
        );
    }
}

/// The rest of a template literal yields markers in pairs.
proof fn lemma_template_loop_pairs(
    c: ScanCtx,
    tpl_start: int,
    tpl_end: int,
    content_end: int,
    i: int,
    seg_start: int,
)
    requires
        ctx_bytes(c).len() <= usize::MAX,
        0 <= seg_start,
        tpl_end <= ctx_bytes(c).len(),
    ensures
        in_pairs(spec_template_loop(c, tpl_start, tpl_end, content_end, i, seg_start), ctx_bytes(c).len() as int),
    decreases ctx_bytes(c).len() - tpl_start, 0int, ctx_bytes(c).len() + 2 - i,
{
    let bytes = ctx_bytes(c);
    let len = bytes.len() as int;
    assert(in_pairs(Seq::<StyleMarker>::empty(), len));
    lemma_span_pairs(c, seg_start, tpl_end, TokenType::String);
    if !(i >= content_end || i < tpl_start + 1 || tpl_start < 0 || content_end > len) {
        if bytes[i] == 92u8 {
            lemma_template_loop_pairs(c, tpl_start, tpl_end, content_end, i + 2, seg_start);
        } else if bytes[i] == 36u8 && i + 1 < content_end && bytes[i + 1] == 123u8 {
            lemma_span_pairs(c, seg_start, i, TokenType::String);
            let seg = if i > seg_start {
                spec_marker_pair(c.ls, len, seg_start, i, TokenType::String, c.range)
            } else {
                Seq::<StyleMarker>::empty()
            };
            lemma_scan_pairs(c, i + 2, content_end, 1u32, LastToken::Start);
            let r = spec_scan(c, i + 2, content_end, 1u32, LastToken::Start);
            let expr_end = r.1;
            lemma_pairs_concat(seg, r.0, len);
            if !(expr_end <= i || expr_end > content_end) {
                let new_seg = if expr_end > i + 2 && expr_end <= content_end && bytes[expr_end - 1] == 125u8 {
                    expr_end - 1
                } else {
                    expr_end
                };
                lemma_template_loop_pairs(c, tpl_start, tpl_end, content_end, expr_end, new_seg);
                lemma_pairs_concat(seg + r.0, spec_template_loop(c, tpl_start, tpl_end, content_end, expr_end, new_seg), len);
            }
        } else {
            lemma_template_loop_pairs(c, tpl_start, tpl_end, content_end, i + 1, seg_start);
        }
    }
}

/// The tokenizer's markers come in pairs: each start marker is followed by
/// the end marker of the same token type, strictly after it and within the text.
pub proof fn law_scan_markers_paired(c: ScanCtx)
    requires
        ctx_bytes(c).len() <= usize::MAX,
    ensures
        in_pairs(spec_scan(c, 0, ctx_bytes(c).len() as int, 0u32, LastToken::Start).0, ctx_bytes(c).len() as int),
{
    lemma_scan_pairs(c, 0, ctx_bytes(c).len() as int, 0u32, LastToken::Start);
}

} // verus!

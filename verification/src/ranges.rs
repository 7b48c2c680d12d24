//! Highlights of a range of lines against those of the whole text: asking
//! for fewer lines drops markers but never adds or moves any.
use vstd::prelude::*;
use vstd::utf8::*;

use crate::highlight::{
    highlight_byte_range, spec_extract_highlights, Language, lemma_marker_order_total, marker_order, window, spec_line_highlight, end_marker, spec_marker_pair, spec_split_pair, start_marker, touches,
    StyleMarker, TokenType,
};
use crate::lines::{lemma_lookup_line, line_starts_wf, spec_line_bounds, spec_line_starts, spec_lookup_line};
use crate::scanner::{
    ctx_bytes, ident_token_type, min_int, spec_scan, spec_scan_token, spec_template,
    spec_template_loop, template_content_end, token_at, LastToken, ScanCtx, GRP_BLOCK_COMMENT,
    GRP_IDENT, GRP_LINE_COMMENT, GRP_NUMBER, GRP_SLASH, GRP_STRING, GRP_TEMPLATE,
};

verus! {

/// The markers that a byte range keeps: a start marker inside it, or an end
/// marker that closes a span reaching into it.
pub open spec fn kept_by(r: (usize, usize)) -> spec_fn(StyleMarker) -> bool {
    |m: StyleMarker|
        if m.is_start {
            r.0 <= m.offset < r.1
        } else {
            r.0 < m.offset <= r.1
        }
}

/// A byte range whose ends are line starts: its start is a line start or
/// past the text, its end a line start or the end of the text.
pub open spec fn range_aligned(ls: Seq<usize>, len: int, r: (usize, usize)) -> bool {
    &&& (r.0 >= len || exists|k: int| 0 <= k < ls.len() && #[trigger] ls[k] == r.0)
    &&& (r.1 == len || exists|k: int| 0 <= k < ls.len() && #[trigger] ls[k] == r.1)
    &&& r.1 <= len
}

/// No line starts strictly inside `(ms, me)`.
pub open spec fn within_line(ls: Seq<usize>, ms: int, me: int) -> bool {
    forall|k: int| 0 <= k < ls.len() ==> !(ms < #[trigger] ls[k] < me)
}

/// The whole text as a byte range.
pub open spec fn whole_range(len: int) -> (usize, usize) {
    (0usize, len as usize)
}

/// For a span inside one line, an aligned range keeps its start and end
/// markers exactly when the span reaches into the range, and the whole text
/// always does.
proof fn lemma_pair_kept(ls: Seq<usize>, len: int, ms: int, me: int, t: TokenType, r: (usize, usize))
    requires
        range_aligned(ls, len, r),
        within_line(ls, ms, me),
        0 <= ms < me <= len,
        len <= usize::MAX,
    ensures
        kept_by(r)(start_marker(ms, t)) == touches(ms, me, r),
        kept_by(r)(end_marker(me, t)) == touches(ms, me, r),
        touches(ms, me, whole_range(len)),
{
    if ms < r.0 < me {
        let k = choose|k: int| 0 <= k < ls.len() && #[trigger] ls[k] == r.0;
        assert(!(ms < ls[k] < me));
    }
    if ms < r.1 < me && r.1 != len {
        let k = choose|k: int| 0 <= k < ls.len() && #[trigger] ls[k] == r.1;
        assert(!(ms < ls[k] < me));
    }
}

/// Pairs kept by the whole text, filtered by a range: the range's own pieces.
proof fn lemma_pair_filter(ls: Seq<usize>, len: int, ms: int, me: int, t: TokenType, r: (usize, usize))
    requires
        range_aligned(ls, len, r),
        within_line(ls, ms, me),
        0 <= ms < me <= len,
        len <= usize::MAX,
    ensures
        (if touches(ms, me, r) {
            seq![start_marker(ms, t), end_marker(me, t)]
        } else {
            Seq::<StyleMarker>::empty()
        }) == seq![start_marker(ms, t), end_marker(me, t)].filter(kept_by(r)),
{
    lemma_pair_kept(ls, len, ms, me, t, r);
    let p = seq![start_marker(ms, t), end_marker(me, t)];
    reveal_with_fuel(Seq::filter, 3);
    assert(p.drop_last() =~= seq![start_marker(ms, t)]);
    assert(p.drop_last().drop_last() =~= Seq::<StyleMarker>::empty());
    assert(Seq::<StyleMarker>::empty().push(start_marker(ms, t)) =~= seq![start_marker(ms, t)]);
    assert(seq![start_marker(ms, t)].push(end_marker(me, t)) =~= p);
}

/// The pieces of a span on the lines `from..to`, cut for a range, are those
/// cut for the whole text and then filtered by the range.
proof fn lemma_split_filter(
    ls: Seq<usize>,
    len: int,
    start: int,
    end: int,
    t: TokenType,
    r: (usize, usize),
    from: int,
    to: int,
)
    requires
        line_starts_wf(ls, len),
        range_aligned(ls, len, r),
        len <= usize::MAX,
        0 <= start,
        end <= len,
        0 <= from,
        to <= ls.len(),
    ensures
        spec_split_pair(ls, len, start, end, t, r, from, to) == spec_split_pair(
            ls,
            len,
            start,
            end,
            t,
            whole_range(len),
            from,
            to,
        ).filter(kept_by(r)),
    decreases to - from,
{
    if to > from {
        lemma_split_filter(ls, len, start, end, t, r, from, to - 1);
        let b = spec_line_bounds(ls, len, to - 1);
        let ms = if start > b.0 {
            start
        } else {
            b.0
        };
        let me = if end < b.1 {
            end
        } else {
            b.1
        };
        let prev_f = spec_split_pair(ls, len, start, end, t, whole_range(len), from, to - 1);
        if ms < me {
            assert(ls[to - 1] <= len);
            if to < ls.len() {
                assert(ls[to - 1] < ls[to]);
            }
            assert(within_line(ls, ms, me)) by {
                assert forall|k: int| 0 <= k < ls.len() implies !(ms < #[trigger] ls[k] < me) by {
                    if k < to - 1 {
                        assert(ls[k] < ls[to - 1]);
                    } else if k > to - 1 {
                        assert(ls[to - 1] < ls[k]);
                        if k > to {
                            assert(ls[to] < ls[k]);
                        }
                    }
                }
            }
            lemma_pair_filter(ls, len, ms, me, t, r);
            lemma_pair_kept(ls, len, ms, me, t, r);
            let pair = seq![start_marker(ms, t), end_marker(me, t)];
            Seq::filter_distributes_over_add(prev_f, pair, kept_by(r));
        }
    }
}

/// A range that a span does not reach into gets no piece of it.
proof fn lemma_split_outside(
    ls: Seq<usize>,
    len: int,
    start: int,
    end: int,
    t: TokenType,
    r: (usize, usize),
    from: int,
    to: int,
)
    requires
        !touches(start, end, r),
    ensures
        spec_split_pair(ls, len, start, end, t, r, from, to) == Seq::<StyleMarker>::empty(),
    decreases to - from,
{
    if to > from {
        lemma_split_outside(ls, len, start, end, t, r, from, to - 1);
    }
}

/// The markers of a span for a range are those for the whole text, filtered
/// by the range.
pub proof fn lemma_marker_pair_filter(
    ls: Seq<usize>,
    len: int,
    start: int,
    end: int,
    t: TokenType,
    r: (usize, usize),
)
    requires
        line_starts_wf(ls, len),
        range_aligned(ls, len, r),
        len <= usize::MAX,
        0 <= start,
        end <= len,
    ensures
        spec_marker_pair(ls, len, start, end, t, r) == spec_marker_pair(
            ls,
            len,
            start,
            end,
            t,
            whole_range(len),
        ).filter(kept_by(r)),
{
    if start < end {
        let sl = spec_lookup_line(ls, start);
        let el = spec_lookup_line(ls, end - 1);
        lemma_lookup_line(ls, len, start);
        lemma_lookup_line(ls, len, end - 1);
        assert(touches(start, end, whole_range(len)));
        if sl != el {
            lemma_split_filter(ls, len, start, end, t, r, sl, el + 1);
            if !touches(start, end, r) {
                lemma_split_outside(ls, len, start, end, t, r, sl, el + 1);
            }
        } else {
            assert(within_line(ls, start, end)) by {
                assert forall|k: int| 0 <= k < ls.len() implies !(start < #[trigger] ls[k] < end) by {
                    if start < ls[k] < end {
                        if k <= sl {
                            if k < sl {
                                assert(ls[k] < ls[sl]);
                            }
                        } else {
                            if k > sl + 1 {
                                assert(ls[sl + 1] < ls[k]);
                            }
                        }
                    }
                }
            }
            lemma_pair_filter(ls, len, start, end, t, r);
        }
    } else {
        assert(Seq::<StyleMarker>::empty().filter(kept_by(r)) =~= Seq::<StyleMarker>::empty());
    }
}

/// The scanning context for the whole text.
pub open spec fn whole_ctx(c: ScanCtx) -> ScanCtx {
    ScanCtx { range: whole_range(ctx_bytes(c).len() as int), ..c }
}

/// A scanning context whose kept range is aligned to its line starts.
pub open spec fn ctx_aligned(c: ScanCtx) -> bool {
    &&& line_starts_wf(c.ls, ctx_bytes(c).len() as int)
    &&& range_aligned(c.ls, ctx_bytes(c).len() as int, c.range)
    &&& ctx_bytes(c).len() <= usize::MAX
}

/// Scanning for a range goes exactly as scanning the whole text, keeping the
/// markers that the range keeps.
pub proof fn lemma_scan_filter(c: ScanCtx, pos: int, scan_end: int, depth: u32, last: LastToken)
    requires
        ctx_aligned(c),
    ensures
        spec_scan(c, pos, scan_end, depth, last).0 == spec_scan(whole_ctx(c), pos, scan_end, depth, last).0.filter(
            kept_by(c.range),
        ),
        spec_scan(c, pos, scan_end, depth, last).1 == spec_scan(whole_ctx(c), pos, scan_end, depth, last).1,
    decreases ctx_bytes(c).len() - pos, 1int, 0int,
{
    let f = whole_ctx(c);
    let len = ctx_bytes(c).len() as int;
    assert(ctx_bytes(f) == ctx_bytes(c));
    assert(token_at(f, pos) == token_at(c, pos));
    assert(Seq::<StyleMarker>::empty().filter(kept_by(c.range)) =~= Seq::<StyleMarker>::empty());
    if !(pos < 0 || pos > len || scan_end > len) {
        if let Some(tok) = token_at(c, pos) {
            let start = tok.0;
            let raw_end = tok.1;
            if !(start >= scan_end || start < pos || raw_end <= pos || raw_end > len) {
                lemma_token_filter(c, start, raw_end, tok.2, scan_end, depth, last);
                let eff = spec_scan_token(c, start, raw_end, tok.2, scan_end, depth, last);
                let eff_f = spec_scan_token(f, start, raw_end, tok.2, scan_end, depth, last);
                if !eff.closes && !(eff.next <= pos || eff.next > len) {
                    lemma_scan_filter(c, eff.next, scan_end, eff.depth, eff.last);
                    Seq::filter_distributes_over_add(
                        eff_f.markers,
                        spec_scan(f, eff.next, scan_end, eff.depth, eff.last).0,
                        kept_by(c.range),
                    );
                }
            }
        }
    }
}

/// One token for a range has the effect it has for the whole text, keeping
/// the markers that the range keeps.
pub proof fn lemma_token_filter(
    c: ScanCtx,
    start: int,
    raw_end: int,
    g: int,
    scan_end: int,
    depth: u32,
    last: LastToken,
)
    requires
        ctx_aligned(c),
    ensures
        ({
            let e = spec_scan_token(c, start, raw_end, g, scan_end, depth, last);
            let ef = spec_scan_token(whole_ctx(c), start, raw_end, g, scan_end, depth, last);
            &&& e.markers == ef.markers.filter(kept_by(c.range))
            &&& e.closes == ef.closes
            &&& e.next == ef.next
            &&& e.last == ef.last
            &&& e.depth == ef.depth
        }),
    decreases ctx_bytes(c).len() - start, 0int, ctx_bytes(c).len() + 3,
{
    let f = whole_ctx(c);
    let bytes = ctx_bytes(c);
    let len = bytes.len() as int;
    let end = min_int(raw_end, scan_end);
    assert(ctx_bytes(f) == bytes);
    assert(Seq::<StyleMarker>::empty().filter(kept_by(c.range)) =~= Seq::<StyleMarker>::empty());
    if !(start < 0 || start >= len || end > len) {
        if g == GRP_STRING {
            lemma_marker_pair_filter(c.ls, len, start, end, TokenType::String, c.range);
        } else if g == GRP_TEMPLATE {
            lemma_template_filter(c, start, end);
        } else if g == GRP_LINE_COMMENT || g == GRP_BLOCK_COMMENT {
            lemma_marker_pair_filter(c.ls, len, start, end, TokenType::Comment, c.range);
        } else if g == GRP_SLASH {
            if let Some(m) = crate::patterns::regex_find_at(crate::scanner::REGEX_LITERAL_PATTERN@, c.text, start) {
                let re_end = min_int(m.1 as int, scan_end);
                if re_end <= len {
                    lemma_marker_pair_filter(c.ls, len, start, re_end, TokenType::Regex, c.range);
                }
            }
        } else if g == GRP_NUMBER {
            lemma_marker_pair_filter(c.ls, len, start, end, TokenType::Number, c.range);
        } else if g == GRP_IDENT {
            assert(ident_token_type(c, start, end) == ident_token_type(f, start, end));
            if let Some(t) = ident_token_type(c, start, end) {
                lemma_marker_pair_filter(c.ls, len, start, end, t, c.range);
            }
        }
    }
}

/// A template literal for a range is marked as for the whole text, keeping
/// the markers that the range keeps.
pub proof fn lemma_template_filter(c: ScanCtx, tpl_start: int, tpl_end: int)
    requires
        ctx_aligned(c),
    ensures
        spec_template(c, tpl_start, tpl_end) == spec_template(whole_ctx(c), tpl_start, tpl_end).filter(
            kept_by(c.range),
        ),
    decreases ctx_bytes(c).len() - tpl_start, 0int, ctx_bytes(c).len() + 2,
{
    let f = whole_ctx(c);
    let len = ctx_bytes(c).len() as int;
    assert(ctx_bytes(f) == ctx_bytes(c));
    assert(Seq::<StyleMarker>::empty().filter(kept_by(c.range)) =~= Seq::<StyleMarker>::empty());
    if !(tpl_start < 0 || tpl_start >= len || tpl_end > len) {
        assert(template_content_end(c, tpl_start, tpl_end) == template_content_end(f, tpl_start, tpl_end));
        lemma_template_loop_filter(
            c,
            tpl_start,
            tpl_end,
            template_content_end(c, tpl_start, tpl_end),
            tpl_start + 1,
            tpl_start,
        );
    }
}

/// The rest of a template literal for a range is marked as for the whole
/// text, keeping the markers that the range keeps.
pub proof fn lemma_template_loop_filter(
    c: ScanCtx,
    tpl_start: int,
    tpl_end: int,
    content_end: int,
    i: int,
    seg_start: int,
)
    requires
        ctx_aligned(c),
        0 <= seg_start,
        tpl_end <= ctx_bytes(c).len(),
    ensures
        spec_template_loop(c, tpl_start, tpl_end, content_end, i, seg_start) == spec_template_loop(
            whole_ctx(c),
            tpl_start,
            tpl_end,
            content_end,
            i,
            seg_start,
        ).filter(kept_by(c.range)),
    decreases ctx_bytes(c).len() - tpl_start, 0int, ctx_bytes(c).len() + 2 - i,
{
    let f = whole_ctx(c);
    let bytes = ctx_bytes(c);
    let len = bytes.len() as int;
    let p = kept_by(c.range);
    assert(ctx_bytes(f) == bytes);
    assert(Seq::<StyleMarker>::empty().filter(p) =~= Seq::<StyleMarker>::empty());
    lemma_marker_pair_filter(c.ls, len, seg_start, tpl_end, TokenType::String, c.range);
    if !(i >= content_end || i < tpl_start + 1 || tpl_start < 0 || content_end > len) {
        if bytes[i] == 92u8 {
            lemma_template_loop_filter(c, tpl_start, tpl_end, content_end, i + 2, seg_start);
        } else if bytes[i] == 36u8 && i + 1 < content_end && bytes[i + 1] == 123u8 {
            lemma_marker_pair_filter(c.ls, len, seg_start, i, TokenType::String, c.range);
            let seg_f = if i > seg_start {
                spec_marker_pair(c.ls, len, seg_start, i, TokenType::String, whole_range(len))
            } else {
                Seq::<StyleMarker>::empty()
            };
            lemma_scan_filter(c, i + 2, content_end, 1u32, LastToken::Start);
            let r = spec_scan(f, i + 2, content_end, 1u32, LastToken::Start);
            let expr_end = r.1;
            Seq::filter_distributes_over_add(seg_f, r.0, p);
            if !(expr_end <= i || expr_end > content_end) {
                let new_seg = if expr_end > i + 2 && expr_end <= content_end && bytes[expr_end - 1] == 125u8 {
                    expr_end - 1
                } else {
                    expr_end
                };
                lemma_template_loop_filter(c, tpl_start, tpl_end, content_end, expr_end, new_seg);
                Seq::filter_distributes_over_add(
                    seg_f + r.0,
                    spec_template_loop(f, tpl_start, tpl_end, content_end, expr_end, new_seg),
                    p,
                );
            }
        } else {
            lemma_template_loop_filter(c, tpl_start, tpl_end, content_end, i + 1, seg_start);
        }
    }
}

/// Filtering keeps a sequence sorted, and takes its elements from it.
proof fn lemma_filter_sorted(s: Seq<StyleMarker>, p: spec_fn(StyleMarker) -> bool, leq: spec_fn(StyleMarker, StyleMarker) -> bool)
    requires
        vstd::relations::sorted_by(s, leq),
    ensures
        vstd::relations::sorted_by(s.filter(p), leq),
        forall|i: int| 0 <= i < s.filter(p).len() ==> exists|k: int| 0 <= k < s.len() && s[k] == #[trigger] s.filter(p)[i],
    decreases s.len(),
{
    reveal(Seq::filter);
    if s.len() > 0 {
        let d = s.drop_last();
        assert forall|i: int, j: int| 0 <= i < j < d.len() implies #[trigger] leq(d[i], d[j]) by {
            assert(d[i] == s[i] && d[j] == s[j]);
        }
        lemma_filter_sorted(d, p, leq);
        let f = d.filter(p);
        let x = s.last();
        if p(x) {
            let g = f.push(x);
            assert forall|i: int, j: int| 0 <= i < j < g.len() implies #[trigger] leq(g[i], g[j]) by {
                if j < f.len() {
                    assert(g[i] == f[i] && g[j] == f[j]);
                } else {
                    assert(g[i] == f[i]);
                    let k = choose|k: int| 0 <= k < d.len() && d[k] == f[i];
                    assert(s[k] == d[k]);
                    assert(leq(s[k], s[s.len() - 1]));
                }
            }
            assert forall|i: int| 0 <= i < g.len() implies exists|k: int| 0 <= k < s.len() && s[k] == #[trigger] g[i] by {
                if i < f.len() {
                    let k = choose|k: int| 0 <= k < d.len() && d[k] == f[i];
                    assert(s[k] == g[i]);
                } else {
                    assert(s[s.len() - 1] == g[i]);
                }
            }
        } else {
            assert forall|i: int| 0 <= i < f.len() implies exists|k: int| 0 <= k < s.len() && s[k] == #[trigger] f[i] by {
                let k = choose|k: int| 0 <= k < d.len() && d[k] == f[i];
                assert(s[k] == f[i]);
            }
        }
    }
}

/// How often an element occurs in a filtered sequence.
proof fn lemma_filter_count(s: Seq<StyleMarker>, p: spec_fn(StyleMarker) -> bool, x: StyleMarker)
    ensures
        s.filter(p).to_multiset().count(x) == if p(x) {
            s.to_multiset().count(x)
        } else {
            0
        },
    decreases s.len(),
{
    broadcast use vstd::seq_lib::group_to_multiset_ensures;

    reveal(Seq::filter);
    if s.len() == 0 {
    } else {
        let d = s.drop_last();
        lemma_filter_count(d, p, x);
        assert(d.push(s.last()) =~= s);
    }
}

/// Sorting the markers a predicate keeps gives the sorted markers that it keeps.
pub proof fn lemma_sort_filter(m: Seq<StyleMarker>, p: spec_fn(StyleMarker) -> bool)
    ensures
        m.filter(p).sort_by(marker_order()) == m.sort_by(marker_order()).filter(p),
{
    let ord = marker_order();
    lemma_marker_order_total();
    m.lemma_sort_by_ensures(ord);
    m.filter(p).lemma_sort_by_ensures(ord);
    let s = m.sort_by(ord);
    lemma_filter_sorted(s, p, ord);
    assert(m.filter(p).to_multiset() =~= s.filter(p).to_multiset()) by {
        assert forall|x: StyleMarker| #[trigger] m.filter(p).to_multiset().count(x) == s.filter(p).to_multiset().count(x) by {
            lemma_filter_count(m, p, x);
            lemma_filter_count(s, p, x);
        }
    }
    vstd::seq_lib::lemma_sorted_unique(m.filter(p).sort_by(ord), s.filter(p), ord);
}

/// Taking the window of filtered markers is filtering the window, by the
/// predicate seen from the window's moved offsets.
proof fn lemma_window_filter(
    m: Seq<StyleMarker>,
    p: spec_fn(StyleMarker) -> bool,
    q: spec_fn(StyleMarker) -> bool,
    lo: int,
    hi: int,
)
    requires
        forall|x: StyleMarker|
            lo <= x.offset < hi ==> #[trigger] p(x) == q(
                StyleMarker { offset: (x.offset - lo) as usize, is_start: x.is_start, token_type: x.token_type },
            ),
    ensures
        window(m.filter(p), lo, hi, lo, 0) == window(m, lo, hi, lo, 0).filter(q),
    decreases m.len(),
{
    reveal(Seq::filter);
    if m.len() > 0 {
        let d = m.drop_last();
        let x = m.last();
        lemma_window_filter(d, p, q, lo, hi);
        let y = StyleMarker { offset: (x.offset - lo + 0) as usize, is_start: x.is_start, token_type: x.token_type };
        let wd = window(d, lo, hi, lo, 0);
        assert(m.filter(p) == if p(x) { d.filter(p).push(x) } else { d.filter(p) });
        if p(x) {
            let fp = d.filter(p).push(x);
            assert(fp.drop_last() =~= d.filter(p));
            assert(fp.last() == x);
        }
        if lo <= x.offset < hi {
            assert(window(m, lo, hi, lo, 0) == wd.push(y));
            assert(wd.push(y).drop_last() =~= wd);
            assert(wd.push(y).last() == y);
            assert(p(x) == q(y));
        } else {
            assert(window(m, lo, hi, lo, 0) == wd);
        }
    }
}

/// The markers that the `j`-th line of a requested range keeps of the same
/// line of the whole text: all of them, except, on the first requested line,
/// the end markers at its very start (which close a span of the line before).
pub open spec fn kept_on_range_line(j: int) -> spec_fn(StyleMarker) -> bool {
    |m: StyleMarker| m.is_start || m.offset != 0 || j != 0
}

/// Asking for the lines `range_start..range_end` gives, for each of them, the
/// highlight of that line among the highlights of the whole text: the same
/// line number and byte range, and the same markers in the same order but for
/// the end markers at the very start of the first requested line. So a
/// smaller range never has more markers on a line.
pub proof fn law_range_highlights_within_whole(text: Seq<char>, range_start: int, range_end: int, lang: Language)
    requires
        encode_utf8(text).len() <= isize::MAX,
        0 <= range_start,
        0 <= range_end,
    ensures
        ({
            let part = spec_extract_highlights(text, range_start, range_end, lang);
            let whole = spec_extract_highlights(text, 0, usize::MAX as int, lang);
            forall|j: int|
                0 <= j < part.len() ==> {
                    &&& range_start + j < whole.len()
                    &&& (#[trigger] part[j]).line == whole[range_start + j].line
                    &&& part[j].line_start_offset == whole[range_start + j].line_start_offset
                    &&& part[j].line_end_offset == whole[range_start + j].line_end_offset
                    &&& part[j].markers == whole[range_start + j].markers.filter(kept_on_range_line(j))
                    &&& part[j].markers.len() <= whole[range_start + j].markers.len()
                }
        }),
{
    reveal(spec_extract_highlights);
    let bytes = encode_utf8(text);
    let len = bytes.len() as int;
    let ls = spec_line_starts(bytes);
    let n = ls.len() as int;
    crate::lines::lemma_line_starts(bytes);
    let r = highlight_byte_range(ls, len, range_start, range_end);
    let c = ScanCtx { text: text, ls: ls, range: r, lang: lang };
    let cw = ScanCtx { text: text, ls: ls, range: highlight_byte_range(ls, len, 0, usize::MAX as int), lang: lang };
    assert(ctx_bytes(c) == bytes);
    assert(cw == whole_ctx(c));
    assert(range_aligned(ls, len, r)) by {
        if range_start < n {
            assert(ls[range_start] == r.0);
        }
        if range_end < n {
            assert(ls[range_end] == r.1);
        }
    }
    lemma_scan_filter(c, 0, len, 0u32, LastToken::Start);
    let mw = spec_scan(cw, 0, len, 0u32, LastToken::Start).0;
    lemma_sort_filter(mw, kept_by(r));
    let sw = mw.sort_by(marker_order());
    let part = spec_extract_highlights(text, range_start, range_end, lang);
    let whole = spec_extract_highlights(text, 0, usize::MAX as int, lang);
    assert forall|j: int| 0 <= j < part.len() implies {
        &&& range_start + j < whole.len()
        &&& (#[trigger] part[j]).line == whole[range_start + j].line
        &&& part[j].line_start_offset == whole[range_start + j].line_start_offset
        &&& part[j].line_end_offset == whole[range_start + j].line_end_offset
        &&& part[j].markers == whole[range_start + j].markers.filter(kept_on_range_line(j))
        &&& part[j].markers.len() <= whole[range_start + j].markers.len()
    } by {
        let last = if range_end < n { range_end } else { n };
        assert(range_start < n);
        let k = range_start + j;
        assert(k < last);
        let b = spec_line_bounds(ls, len, k);
        assert(part[j] == spec_line_highlight(sw.filter(kept_by(r)), ls, len, k));
        assert(whole[k] == spec_line_highlight(sw, ls, len, k));
        assert(ls[range_start] <= ls[k]) by {
            if range_start < k {
                assert(ls[range_start] < ls[k]);
            }
        }
        assert(b.1 <= r.1) by {
            if k + 1 < n {
                if range_end < n {
                    if k + 1 < range_end {
                        assert(ls[k + 1] < ls[range_end]);
                    }
                }
                assert(ls[k + 1] <= len);
            }
        }
        let p = kept_by(r);
        let q = kept_on_range_line(j);
        assert forall|x: StyleMarker| b.0 <= x.offset < b.1 implies #[trigger] p(x) == q(
            StyleMarker { offset: (x.offset - b.0) as usize, is_start: x.is_start, token_type: x.token_type },
        ) by {
            if j > 0 {
                assert(ls[range_start] < ls[k]);
            }
        }
        lemma_window_filter(sw, p, q, b.0, b.1);
        whole[k].markers.lemma_filter_len(q);
    }
}

} // verus!

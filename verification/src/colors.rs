//! Colour in a frame: the coloured frame is the plain frame with ANSI escape
//! sequences added.
use vstd::prelude::*;
use vstd::utf8::*;

use crate::ansi::{
    escapes_closed, law_stripped_highlighting_keeps_line, lemma_colored_scheme_strips_away,
    lemma_strip_concat, lemma_strip_plain, no_escape, scheme_strips_away, strip_ansi, strips_away,
};
use crate::frame::{
    append_code_line, append_marker_line, decimal, lemma_decimal_lacks,
    lemma_truncate_lacks, sb, spec_frame, spec_frame_lines, spec_line_text, spec_message_header,
    spec_render, spec_truncate_line, spec_visible, CodeFrameLocation, CodeFrameOptions, FrameSpec,
};
use crate::highlight::{
    is_plain_scheme, law_plain_highlighting_keeps_line, spec_adjust_highlight, ColorScheme,
};
use crate::text::{lemma_repeat_lacks, repeat_byte};

verus! {

/// `xc` has only complete escape sequences and strips to `xp`.
pub open spec fn strips_to(xc: Seq<u8>, xp: Seq<u8>) -> bool {
    escapes_closed(xc) && strip_ansi(xc) == xp
}

/// Appending pieces that strip to each other keeps the outputs stripping to each other.
proof fn lemma_strips_append(xc: Seq<u8>, xp: Seq<u8>, yc: Seq<u8>, yp: Seq<u8>)
    requires
        strips_to(xc, xp),
        strips_to(yc, yp),
    ensures
        strips_to(xc + yc, xp + yp),
{
    lemma_strip_concat(xc, yc);
}

/// Appending the same text without escapes to both sides.
proof fn lemma_strips_text(xc: Seq<u8>, xp: Seq<u8>, y: Seq<u8>)
    requires
        strips_to(xc, xp),
        no_escape(y),
    ensures
        strips_to(xc + y, xp + y),
{
    lemma_strip_plain(y);
    lemma_strips_append(xc, xp, y, y);
}

/// Appending the same byte, not an escape, to both sides.
proof fn lemma_strips_byte(xc: Seq<u8>, xp: Seq<u8>, b: u8)
    requires
        strips_to(xc, xp),
        b != 27u8,
    ensures
        strips_to(xc.push(b), xp.push(b)),
{
    let s = seq![b];
    assert(no_escape(s));
    lemma_strips_text(xc, xp, s);
    assert(xc.push(b) =~= xc + s);
    assert(xp.push(b) =~= xp + s);
}

/// Appending a code that strips away to the coloured side and its empty
/// counterpart to the plain side.
proof fn lemma_strips_code(xc: Seq<u8>, xp: Seq<u8>, code: Seq<u8>, empty: Seq<u8>)
    requires
        strips_to(xc, xp),
        strips_away(code),
        empty.len() == 0,
    ensures
        strips_to(xc + code, xp + empty),
{
    lemma_strip_concat(xc, code);
    assert(xp + empty =~= xp);
    assert(xp + Seq::<u8>::empty() =~= xp);
}

/// The codes of a plain scheme have no bytes.
proof fn lemma_plain_codes(cs: ColorScheme)
    requires
        is_plain_scheme(cs),
    ensures
        sb(cs.reset).len() == 0,
        sb(cs.gutter).len() == 0,
        sb(cs.marker).len() == 0,
{
    assert(encode_utf8(Seq::<char>::empty()) =~= Seq::<u8>::empty());
}

/// Coloured and plain code lines strip to each other when their visible
/// texts do and are empty together.
proof fn lemma_strips_code_line(
    oc: Seq<u8>,
    op: Seq<u8>,
    is_err: bool,
    num: Seq<u8>,
    gutter_width: int,
    vc: Seq<u8>,
    vp: Seq<u8>,
    cc: ColorScheme,
    cp: ColorScheme,
)
    requires
        strips_to(oc, op),
        strips_to(vc, vp),
        (vc.len() > 0) == (vp.len() > 0),
        no_escape(num),
        scheme_strips_away(cc),
        is_plain_scheme(cp),
    ensures
        strips_to(
            append_code_line(oc, is_err, num, gutter_width, vc, cc),
            append_code_line(op, is_err, num, gutter_width, vp, cp),
        ),
{
    lemma_plain_codes(cp);
    let (hc, hp) = if is_err {
        lemma_strips_code(oc, op, sb(cc.marker), sb(cp.marker));
        lemma_strips_byte(oc + sb(cc.marker), op + sb(cp.marker), 62u8);
        lemma_strips_code(
            (oc + sb(cc.marker)).push(62u8),
            (op + sb(cp.marker)).push(62u8),
            sb(cc.reset),
            sb(cp.reset),
        );
        ((oc + sb(cc.marker)).push(62u8) + sb(cc.reset), (op + sb(cp.marker)).push(62u8) + sb(cp.reset))
    } else {
        lemma_strips_byte(oc, op, 32u8);
        (oc.push(32u8), op.push(32u8))
    };
    lemma_strips_byte(hc, hp, 32u8);
    lemma_strips_code(hc.push(32u8), hp.push(32u8), sb(cc.gutter), sb(cp.gutter));
    let pad = repeat_byte(32u8, (if gutter_width >= num.len() {
        gutter_width - num.len()
    } else {
        0
    }) as nat);
    lemma_repeat_lacks(32u8, pad.len(), 27u8);
    lemma_strips_text(hc.push(32u8) + sb(cc.gutter), hp.push(32u8) + sb(cp.gutter), pad);
    let nc = hc.push(32u8) + sb(cc.gutter) + pad + num;
    let np = hp.push(32u8) + sb(cp.gutter) + pad + num;
    lemma_strips_text(hc.push(32u8) + sb(cc.gutter) + pad, hp.push(32u8) + sb(cp.gutter) + pad, num);
    lemma_strips_code(nc, np, sb(cc.reset), sb(cp.reset));
    lemma_strips_code(nc + sb(cc.reset), np + sb(cp.reset), sb(cc.gutter), sb(cp.gutter));
    let gc = nc + sb(cc.reset) + sb(cc.gutter);
    let gp = np + sb(cp.reset) + sb(cp.gutter);
    lemma_strips_byte(gc, gp, 32u8);
    lemma_strips_byte(gc.push(32u8), gp.push(32u8), 124u8);
    lemma_strips_code(gc.push(32u8).push(124u8), gp.push(32u8).push(124u8), sb(cc.reset), sb(cp.reset));
    let bc = gc.push(32u8).push(124u8) + sb(cc.reset);
    let bp = gp.push(32u8).push(124u8) + sb(cp.reset);
    if vc.len() > 0 {
        lemma_strips_byte(bc, bp, 32u8);
        lemma_strips_append(bc.push(32u8), bp.push(32u8), vc, vp);
    }
}

/// Coloured and plain marker lines strip to each other.
proof fn lemma_strips_marker_line(
    oc: Seq<u8>,
    op: Seq<u8>,
    gutter_width: int,
    col: int,
    len: int,
    message: Option<Seq<u8>>,
    cc: ColorScheme,
    cp: ColorScheme,
)
    requires
        strips_to(oc, op),
        message matches Some(m) ==> no_escape(m),
        scheme_strips_away(cc),
        is_plain_scheme(cp),
    ensures
        strips_to(
            append_marker_line(oc, gutter_width, col, len, cc, message),
            append_marker_line(op, gutter_width, col, len, cp, message),
        ),
{
    lemma_plain_codes(cp);
    lemma_strips_byte(oc, op, 10u8);
    lemma_strips_byte(oc.push(10u8), op.push(10u8), 32u8);
    lemma_strips_byte(oc.push(10u8).push(32u8), op.push(10u8).push(32u8), 32u8);
    let a_c = oc.push(10u8).push(32u8).push(32u8);
    let a_p = op.push(10u8).push(32u8).push(32u8);
    lemma_strips_code(a_c, a_p, sb(cc.gutter), sb(cp.gutter));
    let pad = repeat_byte(32u8, gutter_width as nat);
    lemma_repeat_lacks(32u8, gutter_width as nat, 27u8);
    lemma_strips_text(a_c + sb(cc.gutter), a_p + sb(cp.gutter), pad);
    let b_c = a_c + sb(cc.gutter) + pad;
    let b_p = a_p + sb(cp.gutter) + pad;
    lemma_strips_byte(b_c, b_p, 32u8);
    lemma_strips_byte(b_c.push(32u8), b_p.push(32u8), 124u8);
    lemma_strips_code(b_c.push(32u8).push(124u8), b_p.push(32u8).push(124u8), sb(cc.reset), sb(cp.reset));
    let g_c = b_c.push(32u8).push(124u8) + sb(cc.reset);
    let g_p = b_p.push(32u8).push(124u8) + sb(cp.reset);
    lemma_strips_byte(g_c, g_p, 32u8);
    let spaces = repeat_byte(32u8, (col - 1) as nat);
    lemma_repeat_lacks(32u8, (col - 1) as nat, 27u8);
    lemma_strips_text(g_c.push(32u8), g_p.push(32u8), spaces);
    lemma_strips_code(g_c.push(32u8) + spaces, g_p.push(32u8) + spaces, sb(cc.marker), sb(cp.marker));
    let carets = repeat_byte(94u8, len as nat);
    lemma_repeat_lacks(94u8, len as nat, 27u8);
    lemma_strips_text(g_c.push(32u8) + spaces + sb(cc.marker), g_p.push(32u8) + spaces + sb(cp.marker), carets);
    let m_c = g_c.push(32u8) + spaces + sb(cc.marker) + carets;
    let m_p = g_p.push(32u8) + spaces + sb(cp.marker) + carets;
    lemma_strips_code(m_c, m_p, sb(cc.reset), sb(cp.reset));
    let k_c = m_c + sb(cc.reset);
    let k_p = m_p + sb(cp.reset);
    if let Some(m) = message {
        lemma_strips_byte(k_c, k_p, 32u8);
        lemma_strips_code(k_c.push(32u8), k_p.push(32u8), sb(cc.marker), sb(cp.marker));
        lemma_strips_text(k_c.push(32u8) + sb(cc.marker), k_p.push(32u8) + sb(cp.marker), m);
        lemma_strips_code(
            k_c.push(32u8) + sb(cc.marker) + m,
            k_p.push(32u8) + sb(cp.marker) + m,
            sb(cc.reset),
            sb(cp.reset),
        );
    }
}

/// The visible texts of a line in the coloured and the plain frame strip to each other.
proof fn lemma_strips_visible(fc: FrameSpec, fp: FrameSpec, idx: int)
    requires
        fc == (FrameSpec { cs: fc.cs, ..fp }),
        scheme_strips_away(fc.cs),
        is_plain_scheme(fp.cs),
        no_escape(spec_line_text(fp.bytes, fp.ls, idx)),
        0 <= fp.trunc,
    ensures
        strips_to(spec_visible(fc, idx), spec_visible(fp, idx)),
{
    reveal(spec_visible);
    let line = spec_line_text(fp.bytes, fp.ls, idx);
    let t = spec_truncate_line(line, fp.trunc, fp.available);
    lemma_truncate_lacks(line, fp.trunc, fp.available, 27u8);
    lemma_strip_plain(t.content);
    let hidx = idx - fp.first_line;
    if fp.highlight_code && 0 <= hidx < fp.hl.len() {
        let markers = spec_adjust_highlight(fp.hl[hidx], t.byte_offset, t.content.len() as int, t.prefix_len).markers;
        law_stripped_highlighting_keeps_line(t.content, markers, fc.cs);
        law_plain_highlighting_keeps_line(t.content, markers, fp.cs);
    }
}

/// The message header strips to the plain one.
proof fn lemma_strips_header(fc: FrameSpec, fp: FrameSpec)
    requires
        fc == (FrameSpec { cs: fc.cs, ..fp }),
        scheme_strips_away(fc.cs),
        is_plain_scheme(fp.cs),
        fp.message matches Some(m) ==> no_escape(m),
        fp.gutter_width >= 0,
    ensures
        strips_to(spec_message_header(fc), spec_message_header(fp)),
        spec_message_header(fc).len() > 0 <==> spec_message_header(fp).len() > 0,
{
    lemma_plain_codes(fp.cs);
    lemma_strip_plain(Seq::<u8>::empty());
    if let Some(m) = fp.message {
        if fp.start_column is None {
            let pad = repeat_byte(32u8, (fp.gutter_width + 5) as nat);
            assert(pad.len() > 0);
            lemma_repeat_lacks(32u8, pad.len(), 27u8);
            lemma_strip_plain(pad);
            lemma_strips_code(pad, pad, sb(fc.cs.marker), sb(fp.cs.marker));
            lemma_strips_text(pad + sb(fc.cs.marker), pad + sb(fp.cs.marker), m);
            lemma_strips_code(pad + sb(fc.cs.marker) + m, pad + sb(fp.cs.marker) + m, sb(fc.cs.reset), sb(fp.cs.reset));
        }
    }
}

/// The first `j` lines of the coloured frame strip to those of the plain one.
proof fn lemma_strips_frame_lines(fc: FrameSpec, fp: FrameSpec, j: int)
    requires
        fc == (FrameSpec { cs: fc.cs, ..fp }),
        scheme_strips_away(fc.cs),
        is_plain_scheme(fp.cs),
        fp.message matches Some(m) ==> no_escape(m),
        0 <= fp.trunc,
        fp.gutter_width >= 0,
        forall|i: int|
            fp.first_line <= i < fp.first_line + j ==> no_escape(#[trigger] spec_line_text(fp.bytes, fp.ls, i)),
        forall|i: int|
            fp.first_line <= i < fp.first_line + j ==> (#[trigger] spec_visible(fc, i).len() > 0) == (
            spec_visible(fp, i).len() > 0),
    ensures
        strips_to(spec_frame_lines(fc, j), spec_frame_lines(fp, j)),
    decreases j,
{
    lemma_strips_header(fc, fp);
    if j > 0 {
        lemma_strips_frame_lines(fc, fp, j - 1);
        let idx = fp.first_line + j - 1;
        let pc = spec_frame_lines(fc, j - 1);
        let pp = spec_frame_lines(fp, j - 1);
        let (sc, sp) = if spec_message_header(fp).len() > 0 || j > 1 {
            lemma_strips_byte(pc, pp, 10u8);
            (pc.push(10u8), pp.push(10u8))
        } else {
            (pc, pp)
        };
        assert(no_escape(spec_line_text(fp.bytes, fp.ls, idx)));
        assert((spec_visible(fc, idx).len() > 0) == (spec_visible(fp, idx).len() > 0));
        lemma_strips_visible(fc, fp, idx);
        lemma_decimal_lacks((idx + 1) as nat, 27u8);
        lemma_strips_code_line(
            sc,
            sp,
            fp.start_line <= idx <= fp.end_line,
            decimal((idx + 1) as nat),
            fp.gutter_width,
            spec_visible(fc, idx),
            spec_visible(fp, idx),
            fc.cs,
            fp.cs,
        );
        let cc = append_code_line(
            sc,
            fp.start_line <= idx <= fp.end_line,
            decimal((idx + 1) as nat),
            fp.gutter_width,
            spec_visible(fc, idx),
            fc.cs,
        );
        let cp = append_code_line(
            sp,
            fp.start_line <= idx <= fp.end_line,
            decimal((idx + 1) as nat),
            fp.gutter_width,
            spec_visible(fp, idx),
            fp.cs,
        );
        assert forall|col: int, len: int, msg: Option<Seq<u8>>|
            (msg matches Some(m) ==> no_escape(m)) implies #[trigger] strips_to(
            append_marker_line(cc, fp.gutter_width, col, len, fc.cs, msg),
            append_marker_line(cp, fp.gutter_width, col, len, fp.cs, msg),
        ) by {
            lemma_strips_marker_line(cc, cp, fp.gutter_width, col, len, msg, fc.cs, fp.cs);
        }
    }
}

/// The options `opts` with colour set to `force_color`.
pub open spec fn with_color(opts: CodeFrameOptions, force_color: bool) -> CodeFrameOptions {
    CodeFrameOptions { force_color, ..opts }
}

/// Colour only adds escape sequences to a frame: with them removed, the
/// coloured frame is the plain frame, and both fail alike. This holds when
/// neither the source nor the message contains an escape byte, and each
/// shown line has visible text in both frames or in neither (a line that is
/// empty where shown but lies inside a highlighted token, such as an empty
/// line of a block comment, gets colour codes and the space before them in
/// the coloured frame only).
pub proof fn law_color_only_adds_escapes(
    text: Seq<char>,
    loc: CodeFrameLocation,
    opts: CodeFrameOptions,
    terminal_width: int,
)
    requires
        encode_utf8(text).len() <= isize::MAX,
        no_escape(encode_utf8(text)),
        opts.message matches Some(m) ==> no_escape(encode_utf8(m@)),
        forall|i: int|
            spec_frame(text, loc, with_color(opts, false), terminal_width).first_line <= i < spec_frame(
                text,
                loc,
                with_color(opts, false),
                terminal_width,
            ).last_line ==> (#[trigger] spec_visible(
                spec_frame(text, loc, with_color(opts, true), terminal_width),
                i,
            ).len() > 0) == (spec_visible(spec_frame(text, loc, with_color(opts, false), terminal_width), i).len()
                > 0),
    ensures
        match spec_render(text, loc, with_color(opts, true), terminal_width) {
            Ok(c) => spec_render(text, loc, with_color(opts, false), terminal_width) matches Ok(p)
                && strip_ansi(c) == p,
            Err(e) => spec_render(text, loc, with_color(opts, false), terminal_width) == Err::<
                Seq<u8>,
                crate::frame::CodeFrameError,
            >(e),
        },
{
    let fc = spec_frame(text, loc, with_color(opts, true), terminal_width);
    let fp = spec_frame(text, loc, with_color(opts, false), terminal_width);
    assert(fc == (FrameSpec { cs: fc.cs, ..fp }));
    lemma_colored_scheme_strips_away();
    reveal_strlit("");
    assert(""@ =~= Seq::<char>::empty());
    assert(is_plain_scheme(fp.cs));
    lemma_strip_plain(Seq::<u8>::empty());
    if !(fp.bytes.len() == 0 || fp.start_line >= fp.ls.len()) && fp.end_line >= fp.start_line && fp.available
        != 0 {
        crate::lines::lemma_line_starts(fp.bytes);
        assert forall|i: int| fp.first_line <= i < fp.last_line implies no_escape(
            #[trigger] spec_line_text(fp.bytes, fp.ls, i),
        ) by {
            let line = spec_line_text(fp.bytes, fp.ls, i);
            let start = fp.ls[i] as int;
            assert(start <= fp.bytes.len());
            if i + 1 < fp.ls.len() {
                assert(fp.ls[i] < fp.ls[i + 1]);
            }
            assert forall|k: int| 0 <= k < line.len() implies #[trigger] line[k] != 27u8 by {
                assert(line[k] == fp.bytes[start + k]);
            }
        }
        lemma_strips_frame_lines(fc, fp, fp.last_line - fp.first_line);
    }
}

/// Frames that differ only in their highlights and show the same visible text
/// on every line render the same lines.
proof fn lemma_same_visible_same_lines(f1: FrameSpec, f2: FrameSpec, j: int)
    requires
        f1 == (FrameSpec { hl: f1.hl, highlight_code: f1.highlight_code, ..f2 }),
        forall|idx: int| #[trigger] spec_visible(f1, idx) == spec_visible(f2, idx),
    ensures
        spec_frame_lines(f1, j) == spec_frame_lines(f2, j),
    decreases j,
{
    if j > 0 {
        lemma_same_visible_same_lines(f1, f2, j - 1);
        let idx = f2.first_line + j - 1;
        assert(spec_visible(f1, idx) == spec_visible(f2, idx));
    }
}

/// The options `opts` with syntax highlighting set to `highlight_code`.
pub open spec fn with_highlighting(opts: CodeFrameOptions, highlight_code: bool) -> CodeFrameOptions {
    CodeFrameOptions { highlight_code, ..opts }
}

/// Without colour, syntax highlighting never changes a frame: the frame
/// rendered with highlighting is the one rendered without it, and both fail
/// alike.
pub proof fn law_uncolored_highlighting_keeps_frame(
    text: Seq<char>,
    loc: CodeFrameLocation,
    opts: CodeFrameOptions,
    terminal_width: int,
)
    requires
        !opts.force_color,
    ensures
        spec_render(text, loc, with_highlighting(opts, true), terminal_width) == spec_render(
            text,
            loc,
            with_highlighting(opts, false),
            terminal_width,
        ),
{
    let fon = spec_frame(text, loc, with_highlighting(opts, true), terminal_width);
    let foff = spec_frame(text, loc, with_highlighting(opts, false), terminal_width);
    assert(fon == (FrameSpec { hl: fon.hl, highlight_code: fon.highlight_code, ..foff }));
    reveal_strlit("");
    assert(""@ =~= Seq::<char>::empty());
    assert(is_plain_scheme(fon.cs));
    assert forall|idx: int| #[trigger] spec_visible(fon, idx) == spec_visible(foff, idx) by {
        reveal(spec_visible);
        let line = spec_line_text(fon.bytes, fon.ls, idx);
        let t = spec_truncate_line(line, fon.trunc, fon.available);
        let hidx = idx - fon.first_line;
        if fon.highlight_code && 0 <= hidx < fon.hl.len() {
            let markers = spec_adjust_highlight(fon.hl[hidx], t.byte_offset, t.content.len() as int, t.prefix_len).markers;
            law_plain_highlighting_keeps_line(t.content, markers, fon.cs);
        }
    }
    lemma_same_visible_same_lines(fon, foff, fon.last_line - fon.first_line);
}

} // verus!

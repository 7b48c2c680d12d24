//! The shape of a rendered frame: newlines only separate its lines, so the
//! frame does not end with a newline of its own.
use vstd::prelude::*;
use vstd::string::StringSliceAdditionalSpecFns;
use vstd::utf8::*;

use crate::ansi::lemma_colored_scheme_bytes;
use crate::frame::{
    append_code_line, append_frame_line, append_marker_line, lemma_truncate_lacks, sb,
    spec_frame, spec_frame_lines, spec_line_text, spec_render, spec_truncate_line, spec_visible,
    CodeFrameLocation, CodeFrameOptions, FrameSpec,
};
use crate::highlight::{
    lemma_apply_lacks, scheme_lacks, spec_adjust_highlight, spec_colored_scheme,
    spec_plain_scheme, ColorScheme,
};
use crate::lines::line_starts_exact;
use crate::text::{lacks_byte, lemma_repeat_lacks, repeat_byte};

verus! {

/// `x` ends with a byte other than a newline.
pub open spec fn ends_clear(x: Seq<u8>) -> bool {
    x.len() > 0 && x.last() != 10u8
}

/// Appending bytes without a newline keeps the end clear.
proof fn lemma_clear_after(x: Seq<u8>, y: Seq<u8>)
    requires
        ends_clear(x),
        lacks_byte(y, 10u8),
    ensures
        ends_clear(x + y),
{
    if y.len() > 0 {
        assert((x + y).last() == y.last());
    } else {
        assert(x + y =~= x);
    }
}

/// The codes of the ANSI and the plain colour schemes hold no newline.
proof fn lemma_schemes_lack_newline()
    ensures
        scheme_lacks(spec_colored_scheme(), 10u8),
        scheme_lacks(spec_plain_scheme(), 10u8),
{
    lemma_colored_scheme_bytes();
    let red = seq![27u8, 91u8, 51u8, 49u8, 109u8];
    let bold = seq![27u8, 91u8, 49u8, 109u8];
    assert forall|i: int| 0 <= i < (red + bold).len() implies #[trigger] (red + bold)[i] != 10u8 by {
        if i < 5 {
            assert((red + bold)[i] == red[i]);
        } else {
            assert((red + bold)[i] == bold[i - 5]);
        }
    }
    reveal_strlit("");
    assert(""@ =~= Seq::<char>::empty());
    assert(encode_utf8(Seq::<char>::empty()) =~= Seq::<u8>::empty());
}

/// The text of a line holds no newline.
proof fn lemma_line_text_no_newline(bytes: Seq<u8>, ls: Seq<usize>, k: int)
    requires
        line_starts_exact(ls, bytes),
        bytes.len() <= usize::MAX,
        0 <= k < ls.len(),
    ensures
        lacks_byte(spec_line_text(bytes, ls, k), 10u8),
{
    let line = spec_line_text(bytes, ls, k);
    let start = ls[k] as int;
    assert(start <= bytes.len());
    if k + 1 < ls.len() {
        assert(ls[k] < ls[k + 1]);
    }
    assert forall|i: int| 0 <= i < line.len() implies #[trigger] line[i] != 10u8 by {
        assert(line[i] == bytes[start + i]);
        if bytes[start + i] == 10u8 {
            let p = start + i;
            assert(0 <= p < bytes.len());
            assert(ls.contains((p + 1) as usize));
            let j = choose|j: int| 0 <= j < ls.len() && ls[j] == (p + 1) as usize;
            assert(ls[j] == p + 1);
            if j < k {
                assert(ls[j] < ls[k]);
            }
            if j > k + 1 {
                assert(ls[k + 1] < ls[j]);
            }
            if k + 1 < ls.len() {
                assert(p + 1 < ls[k + 1]);
            }
        }
    }
}

/// The visible text of a line holds no newline.
proof fn lemma_visible_no_newline(fs: FrameSpec, idx: int)
    requires
        line_starts_exact(fs.ls, fs.bytes),
        fs.bytes.len() <= usize::MAX,
        0 <= idx < fs.ls.len(),
        0 <= fs.trunc,
        scheme_lacks(fs.cs, 10u8),
    ensures
        lacks_byte(spec_visible(fs, idx), 10u8),
{
    reveal(spec_visible);
    let line = spec_line_text(fs.bytes, fs.ls, idx);
    lemma_line_text_no_newline(fs.bytes, fs.ls, idx);
    lemma_truncate_lacks(line, fs.trunc, fs.available, 10u8);
    let t = spec_truncate_line(line, fs.trunc, fs.available);
    let hidx = idx - fs.first_line;
    if fs.highlight_code && 0 <= hidx < fs.hl.len() {
        let markers = spec_adjust_highlight(fs.hl[hidx], t.byte_offset, t.content.len() as int, t.prefix_len).markers;
        lemma_apply_lacks(t.content, markers, fs.cs, 10u8);
    }
}

/// A code line ends with a byte other than a newline.
proof fn lemma_code_line_clear(
    out: Seq<u8>,
    is_err: bool,
    num: Seq<u8>,
    gutter_width: int,
    visible: Seq<u8>,
    cs: ColorScheme,
)
    requires
        lacks_byte(visible, 10u8),
        scheme_lacks(cs, 10u8),
    ensures
        ends_clear(append_code_line(out, is_err, num, gutter_width, visible, cs)),
{
    let head = if is_err {
        (out + sb(cs.marker)).push(62u8) + sb(cs.reset)
    } else {
        out.push(32u8)
    };
    let number = head.push(32u8) + sb(cs.gutter) + repeat_byte(
        32u8,
        (if gutter_width >= num.len() {
            gutter_width - num.len()
        } else {
            0
        }) as nat,
    ) + num;
    let y = (number + sb(cs.reset) + sb(cs.gutter)).push(32u8).push(124u8);
    lemma_clear_after(y, sb(cs.reset));
    let bar = y + sb(cs.reset);
    if visible.len() > 0 {
        lemma_clear_after(bar.push(32u8), visible);
    }
}

/// A marker line ends with a byte other than a newline, unless it ends with
/// a message that ends with one.
proof fn lemma_marker_line_clear(
    out: Seq<u8>,
    gutter_width: int,
    col: int,
    len: int,
    cs: ColorScheme,
    message: Option<Seq<u8>>,
)
    requires
        scheme_lacks(cs, 10u8),
    ensures
        ends_clear(append_marker_line(out, gutter_width, col, len, cs, message)) || (message matches Some(m)
            && m.len() > 0 && m.last() == 10u8),
{
    let g0 = (out.push(10u8).push(32u8).push(32u8) + sb(cs.gutter) + repeat_byte(32u8, gutter_width as nat)).push(
        32u8,
    ).push(124u8);
    lemma_clear_after(g0, sb(cs.reset));
    let gutter = g0 + sb(cs.reset);
    let spaces = repeat_byte(32u8, (col - 1) as nat);
    let carets = repeat_byte(94u8, len as nat);
    lemma_repeat_lacks(32u8, (col - 1) as nat, 10u8);
    lemma_repeat_lacks(94u8, len as nat, 10u8);
    lemma_clear_after(gutter.push(32u8), spaces);
    lemma_clear_after(gutter.push(32u8) + spaces, sb(cs.marker));
    lemma_clear_after(gutter.push(32u8) + spaces + sb(cs.marker), carets);
    lemma_clear_after(gutter.push(32u8) + spaces + sb(cs.marker) + carets, sb(cs.reset));
    let markers = gutter.push(32u8) + spaces + sb(cs.marker) + carets + sb(cs.reset);
    if let Some(m) = message {
        lemma_clear_after(markers.push(32u8), sb(cs.marker));
        let z = markers.push(32u8) + sb(cs.marker);
        let zm = z + m;
        if m.len() > 0 {
            assert(zm.last() == m.last());
        } else {
            assert(zm =~= z);
        }
        if ends_clear(zm) {
            lemma_clear_after(zm, sb(cs.reset));
        }
    }
}

/// A line of the frame ends with a byte other than a newline, unless it ends
/// with a message that ends with one.
proof fn lemma_frame_line_clear(fs: FrameSpec, out: Seq<u8>, idx: int)
    requires
        line_starts_exact(fs.ls, fs.bytes),
        fs.bytes.len() <= usize::MAX,
        0 <= idx < fs.ls.len(),
        0 <= fs.trunc,
        scheme_lacks(fs.cs, 10u8),
    ensures
        ends_clear(append_frame_line(fs, out, idx)) || (fs.message matches Some(m) && m.len() > 0
            && m.last() == 10u8),
{
    lemma_visible_no_newline(fs, idx);
    let code = append_code_line(
        out,
        fs.start_line <= idx <= fs.end_line,
        crate::frame::decimal((idx + 1) as nat),
        fs.gutter_width,
        spec_visible(fs, idx),
        fs.cs,
    );
    lemma_code_line_clear(
        out,
        fs.start_line <= idx <= fs.end_line,
        crate::frame::decimal((idx + 1) as nat),
        fs.gutter_width,
        spec_visible(fs, idx),
        fs.cs,
    );
    assert forall|col: int, len: int, msg: Option<Seq<u8>>|
        (msg == fs.message || msg is None) implies #[trigger] ends_clear(
        append_marker_line(code, fs.gutter_width, col, len, fs.cs, msg),
    ) || (fs.message matches Some(m) && m.len() > 0 && m.last() == 10u8) by {
        lemma_marker_line_clear(code, fs.gutter_width, col, len, fs.cs, msg);
    }
}

/// A rendered frame does not end with a newline of its own: newlines only
/// separate its lines, so its last byte is a newline only when the message
/// ends with one and is written last.
pub proof fn law_no_trailing_newline(
    text: Seq<char>,
    loc: CodeFrameLocation,
    opts: CodeFrameOptions,
    terminal_width: int,
)
    requires
        encode_utf8(text).len() <= isize::MAX,
    ensures
        match spec_render(text, loc, opts, terminal_width) {
            Ok(b) => b.len() == 0 || b.last() != 10u8 || (opts.message matches Some(m) && encode_utf8(m@).len()
                > 0 && encode_utf8(m@).last() == 10u8),
            Err(_) => true,
        },
{
    let fs = spec_frame(text, loc, opts, terminal_width);
    lemma_schemes_lack_newline();
    if !(fs.bytes.len() == 0 || fs.start_line >= fs.ls.len()) && fs.end_line >= fs.start_line && fs.available
        != 0 {
        crate::lines::lemma_line_starts(fs.bytes);
        let j = fs.last_line - fs.first_line;
        let idx = fs.last_line - 1;
        let prev = spec_frame_lines(fs, j - 1);
        let sep = if crate::frame::spec_message_header(fs).len() > 0 || j > 1 {
            prev.push(10u8)
        } else {
            prev
        };
        lemma_frame_line_clear(fs, sep, idx);
    }
}

} // verus!

//! Code frame rendering: the window of lines around an error location, with a
//! gutter of line numbers, `>` on the error lines, `^` markers under the error
//! columns, truncation of long lines and optional syntax highlighting.
use vstd::prelude::*;
use vstd::string::StringSliceAdditionalSpecFns;
use vstd::utf8::*;

use crate::highlight::{
    adjust_highlights_for_truncation, apply_line_highlights, extract_highlights, highlights_view,
    lemma_window_members, markers_on_boundaries, sat_sub, spec_adjust_highlight,
    spec_apply_line_highlights, spec_colored_scheme, spec_extract_highlights, spec_plain_scheme,
    window, ColorScheme, Language, LineHighlight, LineHighlightView, StyleMarker,
};
use crate::lines::{compute_line_starts, line_starts_exact, spec_line_starts};
use crate::patterns::regex_compiles;
use crate::scanner::{REGEX_LITERAL_PATTERN, TOKEN_PATTERN};
use crate::text::{
    all_ascii, into_string, lacks_byte, lemma_ascii_boundary, lemma_ascii_valid,
    lemma_boundary_of_subrange, lemma_boundary_of_suffix, lemma_concat_boundary, lemma_empty_utf8,
    lemma_str_bytes, lemma_string_bytes, lemma_utf8_valid, push_repeated, push_str, repeat_byte,
    str_len, str_slice, utf8_valid,
};

verus! {

/// A source location with line and column
#[derive(Debug, Clone, Copy)]
pub struct Location {
    /// 1-indexed line number
    pub line: usize,
    /// 1-indexed column number as byte offset
    pub column: Option<usize>,
}

/// Location information for the error in the source code
///
/// # Column Semantics
///
/// Columns are 1-indexed **byte offsets** within the line.
///
/// - `start.column`: **Inclusive** - points to the first byte to mark
/// - `end.column`: **EXCLUSIVE** - points one past the last byte to mark
///
/// This follows standard programming range conventions `[start, end)`.
///
/// Example: To mark "123" at byte columns 11-13, use
/// `start: Location { line: 1, column: Some(11) }` and
/// `end: Some(Location { line: 1, column: Some(14) })` (exclusive).
#[derive(Debug, Clone, Copy)]
pub struct CodeFrameLocation {
    /// Starting location
    pub start: Location,
    /// Optional ending location
    /// Line is treated inclusively but column is treated exclusively
    pub end: Option<Location>,
}

/// Options for rendering the code frame
#[derive(Debug, Clone)]
pub struct CodeFrameOptions {
    /// Number of lines to show before the error
    pub lines_above: usize,
    /// Number of lines to show after the error
    pub lines_below: usize,
    /// Whether to use color output (named forceColor in the JS API)
    pub force_color: bool,
    /// Whether to attempt syntax highlighting
    pub highlight_code: bool,
    /// Optional message to display with the error
    pub message: Option<String>,
    /// Maximum width for the output (None = terminal width)
    pub max_width: Option<usize>,
    /// Language hint for keyword highlighting
    pub language: Language,
}

impl Default for CodeFrameOptions {
    fn default() -> (res: Self)
        ensures
            res.lines_above == 2,
            res.lines_below == 3,
            res.force_color,
            res.highlight_code,
            res.message is None,
            res.max_width is None,
            res.language == Language::JavaScript,
    {
        CodeFrameOptions {
            lines_above: 2,
            lines_below: 3,
            force_color: true,
            highlight_code: true,
            message: None,
            max_width: None,
            language: Language::JavaScript,
        }
    }
}

/// The byte length of the ellipsis that marks cut-off text.
pub const ELLIPSIS_LEN: usize = 3;

/// The ellipsis `...`.
pub open spec fn ellipsis() -> Seq<u8> {
    seq![46u8, 46u8, 46u8]
}

/// The first character boundary at or after `offset` (the end when there is none before it).
pub open spec fn spec_snap_forward(bytes: Seq<u8>, offset: int) -> int
    decreases bytes.len() - offset,
{
    if offset >= bytes.len() {
        bytes.len() as int
    } else if is_char_boundary(bytes, offset) {
        offset
    } else {
        spec_snap_forward(bytes, offset + 1)
    }
}

/// The last character boundary at or before `offset` (capped at the end).
pub open spec fn spec_snap_back(bytes: Seq<u8>, offset: int) -> int
    decreases offset,
{
    if offset > bytes.len() {
        spec_snap_back(bytes, bytes.len() as int)
    } else if offset <= 0 || is_char_boundary(bytes, offset) {
        if offset < 0 {
            0
        } else {
            offset
        }
    } else {
        spec_snap_back(bytes, offset - 1)
    }
}

/// Snapping forward lands on a boundary between the offset and the end.
pub proof fn lemma_snap_forward(bytes: Seq<u8>, offset: int)
    requires
        valid_utf8(bytes),
        0 <= offset,
    ensures
        is_char_boundary(bytes, spec_snap_forward(bytes, offset)),
        spec_snap_forward(bytes, offset) <= bytes.len(),
        offset <= bytes.len() ==> offset <= spec_snap_forward(bytes, offset),
        offset > bytes.len() ==> spec_snap_forward(bytes, offset) == bytes.len(),
    decreases bytes.len() - offset,
{
    is_char_boundary_start_end_of_seq(bytes);
    if offset < bytes.len() && !is_char_boundary(bytes, offset) {
        lemma_snap_forward(bytes, offset + 1);
    }
}

/// Snapping back lands on a boundary at or before the offset.
pub proof fn lemma_snap_back(bytes: Seq<u8>, offset: int)
    requires
        valid_utf8(bytes),
    ensures
        is_char_boundary(bytes, spec_snap_back(bytes, offset)),
        0 <= spec_snap_back(bytes, offset) <= bytes.len(),
        0 <= offset ==> spec_snap_back(bytes, offset) <= offset,
    decreases offset,
{
    is_char_boundary_start_end_of_seq(bytes);
    if offset > bytes.len() {
        lemma_snap_back(bytes, bytes.len() as int);
    } else if !(offset <= 0 || is_char_boundary(bytes, offset)) {
        lemma_snap_back(bytes, offset - 1);
    }
}

/// Snapping forward finds the nearest boundary: no boundary lies between the
/// offset and the result.
pub proof fn law_snap_forward_nearest(bytes: Seq<u8>, offset: int, b: int)
    requires
        0 <= offset <= b <= bytes.len(),
        is_char_boundary(bytes, b),
    ensures
        spec_snap_forward(bytes, offset) <= b,
    decreases b - offset,
{
    if offset < b && !is_char_boundary(bytes, offset) {
        law_snap_forward_nearest(bytes, offset + 1, b);
    }
}

/// Snapping back finds the nearest boundary: no boundary lies between the
/// result and the offset (capped at the end).
pub proof fn law_snap_back_nearest(bytes: Seq<u8>, offset: int, b: int)
    requires
        0 <= b <= offset,
        b <= bytes.len(),
        is_char_boundary(bytes, b),
    ensures
        b <= spec_snap_back(bytes, offset),
    decreases offset,
{
    if offset > bytes.len() {
        law_snap_back_nearest(bytes, bytes.len() as int, b);
    } else if b < offset && !is_char_boundary(bytes, offset) {
        law_snap_back_nearest(bytes, offset - 1, b);
    }
}

/// Snap a byte offset forward to the nearest UTF-8 character boundary.
/// If `offset` is already on a boundary, returns it unchanged.
/// If `offset >= line.len()`, returns `line.len()`.
fn snap_to_char_boundary(line: &str, offset: usize) -> (res: usize)
    ensures
        res == spec_snap_forward(line.spec_bytes(), offset as int),
{
    let len = str_len(line);
    if offset >= len {
        return len;
    }
    // Find the first char boundary at or after offset
    let mut pos = offset;
    while pos < len && !line.is_char_boundary(pos)
        invariant
            offset <= pos <= len,
            len == line.spec_bytes().len(),
            spec_snap_forward(line.spec_bytes(), offset as int) == spec_snap_forward(
                line.spec_bytes(),
                pos as int,
            ),
        decreases len - pos,
    {
        pos = pos + 1;
    }
    pos
}

/// Snap a byte offset backward to the nearest UTF-8 character boundary.
/// Returns the largest value <= `offset` that is a valid char boundary.
fn snap_to_char_boundary_back(line: &str, offset: usize) -> (res: usize)
    ensures
        res == spec_snap_back(line.spec_bytes(), offset as int),
{
    let len = str_len(line);
    let offset = if offset < len {
        offset
    } else {
        len
    };
    let mut pos = offset;
    while pos > 0 && !line.is_char_boundary(pos)
        invariant
            pos <= offset <= len,
            len == line.spec_bytes().len(),
            spec_snap_back(line.spec_bytes(), offset as int) == spec_snap_back(
                line.spec_bytes(),
                pos as int,
            ),
        decreases pos,
    {
        pos = pos - 1;
    }
    pos
}

/// The mathematical content of a truncation: the visible bytes, the byte
/// offset in the line where visible source text starts, and the length of the
/// prefix placed before it.
pub struct TruncationView {
    pub content: Seq<u8>,
    pub byte_offset: int,
    pub prefix_len: int,
}

/// Result of applying line truncation.
/// All offsets are in byte space.
struct TruncationResult {
    /// The visible content after truncation (may include "..." prefix/suffix)
    visible_content: String,
    /// The byte offset in the untruncated line where visible source content starts
    byte_offset: usize,
    /// The byte length of any prefix prepended before source content (e.g., "..." = 3)
    prefix_len: usize,
}

/// A line cut to show at most about `max_width` bytes from byte `offset`
/// (snapped forward to a character boundary): an ellipsis replaces text cut
/// before the start, and another one text cut at the end (the cut snapped
/// back to a boundary); an offset past the end leaves just an ellipsis.
pub open spec fn spec_truncate_line(line: Seq<u8>, offset: int, max_width: int) -> TruncationView {
    if offset == 0 && line.len() <= max_width {
        TruncationView { content: line, byte_offset: 0, prefix_len: 0 }
    } else {
        let bo = spec_snap_forward(line, offset);
        let prefix = if bo > 0 {
            ellipsis()
        } else {
            seq![]
        };
        let avail = if bo > 0 {
            sat_sub(max_width, ELLIPSIS_LEN as int)
        } else {
            max_width
        };
        if bo >= line.len() {
            TruncationView { content: ellipsis(), byte_offset: bo, prefix_len: ELLIPSIS_LEN as int }
        } else {
            let rem = line.subrange(bo, line.len() as int);
            let needs_trailing = rem.len() > avail;
            let content_width = if needs_trailing {
                sat_sub(avail, ELLIPSIS_LEN as int)
            } else if avail < rem.len() {
                avail
            } else {
                rem.len() as int
            };
            let visible_end = spec_snap_back(rem, content_width);
            TruncationView {
                content: prefix + rem.subrange(0, visible_end) + if needs_trailing {
                    ellipsis()
                } else {
                    seq![]
                },
                byte_offset: bo,
                prefix_len: prefix.len() as int,
            }
        }
    }
}

/// A truncated line is never wider than the width it was cut to, or than two
/// ellipses when the width is smaller than that.
pub proof fn law_truncated_line_width(line: Seq<u8>, offset: int, max_width: int)
    requires
        valid_utf8(line),
        0 <= offset,
    ensures
        spec_truncate_line(line, offset, max_width).content.len() <= if max_width > 2 * ELLIPSIS_LEN {
            max_width
        } else {
            2 * ELLIPSIS_LEN
        },
{
    lemma_snap_forward(line, offset);
    if !(offset == 0 && line.len() <= max_width) {
        let bo = spec_snap_forward(line, offset);
        if bo < line.len() {
            let avail = if bo > 0 {
                sat_sub(max_width, ELLIPSIS_LEN as int)
            } else {
                max_width
            };
            let rem = line.subrange(bo, line.len() as int);
            let content_width = if rem.len() > avail {
                sat_sub(avail, ELLIPSIS_LEN as int)
            } else if avail < rem.len() {
                avail
            } else {
                rem.len() as int
            };
            lemma_boundary_of_suffix(line, bo, 0);
            lemma_snap_back(rem, content_width);
        }
    }
}

/// Snapping stays within the text.
pub proof fn lemma_snap_bounds(bytes: Seq<u8>, offset: int)
    requires
        0 <= offset,
    ensures
        0 <= spec_snap_forward(bytes, offset) <= bytes.len(),
        0 <= spec_snap_back(bytes, offset) <= bytes.len(),
        spec_snap_back(bytes, offset) <= offset,
    decreases offset,
{
    lemma_snap_forward_bounds(bytes, offset);
    if offset > bytes.len() {
        lemma_snap_bounds(bytes, bytes.len() as int);
    } else if offset > 0 {
        lemma_snap_bounds(bytes, offset - 1);
    }
}

/// Snapping forward stays within the text.
pub proof fn lemma_snap_forward_bounds(bytes: Seq<u8>, offset: int)
    requires
        0 <= offset,
    ensures
        0 <= spec_snap_forward(bytes, offset) <= bytes.len(),
    decreases bytes.len() - offset,
{
    if offset < bytes.len() {
        lemma_snap_forward_bounds(bytes, offset + 1);
    }
}

/// Truncating a line that lacks a byte other than `.` gives text that lacks it too.
pub proof fn lemma_truncate_lacks(line: Seq<u8>, offset: int, width: int, c: u8)
    requires
        lacks_byte(line, c),
        c != 46u8,
        0 <= offset,
    ensures
        lacks_byte(spec_truncate_line(line, offset, width).content, c),
{
    let t = spec_truncate_line(line, offset, width);
    lemma_snap_bounds(line, offset);
    let bo = spec_snap_forward(line, offset);
    if !(offset == 0 && line.len() <= width) && bo < line.len() {
        let rem = line.subrange(bo, line.len() as int);
        assert forall|w: int| 0 <= w implies 0 <= #[trigger] spec_snap_back(rem, w) <= rem.len() by {
            lemma_snap_bounds(rem, w);
        }
        assert forall|i: int| 0 <= i < t.content.len() implies #[trigger] t.content[i] != c by {
            assert(lacks_byte(ellipsis(), c));
            assert(forall|j: int| 0 <= j < rem.len() ==> rem[j] == line[bo + j]);
        }
    }
}

/// Truncate a line at a specific byte offset, adding ellipsis as needed.
/// The `offset` is snapped forward to the nearest UTF-8 character boundary
/// to avoid splitting multi-byte characters.
fn truncate_line(line: &str, offset: usize, max_width: usize) -> (res: TruncationResult)
    ensures
        valid_utf8(spec_truncate_line(line.spec_bytes(), offset as int, max_width as int).content),
        res.visible_content@ == decode_utf8(
            spec_truncate_line(line.spec_bytes(), offset as int, max_width as int).content,
        ),
        res.byte_offset == spec_truncate_line(
            line.spec_bytes(),
            offset as int,
            max_width as int,
        ).byte_offset,
        res.prefix_len == spec_truncate_line(
            line.spec_bytes(),
            offset as int,
            max_width as int,
        ).prefix_len,
{
    let ghost lb = line.spec_bytes();
    let ghost spec = spec_truncate_line(lb, offset as int, max_width as int);
    proof {
        lemma_str_bytes(line);
        lemma_empty_utf8();
        lemma_ascii_valid(ellipsis());
    }
    let len = str_len(line);
    // If no offset and line fits, return as-is
    if offset == 0 && len <= max_width {
        let mut whole: Vec<u8> = Vec::new();
        push_str(&mut whole, line);
        assert(whole@ =~= lb);
        return TruncationResult { visible_content: into_string(whole), byte_offset: 0, prefix_len: 0 };
    }
    // Snap offset to nearest char boundary (forward)
    let byte_offset = snap_to_char_boundary(line, offset);
    proof {
        lemma_snap_forward(lb, offset as int);
    }
    let mut result: Vec<u8> = Vec::new();
    // Add leading ellipsis if we're starting mid-line
    let prefix_len = if byte_offset > 0 {
        push_repeated(&mut result, 46u8, ELLIPSIS_LEN);
        ELLIPSIS_LEN
    } else {
        0
    };
    // Calculate how much content we can show (in bytes, approximate)
    let available_content_width = if byte_offset > 0 {
        max_width.saturating_sub(ELLIPSIS_LEN)
    } else {
        max_width
    };
    // Check if offset is past line length
    if byte_offset >= len {
        // Offset is past line length - show just ellipsis
        let mut dots: Vec<u8> = Vec::new();
        push_repeated(&mut dots, 46u8, ELLIPSIS_LEN);
        assert(dots@ =~= ellipsis());
        return TruncationResult {
            visible_content: into_string(dots),
            byte_offset,
            prefix_len: ELLIPSIS_LEN,
        };
    }
    let remaining_line = str_slice(line, byte_offset, len);
    let rem_len = str_len(remaining_line);
    let needs_trailing_ellipsis = rem_len > available_content_width;
    let content_width = if needs_trailing_ellipsis {
        available_content_width.saturating_sub(ELLIPSIS_LEN)
    } else if available_content_width < rem_len {
        available_content_width
    } else {
        rem_len
    };
    // Find the largest byte offset <= content_width that is on a char boundary
    let visible_end = snap_to_char_boundary_back(remaining_line, content_width);
    proof {
        lemma_str_bytes(remaining_line);
        lemma_snap_back(remaining_line.spec_bytes(), content_width as int);
    }
    let shown = str_slice(remaining_line, 0, visible_end);
    push_str(&mut result, shown);
    if needs_trailing_ellipsis {
        push_repeated(&mut result, 46u8, ELLIPSIS_LEN);
    }
    proof {
        let prefix: Seq<u8> = if byte_offset > 0 { ellipsis() } else { seq![] };
        assert(repeat_byte(46u8, 3) =~= ellipsis());
        assert(Seq::<u8>::empty() + repeat_byte(46u8, 3) =~= ellipsis());
        assert(result@ =~= spec.content);
        lemma_utf8_valid(result@);
    }
    TruncationResult { visible_content: into_string(result), byte_offset, prefix_len }
}

/// The byte length of each line.
pub open spec fn line_lengths(lines: Seq<&str>) -> Seq<int> {
    lines.map_values(|l: &str| l.spec_bytes().len() as int)
}

/// Markers on the character boundaries of a line remain on boundaries of the
/// truncated line once moved by the truncation.
pub proof fn lemma_truncated_markers(line: Seq<u8>, m: Seq<StyleMarker>, offset: int, width: int)
    requires
        valid_utf8(line),
        markers_on_boundaries(line, m),
        0 <= offset,
        line.len() + 6 <= usize::MAX,
    ensures
        ({
            let t = spec_truncate_line(line, offset, width);
            markers_on_boundaries(
                t.content,
                window(
                    m,
                    t.byte_offset,
                    t.byte_offset + sat_sub(t.content.len() as int, t.prefix_len) + 1,
                    t.byte_offset,
                    t.prefix_len,
                ),
            )
        }),
{
    let t = spec_truncate_line(line, offset, width);
    let lo = t.byte_offset;
    let hi = t.byte_offset + sat_sub(t.content.len() as int, t.prefix_len) + 1;
    let w = window(m, lo, hi, lo, t.prefix_len);
    lemma_window_members(m, lo, hi, lo, t.prefix_len);
    lemma_snap_forward(line, offset);
    is_char_boundary_start_end_of_seq(line);
    let dots = ellipsis();
    assert(all_ascii(dots));
    assert forall|j: int| 0 <= j < w.len() implies is_char_boundary(
        t.content,
        if #[trigger] w[j].offset < t.content.len() {
            w[j].offset as int
        } else {
            t.content.len() as int
        },
    ) by {
        let i = choose|i: int|
            0 <= i < m.len() && lo <= #[trigger] m[i].offset < hi && #[trigger] w[j] == (StyleMarker {
                offset: (m[i].offset - lo + t.prefix_len) as usize,
                is_start: m[i].is_start,
                token_type: m[i].token_type,
            });
        let r = m[i].offset as int;
        let n = r - lo + t.prefix_len;
        assert(is_char_boundary(line, if r < line.len() { r } else { line.len() as int }));
        if offset == 0 && line.len() <= width {
            assert(t.content == line);
            assert(n == r);
            assert(w[j].offset == n);
        } else {
            let bo = spec_snap_forward(line, offset);
            if bo >= line.len() {
                assert(t.content == dots);
                let x = if n < 3 { n } else { 3 };
                lemma_ascii_boundary(dots, x);
            } else {
                let prefix: Seq<u8> = if bo > 0 { dots } else { seq![] };
                let pl = prefix.len() as int;
                let avail = if bo > 0 { sat_sub(width, ELLIPSIS_LEN as int) } else { width };
                let rem = line.subrange(bo, line.len() as int);
                let needs_trailing = rem.len() > avail;
                let content_width = if needs_trailing {
                    sat_sub(avail, ELLIPSIS_LEN as int)
                } else if avail < rem.len() {
                    avail
                } else {
                    rem.len() as int
                };
                let ve = spec_snap_back(rem, content_width);
                let tail: Seq<u8> = if needs_trailing { dots } else { seq![] };
                lemma_boundary_of_suffix(line, bo, 0);
                lemma_snap_back(rem, content_width);
                let body = rem.subrange(0, ve);
                lemma_boundary_of_subrange(rem, 0, ve, 0);
                assert(all_ascii(prefix));
                assert(all_ascii(tail));
                lemma_ascii_valid(prefix);
                lemma_ascii_valid(tail);
                assert(t.content == prefix + body + tail);
                assert(t.prefix_len == pl);
                let q = r - bo;
                lemma_concat_boundary(prefix, body, 0);
                let pb = prefix + body;
                if q <= ve {
                    lemma_boundary_of_suffix(line, bo, q);
                    lemma_boundary_of_subrange(rem, 0, ve, q);
                    lemma_concat_boundary(prefix, body, pl + q);
                    if q == 0 {
                        lemma_ascii_boundary(prefix, pl);
                    }
                    lemma_concat_boundary(pb, tail, pl + q);
                    assert(n == pl + q);
                    assert(w[j].offset == n);
                    assert(is_char_boundary(t.content, n));
                } else {
                    assert(needs_trailing);
                    lemma_concat_boundary(pb, tail, 0);
                    let x = if n < t.content.len() { n } else { t.content.len() as int };
                    lemma_concat_boundary(pb, tail, x);
                    lemma_ascii_boundary(tail, x - pb.len());
                    assert(is_char_boundary(t.content, x));
                }
            }
        }
    }
}

/// Some line of the window is longer than `width` bytes.
pub open spec fn any_line_longer(lens: Seq<int>, width: int) -> bool {
    exists|i: int| 0 <= i < lens.len() && #[trigger] lens[i] > width
}

/// The byte offset at which every line of the window is cut: 0 when all lines
/// fit or there is no error column; otherwise the offset that centres the
/// error range `[start_column, end_column)` in the width left after an
/// ellipsis on each side.
pub open spec fn spec_truncation_offset(
    lines: Seq<int>,
    start_column: int,
    end_column: int,
    available_width: int,
) -> int {
    if !any_line_longer(lines, available_width) || start_column == 0 {
        0
    } else {
        let available_with_ellipsis = sat_sub(available_width, 2 * ELLIPSIS_LEN);
        let error_midpoint = (sat_sub(start_column, 1) + sat_sub(end_column, 1)) / 2;
        sat_sub(error_midpoint, available_with_ellipsis / 2)
    }
}

/// The midpoint computation of the truncation offset does not overflow.
pub open spec fn truncation_offset_fits(
    lines: Seq<int>,
    start_column: int,
    end_column: int,
    available_width: int,
) -> bool {
    any_line_longer(lines, available_width) && start_column != 0 ==> sat_sub(start_column, 1)
        + sat_sub(end_column, 1) <= usize::MAX
}

/// When the window is truncated, the truncation offset centres the error
/// range: the midpoint of the range (0-indexed) lies at or after the offset
/// and at most half the width left between two ellipses after it.
pub proof fn law_truncation_centres_error(lines: Seq<int>, start_column: int, end_column: int, available_width: int)
    requires
        any_line_longer(lines, available_width),
        start_column != 0,
    ensures
        ({
            let trunc = spec_truncation_offset(lines, start_column, end_column, available_width);
            let midpoint = (sat_sub(start_column, 1) + sat_sub(end_column, 1)) / 2;
            &&& 0 <= trunc <= midpoint
            &&& midpoint - trunc <= sat_sub(available_width, 2 * ELLIPSIS_LEN) / 2
        }),
{
}

/// Whether some line is longer than `width` bytes.
fn any_line_longer_than(lines: &[&str], width: usize) -> (res: bool)
    ensures
        res == any_line_longer(line_lengths(lines@), width as int),
{
    let mut found = false;
    let mut i: usize = 0;
    while i < lines.len()
        invariant
            0 <= i <= lines@.len(),
            found == exists|k: int| 0 <= k < i && #[trigger] line_lengths(lines@)[k] > width,
        decreases lines@.len() - i,
    {
        let l = str_len(lines[i]);
        assert(line_lengths(lines@)[i as int] == l);
        if l > width {
            found = true;
        }
        i = i + 1;
    }
    found
}

/// Calculate the truncation offset (in bytes) for all lines in the window.
/// This ensures all lines are "scrolled" to the same horizontal position, centering the error
/// range. All column values are byte offsets.
///
/// NOTE: We use byte length (`line.len()`) as a proxy for display width. This is exact for
/// ASCII but overapproximates for multi-byte UTF-8 (e.g., CJK characters are 3 bytes but
/// 2 display columns, emoji are 4 bytes but 1-2 columns).
fn calculate_truncation_offset(
    lines: &[&str],
    start_column: usize,
    end_column: usize,
    available_width: usize,
) -> (res: usize)
    requires
        truncation_offset_fits(
            line_lengths(lines@),
            start_column as int,
            end_column as int,
            available_width as int,
        ),
    ensures
        res == spec_truncation_offset(
            line_lengths(lines@),
            start_column as int,
            end_column as int,
            available_width as int,
        ),
{
    // Check if any line in the window needs truncation
    let needs_truncation = any_line_longer_than(lines, available_width);
    // All lines are short enough or we don't have an error column so start at beginning
    if !needs_truncation || start_column == 0 {
        return 0;
    }
    // If we need truncation, center the error range
    // We need to account for the "..." ellipsis (3 chars) on each side
    let available_with_ellipsis = available_width.saturating_sub(2 * ELLIPSIS_LEN);
    // Calculate the midpoint of the error range
    // end_column is exclusive, so the range is [start_column, end_column)
    let start_0idx = start_column.saturating_sub(1);
    let end_0idx = end_column.saturating_sub(1);
    let error_midpoint = (start_0idx + end_0idx) / 2;
    // Try to center the error range in the window
    let half_width = available_with_ellipsis / 2;
    error_midpoint.saturating_sub(half_width)
}

/// The underline for one error line: its display column (1-indexed, counting
/// the "..." of a truncated line) and its length. Single-line errors mark
/// `[start, end)`; the first line of a multi-line error marks from the start
/// column to the end of the line (through its last byte), the last line from
/// column 1 to the end column. Columns are clamped near the line end, an empty range marks one
/// byte, and the marker is cut to the available width.
pub open spec fn spec_marker_position(
    location_start_column: int,
    end_column: int,
    line_length: int,
    line_idx: int,
    start_line: int,
    end_line: int,
    column_offset: int,
    available_code_width: int,
) -> (int, int) {
    let max_col = line_length + 1;
    let range = if start_line == end_line {
        (location_start_column, end_column)
    } else if line_idx == start_line {
        (location_start_column, line_length + 1)
    } else {
        (1, end_column)
    };
    let range_start = if range.0 < max_col {
        range.0
    } else {
        max_col
    };
    let reasonable_max = max_col + 1;
    let range_end = if range.1 < reasonable_max {
        range.1
    } else {
        reasonable_max
    };
    let marker_col = if column_offset > 0 {
        if range_start < column_offset {
            4
        } else {
            (range_start - column_offset) + 4
        }
    } else if range_start > 1 {
        range_start
    } else {
        1
    };
    let marker_length = if range_end > range_start {
        range_end - range_start
    } else {
        1
    };
    let room = sat_sub(available_code_width, marker_col - 1);
    (marker_col, if marker_length < room {
        marker_length
    } else {
        room
    })
}

/// The underline starts at display column 1 or later, is at least one byte
/// long when it starts inside the available width, and never reaches past
/// that width.
pub proof fn law_marker_within_width(
    location_start_column: int,
    end_column: int,
    line_length: int,
    line_idx: int,
    start_line: int,
    end_line: int,
    column_offset: int,
    available_code_width: int,
)
    ensures
        ({
            let (col, len) = spec_marker_position(
                location_start_column,
                end_column,
                line_length,
                line_idx,
                start_line,
                end_line,
                column_offset,
                available_code_width,
            );
            &&& col >= 1
            &&& col - 1 < available_code_width ==> 1 <= len && col - 1 + len <= available_code_width
            &&& col - 1 >= available_code_width ==> len == 0
        }),
{
}

fn calculate_marker_position(
    location_start_column: usize,
    end_column: usize,
    line_length: usize,
    line_idx: usize,
    start_line: usize,
    end_line: usize,
    column_offset: usize,
    available_code_width: usize,
) -> (res: (usize, usize))
    requires
        line_length + 5 <= usize::MAX,
    ensures
        res.0 == spec_marker_position(
            location_start_column as int,
            end_column as int,
            line_length as int,
            line_idx as int,
            start_line as int,
            end_line as int,
            column_offset as int,
            available_code_width as int,
        ).0,
        res.1 == spec_marker_position(
            location_start_column as int,
            end_column as int,
            line_length as int,
            line_idx as int,
            start_line as int,
            end_line as int,
            column_offset as int,
            available_code_width as int,
        ).1,
        res.0 >= 1,
{
    // Allow columns to go one past line length (pointing after last char)
    let max_col = line_length + 1;
    // Determine the column range to mark on this line (exclusive ranges [start, end)):
    // - Single-line: Mark from start.column to end.column (exclusive)
    // - First line of multiline: Mark from start.column to end of line
    // - Last line of multiline: Mark from column 1 to end.column (exclusive)
    let is_single_line_error = start_line == end_line;
    let (range_start, range_end) = if is_single_line_error {
        (location_start_column, end_column)
    } else if line_idx == start_line {
        // the exclusive end one past the last byte: the whole rest of the line
        (location_start_column, max_col)
    } else {
        (1, end_column)
    };
    // Clamp to reasonable bounds
    let range_start = if range_start < max_col {
        range_start
    } else {
        max_col
    };
    // Allow small extension past line for off-by-one, but prevent excessive spans
    let reasonable_max = max_col + 1;
    let range_end = if range_end < reasonable_max {
        range_end
    } else {
        reasonable_max
    };
    // Calculate marker position accounting for truncation
    // When column_offset > 0, visible content is "...XXXXX" where X starts at column_offset
    // Display positions: columns 1-3 are "...", column 4 corresponds to source column column_offset
    let marker_col = if column_offset > 0 {
        if range_start < column_offset {
            // Error starts before visible window, mark from column 4 (after "...")
            4
        } else {
            // Error starts in visible window
            (range_start - column_offset) + 4
        }
    } else {
        // No truncation, use column as-is
        if range_start > 1 {
            range_start
        } else {
            1
        }
    };
    // If range is invalid (end <= start), show single marker at start
    let marker_length = if range_end > range_start {
        range_end - range_start
    } else {
        1
    };
    // Adjust marker_length if it would extend past available width
    let room = available_code_width.saturating_sub(marker_col - 1);
    let marker_length = if marker_length < room {
        marker_length
    } else {
        room
    };
    (marker_col, marker_length)
}

/// The decimal digits of `n`.
pub open spec fn decimal(n: nat) -> Seq<u8>
    decreases n,
{
    if n < 10 {
        seq![(48 + n) as u8]
    } else {
        decimal(n / 10).push((48 + n % 10) as u8)
    }
}

/// `10^k`.
pub open spec fn pow10(k: nat) -> nat
    decreases k,
{
    if k == 0 {
        1
    } else {
        10 * pow10((k - 1) as nat)
    }
}

/// A number below `10^k` has at most `k` digits.
proof fn lemma_decimal_len(n: nat, k: nat)
    requires
        n < pow10(k),
        k >= 1,
    ensures
        decimal(n).len() <= k,
    decreases k,
{
    if n >= 10 {
        let p = pow10((k - 1) as nat);
        assert(n / 10 < p) by (nonlinear_arith)
            requires
                n < 10 * p,
        ;
        if k == 1 {
            assert(pow10(1) == 10) by {
                reveal_with_fuel(pow10, 2);
            }
        } else {
            lemma_decimal_len(n / 10, (k - 1) as nat);
        }
    }
}

/// Decimal digits are ASCII; there is at least one and, for a `usize`, at most 20.
pub proof fn lemma_decimal(n: nat)
    ensures
        all_ascii(decimal(n)),
        decimal(n).len() >= 1,
        n <= usize::MAX ==> decimal(n).len() <= 20,
    decreases n,
{
    if n >= 10 {
        lemma_decimal(n / 10);
    }
    if n <= usize::MAX {
        assert(pow10(20) == 100000000000000000000) by {
            reveal_with_fuel(pow10, 21);
        }
        lemma_decimal_len(n, 20);
    }
}

/// Decimal digits lack every byte below `0`.
pub proof fn lemma_decimal_lacks(n: nat, c: u8)
    requires
        c < 48,
    ensures
        lacks_byte(decimal(n), c),
    decreases n,
{
    if n >= 10 {
        lemma_decimal_lacks(n / 10, c);
        let d = decimal(n / 10);
        let s = decimal(n);
        assert forall|i: int| 0 <= i < s.len() implies #[trigger] s[i] != c by {
            if i < d.len() {
                assert(s[i] == d[i]);
            }
        }
    }
}

/// Appends the decimal digits of `n` to `out`.
fn push_decimal(out: &mut Vec<u8>, n: usize)
    requires
        utf8_valid(old(out)@),
    ensures
        final(out)@ == old(out)@ + decimal(n as nat),
        utf8_valid(final(out)@),
    decreases n,
{
    if n >= 10 {
        push_decimal(out, n / 10);
    }
    let ghost before = out@;
    crate::text::push_ascii(out, 48u8 + (n % 10) as u8);
    proof {
        if n >= 10 {
            assert(out@ =~= before.push((48 + n % 10) as u8));
        } else {
            assert(decimal(n as nat) =~= seq![(48 + n) as u8]);
        }
    }
}

// ---------------------------------------------------------------------------
// Rendering
// ---------------------------------------------------------------------------

/// Why a code frame cannot be rendered.
#[derive(Debug, Clone, Copy, PartialEq, Eq, Structural)]
pub enum CodeFrameError {
    /// The location ends on a line before the one it starts on (0-indexed lines).
    InvalidEndLine { end_line: usize, start_line: usize },
    /// The maximum width leaves no room for code after the gutter.
    MaxWidthTooSmall { max_width: usize },
}

/// The text of line `k`: from its start to the next `\n` (or the end), without
/// a trailing `\r`. These are the pieces of splitting the source at `\n`.
pub open spec fn spec_line_text(bytes: Seq<u8>, ls: Seq<usize>, k: int) -> Seq<u8> {
    let start = ls[k] as int;
    let end0 = if k + 1 < ls.len() {
        ls[k + 1] - 1
    } else {
        bytes.len() as int
    };
    let end = if end0 > start && bytes[end0 - 1] == 13u8 {
        end0 - 1
    } else {
        end0
    };
    bytes.subrange(start, end)
}

/// The texts of all lines of `source`.
fn split_lines<'a>(source: &'a str, line_starts: &Vec<usize>) -> (lines: Vec<&'a str>)
    requires
        line_starts@ == spec_line_starts(source.spec_bytes()),
    ensures
        lines@.len() == line_starts@.len(),
        forall|k: int|
            0 <= k < lines@.len() ==> (#[trigger] lines@[k]).spec_bytes() == spec_line_text(
                source.spec_bytes(),
                line_starts@,
                k,
            ),
{
    let ghost bytes = source.spec_bytes();
    let sb = source.as_bytes();
    let len = str_len(source);
    proof {
        lemma_str_bytes(source);
        crate::lines::lemma_line_starts(bytes);
        crate::lines::lemma_line_starts_boundaries(bytes, line_starts@);
    }
    let n = line_starts.len();
    let mut lines: Vec<&'a str> = Vec::new();
    let mut k: usize = 0;
    while k < n
        invariant
            0 <= k <= n,
            n == line_starts@.len(),
            sb@ == bytes,
            len == bytes.len(),
            bytes == source.spec_bytes(),
            valid_utf8(bytes),
            crate::lines::line_starts_exact(line_starts@, bytes),
            forall|j: int| 0 <= j < n ==> is_char_boundary(bytes, #[trigger] line_starts@[j] as int),
            lines@.len() == k,
            forall|j: int|
                0 <= j < k ==> (#[trigger] lines@[j]).spec_bytes() == spec_line_text(
                    bytes,
                    line_starts@,
                    j,
                ),
        decreases n - k,
    {
        let start = line_starts[k];
        let end0 = if k + 1 < n {
            proof {
                assert(line_starts@[k + 1] > line_starts@[k as int]);
                assert(bytes[line_starts@[k + 1] - 1] == 10u8);
                crate::text::lemma_ascii_byte_boundaries(bytes, line_starts@[k + 1] - 1);
            }
            line_starts[k + 1] - 1
        } else {
            proof {
                is_char_boundary_start_end_of_seq(bytes);
            }
            len
        };
        proof {
            assert(line_starts@[k as int] <= len);
        }
        let end = if end0 > start && sb[end0 - 1] == 13u8 {
            proof {
                crate::text::lemma_ascii_byte_boundaries(bytes, end0 - 1);
            }
            end0 - 1
        } else {
            end0
        };
        lines.push(str_slice(source, start, end));
        k = k + 1;
    }
    lines
}

/// The last line (0-indexed) of the error: the end location's line, capped at
/// the last line, or the start line when there is no end location.
pub open spec fn spec_end_line(loc: CodeFrameLocation, start_line: int, n: int) -> int {
    match loc.end {
        Some(l) => if sat_sub(l.line as int, 1) < n - 1 {
            sat_sub(l.line as int, 1)
        } else {
            n - 1
        },
        None => start_line,
    }
}

/// The exclusive end column: the end location's column, falling back to one
/// past the start column.
pub open spec fn spec_end_column(loc: CodeFrameLocation) -> Option<usize> {
    let next = match loc.start.column {
        Some(c) => Some((c + 1) as usize),
        None => None,
    };
    match loc.end {
        Some(l) => if l.column is Some {
            l.column
        } else {
            next
        },
        None => next,
    }
}

/// Everything that shapes the lines of a frame.
pub struct FrameSpec {
    pub bytes: Seq<u8>,
    pub ls: Seq<usize>,
    pub hl: Seq<LineHighlightView>,
    pub start_line: int,
    pub end_line: int,
    pub first_line: int,
    pub last_line: int,
    pub start_column: Option<usize>,
    pub end_column: Option<usize>,
    pub gutter_width: int,
    pub max_width: int,
    pub available: int,
    pub trunc: int,
    pub cs: ColorScheme,
    pub message: Option<Seq<u8>>,
    pub highlight_code: bool,
}

/// The byte lengths of the lines `first..last`.
pub open spec fn window_lengths(bytes: Seq<u8>, ls: Seq<usize>, first: int, last: int) -> Seq<int> {
    Seq::new((last - first) as nat, |j: int| spec_line_text(bytes, ls, first + j).len() as int)
}

/// The frame of `text` for `loc` and `opts` (meaningful once the start line
/// exists and the end line is not before it).
pub open spec fn spec_frame(
    text: Seq<char>,
    loc: CodeFrameLocation,
    opts: CodeFrameOptions,
    terminal_width: int,
) -> FrameSpec {
    let bytes = encode_utf8(text);
    let ls = spec_line_starts(bytes);
    let n = ls.len() as int;
    let start_line = sat_sub(loc.start.line as int, 1);
    let end_line = spec_end_line(loc, start_line, n);
    let first_line = sat_sub(start_line, opts.lines_above as int);
    let last_line = if end_line + opts.lines_below + 1 < n {
        end_line + opts.lines_below + 1
    } else {
        n
    };
    let gutter_width = decimal(last_line as nat).len() as int;
    let max_width = match opts.max_width {
        Some(w) => w as int,
        None => terminal_width,
    };
    let available = sat_sub(max_width, gutter_width + 5);
    let start_column = loc.start.column;
    let end_column = spec_end_column(loc);
    FrameSpec {
        bytes,
        ls,
        hl: if opts.highlight_code && regex_compiles(TOKEN_PATTERN@) && regex_compiles(
            REGEX_LITERAL_PATTERN@,
        ) {
            spec_extract_highlights(text, first_line, last_line, opts.language)
        } else {
            seq![]
        },
        start_line,
        end_line,
        first_line,
        last_line,
        start_column,
        end_column,
        gutter_width,
        max_width,
        available,
        trunc: spec_truncation_offset(
            window_lengths(bytes, ls, first_line, last_line),
            match start_column {
                Some(c) => c as int,
                None => 0,
            },
            match end_column {
                Some(c) => c as int,
                None => 0,
            },
            available,
        ),
        cs: if opts.force_color {
            spec_colored_scheme()
        } else {
            spec_plain_scheme()
        },
        message: match opts.message {
            Some(m) => Some(encode_utf8(m@)),
            None => None,
        },
        highlight_code: opts.highlight_code,
    }
}

/// The bytes of a string.
pub open spec fn sb(s: &str) -> Seq<u8> {
    s.spec_bytes()
}

/// The visible text of line `idx`: truncated, then highlighted when it has a highlight.
#[verifier::opaque]
pub open spec fn spec_visible(fs: FrameSpec, idx: int) -> Seq<u8> {
    let line = spec_line_text(fs.bytes, fs.ls, idx);
    let t = spec_truncate_line(line, fs.trunc, fs.available);
    let hidx = idx - fs.first_line;
    if fs.highlight_code && 0 <= hidx < fs.hl.len() {
        spec_apply_line_highlights(
            t.content,
            spec_adjust_highlight(fs.hl[hidx], t.byte_offset, t.content.len() as int, t.prefix_len).markers,
            fs.cs,
        )
    } else {
        t.content
    }
}

/// Whether line `idx` is one of the error lines.
pub open spec fn is_error_line(fs: FrameSpec, idx: int) -> bool {
    fs.start_line <= idx <= fs.end_line
}

/// `out` followed by a code line: `>` (coloured) on an error line or a space,
/// a space, the line number `num` right-aligned to the gutter width, ` |`, then
/// a space and the visible text when there is any.
pub open spec fn append_code_line(
    out: Seq<u8>,
    is_err: bool,
    num: Seq<u8>,
    gutter_width: int,
    visible: Seq<u8>,
    cs: ColorScheme,
) -> Seq<u8> {
    let head = if is_err {
        (out + sb(cs.marker)).push(62u8) + sb(cs.reset)
    } else {
        out.push(32u8)
    };
    let number = head.push(32u8) + sb(cs.gutter) + repeat_byte(32u8, sat_sub(gutter_width, num.len() as int) as nat)
        + num;
    let bar = (number + sb(cs.reset) + sb(cs.gutter)).push(32u8).push(124u8) + sb(cs.reset);
    if visible.len() > 0 {
        bar.push(32u8) + visible
    } else {
        bar
    }
}

/// `out` followed by a marker line: a newline, an empty gutter, `^` markers of
/// length `len` at display column `col`, and the message when one is given.
pub open spec fn append_marker_line(
    out: Seq<u8>,
    gutter_width: int,
    col: int,
    len: int,
    cs: ColorScheme,
    message: Option<Seq<u8>>,
) -> Seq<u8> {
    let gutter = (out.push(10u8).push(32u8).push(32u8) + sb(cs.gutter) + repeat_byte(32u8, gutter_width as nat)).push(
        32u8,
    ).push(124u8) + sb(cs.reset);
    let markers = gutter.push(32u8) + repeat_byte(32u8, (col - 1) as nat) + sb(cs.marker) + repeat_byte(
        94u8,
        len as nat,
    ) + sb(cs.reset);
    match message {
        Some(m) => markers.push(32u8) + sb(cs.marker) + m + sb(cs.reset),
        None => markers,
    }
}

/// `out` followed by line `idx` of the frame: its code line, then, on an error
/// line when there is a start column, its marker line (with the message after
/// the last error line's markers).
pub open spec fn append_frame_line(fs: FrameSpec, out: Seq<u8>, idx: int) -> Seq<u8> {
    let code = append_code_line(
        out,
        is_error_line(fs, idx),
        decimal((idx + 1) as nat),
        fs.gutter_width,
        spec_visible(fs, idx),
        fs.cs,
    );
    match fs.start_column {
        Some(sc) => if is_error_line(fs, idx) {
            let line = spec_line_text(fs.bytes, fs.ls, idx);
            let t = spec_truncate_line(line, fs.trunc, fs.available);
            let ec = match fs.end_column {
                Some(e) => e as int,
                None => sc + 1,
            };
            let mp = spec_marker_position(
                sc as int,
                ec,
                line.len() as int,
                idx,
                fs.start_line,
                fs.end_line,
                t.byte_offset,
                fs.available,
            );
            append_marker_line(
                code,
                fs.gutter_width,
                mp.0,
                mp.1,
                fs.cs,
                if idx == fs.end_line {
                    fs.message
                } else {
                    None
                },
            )
        } else {
            code
        },
        None => code,
    }
}

/// The message shown above the lines when there is no start column.
pub open spec fn spec_message_header(fs: FrameSpec) -> Seq<u8> {
    match fs.message {
        Some(m) => if fs.start_column is None {
            repeat_byte(32u8, (fs.gutter_width + 5) as nat) + sb(fs.cs.marker) + m + sb(fs.cs.reset)
        } else {
            seq![]
        },
        None => seq![],
    }
}

/// The output after rendering the first `j` lines of the window: the message
/// header, then each line (its code line and marker line), separated by newlines.
pub open spec fn spec_frame_lines(fs: FrameSpec, j: int) -> Seq<u8>
    decreases j,
{
    if j <= 0 {
        spec_message_header(fs)
    } else {
        let prev = spec_frame_lines(fs, j - 1);
        let sep = if spec_message_header(fs).len() > 0 || j > 1 {
            prev.push(10u8)
        } else {
            prev
        };
        append_frame_line(fs, sep, fs.first_line + j - 1)
    }
}

/// The rendered frame, or the error the location and options give.
pub open spec fn spec_render(
    text: Seq<char>,
    loc: CodeFrameLocation,
    opts: CodeFrameOptions,
    terminal_width: int,
) -> Result<Seq<u8>, CodeFrameError> {
    let fs = spec_frame(text, loc, opts, terminal_width);
    if fs.bytes.len() == 0 || fs.start_line >= fs.ls.len() {
        Ok(seq![])
    } else if fs.end_line < fs.start_line {
        Err(CodeFrameError::InvalidEndLine { end_line: fs.end_line as usize, start_line: fs.start_line as usize })
    } else if fs.available == 0 {
        Err(CodeFrameError::MaxWidthTooSmall { max_width: fs.max_width as usize })
    } else {
        Ok(spec_frame_lines(fs, fs.last_line - fs.first_line))
    }
}

/// The inputs for which rendering does no arithmetic that overflows: a text
/// no longer than a `str` can be, a start column below `usize::MAX` and
/// line and column sums that fit, whenever they are computed.
pub open spec fn render_fits(
    text: Seq<char>,
    loc: CodeFrameLocation,
    opts: CodeFrameOptions,
    terminal_width: int,
) -> bool {
    let fs = spec_frame(text, loc, opts, terminal_width);
    &&& fs.bytes.len() <= isize::MAX
    &&& (fs.bytes.len() > 0 && fs.start_line < fs.ls.len() && fs.end_line >= fs.start_line) ==> {
        &&& loc.start.column != Some(usize::MAX)
        &&& fs.end_line + opts.lines_below + 1 <= usize::MAX
        &&& (fs.available > 0 ==> truncation_offset_fits(
            window_lengths(fs.bytes, fs.ls, fs.first_line, fs.last_line),
            match fs.start_column {
                Some(c) => c as int,
                None => 0,
            },
            match fs.end_column {
                Some(c) => c as int,
                None => 0,
            },
            fs.available,
        ))
    }
}

/// Longer numbers have at least as many digits.
proof fn lemma_decimal_monotone(a: nat, b: nat)
    requires
        a <= b,
    ensures
        decimal(a).len() <= decimal(b).len(),
    decreases b,
{
    if a >= 10 {
        lemma_decimal_monotone(a / 10, b / 10);
    } else {
        lemma_decimal(b);
    }
}

/// Sizes of a truncated line: the visible source part does not reach past the
/// line end by more than an ellipsis, and the whole is at most the line plus two
/// ellipses.
proof fn lemma_truncate_sizes(line: Seq<u8>, offset: int, width: int)
    requires
        valid_utf8(line),
        0 <= offset,
    ensures
        ({
            let t = spec_truncate_line(line, offset, width);
            &&& 0 <= t.byte_offset <= line.len()
            &&& t.byte_offset + sat_sub(t.content.len() as int, t.prefix_len) <= line.len() + 3
            &&& t.content.len() <= line.len() + 6
            &&& 0 <= t.prefix_len <= 3
        }),
{
    lemma_snap_forward(line, offset);
    if !(offset == 0 && line.len() <= width) {
        let bo = spec_snap_forward(line, offset);
        if bo < line.len() {
            let avail = if bo > 0 { sat_sub(width, ELLIPSIS_LEN as int) } else { width };
            let rem = line.subrange(bo, line.len() as int);
            let needs_trailing = rem.len() > avail;
            let content_width = if needs_trailing {
                sat_sub(avail, ELLIPSIS_LEN as int)
            } else if avail < rem.len() {
                avail
            } else {
                rem.len() as int
            };
            lemma_boundary_of_suffix(line, bo, 0);
            lemma_snap_back(rem, content_width);
        }
    }
}

/// Markers of a highlight that fits line `k` lie on boundaries of the line's text.
proof fn lemma_line_markers(bytes: Seq<u8>, ls: Seq<usize>, k: int, h: LineHighlightView)
    requires
        valid_utf8(bytes),
        crate::lines::line_starts_exact(ls, bytes),
        crate::highlight::line_starts_on_boundaries(ls, bytes),
        0 <= k < ls.len(),
        crate::highlight::highlight_fits_line(h, bytes, ls, k),
    ensures
        markers_on_boundaries(spec_line_text(bytes, ls, k), h.markers),
{
    let a = ls[k] as int;
    let end0 = if k + 1 < ls.len() { ls[k + 1] - 1 } else { bytes.len() as int };
    let e = if end0 > a && bytes[end0 - 1] == 13u8 { end0 - 1 } else { end0 };
    is_char_boundary_start_end_of_seq(bytes);
    if k + 1 < ls.len() {
        assert(ls[k] < ls[k + 1]);
        assert(bytes[ls[k + 1] - 1] == 10u8);
        crate::text::lemma_ascii_byte_boundaries(bytes, ls[k + 1] - 1);
    }
    assert(ls[k] <= bytes.len());
    if end0 > a && bytes[end0 - 1] == 13u8 {
        crate::text::lemma_ascii_byte_boundaries(bytes, end0 - 1);
    }
    let line = bytes.subrange(a, e);
    lemma_boundary_of_subrange(bytes, a, e, 0);
    is_char_boundary_start_end_of_seq(line);
    assert forall|i: int| 0 <= i < h.markers.len() implies is_char_boundary(
        line,
        if #[trigger] h.markers[i].offset < line.len() {
            h.markers[i].offset as int
        } else {
            line.len() as int
        },
    ) by {
        let r = h.markers[i].offset as int;
        if r < line.len() {
            lemma_boundary_of_subrange(bytes, a, e, r);
        }
    }
}

/// What the frame needs of line `line_idx` and its highlights.
pub open spec fn line_ready(fs: FrameSpec, line_idx: int) -> bool {
    &&& valid_utf8(fs.bytes)
    &&& fs.bytes.len() <= isize::MAX
    &&& crate::lines::line_starts_exact(fs.ls, fs.bytes)
    &&& crate::highlight::line_starts_on_boundaries(fs.ls, fs.bytes)
    &&& fs.first_line <= line_idx < fs.last_line <= fs.ls.len()
    &&& fs.ls.len() <= fs.bytes.len() + 1
    &&& forall|j: int|
        0 <= j < fs.hl.len() ==> crate::highlight::highlight_fits_line(
            #[trigger] fs.hl[j],
            fs.bytes,
            fs.ls,
            fs.first_line + j,
        )
}

/// The visible text of a line of the frame, and the byte offset at which its
/// truncation starts.
fn visible_line(
    Ghost(fs): Ghost<FrameSpec>,
    line_content: &str,
    line_idx: usize,
    line_highlights: &Vec<LineHighlight>,
    highlight_code: bool,
    color_scheme: &ColorScheme,
    first_line: usize,
    available_code_width: usize,
    truncation_offset: usize,
) -> (res: (String, usize))
    requires
        line_ready(fs, line_idx as int),
        line_content.spec_bytes() == spec_line_text(fs.bytes, fs.ls, line_idx as int),
        highlights_view(line_highlights@) == fs.hl,
        fs.first_line == first_line,
        fs.available == available_code_width,
        fs.trunc == truncation_offset,
        fs.cs == *color_scheme,
        fs.highlight_code == highlight_code,
    ensures
        valid_utf8(spec_visible(fs, line_idx as int)),
        res.0@ == decode_utf8(spec_visible(fs, line_idx as int)),
        res.1 == spec_truncate_line(
            spec_line_text(fs.bytes, fs.ls, line_idx as int),
            truncation_offset as int,
            available_code_width as int,
        ).byte_offset,
{
    let ghost line = spec_line_text(fs.bytes, fs.ls, line_idx as int);
    proof {
        reveal(spec_visible);
        lemma_str_bytes(line_content);
        lemma_truncate_sizes(line, truncation_offset as int, available_code_width as int);
        assert(fs.ls[line_idx as int] + line.len() <= fs.bytes.len()) by {
            if line_idx + 1 < fs.ls.len() {
                assert(fs.ls[line_idx as int] < fs.ls[line_idx + 1]);
            }
            assert(fs.ls[line_idx as int] <= fs.bytes.len());
        }
    }
    // Apply consistent truncation to all lines (all offsets in bytes)
    let truncation = truncate_line(line_content, truncation_offset, available_code_width);
    let ghost t = spec_truncate_line(line, truncation_offset as int, available_code_width as int);
    let trunc_byte_offset = truncation.byte_offset;
    let trunc_prefix_len = truncation.prefix_len;
    // line_highlights is indexed relative to first_line (0-indexed within the visible range)
    let highlight_idx = line_idx - first_line;
    if highlight_code && highlight_idx < line_highlights.len() {
        let content = truncation.visible_content.as_str();
        proof {
            lemma_string_bytes(content, t.content);
        }
        let visible_length = str_len(content);
        let h = &line_highlights[highlight_idx];
        proof {
            assert(highlights_view(line_highlights@)[highlight_idx as int] == h@);
            lemma_line_markers(fs.bytes, fs.ls, line_idx as int, h@);
            lemma_truncated_markers(line, h@.markers, truncation_offset as int, available_code_width as int);
        }
        // Adjust highlights for truncation (byte offset, markers are byte-based)
        let adjusted_highlight = adjust_highlights_for_truncation(h, trunc_byte_offset, visible_length, trunc_prefix_len);
        proof {
            crate::highlight::lemma_advances_on_boundaries(t.content, adjusted_highlight.markers@);
        }
        (apply_line_highlights(content, &adjusted_highlight, color_scheme), trunc_byte_offset)
    } else {
        (truncation.visible_content, trunc_byte_offset)
    }
}

/// Appends a code line.
fn push_code_line(
    out: &mut Vec<u8>,
    is_error_line: bool,
    line_num: usize,
    visible: &str,
    color_scheme: &ColorScheme,
    gutter_width: usize,
)
    requires
        utf8_valid(old(out)@),
        decimal(line_num as nat).len() <= gutter_width,
    ensures
        final(out)@ == append_code_line(
            old(out)@,
            is_error_line,
            decimal(line_num as nat),
            gutter_width as int,
            visible.spec_bytes(),
            *color_scheme,
        ),
        utf8_valid(final(out)@),
{
    // Line prefix with number
    if is_error_line {
        push_str(out, color_scheme.marker);
        crate::text::push_ascii(out, 62u8);
        push_str(out, color_scheme.reset);
    } else {
        crate::text::push_ascii(out, 32u8);
    }
    crate::text::push_ascii(out, 32u8);
    push_str(out, color_scheme.gutter);
    let mut digits: Vec<u8> = Vec::new();
    proof {
        lemma_empty_utf8();
    }
    push_decimal(&mut digits, line_num);
    proof {
        assert(digits@ =~= decimal(line_num as nat));
        lemma_decimal(line_num as nat);
    }
    push_repeated(out, 32u8, gutter_width - digits.len());
    let ghost before_digits = out@;
    crate::text::push_bytes(out, digits.as_slice());
    proof {
        lemma_ascii_valid(digits@);
        lemma_utf8_valid(before_digits);
        crate::text::lemma_concat_valid(before_digits, digits@);
        lemma_utf8_valid(out@);
    }
    push_str(out, color_scheme.reset);
    push_str(out, color_scheme.gutter);
    crate::text::push_ascii(out, 32u8);
    crate::text::push_ascii(out, 124u8);
    push_str(out, color_scheme.reset);
    // Line content (with space separator if not empty)
    if str_len(visible) > 0 {
        crate::text::push_ascii(out, 32u8);
        push_str(out, visible);
    }
}

/// Appends a marker line.
fn push_marker_line(
    out: &mut Vec<u8>,
    gutter_width: usize,
    marker_col: usize,
    marker_length: usize,
    color_scheme: &ColorScheme,
    message: Option<&str>,
)
    requires
        utf8_valid(old(out)@),
        marker_col >= 1,
    ensures
        final(out)@ == append_marker_line(
            old(out)@,
            gutter_width as int,
            marker_col as int,
            marker_length as int,
            *color_scheme,
            match message {
                Some(m) => Some(m.spec_bytes()),
                None => None,
            },
        ),
        utf8_valid(final(out)@),
{
    crate::text::push_ascii(out, 10u8);
    crate::text::push_ascii(out, 32u8);
    crate::text::push_ascii(out, 32u8);
    push_str(out, color_scheme.gutter);
    push_repeated(out, 32u8, gutter_width);
    crate::text::push_ascii(out, 32u8);
    crate::text::push_ascii(out, 124u8);
    push_str(out, color_scheme.reset);
    crate::text::push_ascii(out, 32u8);
    push_repeated(out, 32u8, marker_col - 1);
    push_str(out, color_scheme.marker);
    push_repeated(out, 94u8, marker_length);
    push_str(out, color_scheme.reset);
    // Add message only on the last error line's marker
    if let Some(message) = message {
        crate::text::push_ascii(out, 32u8);
        push_str(out, color_scheme.marker);
        push_str(out, message);
        push_str(out, color_scheme.reset);
    }
}

/// The number of decimal digits of `n`.
fn count_digits(n: usize) -> (res: usize)
    ensures
        res == decimal(n as nat).len(),
    decreases n,
{
    proof {
        lemma_decimal(n as nat);
    }
    if n < 10 {
        1
    } else {
        count_digits(n / 10) + 1
    }
}

/// The shape of a frame, computed once before its lines are rendered.
struct FrameLayout {
    start_line: usize,
    end_line: usize,
    first_line: usize,
    last_line: usize,
    start_column: Option<usize>,
    end_column: Option<usize>,
    gutter_width: usize,
    available: usize,
    truncation_offset: usize,
}

/// `lay` holds the values of the frame `fs`, and the frame can be rendered.
spec fn layout_matches(fs: FrameSpec, lay: FrameLayout) -> bool {
    &&& fs.start_line == lay.start_line
    &&& fs.end_line == lay.end_line
    &&& fs.first_line == lay.first_line
    &&& fs.last_line == lay.last_line
    &&& fs.start_column == lay.start_column
    &&& fs.end_column == lay.end_column
    &&& fs.gutter_width == lay.gutter_width
    &&& fs.available == lay.available
    &&& fs.trunc == lay.truncation_offset
    &&& fs.gutter_width == decimal(fs.last_line as nat).len()
    &&& fs.first_line <= fs.start_line <= fs.end_line < fs.last_line <= fs.ls.len()
    &&& (fs.start_column matches Some(c) ==> c < usize::MAX && fs.end_column is Some)
}

/// Renders the lines of the window after the message header.
fn render_lines(
    Ghost(fs): Ghost<FrameSpec>,
    lines: &Vec<&str>,
    line_highlights: &Vec<LineHighlight>,
    highlight_code: bool,
    color_scheme: &ColorScheme,
    message: Option<&str>,
    lay: &FrameLayout,
    out: &mut Vec<u8>,
)
    requires
        layout_matches(fs, *lay),
        forall|i: int| lay.first_line <= i < lay.last_line ==> line_ready(fs, i),
        lines@.len() == fs.ls.len(),
        forall|k: int|
            0 <= k < lines@.len() ==> (#[trigger] lines@[k]).spec_bytes() == spec_line_text(
                fs.bytes,
                fs.ls,
                k,
            ),
        highlights_view(line_highlights@) == fs.hl,
        fs.highlight_code == highlight_code,
        fs.cs == *color_scheme,
        fs.message == (match message {
            Some(m) => Some(m.spec_bytes()),
            None => None,
        }),
        old(out)@ == spec_message_header(fs),
        utf8_valid(old(out)@),
    ensures
        final(out)@ == spec_frame_lines(fs, fs.last_line - fs.first_line),
        utf8_valid(final(out)@),
{
    let mut needs_newline = message.is_some() && lay.start_column.is_none();
    proof {
        lemma_decimal(fs.last_line as nat);
        assert(needs_newline == (spec_message_header(fs).len() > 0));
    }
    let mut line_idx = lay.first_line;
    while line_idx < lay.last_line
        invariant
            layout_matches(fs, *lay),
            forall|i: int| lay.first_line <= i < lay.last_line ==> line_ready(fs, i),
            lines@.len() == fs.ls.len(),
            forall|k: int|
                0 <= k < lines@.len() ==> (#[trigger] lines@[k]).spec_bytes() == spec_line_text(
                    fs.bytes,
                    fs.ls,
                    k,
                ),
            highlights_view(line_highlights@) == fs.hl,
            fs.highlight_code == highlight_code,
            fs.cs == *color_scheme,
            fs.message == (match message {
                Some(m) => Some(m.spec_bytes()),
                None => None,
            }),
            lay.first_line <= line_idx <= lay.last_line,
            out@ == spec_frame_lines(fs, line_idx - lay.first_line),
            utf8_valid(out@),
            needs_newline == (spec_message_header(fs).len() > 0 || line_idx > lay.first_line),
        decreases lay.last_line - line_idx,
    {
        proof {
            lemma_decimal_monotone((line_idx + 1) as nat, lay.last_line as nat);
        }
        // Separate from previous line/section
        if needs_newline {
            crate::text::push_ascii(out, 10u8);
        }
        needs_newline = true;
        render_line(
            Ghost(fs),
            lines[line_idx],
            line_idx,
            line_highlights,
            highlight_code,
            color_scheme,
            message,
            lay,
            out,
        );
        line_idx = line_idx + 1;
    }
}

/// Appends line `line_idx` of the frame: its code line and, on an error line
/// with a start column, its marker line.
fn render_line(
    Ghost(fs): Ghost<FrameSpec>,
    line_content: &str,
    line_idx: usize,
    line_highlights: &Vec<LineHighlight>,
    highlight_code: bool,
    color_scheme: &ColorScheme,
    message: Option<&str>,
    lay: &FrameLayout,
    out: &mut Vec<u8>,
)
    requires
        layout_matches(fs, *lay),
        line_ready(fs, line_idx as int),
        line_content.spec_bytes() == spec_line_text(fs.bytes, fs.ls, line_idx as int),
        decimal((line_idx + 1) as nat).len() <= lay.gutter_width,
        highlights_view(line_highlights@) == fs.hl,
        fs.highlight_code == highlight_code,
        fs.cs == *color_scheme,
        fs.message == (match message {
            Some(m) => Some(m.spec_bytes()),
            None => None,
        }),
        utf8_valid(old(out)@),
    ensures
        final(out)@ == append_frame_line(fs, old(out)@, line_idx as int),
        utf8_valid(final(out)@),
{
    let is_error_line = line_idx >= lay.start_line && line_idx <= lay.end_line;
    let (visible, byte_offset) = visible_line(
        Ghost(fs),
        line_content,
        line_idx,
        line_highlights,
        highlight_code,
        color_scheme,
        lay.first_line,
        lay.available,
        lay.truncation_offset,
    );
    let visible_str = visible.as_str();
    proof {
        lemma_string_bytes(visible_str, spec_visible(fs, line_idx as int));
    }
    push_code_line(out, is_error_line, line_idx + 1, visible_str, color_scheme, lay.gutter_width);
    // Add marker line if this is an error line with column info
    if is_error_line {
        if let Some(start_col) = lay.start_column {
            let end_col = match lay.end_column {
                Some(e) => e,
                None => start_col + 1,
            };
            proof {
                lemma_str_bytes(line_content);
                assert(fs.ls[line_idx as int] + line_content.spec_bytes().len() <= fs.bytes.len()) by {
                    if line_idx + 1 < fs.ls.len() {
                        assert(fs.ls[line_idx as int] < fs.ls[line_idx + 1]);
                    }
                    assert(fs.ls[line_idx as int] <= fs.bytes.len());
                }
            }
            let (marker_col, marker_length) = calculate_marker_position(
                start_col,
                end_col,
                str_len(line_content),
                line_idx,
                lay.start_line,
                lay.end_line,
                byte_offset,
                lay.available,
            );
            // Add message only on the last error line's marker
            let line_message = if line_idx == lay.end_line {
                message
            } else {
                None
            };
            push_marker_line(out, lay.gutter_width, marker_col, marker_length, color_scheme, line_message);
        }
    }
}

/// Renders the window of the frame `fs` of `source`, once the location has
/// been checked and the layout up to the truncation offset computed.
fn render_window(
    Ghost(fs): Ghost<FrameSpec>,
    Ghost(location): Ghost<CodeFrameLocation>,
    Ghost(terminal_width): Ghost<int>,
    source: &str,
    lines: &Vec<&str>,
    options: &CodeFrameOptions,
    start_line: usize,
    end_line: usize,
    first_line: usize,
    last_line: usize,
    start_column: Option<usize>,
    end_column: Option<usize>,
    gutter_width: usize,
    available_code_width: usize,
) -> (res: String)
    requires
        fs == spec_frame(source@, location, *options, terminal_width),
        render_fits(source@, location, *options, terminal_width),
        fs.bytes == source.spec_bytes(),
        line_starts_exact(fs.ls, fs.bytes),
        fs.ls.len() <= fs.bytes.len() + 1,
        lines@.len() == fs.ls.len(),
        forall|k: int|
            0 <= k < lines@.len() ==> (#[trigger] lines@[k]).spec_bytes() == spec_line_text(
                fs.bytes,
                fs.ls,
                k,
            ),
        fs.bytes.len() > 0,
        fs.start_line == start_line,
        fs.end_line == end_line,
        fs.first_line == first_line,
        fs.last_line == last_line,
        fs.start_column == start_column,
        fs.end_column == end_column,
        fs.gutter_width == gutter_width,
        fs.available == available_code_width,
        first_line <= start_line <= end_line < last_line <= lines@.len(),
        gutter_width <= 20,
        available_code_width > 0,
    ensures
        valid_utf8(spec_frame_lines(fs, fs.last_line - fs.first_line)),
        res@ == decode_utf8(spec_frame_lines(fs, fs.last_line - fs.first_line)),
{
    proof {
        lemma_str_bytes(source);
        vstd::utf8::encode_utf8_valid_utf8(source@);
        crate::lines::lemma_line_starts_boundaries(fs.bytes, fs.ls);
    }
    // Extract syntax highlights if enabled, only for the visible line range
    let line_highlights = if options.highlight_code {
        extract_highlights(source, first_line..last_line, options.language)
    } else {
        Vec::new()
    };
    // Center the error range if any line in the window needs truncation
    let window = vstd::slice::slice_subrange(lines.as_slice(), first_line, last_line);
    proof {
        assert(line_lengths(window@) =~= window_lengths(fs.bytes, fs.ls, first_line as int, last_line as int));
    }
    let truncation_offset = calculate_truncation_offset(
        window,
        match start_column {
            Some(c) => c,
            None => 0,
        },
        match end_column {
            Some(c) => c,
            None => 0,
        },
        available_code_width,
    );
    let color_scheme = if options.force_color {
        ColorScheme::colored()
    } else {
        ColorScheme::plain()
    };
    let mut output: Vec<u8> = Vec::new();
    proof {
        lemma_empty_utf8();
    }
    let message: Option<&str> = match &options.message {
        Some(m) => Some(m.as_str()),
        None => None,
    };
    // The message goes above the lines when there is no column to point at
    if let Some(m) = message {
        if start_column.is_none() {
            push_repeated(&mut output, 32u8, gutter_width + 5);
            push_str(&mut output, color_scheme.marker);
            push_str(&mut output, m);
            push_str(&mut output, color_scheme.reset);
        }
    }
    proof {
        assert(output@ =~= spec_message_header(fs));
        assert forall|i: int| first_line <= i < last_line implies line_ready(fs, i) by {
            assert forall|j: int| 0 <= j < fs.hl.len() implies crate::highlight::highlight_fits_line(
                #[trigger] fs.hl[j],
                fs.bytes,
                fs.ls,
                fs.first_line + j,
            ) by {
                assert(fs.hl[j] == line_highlights@[j]@);
            }
        }
        if !(options.highlight_code && regex_compiles(TOKEN_PATTERN@) && regex_compiles(REGEX_LITERAL_PATTERN@)) {
            assert(highlights_view(line_highlights@) =~= fs.hl);
        }
    }
    let lay = FrameLayout {
        start_line,
        end_line,
        first_line,
        last_line,
        start_column,
        end_column,
        gutter_width,
        available: available_code_width,
        truncation_offset,
    };
    render_lines(
        Ghost(fs),
        lines,
        &line_highlights,
        options.highlight_code,
        &color_scheme,
        message,
        &lay,
        &mut output,
    );
    proof {
        lemma_utf8_valid(output@);
    }
    into_string(output)
}

/// Renders a code frame showing the location of an error in source code.
///
/// The frame shows the lines from `lines_above` before the error's first line
/// to `lines_below` after its last one, each with its line number in a
/// gutter, `>` on the error lines and, when the location has a start column,
/// `^` markers under the error columns. Long lines are all cut at the same
/// offset so that the error range is centred. `terminal_width` is the width
/// used when `options.max_width` is `None`.
pub fn render_code_frame(
    source: &str,
    location: &CodeFrameLocation,
    options: &CodeFrameOptions,
    terminal_width: usize,
) -> (res: Result<String, CodeFrameError>)
    requires
        render_fits(source@, *location, *options, terminal_width as int),
    ensures
        match spec_render(source@, *location, *options, terminal_width as int) {
            Ok(b) => res is Ok && valid_utf8(b) && res->Ok_0@ == decode_utf8(b),
            Err(e) => res == Err::<String, CodeFrameError>(e),
        },
{
    let ghost fs = spec_frame(source@, *location, *options, terminal_width as int);
    let len = str_len(source);
    proof {
        lemma_str_bytes(source);
        lemma_ascii_valid(Seq::<u8>::empty());
        assert(decode_utf8(Seq::<u8>::empty()) =~= Seq::<char>::empty());
    }
    if len == 0 {
        return Ok(String::new());
    }
    // Split source into lines, preserving a trailing empty line; a trailing
    // '\r' is stripped for Windows line endings.
    let line_starts = compute_line_starts(source);
    let lines = split_lines(source, &line_starts);
    let n = lines.len();
    proof {
        crate::lines::lemma_line_starts(source.spec_bytes());
    }
    // Validate location
    let start_line = location.start.line.saturating_sub(1);
    if start_line >= n {
        return Ok(String::new());
    }
    let end_line = match location.end {
        Some(l) => {
            let e = l.line.saturating_sub(1);
            if e < n - 1 {
                e
            } else {
                n - 1
            }
        },
        None => start_line,
    };
    if end_line < start_line {
        return Err(CodeFrameError::InvalidEndLine { end_line, start_line });
    }
    // end.column is exclusive; without one, mark one byte from the start column
    let start_column = location.start.column;
    let next_column = match start_column {
        Some(c) => Some(c + 1),
        None => None,
    };
    let end_column = match location.end {
        Some(l) => match l.column {
            Some(c) => Some(c),
            None => next_column,
        },
        None => next_column,
    };
    // Calculate window of lines to show
    let first_line = start_line.saturating_sub(options.lines_above);
    let last_line = if end_line + options.lines_below + 1 < n {
        end_line + options.lines_below + 1
    } else {
        n
    };
    // Gutter: "> N | code" or "  N | code"
    let gutter_width = count_digits(last_line);
    proof {
        lemma_decimal(last_line as nat);
    }
    let max_width = match options.max_width {
        Some(w) => w,
        None => terminal_width,
    };
    let gutter_total_width = 1 + 1 + gutter_width + 3;
    let available_code_width = max_width.saturating_sub(gutter_total_width);
    if available_code_width == 0 {
        return Err(CodeFrameError::MaxWidthTooSmall { max_width });
    }
    let out = render_window(
        Ghost(fs),
        Ghost(*location),
        Ghost(terminal_width as int),
        source,
        &lines,
        options,
        start_line,
        end_line,
        first_line,
        last_line,
        start_column,
        end_column,
        gutter_width,
        available_code_width,
    );
    Ok(out)
}

/// Whether centring a truncated window stays clear of overflow, for the frame
/// `fs` whose window and columns are given.
fn centring_fits(
    Ghost(fs): Ghost<FrameSpec>,
    lines: &Vec<&str>,
    first_line: usize,
    last_line: usize,
    start_column: usize,
    end_column: usize,
    gutter_width: usize,
    max_width: usize,
) -> (res: bool)
    requires
        lines@.len() == fs.ls.len(),
        forall|k: int|
            0 <= k < lines@.len() ==> (#[trigger] lines@[k]).spec_bytes() == spec_line_text(
                fs.bytes,
                fs.ls,
                k,
            ),
        fs.first_line == first_line,
        fs.last_line == last_line,
        first_line <= last_line <= lines@.len(),
        fs.gutter_width == gutter_width,
        gutter_width <= 20,
        fs.max_width == max_width,
        fs.available == sat_sub(max_width as int, gutter_width + 5),
    ensures
        res == (fs.available > 0 ==> truncation_offset_fits(
            window_lengths(fs.bytes, fs.ls, fs.first_line, fs.last_line),
            start_column as int,
            end_column as int,
            fs.available,
        )),
{
    let available_code_width = max_width.saturating_sub(gutter_width + 5);
    if available_code_width == 0 {
        return true;
    }
    let window = vstd::slice::slice_subrange(lines.as_slice(), first_line, last_line);
    proof {
        assert(line_lengths(window@) =~= window_lengths(fs.bytes, fs.ls, first_line as int, last_line as int));
    }
    if !any_line_longer_than(window, available_code_width) || start_column == 0 {
        return true;
    }
    start_column - 1 <= usize::MAX - end_column.saturating_sub(1)
}

/// Whether rendering `source` at `location` with `options` keeps clear of
/// integer overflow (`render_fits`): a start column of `usize::MAX`, a window
/// end past `usize::MAX` or error columns whose sum overflows while centring
/// a truncated window would overflow the computation of the frame.
pub fn check_render_fits(
    source: &str,
    location: &CodeFrameLocation,
    options: &CodeFrameOptions,
    terminal_width: usize,
) -> (res: bool)
    ensures
        res == render_fits(source@, *location, *options, terminal_width as int),
{
    let ghost fs = spec_frame(source@, *location, *options, terminal_width as int);
    let len = str_len(source);
    proof {
        lemma_str_bytes(source);
    }
    if len > isize::MAX as usize {
        return false;
    }
    if len == 0 {
        return true;
    }
    let line_starts = compute_line_starts(source);
    let lines = split_lines(source, &line_starts);
    let n = lines.len();
    proof {
        crate::lines::lemma_line_starts(source.spec_bytes());
    }
    let start_line = location.start.line.saturating_sub(1);
    if start_line >= n {
        return true;
    }
    let end_line = match location.end {
        Some(l) => {
            let e = l.line.saturating_sub(1);
            if e < n - 1 {
                e
            } else {
                n - 1
            }
        },
        None => start_line,
    };
    if end_line < start_line {
        return true;
    }
    let start_column = match location.start.column {
        Some(c) => {
            if c == usize::MAX {
                return false;
            }
            c
        },
        None => 0,
    };
    if options.lines_below > usize::MAX - 1 - end_line {
        return false;
    }
    let end_column = match location.end {
        Some(l) => match l.column {
            Some(c) => c,
            None => if start_column > 0 {
                start_column + 1
            } else {
                0
            },
        },
        None => if start_column > 0 {
            start_column + 1
        } else {
            0
        },
    };
    let first_line = start_line.saturating_sub(options.lines_above);
    let last_line = if end_line + options.lines_below + 1 < n {
        end_line + options.lines_below + 1
    } else {
        n
    };
    let gutter_width = count_digits(last_line);
    proof {
        lemma_decimal(last_line as nat);
    }
    let max_width = match options.max_width {
        Some(w) => w,
        None => terminal_width,
    };
    centring_fits(Ghost(fs), &lines, first_line, last_line, start_column, end_column, gutter_width, max_width)
}

/// When no line of the window is longer than the width left for code, the
/// truncation offset is 0.
pub proof fn law_fitting_lines_not_truncated(lines: Seq<int>, start_column: int, end_column: int, available_width: int)
    requires
        forall|i: int| 0 <= i < lines.len() ==> #[trigger] lines[i] <= available_width,
    ensures
        spec_truncation_offset(lines, start_column, end_column, available_width) == 0,
{
}

/// When every line of a frame's window fits the width left for code, every
/// line is shown whole: the frame is not truncated and each line's visible
/// text, before highlighting, is the line itself, with no ellipsis.
pub proof fn law_fitting_frame_shows_lines_whole(text: Seq<char>, loc: CodeFrameLocation, opts: CodeFrameOptions, terminal_width: int)
    requires
        ({
            let fs = spec_frame(text, loc, opts, terminal_width);
            &&& fs.first_line <= fs.last_line
            &&& forall|i: int|
                fs.first_line <= i < fs.last_line ==> #[trigger] spec_line_text(fs.bytes, fs.ls, i).len()
                    <= fs.available
        }),
    ensures
        ({
            let fs = spec_frame(text, loc, opts, terminal_width);
            &&& fs.trunc == 0
            &&& forall|i: int|
                fs.first_line <= i < fs.last_line ==> {
                    let t = spec_truncate_line(spec_line_text(fs.bytes, fs.ls, i), fs.trunc, fs.available);
                    &&& t.content == #[trigger] spec_line_text(fs.bytes, fs.ls, i)
                    &&& t.byte_offset == 0
                    &&& t.prefix_len == 0
                }
        }),
{
    let fs = spec_frame(text, loc, opts, terminal_width);
    let lens = window_lengths(fs.bytes, fs.ls, fs.first_line, fs.last_line);
    assert forall|i: int| 0 <= i < lens.len() implies #[trigger] lens[i] <= fs.available by {
        assert(fs.first_line <= fs.first_line + i < fs.last_line);
        assert(spec_line_text(fs.bytes, fs.ls, fs.first_line + i).len() <= fs.available);
    }
    law_fitting_lines_not_truncated(
        lens,
        match fs.start_column {
            Some(c) => c as int,
            None => 0,
        },
        match fs.end_column {
            Some(c) => c as int,
            None => 0,
        },
        fs.available,
    );
}

/// On an error line of a frame with a start column, the message follows the
/// `^` markers only on the last error line; the marker lines of the earlier
/// error lines carry no message.
pub proof fn law_message_after_last_error_line(fs: FrameSpec, out: Seq<u8>, idx: int)
    requires
        fs.start_column is Some,
        fs.start_line <= idx <= fs.end_line,
    ensures
        idx == fs.end_line ==> exists|col: int, len: int|
            append_frame_line(fs, out, idx) == #[trigger] append_marker_line(
                append_code_line(out, true, decimal((idx + 1) as nat), fs.gutter_width, spec_visible(fs, idx), fs.cs),
                fs.gutter_width,
                col,
                len,
                fs.cs,
                fs.message,
            ),
        idx != fs.end_line ==> exists|col: int, len: int|
            append_frame_line(fs, out, idx) == #[trigger] append_marker_line(
                append_code_line(out, true, decimal((idx + 1) as nat), fs.gutter_width, spec_visible(fs, idx), fs.cs),
                fs.gutter_width,
                col,
                len,
                fs.cs,
                None,
            ),
{
    let sc = fs.start_column->0;
    let line = spec_line_text(fs.bytes, fs.ls, idx);
    let t = spec_truncate_line(line, fs.trunc, fs.available);
    let ec = match fs.end_column {
        Some(e) => e as int,
        None => sc + 1,
    };
    let mp = spec_marker_position(sc as int, ec, line.len() as int, idx, fs.start_line, fs.end_line, t.byte_offset, fs.available);
    let code = append_code_line(out, true, decimal((idx + 1) as nat), fs.gutter_width, spec_visible(fs, idx), fs.cs);
    let msg = if idx == fs.end_line {
        fs.message
    } else {
        None
    };
    assert(append_frame_line(fs, out, idx) == append_marker_line(code, fs.gutter_width, mp.0, mp.1, fs.cs, msg));
}

} // verus!

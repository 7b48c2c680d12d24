//! Line boundaries of a source text: where each line starts, which line a byte
//! offset falls on, and the byte range of a line.
use vstd::prelude::*;
use vstd::string::StringSliceAdditionalSpecFns;
use vstd::utf8::*;

use crate::text::{lemma_ascii_byte_boundaries, lemma_str_bytes};

verus! {

/// The byte offset of each line start: 0, then one past every `\n`.
pub open spec fn spec_line_starts(bytes: Seq<u8>) -> Seq<usize>
    decreases bytes.len(),
{
    if bytes.len() == 0 {
        seq![0usize]
    } else {
        let prev = spec_line_starts(bytes.drop_last());
        if bytes.last() == 10u8 {
            prev.push(bytes.len() as usize)
        } else {
            prev
        }
    }
}

/// Line starts of a text of `len` bytes: a first entry 0, strictly increasing, within the text.
pub open spec fn line_starts_wf(ls: Seq<usize>, len: int) -> bool {
    &&& ls.len() >= 1
    &&& ls[0] == 0
    &&& forall|i: int, j: int| 0 <= i < j < ls.len() ==> #[trigger] ls[i] < #[trigger] ls[j]
    &&& forall|i: int| 0 <= i < ls.len() ==> #[trigger] ls[i] <= len
}

/// Line starts that are exactly the positions after the newlines of `bytes`:
/// every start but the first follows a `\n`, and every `\n` is followed by a start.
pub open spec fn line_starts_exact(ls: Seq<usize>, bytes: Seq<u8>) -> bool {
    &&& line_starts_wf(ls, bytes.len() as int)
    &&& forall|k: int| 0 < k < ls.len() ==> bytes[#[trigger] ls[k] - 1] == 10u8
    &&& forall|p: int| 0 <= p < bytes.len() && #[trigger] bytes[p] == 10u8 ==> ls.contains((p + 1) as usize)
}

/// The line starts of `bytes` are well formed and exact.
pub proof fn lemma_line_starts(bytes: Seq<u8>)
    requires
        bytes.len() <= usize::MAX,
    ensures
        line_starts_exact(spec_line_starts(bytes), bytes),
        spec_line_starts(bytes).len() <= bytes.len() + 1,
        spec_line_starts(bytes).last() <= bytes.len(),
    decreases bytes.len(),
{
    let ls = spec_line_starts(bytes);
    if bytes.len() == 0 {
    } else {
        let pre = bytes.drop_last();
        lemma_line_starts(pre);
        let prev = spec_line_starts(pre);
        assert forall|k: int| 0 < k < prev.len() implies bytes[#[trigger] prev[k] - 1] == 10u8 by {
            assert(pre[prev[k] - 1] == 10u8);
        }
        if bytes.last() == 10u8 {
            assert(ls =~= prev.push(bytes.len() as usize));
            assert forall|p: int| 0 <= p < bytes.len() && #[trigger] bytes[p] == 10u8 implies ls.contains((p + 1) as usize) by {
                if p < pre.len() {
                    assert(pre[p] == bytes[p]);
                    let j = choose|j: int| 0 <= j < prev.len() && prev[j] == (p + 1) as usize;
                    assert(ls[j] == prev[j]);
                } else {
                    assert(ls[ls.len() - 1] == (p + 1) as usize);
                }
            }
        } else {
            assert(ls =~= prev);
            assert forall|p: int| 0 <= p < bytes.len() && #[trigger] bytes[p] == 10u8 implies ls.contains((p + 1) as usize) by {
                if p < pre.len() {
                    assert(pre[p] == bytes[p]);
                }
            }
        }
    }
}

/// Every line start of a valid UTF-8 text is a character boundary.
pub proof fn lemma_line_starts_boundaries(bytes: Seq<u8>, ls: Seq<usize>)
    requires
        valid_utf8(bytes),
        line_starts_exact(ls, bytes),
    ensures
        forall|k: int| 0 <= k < ls.len() ==> is_char_boundary(bytes, #[trigger] ls[k] as int),
{
    assert forall|k: int| 0 <= k < ls.len() implies is_char_boundary(bytes, #[trigger] ls[k] as int) by {
        if k == 0 {
            is_char_boundary_start_end_of_seq(bytes);
        } else {
            assert(bytes[ls[k] - 1] == 10u8);
            lemma_ascii_byte_boundaries(bytes, ls[k] - 1);
        }
    }
}

/// Compute the byte offset of each line start (0-indexed) in the source.
/// The first entry is always 0 (the start of the first line).
pub fn compute_line_starts(source: &str) -> (starts: Vec<usize>)
    ensures
        starts@ == spec_line_starts(source.spec_bytes()),
        line_starts_exact(starts@, source.spec_bytes()),
        forall|k: int|
            0 <= k < starts@.len() ==> is_char_boundary(
                source.spec_bytes(),
                #[trigger] starts@[k] as int,
            ),
{
    let bytes = source.as_bytes();
    let mut starts = vec![0usize];
    let mut i: usize = 0;
    proof {
        assert(bytes@.subrange(0, 0).len() == 0);
    }
    while i < bytes.len()
        invariant
            bytes@ == source.spec_bytes(),
            0 <= i <= bytes.len(),
            starts@ == spec_line_starts(bytes@.subrange(0, i as int)),
        decreases bytes.len() - i,
    {
        let b = bytes[i];
        proof {
            assert(bytes@.subrange(0, i + 1).drop_last() =~= bytes@.subrange(0, i as int));
        }
        if b == 10u8 {
            starts.push(i + 1);
        }
        i = i + 1;
    }
    proof {
        assert(bytes@.subrange(0, bytes@.len() as int) =~= bytes@);
        lemma_line_starts(bytes@);
        lemma_str_bytes(source);
        lemma_line_starts_boundaries(bytes@, starts@);
    }
    starts
}

/// The number of entries of `ls` that are at most `x`.
pub open spec fn count_le(ls: Seq<usize>, x: int) -> nat
    decreases ls.len(),
{
    if ls.len() == 0 {
        0
    } else {
        count_le(ls.drop_last(), x) + if ls.last() <= x {
            1nat
        } else {
            0nat
        }
    }
}

/// The line (0-indexed) on which byte offset `x` lies: the last line starting at
/// or before `x`, or line 0 when there is none.
pub open spec fn spec_lookup_line(ls: Seq<usize>, x: int) -> int {
    if count_le(ls, x) == 0 {
        0
    } else {
        count_le(ls, x) - 1
    }
}

/// When the entries below `lo` are at most `x` and the others are above it,
/// `lo` entries are at most `x`.
pub proof fn lemma_count_le_split(ls: Seq<usize>, x: int, lo: int)
    requires
        0 <= lo <= ls.len(),
        forall|i: int| 0 <= i < lo ==> #[trigger] ls[i] <= x,
        forall|i: int| lo <= i < ls.len() ==> #[trigger] ls[i] > x,
    ensures
        count_le(ls, x) == lo,
    decreases ls.len(),
{
    if ls.len() == 0 {
    } else {
        let p = ls.drop_last();
        if lo == ls.len() {
            assert(ls[ls.len() - 1] <= x);
            lemma_count_le_split(p, x, lo - 1);
        } else {
            assert(ls[ls.len() - 1] > x);
            lemma_count_le_split(p, x, lo);
        }
    }
}

/// The line found for `x` starts at or before `x`, and the next line (if any) after it.
pub proof fn lemma_lookup_line(ls: Seq<usize>, len: int, x: int)
    requires
        line_starts_wf(ls, len),
        0 <= x,
    ensures
        0 <= spec_lookup_line(ls, x) < ls.len(),
        ls[spec_lookup_line(ls, x)] <= x,
        spec_lookup_line(ls, x) + 1 < ls.len() ==> x < ls[spec_lookup_line(ls, x) + 1],
{
    lemma_split_at_count(ls, x);
    assert(ls[0] <= x);
}

/// For increasing sequences, the first `count_le` entries are at most `x` and the rest above.
proof fn lemma_split_at_count(ls: Seq<usize>, x: int)
    requires
        forall|i: int, j: int| 0 <= i < j < ls.len() ==> #[trigger] ls[i] < #[trigger] ls[j],
    ensures
        count_le(ls, x) <= ls.len(),
        forall|i: int| 0 <= i < count_le(ls, x) ==> #[trigger] ls[i] <= x,
        forall|i: int| count_le(ls, x) <= i < ls.len() ==> #[trigger] ls[i] > x,
    decreases ls.len(),
{
    if ls.len() == 0 {
    } else {
        let p = ls.drop_last();
        lemma_split_at_count(p, x);
        if ls.last() <= x {
            if count_le(p, x) < p.len() {
                let c = count_le(p, x) as int;
                assert(p[c] > x);
                assert(ls[c] < ls[ls.len() - 1]);
            }
            assert(count_le(p, x) == p.len());
            assert(count_le(ls, x) == ls.len());
            assert forall|i: int| 0 <= i < count_le(ls, x) implies #[trigger] ls[i] <= x by {
                if i < ls.len() - 1 {
                    assert(p[i] == ls[i]);
                    assert(p[i] <= x);
                }
            }
        } else {
            assert forall|i: int| 0 <= i < count_le(ls, x) implies #[trigger] ls[i] <= x by {
                assert(p[i] == ls[i]);
            }
            assert forall|i: int| count_le(ls, x) <= i < ls.len() implies #[trigger] ls[i] > x by {
                if i < ls.len() - 1 {
                    assert(p[i] == ls[i]);
                }
            }
        }
    }
}

/// Look up which line (0-indexed) a byte offset falls on via binary search.
pub fn lookup_line(line_starts: &[usize], byte_offset: usize) -> (res: usize)
    requires
        forall|i: int, j: int|
            0 <= i < j < line_starts@.len() ==> #[trigger] line_starts@[i]
                < #[trigger] line_starts@[j],
    ensures
        res == spec_lookup_line(line_starts@, byte_offset as int),
{
    let mut lo: usize = 0;
    let mut hi: usize = line_starts.len();
    while lo < hi
        invariant
            0 <= lo <= hi <= line_starts@.len(),
            forall|i: int| 0 <= i < lo ==> #[trigger] line_starts@[i] <= byte_offset,
            forall|i: int| hi <= i < line_starts@.len() ==> #[trigger] line_starts@[i]
                > byte_offset,
            forall|i: int, j: int|
                0 <= i < j < line_starts@.len() ==> #[trigger] line_starts@[i]
                    < #[trigger] line_starts@[j],
        decreases hi - lo,
    {
        let mid = lo + (hi - lo) / 2;
        if line_starts[mid] <= byte_offset {
            lo = mid + 1;
        } else {
            hi = mid;
        }
    }
    proof {
        lemma_count_le_split(line_starts@, byte_offset as int, lo as int);
    }
    if lo == 0 {
        0
    } else {
        lo - 1
    }
}

/// The byte range of line `k`: from its start to the next line's start, with
/// the text length standing in for a missing line.
pub open spec fn spec_line_bounds(ls: Seq<usize>, len: int, k: int) -> (int, int) {
    (
        if 0 <= k < ls.len() {
            ls[k] as int
        } else {
            len
        },
        if 0 <= k + 1 < ls.len() {
            ls[k + 1] as int
        } else {
            len
        },
    )
}

/// Get the byte range [start, end) for a given line index (0-indexed).
pub fn line_bounds(line_starts: &[usize], source_len: usize, line_idx: usize) -> (res: (
    usize,
    usize,
))
    requires
        line_idx < usize::MAX,
    ensures
        res.0 == spec_line_bounds(line_starts@, source_len as int, line_idx as int).0,
        res.1 == spec_line_bounds(line_starts@, source_len as int, line_idx as int).1,
{
    let start = if line_idx < line_starts.len() {
        line_starts[line_idx]
    } else {
        source_len
    };
    let end = if line_idx + 1 < line_starts.len() {
        line_starts[line_idx + 1]
    } else {
        source_len
    };
    (start, end)
}

} // verus!

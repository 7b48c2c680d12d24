//! Byte-level text helpers shared by the highlighter and the frame renderer.
//!
//! Text is modelled by its UTF-8 bytes (`str::spec_bytes`); output is built as
//! a byte vector that stays valid UTF-8 and is turned into a `String` at the end.
use vstd::prelude::*;
use vstd::string::StringSliceAdditionalSpecFns;
use vstd::utf8::*;

verus! {

broadcast use vstd::utf8::encode_utf8_valid_utf8, vstd::utf8::encode_utf8_decode_utf8;

/// Valid UTF-8, kept folded so that long chains of appends stay cheap to check.
#[verifier::opaque]
pub open spec fn utf8_valid(s: Seq<u8>) -> bool {
    valid_utf8(s)
}

/// Unfolds `utf8_valid` both ways.
pub proof fn lemma_utf8_valid(s: Seq<u8>)
    ensures
        utf8_valid(s) == valid_utf8(s),
{
    reveal(utf8_valid);
}

/// The empty sequence is valid UTF-8.
pub proof fn lemma_empty_utf8()
    ensures
        utf8_valid(Seq::<u8>::empty()),
{
    reveal(utf8_valid);
    lemma_ascii_valid(Seq::<u8>::empty());
}

/// An ASCII byte.
pub open spec fn is_ascii_byte(b: u8) -> bool {
    b < 128
}

/// Every byte of the sequence is ASCII.
pub open spec fn all_ascii(s: Seq<u8>) -> bool {
    forall|i: int| 0 <= i < s.len() ==> is_ascii_byte(#[trigger] s[i])
}

/// A sequence made of ASCII bytes only is valid UTF-8.
pub proof fn lemma_ascii_valid(s: Seq<u8>)
    requires
        all_ascii(s),
    ensures
        valid_utf8(s),
    decreases s.len(),
{
    if s.len() == 0 {
    } else {
        let p = s.drop_last();
        lemma_ascii_valid(p);
        lemma_push_ascii_valid(p, s.last());
        assert(p.push(s.last()) =~= s);
    }
}

/// Appending an ASCII byte keeps a sequence valid UTF-8.
pub proof fn lemma_push_ascii_valid(s: Seq<u8>, b: u8)
    requires
        valid_utf8(s),
        is_ascii_byte(b),
    ensures
        valid_utf8(s.push(b)),
{
    let one = seq![b];
    reveal_with_fuel(valid_utf8, 2);
    assert(pop_first_scalar(one) =~= Seq::<u8>::empty());
    assert(valid_utf8(one));
    valid_utf8_concat(s, one);
    assert(s + one =~= s.push(b));
}

/// Concatenation of valid UTF-8 sequences is valid UTF-8.
pub proof fn lemma_concat_valid(a: Seq<u8>, b: Seq<u8>)
    requires
        valid_utf8(a),
        valid_utf8(b),
    ensures
        valid_utf8(a + b),
{
    valid_utf8_concat(a, b);
}

/// A boundary of a valid sequence that lies inside a prefix ending at a boundary
/// is a boundary of that prefix.
pub proof fn lemma_boundary_of_prefix(s: Seq<u8>, b: int, a: int)
    requires
        valid_utf8(s),
        0 <= a <= b <= s.len(),
        is_char_boundary(s, a),
        is_char_boundary(s, b),
    ensures
        valid_utf8(s.subrange(0, b)),
        is_char_boundary(s.subrange(0, b), a),
{
    valid_utf8_split(s, b);
    let pre = s.subrange(0, b);
    if a == b {
        is_char_boundary_start_end_of_seq(pre);
    } else {
        is_char_boundary_iff_not_is_continuation_byte(s, a);
        is_char_boundary_iff_not_is_continuation_byte(pre, a);
    }
}

/// Boundaries of a slice `s[a..]` (with `a` a boundary) are the shifted boundaries of `s`.
pub proof fn lemma_boundary_of_suffix(s: Seq<u8>, a: int, k: int)
    requires
        valid_utf8(s),
        0 <= a <= s.len(),
        is_char_boundary(s, a),
        0 <= k <= s.len() - a,
    ensures
        valid_utf8(s.subrange(a, s.len() as int)),
        is_char_boundary(s.subrange(a, s.len() as int), k) == is_char_boundary(s, a + k),
{
    valid_utf8_split(s, a);
    let suf = s.subrange(a, s.len() as int);
    if k == suf.len() {
        is_char_boundary_start_end_of_seq(suf);
        is_char_boundary_start_end_of_seq(s);
    } else {
        is_char_boundary_iff_not_is_continuation_byte(s, a + k);
        is_char_boundary_iff_not_is_continuation_byte(suf, k);
    }
}

/// In valid UTF-8, the position right after an ASCII byte is a character boundary,
/// and so is the position of the ASCII byte itself.
pub proof fn lemma_ascii_byte_boundaries(s: Seq<u8>, i: int)
    requires
        valid_utf8(s),
        0 <= i < s.len(),
        is_ascii_byte(s[i]),
    ensures
        is_char_boundary(s, i),
        is_char_boundary(s, i + 1),
{
    is_char_boundary_iff_not_is_continuation_byte(s, i);
    if i + 1 == s.len() {
        is_char_boundary_start_end_of_seq(s);
    } else {
        valid_utf8_split(s, i);
        let suf = s.subrange(i, s.len() as int);
        assert(suf[0] == s[i]);
        assert(length_of_first_scalar(suf) == 1);
        assert(pop_first_scalar(suf) =~= s.subrange(i + 1, s.len() as int));
        reveal_with_fuel(valid_utf8, 2);
        let rest = s.subrange(i + 1, s.len() as int);
        assert(valid_utf8(rest));
        is_char_boundary_start_end_of_seq(rest);
        is_char_boundary_iff_not_is_continuation_byte(rest, 0);
        assert(rest[0] == s[i + 1]);
        is_char_boundary_iff_not_is_continuation_byte(s, i + 1);
    }
}

/// The boundaries of a concatenation are those of its parts.
pub proof fn lemma_concat_boundary(a: Seq<u8>, b: Seq<u8>, i: int)
    requires
        valid_utf8(a),
        valid_utf8(b),
        0 <= i <= a.len() + b.len(),
    ensures
        valid_utf8(a + b),
        is_char_boundary(a + b, i) == if i <= a.len() {
            is_char_boundary(a, i)
        } else {
            is_char_boundary(b, i - a.len())
        },
{
    valid_utf8_concat(a, b);
    let s = a + b;
    is_char_boundary_start_end_of_seq(s);
    is_char_boundary_start_end_of_seq(a);
    is_char_boundary_start_end_of_seq(b);
    if i == s.len() {
    } else if i < a.len() {
        is_char_boundary_iff_not_is_continuation_byte(s, i);
        is_char_boundary_iff_not_is_continuation_byte(a, i);
        assert(s[i] == a[i]);
    } else if i == a.len() {
        is_char_boundary_iff_not_is_continuation_byte(s, i);
        is_char_boundary_iff_not_is_continuation_byte(b, 0);
        assert(s[i] == b[0]);
    } else {
        is_char_boundary_iff_not_is_continuation_byte(s, i);
        is_char_boundary_iff_not_is_continuation_byte(b, i - a.len());
        assert(s[i] == b[i - a.len()]);
    }
}

/// Every position of an ASCII sequence is a boundary.
pub proof fn lemma_ascii_boundary(s: Seq<u8>, i: int)
    requires
        all_ascii(s),
        0 <= i <= s.len(),
    ensures
        valid_utf8(s),
        is_char_boundary(s, i),
{
    lemma_ascii_valid(s);
    is_char_boundary_start_end_of_seq(s);
    if i < s.len() {
        is_char_boundary_iff_not_is_continuation_byte(s, i);
        assert(is_ascii_byte(s[i]));
    }
}

/// The boundaries of a slice between two boundaries are the shifted boundaries of the whole.
pub proof fn lemma_boundary_of_subrange(s: Seq<u8>, a: int, e: int, x: int)
    requires
        valid_utf8(s),
        0 <= a <= e <= s.len(),
        is_char_boundary(s, a),
        is_char_boundary(s, e),
        0 <= x <= e - a,
    ensures
        valid_utf8(s.subrange(a, e)),
        is_char_boundary(s.subrange(a, e), x) == is_char_boundary(s, a + x),
{
    let pre = s.subrange(0, e);
    lemma_boundary_of_prefix(s, e, a);
    lemma_boundary_of_suffix(pre, a, x);
    assert(pre.subrange(a, pre.len() as int) =~= s.subrange(a, e));
    is_char_boundary_start_end_of_seq(pre);
    if a + x < e {
        is_char_boundary_iff_not_is_continuation_byte(pre, a + x);
        is_char_boundary_iff_not_is_continuation_byte(s, a + x);
        assert(pre[a + x] == s[a + x]);
    }
}

/// The bytes of a `str` are valid UTF-8 and start and end on a boundary.
pub proof fn lemma_str_bytes(s: &str)
    ensures
        valid_utf8(s.spec_bytes()),
        is_char_boundary(s.spec_bytes(), 0),
        is_char_boundary(s.spec_bytes(), s.spec_bytes().len() as int),
{
    is_char_boundary_start_end_of_seq(s.spec_bytes());
}

/// The byte length of a string.
pub fn str_len(s: &str) -> (n: usize)
    ensures
        n == s.spec_bytes().len(),
{
    s.as_bytes().len()
}

/// Whether two strings hold the same text.
pub fn str_eq(a: &str, b: &str) -> (res: bool)
    ensures
        res == (a@ == b@),
{
    let ab = a.as_bytes();
    let bb = b.as_bytes();
    if ab.len() != bb.len() {
        return false;
    }
    let mut i: usize = 0;
    while i < ab.len()
        invariant
            ab@ == a.spec_bytes(),
            bb@ == b.spec_bytes(),
            ab.len() == bb.len(),
            0 <= i <= ab.len(),
            forall|j: int| 0 <= j < i ==> ab@[j] == bb@[j],
        decreases ab.len() - i,
    {
        if ab[i] != bb[i] {
            return false;
        }
        i = i + 1;
    }
    assert(ab@ =~= bb@);
    assert(decode_utf8(encode_utf8(a@)) == a@);
    assert(decode_utf8(encode_utf8(b@)) == b@);
    true
}

/// The part of `s` between byte offsets `start` and `end`, both character boundaries.
pub fn str_slice(s: &str, start: usize, end: usize) -> (res: &str)
    requires
        start <= end <= s.spec_bytes().len(),
        is_char_boundary(s.spec_bytes(), start as int),
        is_char_boundary(s.spec_bytes(), end as int),
    ensures
        res.spec_bytes() == s.spec_bytes().subrange(start as int, end as int),
{
    proof {
        lemma_str_bytes(s);
        lemma_boundary_of_prefix(s.spec_bytes(), end as int, start as int);
    }
    let (pre, _) = s.split_at(end);
    proof {
        assert(pre.spec_bytes() =~= s.spec_bytes().subrange(0, end as int));
    }
    let (_, mid) = pre.split_at(start);
    assert(mid.spec_bytes() =~= s.spec_bytes().subrange(start as int, end as int));
    mid
}

/// Appends the bytes of `piece` to `out`.
pub fn push_bytes(out: &mut Vec<u8>, piece: &[u8])
    ensures
        final(out)@ == old(out)@ + piece@,
{
    out.extend_from_slice(piece);
}

/// Appends the bytes of `piece` to `out`, keeping it valid UTF-8.
pub fn push_str(out: &mut Vec<u8>, piece: &str)
    requires
        utf8_valid(old(out)@),
    ensures
        final(out)@ == old(out)@ + piece.spec_bytes(),
        utf8_valid(final(out)@),
{
    proof {
        reveal(utf8_valid);
        lemma_str_bytes(piece);
        lemma_concat_valid(out@, piece.spec_bytes());
    }
    let bytes = piece.as_bytes();
    let ghost before = out@;
    out.extend_from_slice(bytes);
    assert(out@ =~= before + piece.spec_bytes());
}

/// Appends an ASCII byte to `out`, keeping it valid UTF-8.
pub fn push_ascii(out: &mut Vec<u8>, b: u8)
    requires
        utf8_valid(old(out)@),
        is_ascii_byte(b),
    ensures
        final(out)@ == old(out)@.push(b),
        utf8_valid(final(out)@),
{
    proof {
        reveal(utf8_valid);
        lemma_push_ascii_valid(out@, b);
    }
    out.push(b);
}

/// `n` copies of the byte `b`.
pub open spec fn repeat_byte(b: u8, n: nat) -> Seq<u8> {
    Seq::new(n, |_i: int| b)
}

/// No byte of `s` is `b`.
pub open spec fn lacks_byte(s: Seq<u8>, b: u8) -> bool {
    forall|i: int| 0 <= i < s.len() ==> #[trigger] s[i] != b
}

/// A run of one byte lacks every other byte.
pub proof fn lemma_repeat_lacks(b: u8, n: nat, c: u8)
    requires
        b != c,
    ensures
        lacks_byte(repeat_byte(b, n), c),
{
}

/// Appends `n` copies of an ASCII byte to `out`, keeping it valid UTF-8.
pub fn push_repeated(out: &mut Vec<u8>, b: u8, n: usize)
    requires
        utf8_valid(old(out)@),
        is_ascii_byte(b),
    ensures
        final(out)@ == old(out)@ + repeat_byte(b, n as nat),
        utf8_valid(final(out)@),
{
    let ghost start = out@;
    let mut k: usize = 0;
    while k < n
        invariant
            0 <= k <= n,
            is_ascii_byte(b),
            out@ == start + repeat_byte(b, k as nat),
            utf8_valid(out@),
        decreases n - k,
    {
        push_ascii(out, b);
        k = k + 1;
        assert(out@ =~= start + repeat_byte(b, k as nat));
    }
}

/// `String::from_utf8`, which by its documentation succeeds exactly when the
/// bytes are valid UTF-8 and then holds the text those bytes encode.
#[verifier::external_body]
fn string_from_utf8(bytes: Vec<u8>) -> (res: Option<String>)
    ensures
        res is Some <==> valid_utf8(bytes@),
        res matches Some(s) ==> s@ == decode_utf8(bytes@),
{
    String::from_utf8(bytes).ok()
}

/// Turns bytes known to be valid UTF-8 into a `String`.
pub fn into_string(bytes: Vec<u8>) -> (res: String)
    requires
        utf8_valid(bytes@),
    ensures
        res@ == decode_utf8(bytes@),
{
    proof {
        reveal(utf8_valid);
    }
    match string_from_utf8(bytes) {
        Some(s) => s,
        None => String::new(),
    }
}

/// The bytes of a string built by `into_string` are the bytes it was built from.
pub proof fn lemma_string_bytes(s: &str, bytes: Seq<u8>)
    requires
        valid_utf8(bytes),
        s@ == decode_utf8(bytes),
    ensures
        s.spec_bytes() == bytes,
{
    vstd::utf8::decode_utf8_encode_utf8(bytes);
}

} // verus!

//! The regular expressions that the tokenizer runs, through the `regex` crate.
//!
//! A `CompiledRegex` remembers (as ghost state) the pattern it was compiled
//! from; it is only built by `compile_regex`, so the results of searching with
//! it are named as functions of that pattern, the haystack and the start.
use vstd::prelude::*;
use vstd::string::StringSliceAdditionalSpecFns;
use vstd::utf8::*;

verus! {

#[verifier::external_type_specification]
#[verifier::external_body]
pub struct ExRegex(regex::Regex);

#[verifier::external_type_specification]
#[verifier::external_body]
pub struct ExCaptureLocations(regex::CaptureLocations);

/// What `Regex::captures_read_at` finds with the regex compiled from `pattern`,
/// searching `haystack` from byte `start`: `None` when there is no match,
/// otherwise the byte span of every capture group (`None` for a group that did
/// not take part), group 0 being the whole match.
pub uninterp spec fn regex_captures_at(pattern: Seq<char>, haystack: Seq<char>, start: int) -> Option<
    Seq<Option<(usize, usize)>>,
>;

/// What `Regex::find_at` finds with the regex compiled from `pattern`,
/// searching `haystack` from byte `start`: the byte span of the leftmost-first match.
pub uninterp spec fn regex_find_at(pattern: Seq<char>, haystack: Seq<char>, start: int) -> Option<
    (usize, usize),
>;

/// Whether `Regex::new` accepts `pattern`.
pub uninterp spec fn regex_compiles(pattern: Seq<char>) -> bool;

/// The capture-group spans held by a `CaptureLocations`.
pub uninterp spec fn capture_slots(locs: regex::CaptureLocations) -> Seq<Option<(usize, usize)>>;

/// A compiled regular expression together with the pattern it was compiled from.
pub struct CompiledRegex {
    re: regex::Regex,
    pattern: Ghost<Seq<char>>,
}

impl CompiledRegex {
    /// The pattern this regex was compiled from.
    pub closed spec fn pattern(&self) -> Seq<char> {
        self.pattern@
    }
}

/// Reusable capture-group storage for searches with one compiled pattern.
pub struct CaptureSlots {
    pub(crate) locs: regex::CaptureLocations,
    pub(crate) pattern: Ghost<Seq<char>>,
}

impl CaptureSlots {
    /// The pattern whose searches these slots hold.
    pub(crate) open spec fn pattern(&self) -> Seq<char> {
        self.pattern@
    }

    /// The spans currently held.
    pub(crate) open spec fn slots(&self) -> Seq<Option<(usize, usize)>> {
        capture_slots(self.locs)
    }
}

/// Compiles `pattern` with `regex::Regex::new`; `None` when it does not compile,
/// which is named as a function of the pattern. The result is claimed to
/// remember `pattern`.
#[verifier::external_body]
pub(crate) fn compile_regex(pattern: &str) -> (res: Option<CompiledRegex>)
    ensures
        res is Some <==> regex_compiles(pattern@),
        res matches Some(r) ==> r.pattern() == pattern@,
{
    match regex::Regex::new(pattern) {
        Ok(re) => Some(CompiledRegex { re, pattern: Ghost(pattern@) }),
        Err(_) => None,
    }
}

/// Allocates capture storage with `Regex::capture_locations`, claimed to belong
/// to the regex's pattern.
#[verifier::external_body]
pub(crate) fn capture_locations(re: &CompiledRegex) -> (res: CaptureSlots)
    ensures
        res.pattern() == re.pattern(),
{
    CaptureSlots { locs: re.re.capture_locations(), pattern: Ghost(re.pattern@) }
}

/// `Regex::captures_read_at`: searches `haystack` from byte `start` (which must
/// not exceed its length, or the call panics). Claimed: a match exists exactly
/// when the named result is `Some`; then the slots hold the named spans, group 0
/// is the returned span, and that span lies within `start..haystack.len()` on
/// character boundaries, as the crate documents for every match.
#[verifier::external_body]
pub(crate) fn captures_read_at(
    re: &CompiledRegex,
    locs: &mut CaptureSlots,
    haystack: &str,
    start: usize,
) -> (res: Option<(usize, usize)>)
    requires
        old(locs).pattern() == re.pattern(),
        start <= haystack.spec_bytes().len(),
    ensures
        final(locs).pattern() == old(locs).pattern(),
        res is Some <==> regex_captures_at(re.pattern(), haystack@, start as int) is Some,
        res matches Some(m) ==> {
            &&& capture_slots(final(locs).locs) == regex_captures_at(re.pattern(), haystack@, start as int)->0
            &&& final(locs).slots().len() >= 1
            &&& final(locs).slots()[0] == Some(m)
            &&& start <= m.0 <= m.1 <= haystack.spec_bytes().len()
            &&& is_char_boundary(haystack.spec_bytes(), m.0 as int)
            &&& is_char_boundary(haystack.spec_bytes(), m.1 as int)
        },
{
    match re.re.captures_read_at(&mut locs.locs, haystack, start) {
        Some(m) => Some((m.start(), m.end())),
        None => None,
    }
}

/// `CaptureLocations::len`: the number of capture groups, group 0 included.
#[verifier::external_body]
pub(crate) fn capture_count(locs: &CaptureSlots) -> (n: usize)
    ensures
        n == capture_slots(locs.locs).len(),
{
    locs.locs.len()
}

/// `CaptureLocations::get`: the span of group `i`, `None` for a group that did
/// not match or does not exist.
#[verifier::external_body]
pub(crate) fn capture_get(locs: &CaptureSlots, i: usize) -> (res: Option<(usize, usize)>)
    ensures
        res == if i < capture_slots(locs.locs).len() {
            capture_slots(locs.locs)[i as int]
        } else {
            None
        },
{
    locs.locs.get(i)
}

/// `Regex::find_at`: the leftmost-first match searching `haystack` from byte
/// `start` (which must not exceed its length, or the call panics). Claimed: the
/// result is the named one, and a match lies within `start..haystack.len()` on
/// character boundaries.
#[verifier::external_body]
pub(crate) fn find_at(re: &CompiledRegex, haystack: &str, start: usize) -> (res: Option<(usize, usize)>)
    requires
        start <= haystack.spec_bytes().len(),
    ensures
        res == regex_find_at(re.pattern(), haystack@, start as int),
        res matches Some(m) ==> {
            &&& start <= m.0 <= m.1 <= haystack.spec_bytes().len()
            &&& is_char_boundary(haystack.spec_bytes(), m.0 as int)
            &&& is_char_boundary(haystack.spec_bytes(), m.1 as int)
        },
{
    match re.re.find_at(haystack, start) {
        Some(m) => Some((m.start(), m.end())),
        None => None,
    }
}

} // verus!

use vstd::prelude::*;
use regex::Regex;
use vstd::string::StringSliceAdditionalSpecFns;

verus! {

#[verifier::external_type_specification]
#[verifier::external_body]
pub struct ExRegex(regex::Regex);

#[verifier::external_type_specification]
#[verifier::external_body]
pub struct ExRegexError(regex::Error);

/// The byte spans of the successive non-overlapping matches of `pattern`
/// (compiled case-insensitively when `ignore_case` holds) in `line`, leftmost
/// first; each match lists the span of every capture group, group 0 (the
/// whole match) first, and `None` for a group that took no part in it.
pub uninterp spec fn captures_of(pattern: Seq<char>, ignore_case: bool, line: Seq<char>) -> Seq<
    Seq<Option<(usize, usize)>>,
>;

/// Whether `pattern` compiles, case-insensitively when `ignore_case` holds.
pub uninterp spec fn compiles(pattern: Seq<char>, ignore_case: bool) -> bool;

/// The number of capture groups of `pattern` compiled under `ignore_case`,
/// group 0 (the whole match) included.
pub uninterp spec fn capture_slots_of(pattern: Seq<char>, ignore_case: bool) -> nat;

/// `span` is absent, or a span `[a, b)` with `a <= b <= len`.
pub open spec fn span_within(span: Option<(usize, usize)>, len: nat) -> bool {
    match span {
        Some((a, b)) => a <= b && b <= len,
        None => true,
    }
}

/// The whole match of `a` ends at or before the start of the whole match of
/// `b`.
pub open spec fn ends_before(a: Seq<Option<(usize, usize)>>, b: Seq<Option<(usize, usize)>>) -> bool {
    match (a[0], b[0]) {
        (Some((_, e)), Some((s, _))) => e <= s,
        _ => false,
    }
}

/// Relies on regex::RegexBuilder (new, case_insensitive, build) to compile
/// `pattern`, or to report why it cannot.
#[verifier::external_body]
fn compile(pattern: &str, ignore_case: bool) -> (r: Result<Regex, regex::Error>)
    ensures
        r is Ok <==> compiles(pattern@, ignore_case),
{
    regex::RegexBuilder::new(pattern).case_insensitive(ignore_case).build()
}


/// Relies on regex::Error's `Display` for the message of a failed compile.
#[verifier::external_body]
fn error_message(e: &regex::Error) -> String {
    e.to_string()
}

/// A compile failure, with the regex engine's diagnostic.
#[derive(Debug, PartialEq, Eq)]
pub struct PatternError {
    pub message: String,
}

/// A compiled pattern, together with the text and the case flag it was
/// compiled from. The fields are private and only `Pattern::new` builds one,
/// so `regex` is always what `source` compiles to under `ignore_case`.
pub struct Pattern {
    regex: Regex,
    source: String,
    ignore_case: bool,
    groups: usize,
}

/// What a `Pattern` stands for: its text, its case flag, and the number of
/// its capture groups, the implicit group 0 not counted.
pub struct PatternView {
    pub source: Seq<char>,
    pub ignore_case: bool,
    pub groups: usize,
}

impl View for Pattern {
    type V = PatternView;

    closed spec fn view(&self) -> PatternView {
        PatternView { source: self.source@, ignore_case: self.ignore_case, groups: self.groups }
    }
}

impl Pattern {
    /// Compiles `source`, case-insensitively when `ignore_case` holds.
    pub fn new(source: &str, ignore_case: bool) -> (r: Result<Pattern, PatternError>)
        ensures
            r is Ok <==> compiles(source@, ignore_case),
            r is Ok ==> r->Ok_0@.source == source@ && r->Ok_0@.ignore_case == ignore_case
                && r->Ok_0@.groups + 1 == capture_slots_of(source@, ignore_case),
    {
        match compile(source, ignore_case) {
            Ok(regex) => {
                let mut p = Pattern { regex, source: source.to_owned(), ignore_case, groups: 0 };
                let slots = capture_slot_count(&p);
                p.groups = slots - 1;
                Ok(p)
            },
            Err(e) => Err(PatternError { message: error_message(&e) }),
        }
    }

    /// The number of capture groups, the implicit group 0 not counted.
    pub fn group_count(&self) -> (r: usize)
        ensures
            r == self@.groups,
    {
        self.groups
    }

    /// The text the pattern was compiled from.
    pub fn source(&self) -> (r: &str)
        ensures
            r@ == self@.source,
    {
        self.source.as_str()
    }
}

/// Relies on regex::Regex::captures_len: the number of capture groups of the
/// pattern's regex, which `p`'s text and case flag determine, group 0
/// included, so never zero.
#[verifier::external_body]
fn capture_slot_count(p: &Pattern) -> (r: usize)
    ensures
        r == capture_slots_of(p@.source, p@.ignore_case),
        r >= 1,
{
    p.regex.captures_len()
}

/// Relies on regex::Regex::captures_iter, Captures::iter and Match::start /
/// Match::end: the spans of all matches in `line`, which the pattern's text
/// and case flag determine. Each span lies within `line`'s bytes; every match
/// has its group 0, the whole match; and the matches are successive and do
/// not overlap.
#[verifier::external_body]
pub(crate) fn captures(p: &Pattern, line: &str) -> (r: Vec<Vec<Option<(usize, usize)>>>)
    ensures
        r@.len() == captures_of(p@.source, p@.ignore_case, line@).len(),
        forall|i: int|
            0 <= i < r@.len() ==> #[trigger] r@[i]@ == captures_of(p@.source, p@.ignore_case, line@)[i],
        forall|i: int, j: int|
            0 <= i < r@.len() && 0 <= j < r@[i]@.len() ==> span_within(
                #[trigger] r@[i]@[j],
                line.spec_bytes().len(),
            ),
        forall|i: int| 0 <= i < r@.len() ==> #[trigger] r@[i]@.len() >= 1 && r@[i]@[0] is Some,
        forall|i: int, j: int|
            0 <= i < j < r@.len() ==> ends_before(#[trigger] r@[i]@, #[trigger] r@[j]@),
{
    p.regex.captures_iter(line).map(|c| c.iter().map(|g| g.map(|m| (m.start(), m.end()))).collect()).collect()
}

} // verus!

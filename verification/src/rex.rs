//! The boundary to the `regex` crate: compiled patterns, and what their
//! searches report, handed over as plain values.
//!
//! Everything a search reports is named by the two uninterpreted functions
//! [`re_captures`] and [`re_captures_all`]: matching is deterministic, so the
//! report is a function of the pattern, the haystack and the queried group
//! names alone.  The verified engine reasons about those names; nothing else
//! is assumed of the pattern syntax or the match semantics.

use vstd::prelude::*;

use crate::value::opt_bytes_list_view;

verus! {

/// The mathematical form of a list of group names.
pub open spec fn names_view(ns: Seq<Vec<u8>>) -> Seq<Seq<u8>> {
    ns.map(|i: int, n: Vec<u8>| n@)
}

#[verifier::external_type_specification]
#[verifier::external_body]
pub struct ExRegex(regex::bytes::Regex);

/// A compiled pattern, kept together with the text it was compiled from.
pub struct CompiledRegex {
    pattern: Vec<u8>,
    re: regex::bytes::Regex,
}

impl View for CompiledRegex {
    type V = Seq<u8>;

    closed spec fn view(&self) -> Seq<u8> {
        self.pattern@
    }
}

/// One reported match: the span of the whole match in the haystack and, for
/// each queried group name in order, the text that group captured, or `None`
/// where the group did not participate in the match.
pub struct CapMatch {
    pub start: usize,
    pub end: usize,
    pub groups: Vec<Option<Vec<u8>>>,
}

/// The mathematical form of a reported match.
pub struct GCapMatch {
    pub start: int,
    pub end: int,
    pub groups: Seq<Option<Seq<u8>>>,
}

/// The mathematical form of a concrete match report.
pub open spec fn cap_view(c: CapMatch) -> GCapMatch {
    GCapMatch { start: c.start as int, end: c.end as int, groups: opt_bytes_list_view(c.groups@) }
}

/// The mathematical form of an optional match report.
pub open spec fn opt_cap_view(c: Option<CapMatch>) -> Option<GCapMatch> {
    match c {
        Some(x) => Some(cap_view(x)),
        None => None,
    }
}

/// The mathematical form of a vector of match reports.
pub open spec fn caps_view(cs: Seq<CapMatch>) -> Seq<GCapMatch> {
    cs.map(|i: int, c: CapMatch| cap_view(c))
}

/// Whether the pattern compiles: UTF-8 and accepted by the crate's syntax,
/// a function of the pattern text alone.
pub uninterp spec fn re_compiles(pat: Seq<u8>) -> bool;

/// What the leftmost search of the pattern reports on a haystack, with the
/// given group names read out.
pub uninterp spec fn re_captures(pat: Seq<u8>, text: Seq<u8>, names: Seq<Seq<u8>>) -> Option<
    GCapMatch,
>;

/// What iterating all successive non-overlapping matches of the pattern on a
/// haystack reports, with the given group names read out of each.
pub uninterp spec fn re_captures_all(pat: Seq<u8>, text: Seq<u8>, names: Seq<Seq<u8>>) -> Seq<
    GCapMatch,
>;

/// Relies on `regex::bytes::Regex::new`: compiling succeeds exactly on a
/// pattern that is UTF-8 and that the crate's syntax accepts — a property of
/// the pattern text alone; on success the pattern text is kept beside the
/// compiled form.
#[verifier::external_body]
pub fn compile(pattern: &Vec<u8>) -> (r: Option<CompiledRegex>)
    ensures
        r is Some <==> re_compiles(pattern@),
        r matches Some(c) ==> c@ == pattern@,
{
    let text = std::str::from_utf8(pattern).ok()?;
    let re = regex::bytes::Regex::new(text).ok()?;
    Some(CompiledRegex { pattern: pattern.clone(), re })
}

/// Relies on `regex::bytes::Regex::captures`: the leftmost match and its
/// named groups are a function of the pattern and haystack alone, and the
/// reported span is a valid byte range of the haystack.  A queried name the
/// pattern does not declare reads out as absent.
#[verifier::external_body]
pub fn captures(re: &CompiledRegex, text: &[u8], names: &Vec<Vec<u8>>) -> (r: Option<CapMatch>)
    ensures
        opt_cap_view(r) == re_captures(re@, text@, names_view(names@)),
        r matches Some(c) ==> c.start <= c.end <= text@.len() && c.groups.len() == names.len(),
{
    let caps = re.re.captures(text)?;
    let whole = caps.get(0).unwrap();
    let mut groups = Vec::new();
    for n in names {
        let found = std::str::from_utf8(n).ok().and_then(|s| caps.name(s));
        groups.push(found.map(|g| g.as_bytes().to_vec()));
    }
    Some(CapMatch { start: whole.start(), end: whole.end(), groups })
}

/// Relies on `regex::bytes::Regex::captures_iter`: the successive
/// non-overlapping matches and their named groups are a function of the
/// pattern and haystack alone, and each reported span is a valid byte range
/// of the haystack.
#[verifier::external_body]
pub fn captures_all(re: &CompiledRegex, text: &[u8], names: &Vec<Vec<u8>>) -> (r: Vec<CapMatch>)
    ensures
        caps_view(r@) == re_captures_all(re@, text@, names_view(names@)),
        forall|k: int|
            0 <= k < r@.len() ==> (#[trigger] r@[k]).start <= r@[k].end <= text@.len()
                && r@[k].groups.len() == names.len(),
{
    let mut out = Vec::new();
    for caps in re.re.captures_iter(text) {
        let whole = caps.get(0).unwrap();
        let mut groups = Vec::new();
        for n in names {
            let found = std::str::from_utf8(n).ok().and_then(|s| caps.name(s));
            groups.push(found.map(|g| g.as_bytes().to_vec()));
        }
        out.push(CapMatch { start: whole.start(), end: whole.end(), groups });
    }
    out
}

} // verus!

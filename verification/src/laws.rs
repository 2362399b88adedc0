//! Laws the matching engine obeys, stated over the same specification
//! functions the engine's contracts use.  The interval map's own laws (no
//! two stored entries intersect; the longest-overlap merge never removes an
//! entry at least as long as the candidate it accepts, and keeps the map
//! unchanged when it discards one) stand beside the map, in [`crate::segmap`].

use vstd::prelude::*;

use crate::rex::re_captures;
use crate::segmap::GEntry;
use crate::shape::{
    combined_names, combined_pattern, default_idx, default_value, ft_first_from, ft_longest_from,
    resolved_names, spec_default, spec_from_text, spec_match_locations, MatchFault, MatchMode,
    Shape, VariantDef, VariantKind,
};
use crate::value::GValue;

verus! {

proof fn lemma_no_default_from(vs: Seq<VariantDef>, i: int)
    requires
        0 <= i,
        forall|k: int| i <= k < vs.len() ==> !(#[trigger] vs[k]).default,
    ensures
        default_idx(vs, i) == vs.len(),
    decreases vs.len() - i,
{
    if i < vs.len() {
        lemma_no_default_from(vs, i + 1);
    }
}

proof fn lemma_ft_longest_exhausts(vs: Seq<VariantDef>, text: Seq<u8>, i: int)
    requires
        0 <= i <= vs.len(),
        forall|k: int|
            i <= k < vs.len() ==> ((#[trigger] vs[k]).kind matches VariantKind::Transparent(b)
                ==> spec_from_text(*b, text) == Ok::<Option<GValue>, MatchFault>(None)),
    ensures
        ft_longest_from(vs, text, None, i) == Ok::<Option<GValue>, MatchFault>(spec_default(vs)),
    decreases vs.len() - i,
{
    if i < vs.len() {
        lemma_ft_longest_exhausts(vs, text, i + 1);
    }
}

proof fn lemma_ft_first_exhausts(vs: Seq<VariantDef>, text: Seq<u8>, i: int)
    requires
        0 <= i <= vs.len(),
        forall|k: int|
            i <= k < vs.len() ==> ((#[trigger] vs[k]).kind matches VariantKind::Transparent(b)
                ==> spec_from_text(*b, text) == Ok::<Option<GValue>, MatchFault>(None)),
        forall|k: int|
            i <= k < vs.len() ==> ((#[trigger] vs[k]).kind matches VariantKind::Patterned(p) ==> (
            re_captures(p@, text, resolved_names(vs[k], false)) matches Some(c) ==> c.end - c.start
                != text.len())),
    ensures
        ft_first_from(vs, text, i) == Ok::<Option<GValue>, MatchFault>(spec_default(vs)),
    decreases vs.len() - i,
{
    if i < vs.len() {
        lemma_ft_first_exhausts(vs, text, i + 1);
    }
}

/// Full-span requirement, `Longest` priority: when the combined search
/// reports no match spanning the whole input — in particular when every
/// match covers only a strict prefix — and every transparent variant's
/// nested shape parses nothing, a shape with no default variant parses
/// nothing: a partial match is never accepted.
pub proof fn lemma_full_span_required_longest(s: Shape, text: Seq<u8>)
    requires
        s.spec_mode() == MatchMode::Longest,
        re_captures(
            combined_pattern(s.spec_variants()),
            text,
            combined_names(s.spec_variants()),
        ) matches Some(c) ==> c.end - c.start != text.len(),
        forall|k: int|
            0 <= k < s.spec_variants().len() ==> ((#[trigger] s.spec_variants()[k]).kind
                matches VariantKind::Transparent(b) ==> spec_from_text(*b, text) == Ok::<Option<GValue>, MatchFault>(None)),
        forall|k: int|
            0 <= k < s.spec_variants().len() ==> !(#[trigger] s.spec_variants()[k]).default,
    ensures
        spec_from_text(s, text) == Ok::<Option<GValue>, MatchFault>(None),
{
    let vs = s.spec_variants();
    lemma_ft_longest_exhausts(vs, text, 0);
    lemma_no_default_from(vs, 0);
}

/// Full-span requirement, `First` priority: when each variant's own search
/// reports no match spanning the whole input, and every transparent
/// variant's nested shape parses nothing, a shape with no default variant
/// parses nothing.
pub proof fn lemma_full_span_required_first(s: Shape, text: Seq<u8>)
    requires
        s.spec_mode() == MatchMode::First,
        forall|k: int|
            0 <= k < s.spec_variants().len() ==> ((#[trigger] s.spec_variants()[k]).kind
                matches VariantKind::Patterned(p) ==> (re_captures(
                p@,
                text,
                resolved_names(s.spec_variants()[k], false),
            ) matches Some(c) ==> c.end - c.start != text.len())),
        forall|k: int|
            0 <= k < s.spec_variants().len() ==> ((#[trigger] s.spec_variants()[k]).kind
                matches VariantKind::Transparent(b) ==> spec_from_text(*b, text) == Ok::<Option<GValue>, MatchFault>(None)),
        forall|k: int|
            0 <= k < s.spec_variants().len() ==> !(#[trigger] s.spec_variants()[k]).default,
    ensures
        spec_from_text(s, text) == Ok::<Option<GValue>, MatchFault>(None),
{
    let vs = s.spec_variants();
    lemma_ft_first_exhausts(vs, text, 0);
    lemma_no_default_from(vs, 0);
}

/// Default fallback, `Longest` priority: when a default variant is declared
/// and nothing matches — no full-span report, and every transparent
/// variant's nested shape parses nothing — exact matching returns the first
/// declared default variant's value.
pub proof fn lemma_default_fallback_longest(s: Shape, text: Seq<u8>)
    requires
        s.spec_mode() == MatchMode::Longest,
        re_captures(
            combined_pattern(s.spec_variants()),
            text,
            combined_names(s.spec_variants()),
        ) matches Some(c) ==> c.end - c.start != text.len(),
        forall|k: int|
            0 <= k < s.spec_variants().len() ==> ((#[trigger] s.spec_variants()[k]).kind
                matches VariantKind::Transparent(b) ==> spec_from_text(*b, text) == Ok::<Option<GValue>, MatchFault>(None)),
        default_idx(s.spec_variants(), 0) < s.spec_variants().len(),
    ensures
        spec_from_text(s, text) == Ok::<Option<GValue>, MatchFault>(
            Some(default_value(s.spec_variants(), default_idx(s.spec_variants(), 0))),
        ),
{
    let vs = s.spec_variants();
    lemma_ft_longest_exhausts(vs, text, 0);
}

/// Default fallback, `First` priority: as above, with each variant's own
/// search reporting no full-span match.
pub proof fn lemma_default_fallback_first(s: Shape, text: Seq<u8>)
    requires
        s.spec_mode() == MatchMode::First,
        forall|k: int|
            0 <= k < s.spec_variants().len() ==> ((#[trigger] s.spec_variants()[k]).kind
                matches VariantKind::Patterned(p) ==> (re_captures(
                p@,
                text,
                resolved_names(s.spec_variants()[k], false),
            ) matches Some(c) ==> c.end - c.start != text.len())),
        forall|k: int|
            0 <= k < s.spec_variants().len() ==> ((#[trigger] s.spec_variants()[k]).kind
                matches VariantKind::Transparent(b) ==> spec_from_text(*b, text) == Ok::<Option<GValue>, MatchFault>(None)),
        default_idx(s.spec_variants(), 0) < s.spec_variants().len(),
    ensures
        spec_from_text(s, text) == Ok::<Option<GValue>, MatchFault>(
            Some(default_value(s.spec_variants(), default_idx(s.spec_variants(), 0))),
        ),
{
    let vs = s.spec_variants();
    lemma_ft_first_exhausts(vs, text, 0);
}

/// Purity: what a search returns is a function of the shape and the text
/// alone, so repeated searches of the same text yield identical maps.  The
/// ensures of [`Shape::match_locations`] pins each call's result to
/// `spec_match_locations`; two results so pinned are one.
pub proof fn lemma_match_locations_pure(
    s: Shape,
    text: Seq<u8>,
    r1: Result<Seq<GEntry>, MatchFault>,
    r2: Result<Seq<GEntry>, MatchFault>,
)
    requires
        r1 == spec_match_locations(s, text),
        r2 == spec_match_locations(s, text),
    ensures
        r1 == r2,
{
}

} // verus!

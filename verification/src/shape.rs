//! Shapes: the declared variants of a value, compiled once into match-ready
//! engine state, with exact whole-input matching and text search.

use vstd::prelude::*;

use crate::captures::{
    find_group, from_regex_pattern, groups_view, lookup_group, scan_groups, GroupSpec, LANGLE,
    QMARK, RANGLE, RPAREN, UPPER_P,
};
use crate::rex;
use crate::segmap::{
    entries_view, entries_wf, entry_view, lemma_entries_view_remove, lemma_wf_remove, spec_insert_if_empty,
    spec_merge, vals_view, values_of, GEntry, SegEntry, SegmentMap,
};
use crate::rex::{
    cap_view, caps_view, names_view, opt_cap_view, re_captures, re_captures_all, re_compiles,
    CapMatch, CompiledRegex, GCapMatch,
};
use crate::value::{opt_bytes_list_view, opt_bytes_view, opt_val_view, val_view, GValue, Value};

verus! {

/// Byte value of `_`.
pub const UNDERSCORE: u8 = 95;

/// Byte value of `|`.
pub const VBAR: u8 = 124;

/// Byte value of `(`.
pub const LPAREN: u8 = 40;

/// Match priority for a shape with several variants: combine all patterns
/// into one alternation and let the longest match win, or try each variant's
/// own pattern strictly in declaration order.
#[derive(Clone, Copy, PartialEq, Eq, Structural, Debug)]
pub enum MatchMode {
    Longest,
    First,
}

impl Default for MatchMode {
    /// The default priority combines all variants into one alternation.
    fn default() -> (r: Self)
        ensures
            r == MatchMode::Longest,
    {
        MatchMode::Longest
    }
}

/// Copy a byte vector.
fn copy_bytes(src: &Vec<u8>) -> (r: Vec<u8>)
    ensures
        r@ == src@,
{
    let mut out: Vec<u8> = Vec::new();
    let mut i: usize = 0;
    while i < src.len()
        invariant
            i <= src.len(),
            out@ =~= src@.subrange(0, i as int),
        decreases src.len() - i,
    {
        out.push(src[i]);
        proof {
            assert(out@ =~= src@.subrange(0, i as int + 1));
        }
        i = i + 1;
    }
    proof {
        assert(out@ =~= src@);
    }
    out
}

/// Append the bytes of `src` to `dst`.
fn append_bytes(dst: &mut Vec<u8>, src: &Vec<u8>)
    ensures
        final(dst)@ == old(dst)@ + src@,
{
    let ghost base = dst@;
    let mut i: usize = 0;
    while i < src.len()
        invariant
            i <= src.len(),
            dst@ =~= base + src@.subrange(0, i as int),
        decreases src.len() - i,
    {
        dst.push(src[i]);
        proof {
            assert(dst@ =~= base + src@.subrange(0, i as int + 1));
        }
        i = i + 1;
    }
    proof {
        assert(dst@ =~= base + src@);
    }
}

/// A group name prefixed with its variant's name: `v_g`, or `vg` when the
/// group name already starts with `_` (as a synthetic positional name does).
pub open spec fn prefixed_name(vname: Seq<u8>, g: Seq<u8>) -> Seq<u8> {
    if g.len() > 0 && g[0] == UNDERSCORE {
        vname + g
    } else {
        vname + seq![UNDERSCORE] + g
    }
}

fn make_prefixed(vname: &Vec<u8>, g: &Vec<u8>) -> (r: Vec<u8>)
    ensures
        r@ == prefixed_name(vname@, g@),
{
    let mut out = copy_bytes(vname);
    if !(g.len() > 0 && g[0] == UNDERSCORE) {
        out.push(UNDERSCORE);
        proof {
            assert(out@ =~= vname@ + seq![UNDERSCORE]);
        }
    }
    append_bytes(&mut out, g);
    proof {
        assert(out@ =~= prefixed_name(vname@, g@));
    }
    out
}

/// The marker `?P<g>` that opens the named group `g` in a pattern.
pub open spec fn group_marker(g: Seq<u8>) -> Seq<u8> {
    seq![QMARK, UPPER_P, LANGLE] + g + seq![RANGLE]
}

fn make_marker(g: &Vec<u8>) -> (r: Vec<u8>)
    ensures
        r@ == group_marker(g@),
{
    let mut out: Vec<u8> = Vec::new();
    out.push(QMARK);
    out.push(UPPER_P);
    out.push(LANGLE);
    proof {
        assert(out@ =~= seq![QMARK, UPPER_P, LANGLE]);
    }
    append_bytes(&mut out, g);
    out.push(RANGLE);
    proof {
        assert(out@ =~= group_marker(g@));
    }
    out
}

/// `hay` from index `i` on, with every non-overlapping occurrence of `from`
/// (found left to right) replaced by `to`.
pub open spec fn replace_from(hay: Seq<u8>, from: Seq<u8>, to: Seq<u8>, i: int) -> Seq<u8>
    decreases hay.len() - i,
    when 0 <= i && from.len() > 0
{
    if i + from.len() > hay.len() {
        hay.subrange(i, hay.len() as int)
    } else if hay.subrange(i, i + from.len()) == from {
        to + replace_from(hay, from, to, i + from.len())
    } else {
        seq![hay[i]] + replace_from(hay, from, to, i + 1)
    }
}

/// `hay` with every non-overlapping occurrence of `from` replaced by `to`.
pub open spec fn spec_replace(hay: Seq<u8>, from: Seq<u8>, to: Seq<u8>) -> Seq<u8> {
    if from.len() == 0 {
        hay
    } else {
        replace_from(hay, from, to, 0)
    }
}

/// Whether `from` occurs in `hay` at index `i`.
fn match_at(hay: &Vec<u8>, i: usize, from: &Vec<u8>) -> (r: bool)
    requires
        i + from@.len() <= hay@.len(),
    ensures
        r == (hay@.subrange(i as int, i as int + from@.len()) == from@),
{
    let hay_len = hay.len();
    let mut j: usize = 0;
    while j < from.len()
        invariant
            j <= from.len(),
            i + from@.len() <= hay@.len(),
            hay@.len() == hay_len,
            forall|k: int| 0 <= k < j ==> hay@[i + k] == from@[k],
        decreases from.len() - j,
    {
        if hay[i + j] != from[j] {
            proof {
                assert(hay@.subrange(i as int, i as int + from@.len())[j as int] != from@[j as int]);
            }
            return false;
        }
        j = j + 1;
    }
    proof {
        assert(hay@.subrange(i as int, i as int + from@.len()) =~= from@);
    }
    true
}

/// Replace every non-overlapping occurrence of `from` in `hay` by `to`,
/// scanning left to right.
fn replace_all(hay: &Vec<u8>, from: &Vec<u8>, to: &Vec<u8>) -> (r: Vec<u8>)
    requires
        from@.len() > 0,
    ensures
        r@ == spec_replace(hay@, from@, to@),
{
    let mut out: Vec<u8> = Vec::new();
    let mut i: usize = 0;
    proof {
        assert(out@ + replace_from(hay@, from@, to@, 0) =~= replace_from(hay@, from@, to@, 0));
    }
    while i < hay.len()
        invariant
            i <= hay.len(),
            from@.len() > 0,
            out@ + replace_from(hay@, from@, to@, i as int) == replace_from(hay@, from@, to@, 0),
        decreases hay.len() - i,
    {
        let ghost pre = out@;
        if hay.len() - i >= from.len() && match_at(hay, i, from) {
            append_bytes(&mut out, to);
            proof {
                assert(replace_from(hay@, from@, to@, i as int) == to@ + replace_from(
                    hay@,
                    from@,
                    to@,
                    i as int + from@.len(),
                ));
                assert(out@ + replace_from(hay@, from@, to@, i as int + from@.len()) =~= pre
                    + replace_from(hay@, from@, to@, i as int));
            }
            i = i + from.len();
        } else {
            out.push(hay[i]);
            proof {
                if i as int + from@.len() > hay@.len() {
                    assert(replace_from(hay@, from@, to@, i as int) == hay@.subrange(
                        i as int,
                        hay@.len() as int,
                    ));
                    assert(replace_from(hay@, from@, to@, i as int + 1) == hay@.subrange(
                        i as int + 1,
                        hay@.len() as int,
                    ));
                    assert(hay@.subrange(i as int, hay@.len() as int) =~= seq![hay@[i as int]]
                        + hay@.subrange(i as int + 1, hay@.len() as int));
                } else {
                    assert(replace_from(hay@, from@, to@, i as int) == seq![hay@[i as int]]
                        + replace_from(hay@, from@, to@, i as int + 1));
                }
                assert(out@ + replace_from(hay@, from@, to@, i as int + 1) =~= pre + replace_from(
                    hay@,
                    from@,
                    to@,
                    i as int,
                ));
            }
            i = i + 1;
        }
    }
    proof {
        assert(replace_from(hay@, from@, to@, i as int) =~= Seq::<u8>::empty());
        assert(out@ =~= replace_from(hay@, from@, to@, 0));
    }
    out
}


/// How one variant matches.
pub enum VariantKind {
    /// No pattern: never produced by matching (it may still be the default).
    Plain,
    /// A pattern with named capture groups.
    Patterned(Vec<u8>),
    /// Delegate to a nested shape, wrapping the value it produces.
    Transparent(Box<Shape>),
}

/// One declared variant of a shape.
pub struct VariantDef {
    /// The variant's name; under `Longest` priority it prefixes the
    /// pattern's group names inside the combined pattern.
    pub name: Vec<u8>,
    pub kind: VariantKind,
    /// Whether this variant is the fallback when nothing matches; at most
    /// one variant of a shape may carry the marker.
    pub default: bool,
    /// Field names in declaration order; a positional field carries the
    /// synthetic name `_0`, `_1`, ...  Ignored for a transparent variant.
    pub fields: Vec<Vec<u8>>,
}

/// A shape ready for matching: its declared variants and priority, plus the
/// engine state compiled from them by [`Shape::new`].
pub struct Shape {
    pub mode: MatchMode,
    pub variants: Vec<VariantDef>,
    engine: Engine,
}

#[allow(inconsistent_fields)]
enum Engine {
    /// `Longest`: one combined alternation; each patterned variant is a
    /// branch wrapped in a group named after the variant, its own groups
    /// renamed with the variant prefix.
    Combined { re: CompiledRegex, names: Vec<Vec<u8>>, plans: Vec<VarPlan> },
    /// `First`: each patterned variant keeps its own compiled pattern.
    Separate { plans: Vec<SepPlan> },
}

enum VarPlan {
    Inert,
    Marked { base: usize, gset: Vec<GroupSpec> },
}

enum SepPlan {
    Inert,
    Pat { re: CompiledRegex, names: Vec<Vec<u8>>, gset: Vec<GroupSpec> },
}

/// The capture set a variant's pattern declares after prefixing: each
/// scanned group name carries the variant prefix.
pub open spec fn prefixed_groups(vname: Seq<u8>, pat: Seq<u8>) -> Seq<(Seq<u8>, bool)> {
    scan_groups(pat).map(|i: int, g: (Seq<u8>, bool)| (prefixed_name(vname, g.0), g.1))
}

/// The capture set a variant's fields are resolved against: prefixed under
/// `Longest` priority, as scanned under `First`.
pub open spec fn variant_gset(v: VariantDef, prefixed: bool) -> Seq<(Seq<u8>, bool)> {
    match v.kind {
        VariantKind::Patterned(p) => if prefixed {
            prefixed_groups(v.name@, p@)
        } else {
            scan_groups(p@)
        },
        _ => Seq::empty(),
    }
}

/// The group name a field reads: prefixed with the variant name under
/// `Longest` priority, the field name itself under `First`.
pub open spec fn field_group_name(vname: Seq<u8>, field: Seq<u8>, prefixed: bool) -> Seq<u8> {
    if prefixed {
        prefixed_name(vname, field)
    } else {
        field
    }
}

/// A variant's pattern after its first `k` scanned groups' markers are
/// rewritten to the prefixed names, one replacement pass per group.
pub open spec fn rewrite_upto(pat: Seq<u8>, vname: Seq<u8>, k: int) -> Seq<u8>
    decreases k,
{
    if k <= 0 {
        pat
    } else {
        let g = scan_groups(pat)[k - 1].0;
        spec_replace(
            rewrite_upto(pat, vname, k - 1),
            group_marker(g),
            group_marker(prefixed_name(vname, g)),
        )
    }
}

/// A variant's pattern with every scanned group renamed to its prefixed
/// form.
pub open spec fn rewritten_pattern(vname: Seq<u8>, pat: Seq<u8>) -> Seq<u8> {
    rewrite_upto(pat, vname, scan_groups(pat).len() as int)
}

/// The branch a patterned variant contributes to the combined alternation:
/// its rewritten pattern wrapped in a group named after the variant.
pub open spec fn variant_branch(vname: Seq<u8>, pat: Seq<u8>) -> Seq<u8> {
    seq![LPAREN, QMARK, UPPER_P, LANGLE] + vname + seq![RANGLE] + rewritten_pattern(vname, pat)
        + seq![RPAREN]
}

/// The combined alternation over the first `k` variants, branches joined
/// with `|`.
pub open spec fn combined_upto(vs: Seq<VariantDef>, k: int) -> Seq<u8>
    decreases k,
{
    if k <= 0 {
        Seq::empty()
    } else {
        let prev = combined_upto(vs, k - 1);
        match vs[k - 1].kind {
            VariantKind::Patterned(p) => if prev.len() == 0 {
                variant_branch(vs[k - 1].name@, p@)
            } else {
                prev + seq![VBAR] + variant_branch(vs[k - 1].name@, p@)
            },
            _ => prev,
        }
    }
}

/// The combined alternation a shape's variants compile to under `Longest`
/// priority.
pub open spec fn combined_pattern(vs: Seq<VariantDef>) -> Seq<u8> {
    combined_upto(vs, vs.len() as int)
}

/// The group names the first `j` fields of a variant resolve to, in order:
/// a field whose group name the capture set does not hold contributes
/// nothing.
pub open spec fn resolved_upto(v: VariantDef, prefixed: bool, j: int) -> Seq<Seq<u8>>
    decreases j,
{
    if j <= 0 {
        Seq::empty()
    } else {
        let prev = resolved_upto(v, prefixed, j - 1);
        let n = field_group_name(v.name@, v.fields@[j - 1]@, prefixed);
        if lookup_group(variant_gset(v, prefixed), n) is Some {
            prev.push(n)
        } else {
            prev
        }
    }
}

/// The group names a variant's fields resolve to.
pub open spec fn resolved_names(v: VariantDef, prefixed: bool) -> Seq<Seq<u8>> {
    resolved_upto(v, prefixed, v.fields@.len() as int)
}

/// The group names a variant contributes to the combined query under
/// `Longest` priority: its marker (the variant name itself), then its
/// resolved field groups.
pub open spec fn longest_var_names(v: VariantDef) -> Seq<Seq<u8>> {
    match v.kind {
        VariantKind::Patterned(p) => seq![v.name@] + resolved_names(v, true),
        _ => Seq::empty(),
    }
}

/// The group names the first `k` variants contribute to the combined query.
pub open spec fn names_upto(vs: Seq<VariantDef>, k: int) -> Seq<Seq<u8>>
    decreases k,
{
    if k <= 0 {
        Seq::empty()
    } else {
        names_upto(vs, k - 1) + longest_var_names(vs[k - 1])
    }
}

/// All group names the combined query reads out, in order.
pub open spec fn combined_names(vs: Seq<VariantDef>) -> Seq<Seq<u8>> {
    names_upto(vs, vs.len() as int)
}

/// The field values a variant constructs from a match report, reading its
/// resolved groups at consecutive indices from `idx` on, for the first `j`
/// fields.  `None` when a group the capture set holds as required did not
/// participate: the internal-consistency fault, which matching surfaces as
/// [`MatchFault::MissingRequiredGroup`].
pub open spec fn construct_upto(
    v: VariantDef,
    prefixed: bool,
    groups: Seq<Option<Seq<u8>>>,
    idx: int,
    j: int,
) -> Option<Seq<Option<Seq<u8>>>>
    decreases j,
{
    if j <= 0 {
        Some(Seq::empty())
    } else {
        match construct_upto(v, prefixed, groups, idx, j - 1) {
            None => None,
            Some(fs) => {
                let n = field_group_name(v.name@, v.fields@[j - 1]@, prefixed);
                match lookup_group(variant_gset(v, prefixed), n) {
                    None => Some(fs.push(None)),
                    Some(optional) => {
                        let g = groups[idx + resolved_upto(v, prefixed, j - 1).len()];
                        if !optional && g is None {
                            None
                        } else {
                            Some(fs.push(g))
                        }
                    },
                }
            },
        }
    }
}

/// The field values a variant constructs from a match report.
pub open spec fn spec_construct(
    v: VariantDef,
    prefixed: bool,
    groups: Seq<Option<Seq<u8>>>,
    idx: int,
) -> Option<Seq<Option<Seq<u8>>>> {
    construct_upto(v, prefixed, groups, idx, v.fields@.len() as int)
}

/// The first declared default variant at or after index `i`, or the length.
pub open spec fn default_idx(vs: Seq<VariantDef>, i: int) -> int
    decreases vs.len() - i,
{
    if i < 0 || i >= vs.len() {
        vs.len() as int
    } else if vs[i].default {
        i
    } else {
        default_idx(vs, i + 1)
    }
}

/// The value the default variant constructs: every field absent.
pub open spec fn default_value(vs: Seq<VariantDef>, i: int) -> GValue {
    GValue::Record {
        variant: i,
        fields: Seq::new(vs[i].fields@.len(), |j: int| None),
    }
}

/// What matching falls back to when no variant fires: the first declared
/// default variant's value, or nothing.
pub open spec fn spec_default(vs: Seq<VariantDef>) -> Option<GValue> {
    let d = default_idx(vs, 0);
    if d < vs.len() {
        Some(default_value(vs, d))
    } else {
        None
    }
}

/// Every shape nested inside a transparent variant from index `i` on is
/// well formed.
pub open spec fn nested_wf_from(vs: Seq<VariantDef>, i: int) -> bool
    decreases vs, vs.len() - i,
{
    if i < 0 || i >= vs.len() {
        true
    } else {
        let here = match vs[i].kind {
            VariantKind::Transparent(b) => (*b).wf(),
            _ => true,
        };
        here && nested_wf_from(vs, i + 1)
    }
}

spec fn longest_plan_ok(vs: Seq<VariantDef>, plans: Seq<VarPlan>, i: int) -> bool {
    match vs[i].kind {
        VariantKind::Patterned(p) => match plans[i] {
            VarPlan::Marked { base, gset } => {
                &&& base as int == names_upto(vs, i).len()
                &&& groups_view(gset@) == prefixed_groups(vs[i].name@, p@)
            },
            _ => false,
        },
        _ => plans[i] is Inert,
    }
}

spec fn separate_plan_ok(vs: Seq<VariantDef>, plans: Seq<SepPlan>, i: int) -> bool {
    match vs[i].kind {
        VariantKind::Patterned(p) => match plans[i] {
            SepPlan::Pat { re, names, gset } => {
                &&& re@ == p@
                &&& names_view(names@) == resolved_names(vs[i], false)
                &&& groups_view(gset@) == scan_groups(p@)
            },
            _ => false,
        },
        _ => plans[i] is Inert,
    }
}

impl Shape {
    /// The shape's engine state agrees with its declaration: the compiled
    /// pattern, query names and per-variant capture sets are exactly the
    /// ones the declaration derives to, and every nested shape is well
    /// formed in turn.  [`Shape::new`] establishes this; matching requires
    /// it.
    pub closed spec fn wf(&self) -> bool
        decreases *self, 0int,
    {
        let vs = self.variants@;
        &&& nested_wf_from(vs, 0)
        &&& match self.engine {
            Engine::Combined { re, names, plans } => {
                &&& self.mode == MatchMode::Longest
                &&& re@ == combined_pattern(vs)
                &&& names_view(names@) == combined_names(vs)
                &&& plans@.len() == vs.len()
                &&& forall|i: int| 0 <= i < vs.len() ==> longest_plan_ok(vs, plans@, i)
            },
            Engine::Separate { plans } => {
                &&& self.mode == MatchMode::First
                &&& plans@.len() == vs.len()
                &&& forall|i: int| 0 <= i < vs.len() ==> separate_plan_ok(vs, plans@, i)
            },
        }
    }

    /// The declared match priority.
    pub closed spec fn spec_mode(&self) -> MatchMode {
        self.mode
    }

    /// The declared variants.
    pub closed spec fn spec_variants(&self) -> Seq<VariantDef> {
        self.variants@
    }

    /// Every shape nested in a transparent variant of this declaration list
    /// is well formed (what [`Shape::new`] requires of its input).
    pub open spec fn variants_ready(vs: Seq<VariantDef>) -> bool {
        nested_wf_from(vs, 0)
    }
}

proof fn lemma_ready_from(vs: Seq<VariantDef>, i: int)
    requires
        0 <= i,
        forall|k: int| i <= k < vs.len() ==> !((#[trigger] vs[k]).kind is Transparent),
    ensures
        nested_wf_from(vs, i),
    decreases vs.len() - i,
{
    if i < vs.len() {
        lemma_ready_from(vs, i + 1);
    }
}

/// A declaration list with no transparent variant is ready for
/// [`Shape::new`] as it stands.
pub proof fn lemma_ready_without_transparent(vs: Seq<VariantDef>)
    requires
        forall|k: int| 0 <= k < vs.len() ==> !((#[trigger] vs[k]).kind is Transparent),
    ensures
        Shape::variants_ready(vs),
{
    lemma_ready_from(vs, 0);
}

proof fn lemma_ready_push_from(vs: Seq<VariantDef>, v: VariantDef, i: int)
    requires
        0 <= i <= vs.len(),
        nested_wf_from(vs, i),
        v.kind matches VariantKind::Transparent(b) ==> (*b).wf(),
    ensures
        nested_wf_from(vs.push(v), i),
    decreases vs.len() - i,
{
    let ws = vs.push(v);
    if i < vs.len() {
        assert(ws[i] == vs[i]);
        lemma_ready_push_from(vs, v, i + 1);
    } else {
        assert(ws[i] == v);
        assert(nested_wf_from(ws, i + 1));
    }
}

/// Appending a variant keeps a declaration list ready, provided a
/// transparent variant wraps a well-formed shape — such as one
/// [`Shape::new`] built.
pub proof fn lemma_ready_push(vs: Seq<VariantDef>, v: VariantDef)
    requires
        Shape::variants_ready(vs),
        v.kind matches VariantKind::Transparent(b) ==> (*b).wf(),
    ensures
        Shape::variants_ready(vs.push(v)),
{
    lemma_ready_push_from(vs, v, 0);
}


/// A configuration fault found while a shape's matching support is built.
#[derive(Clone, Copy, PartialEq, Eq, Structural, Debug)]
pub enum ShapeError {
    /// More than one variant carries the default marker.
    DuplicateDefault,
    /// A transparent variant carries the default marker: no default value
    /// can be constructed for a delegated shape.
    TransparentDefault,
    /// A variant's pattern (or the combined alternation) failed to compile.
    BadPattern,
}

/// The internal-consistency fault: a successful match fired a variant whose
/// capture set holds a group as required, yet the report lacks that group
/// (the pattern and the field declarations disagree).  Matching aborts with
/// this fault rather than continue with a corrupt value.
#[derive(Clone, Copy, PartialEq, Eq, Structural, Debug)]
pub enum MatchFault {
    MissingRequiredGroup,
}

/// The mathematical form of an exact-match result.
pub open spec fn res_val_view(r: Result<Option<Value>, MatchFault>) -> Result<
    Option<GValue>,
    MatchFault,
> {
    match r {
        Ok(v) => Ok(opt_val_view(v)),
        Err(e) => Err(e),
    }
}

/// Two distinct variants both carry the default marker.
pub open spec fn has_dup_default(vs: Seq<VariantDef>) -> bool {
    exists|i: int, j: int|
        0 <= i < j < vs.len() && (#[trigger] vs[i]).default && (#[trigger] vs[j]).default
}

/// Some transparent variant carries the default marker.
pub open spec fn has_transparent_default(vs: Seq<VariantDef>) -> bool {
    exists|i: int| 0 <= i < vs.len() && (#[trigger] vs[i]).default && vs[i].kind is Transparent
}

/// Every patterned variant's own pattern compiles.
pub open spec fn all_patterns_compile(vs: Seq<VariantDef>) -> bool {
    forall|k: int|
        0 <= k < vs.len() ==> ((#[trigger] vs[k]).kind matches VariantKind::Patterned(p)
            ==> re_compiles(p@))
}

/// What a shape's priority needs the matching primitive to accept: the
/// combined alternation under `Longest`, each variant's own pattern under
/// `First`.
pub open spec fn shape_compiles(mode: MatchMode, vs: Seq<VariantDef>) -> bool {
    match mode {
        MatchMode::Longest => re_compiles(combined_pattern(vs)),
        MatchMode::First => all_patterns_compile(vs),
    }
}

impl Shape {
    /// Assemble a shape's matching support once, from its declaration.
    ///
    /// Configuration faults are fatal: a duplicate default marker, a default
    /// marker on a transparent variant, and a pattern the matching primitive
    /// rejects each yield an error and no shape.
    pub fn new(mode: MatchMode, variants: Vec<VariantDef>) -> (r: Result<Shape, ShapeError>)
        requires
            Shape::variants_ready(variants@),
        ensures
            r is Ok <==> !has_dup_default(variants@) && !has_transparent_default(variants@)
                && shape_compiles(mode, variants@),
            match r {
                Ok(s) => {
                    &&& s.wf()
                    &&& s.spec_mode() == mode
                    &&& s.spec_variants() == variants@
                    &&& !has_dup_default(variants@)
                    &&& !has_transparent_default(variants@)
                },
                Err(e) => {
                    &&& (e == ShapeError::DuplicateDefault <==> has_dup_default(variants@))
                    &&& (e == ShapeError::TransparentDefault <==> !has_dup_default(variants@)
                        && has_transparent_default(variants@))
                    &&& (e == ShapeError::BadPattern ==> !has_dup_default(variants@)
                        && !has_transparent_default(variants@))
                },
            },
    {
        let ghost vs = variants@;
        // A duplicate default marker is a configuration fault.
        let mut seen_default = false;
        let mut i: usize = 0;
        while i < variants.len()
            invariant
                vs == variants@,
                i <= vs.len(),
                seen_default <==> exists|k: int| 0 <= k < i && (#[trigger] vs[k]).default,
                forall|a: int, b: int|
                    0 <= a < b < i ==> !((#[trigger] vs[a]).default && (#[trigger] vs[b]).default),
            decreases variants.len() - i,
        {
            if variants[i].default {
                if seen_default {
                    proof {
                        let k = choose|k: int| 0 <= k < i && (#[trigger] vs[k]).default;
                        assert(vs[k].default && vs[i as int].default && k < i as int);
                    }
                    return Err(ShapeError::DuplicateDefault);
                }
                seen_default = true;
            }
            i = i + 1;
        }
        assert(!has_dup_default(vs));
        // So is a default marker on a transparent variant.
        let mut i: usize = 0;
        while i < variants.len()
            invariant
                vs == variants@,
                i <= vs.len(),
                !has_dup_default(vs),
                forall|k: int|
                    0 <= k < i ==> !((#[trigger] vs[k]).default && vs[k].kind is Transparent),
            decreases variants.len() - i,
        {
            if variants[i].default {
                if let VariantKind::Transparent(_) = &variants[i].kind {
                    proof {
                        assert(vs[i as int].default && vs[i as int].kind is Transparent);
                    }
                    return Err(ShapeError::TransparentDefault);
                }
            }
            i = i + 1;
        }
        assert(!has_transparent_default(vs));
        match mode {
            MatchMode::Longest => Self::new_longest(variants),
            MatchMode::First => Self::new_first(variants),
        }
    }

    fn new_longest(variants: Vec<VariantDef>) -> (r: Result<Shape, ShapeError>)
        requires
            Shape::variants_ready(variants@),
        ensures
            match r {
                Ok(s) => s.wf() && s.spec_mode() == MatchMode::Longest && s.spec_variants()
                    == variants@ && re_compiles(combined_pattern(variants@)),
                Err(e) => e == ShapeError::BadPattern && !re_compiles(combined_pattern(variants@)),
            },
    {
        let ghost vs = variants@;
        let mut pattern: Vec<u8> = Vec::new();
        let mut names: Vec<Vec<u8>> = Vec::new();
        let mut plans: Vec<VarPlan> = Vec::new();
        proof {
            assert(pattern@ =~= combined_upto(vs, 0));
            assert(names_view(names@) =~= names_upto(vs, 0));
        }
        let mut i: usize = 0;
        while i < variants.len()
            invariant
                vs == variants@,
                i <= vs.len(),
                pattern@ == combined_upto(vs, i as int),
                names_view(names@) == names_upto(vs, i as int),
                plans@.len() == i,
                forall|k: int| 0 <= k < i ==> longest_plan_ok(vs, plans@, k),
            decreases variants.len() - i,
        {
            let ghost plans_pre = plans@;
            match &variants[i].kind {
                VariantKind::Patterned(p) => {
                    let vname = &variants[i].name;
                    let raw = from_regex_pattern(p.as_slice());
                    let ghost scanned = scan_groups(p@);
                    proof {
                        assert(groups_view(raw@) == scanned);
                        assert(groups_view(raw@).len() == raw@.len());
                    }
                    // Rewrite each scanned group's marker to the prefixed name.
                    let mut rewritten = copy_bytes(p);
                    let mut gset: Vec<GroupSpec> = Vec::new();
                    let mut j: usize = 0;
                    while j < raw.len()
                        invariant
                            vs == variants@,
                            0 <= i < vs.len(),
                            vname@ == vs[i as int].name@,
                            vs[i as int].kind matches VariantKind::Patterned(q) && q@ == p@,
                            groups_view(raw@) == scanned,
                            scanned == scan_groups(p@),
                            j <= raw.len(),
                            raw@.len() == scanned.len(),
                            rewritten@ == rewrite_upto(p@, vname@, j as int),
                            gset@.len() == j,
                            forall|k: int|
                                0 <= k < j ==> (#[trigger] gset@[k]).name@ == prefixed_name(
                                    vname@,
                                    scanned[k].0,
                                ) && gset@[k].optional == scanned[k].1,
                        decreases raw.len() - j,
                    {
                        proof {
                            assert(groups_view(raw@)[j as int] == (
                                raw@[j as int].name@,
                                raw@[j as int].optional,
                            ));
                        }
                        let pn = make_prefixed(vname, &raw[j].name);
                        let old_marker = make_marker(&raw[j].name);
                        let new_marker = make_marker(&pn);
                        proof {
                            assert(old_marker@.len() > 0);
                        }
                        let next = replace_all(&rewritten, &old_marker, &new_marker);
                        rewritten = next;
                        gset.push(GroupSpec { name: pn, optional: raw[j].optional });
                        proof {
                            assert(rewritten@ == rewrite_upto(p@, vname@, j as int + 1));
                        }
                        j = j + 1;
                    }
                    proof {
                        assert(groups_view(gset@) =~= prefixed_groups(vname@, p@));
                        assert(rewritten@ == rewritten_pattern(vname@, p@));
                    }
                    // Extend the combined alternation with this branch.
                    if pattern.len() > 0 {
                        pattern.push(VBAR);
                    }
                    let ghost sep_done = pattern@;
                    pattern.push(LPAREN);
                    pattern.push(QMARK);
                    pattern.push(UPPER_P);
                    pattern.push(LANGLE);
                    append_bytes(&mut pattern, vname);
                    pattern.push(RANGLE);
                    append_bytes(&mut pattern, &rewritten);
                    pattern.push(RPAREN);
                    proof {
                        assert(pattern@ =~= sep_done + (seq![LPAREN, QMARK, UPPER_P, LANGLE]
                            + vname@ + seq![RANGLE] + rewritten_pattern(vname@, p@)
                            + seq![RPAREN]));
                        assert(pattern@ =~= combined_upto(vs, i as int + 1));
                    }
                    // The query names: the variant marker, then each resolved
                    // field group.
                    let base = names.len();
                    names.push(copy_bytes(vname));
                    proof {
                        assert(names_view(names@) =~= names_upto(vs, i as int) + seq![vname@]
                            + resolved_upto(vs[i as int], true, 0));
                    }
                    let nfields = variants[i].fields.len();
                    let mut j2: usize = 0;
                    while j2 < nfields
                        invariant
                            vs == variants@,
                            0 <= i < vs.len(),
                            vname@ == vs[i as int].name@,
                            vs[i as int].kind matches VariantKind::Patterned(q) && q@ == p@,
                            groups_view(gset@) == variant_gset(vs[i as int], true),
                            nfields == vs[i as int].fields@.len(),
                            j2 <= nfields,
                            names_view(names@) == names_upto(vs, i as int) + seq![vname@]
                                + resolved_upto(vs[i as int], true, j2 as int),
                        decreases nfields - j2,
                    {
                        let n = make_prefixed(vname, &variants[i].fields[j2]);
                        let ghost names_pre = names_view(names@);
                        match find_group(&gset, &n) {
                            Some(_) => {
                                names.push(n);
                                proof {
                                    assert(names_view(names@) =~= names_pre + seq![prefixed_name(
                                        vname@,
                                        vs[i as int].fields@[j2 as int]@,
                                    )]);
                                    assert(resolved_upto(vs[i as int], true, j2 as int + 1)
                                        =~= resolved_upto(vs[i as int], true, j2 as int).push(
                                        prefixed_name(vname@, vs[i as int].fields@[j2 as int]@),
                                    ));
                                    assert(names_view(names@) =~= names_upto(vs, i as int)
                                        + seq![vname@] + resolved_upto(
                                        vs[i as int],
                                        true,
                                        j2 as int + 1,
                                    ));
                                }
                            },
                            None => {
                                proof {
                                    assert(resolved_upto(vs[i as int], true, j2 as int + 1)
                                        == resolved_upto(vs[i as int], true, j2 as int));
                                }
                            },
                        }
                        j2 = j2 + 1;
                    }
                    plans.push(VarPlan::Marked { base, gset });
                    proof {
                        assert(longest_var_names(vs[i as int]) =~= seq![vname@] + resolved_names(
                            vs[i as int],
                            true,
                        ));
                        assert(names_view(names@) =~= names_upto(vs, i as int + 1));
                        assert(longest_plan_ok(vs, plans@, i as int));
                        assert forall|k: int| 0 <= k < i implies longest_plan_ok(
                            vs,
                            plans@,
                            k,
                        ) by {
                            assert(longest_plan_ok(vs, plans_pre, k));
                            assert(plans@[k] == plans_pre[k]);
                        }
                    }
                },
                VariantKind::Transparent(_) => {
                    plans.push(VarPlan::Inert);
                    proof {
                        assert(pattern@ == combined_upto(vs, i as int + 1));
                        assert(names_view(names@) =~= names_upto(vs, i as int + 1));
                        assert(longest_plan_ok(vs, plans@, i as int));
                        assert forall|k: int| 0 <= k < i implies longest_plan_ok(
                            vs,
                            plans@,
                            k,
                        ) by {
                            assert(longest_plan_ok(vs, plans_pre, k));
                            assert(plans@[k] == plans_pre[k]);
                        }
                    }
                },
                VariantKind::Plain => {
                    plans.push(VarPlan::Inert);
                    proof {
                        assert(pattern@ == combined_upto(vs, i as int + 1));
                        assert(names_view(names@) =~= names_upto(vs, i as int + 1));
                        assert(longest_plan_ok(vs, plans@, i as int));
                        assert forall|k: int| 0 <= k < i implies longest_plan_ok(
                            vs,
                            plans@,
                            k,
                        ) by {
                            assert(longest_plan_ok(vs, plans_pre, k));
                            assert(plans@[k] == plans_pre[k]);
                        }
                    }
                },
            }
            i = i + 1;
        }
        match rex::compile(&pattern) {
            None => Err(ShapeError::BadPattern),
            Some(re) => {
                let s = Shape { mode: MatchMode::Longest, variants, engine: Engine::Combined {
                    re,
                    names,
                    plans,
                } };
                proof {
                    assert(s.wf());
                }
                Ok(s)
            },
        }
    }

    fn new_first(variants: Vec<VariantDef>) -> (r: Result<Shape, ShapeError>)
        requires
            Shape::variants_ready(variants@),
        ensures
            match r {
                Ok(s) => s.wf() && s.spec_mode() == MatchMode::First && s.spec_variants()
                    == variants@ && all_patterns_compile(variants@),
                Err(e) => e == ShapeError::BadPattern && !all_patterns_compile(variants@),
            },
    {
        let ghost vs = variants@;
        let mut plans: Vec<SepPlan> = Vec::new();
        let mut i: usize = 0;
        while i < variants.len()
            invariant
                vs == variants@,
                i <= vs.len(),
                plans@.len() == i,
                forall|k: int| 0 <= k < i ==> separate_plan_ok(vs, plans@, k),
                forall|k: int|
                    0 <= k < i ==> ((#[trigger] vs[k]).kind matches VariantKind::Patterned(p)
                        ==> re_compiles(p@)),
            decreases variants.len() - i,
        {
            let ghost plans_pre = plans@;
            match &variants[i].kind {
                VariantKind::Patterned(p) => {
                    let gset = from_regex_pattern(p.as_slice());
                    let mut names: Vec<Vec<u8>> = Vec::new();
                    proof {
                        assert(names_view(names@) =~= resolved_upto(vs[i as int], false, 0));
                    }
                    let nfields = variants[i].fields.len();
                    let mut j: usize = 0;
                    while j < nfields
                        invariant
                            vs == variants@,
                            0 <= i < vs.len(),
                            vs[i as int].kind matches VariantKind::Patterned(q) && q@ == p@,
                            groups_view(gset@) == variant_gset(vs[i as int], false),
                            nfields == vs[i as int].fields@.len(),
                            j <= nfields,
                            names_view(names@) == resolved_upto(vs[i as int], false, j as int),
                        decreases nfields - j,
                    {
                        let n = copy_bytes(&variants[i].fields[j]);
                        let ghost names_pre = names_view(names@);
                        match find_group(&gset, &n) {
                            Some(_) => {
                                names.push(n);
                                proof {
                                    assert(names_view(names@) =~= names_pre
                                        + seq![vs[i as int].fields@[j as int]@]);
                                    assert(resolved_upto(vs[i as int], false, j as int + 1)
                                        =~= resolved_upto(vs[i as int], false, j as int).push(
                                        vs[i as int].fields@[j as int]@,
                                    ));
                                }
                            },
                            None => {
                                proof {
                                    assert(resolved_upto(vs[i as int], false, j as int + 1)
                                        == resolved_upto(vs[i as int], false, j as int));
                                }
                            },
                        }
                        j = j + 1;
                    }
                    match rex::compile(p) {
                        None => {
                            proof {
                                assert(vs[i as int].kind matches VariantKind::Patterned(q)
                                    && !re_compiles(q@));
                            }
                            return Err(ShapeError::BadPattern);
                        },
                        Some(re) => {
                            plans.push(SepPlan::Pat { re, names, gset });
                            proof {
                                assert(separate_plan_ok(vs, plans@, i as int));
                                assert forall|k: int| 0 <= k < i implies separate_plan_ok(
                                    vs,
                                    plans@,
                                    k,
                                ) by {
                                    assert(separate_plan_ok(vs, plans_pre, k));
                                    assert(plans@[k] == plans_pre[k]);
                                }
                            }
                        },
                    }
                },
                VariantKind::Transparent(_) => {
                    plans.push(SepPlan::Inert);
                    proof {
                        assert(separate_plan_ok(vs, plans@, i as int));
                        assert forall|k: int| 0 <= k < i implies separate_plan_ok(
                            vs,
                            plans@,
                            k,
                        ) by {
                            assert(separate_plan_ok(vs, plans_pre, k));
                            assert(plans@[k] == plans_pre[k]);
                        }
                    }
                },
                VariantKind::Plain => {
                    plans.push(SepPlan::Inert);
                    proof {
                        assert(separate_plan_ok(vs, plans@, i as int));
                        assert forall|k: int| 0 <= k < i implies separate_plan_ok(
                            vs,
                            plans@,
                            k,
                        ) by {
                            assert(separate_plan_ok(vs, plans_pre, k));
                            assert(plans@[k] == plans_pre[k]);
                        }
                    }
                },
            }
            i = i + 1;
        }
        let s = Shape { mode: MatchMode::First, variants, engine: Engine::Separate { plans } };
        proof {
            assert(s.wf());
        }
        Ok(s)
    }
}


/// Exact whole-input matching under `Longest` priority, read off the single
/// combined search report (already reduced to `None` unless it spans the
/// whole input): the first variant in declaration order whose marker group
/// fired wins with its constructed value — or the fault, where a required
/// group is absent from the report; a transparent variant wins where its
/// nested shape parses the whole input; otherwise the default variant's
/// value, if one is declared.
pub open spec fn ft_longest_from(
    vs: Seq<VariantDef>,
    text: Seq<u8>,
    caps: Option<GCapMatch>,
    i: int,
) -> Result<Option<GValue>, MatchFault>
    decreases vs, vs.len() - i,
{
    if i < 0 || i >= vs.len() {
        Ok(spec_default(vs))
    } else {
        match vs[i].kind {
            VariantKind::Patterned(p) => {
                let base = names_upto(vs, i).len() as int;
                let next = ft_longest_from(vs, text, caps, i + 1);
                match caps {
                    Some(c) => if c.groups[base] is Some {
                        match spec_construct(vs[i], true, c.groups, base + 1) {
                            Some(fs) => Ok(Some(GValue::Record { variant: i, fields: fs })),
                            None => Err(MatchFault::MissingRequiredGroup),
                        }
                    } else {
                        next
                    },
                    None => next,
                }
            },
            VariantKind::Transparent(b) => match spec_from_text(*b, text) {
                Ok(Some(v)) => Ok(Some(GValue::Nested { variant: i, inner: Box::new(v) })),
                Ok(None) => ft_longest_from(vs, text, caps, i + 1),
                Err(e) => Err(e),
            },
            VariantKind::Plain => ft_longest_from(vs, text, caps, i + 1),
        }
    }
}

/// Exact whole-input matching under `First` priority: each variant's own
/// pattern is tried strictly in declaration order, and the first whose
/// leftmost match spans the whole input wins with its constructed value —
/// or the fault, where a required group is absent from the report; then
/// transparent delegation; then the declared default.
pub open spec fn ft_first_from(vs: Seq<VariantDef>, text: Seq<u8>, i: int) -> Result<
    Option<GValue>,
    MatchFault,
>
    decreases vs, vs.len() - i,
{
    if i < 0 || i >= vs.len() {
        Ok(spec_default(vs))
    } else {
        match vs[i].kind {
            VariantKind::Patterned(p) => {
                let next = ft_first_from(vs, text, i + 1);
                match re_captures(p@, text, resolved_names(vs[i], false)) {
                    Some(c) => if c.end - c.start == text.len() {
                        match spec_construct(vs[i], false, c.groups, 0) {
                            Some(fs) => Ok(Some(GValue::Record { variant: i, fields: fs })),
                            None => Err(MatchFault::MissingRequiredGroup),
                        }
                    } else {
                        next
                    },
                    None => next,
                }
            },
            VariantKind::Transparent(b) => match spec_from_text(*b, text) {
                Ok(Some(v)) => Ok(Some(GValue::Nested { variant: i, inner: Box::new(v) })),
                Ok(None) => ft_first_from(vs, text, i + 1),
                Err(e) => Err(e),
            },
            VariantKind::Plain => ft_first_from(vs, text, i + 1),
        }
    }
}

/// What exact whole-input matching returns on a shape: a value only if some
/// variant's match spans the entire input (or the nested shape fully parses
/// it), else the declared default, else nothing — or the
/// internal-consistency fault, where a fired variant's required group is
/// absent from the report.
pub open spec fn spec_from_text(s: Shape, text: Seq<u8>) -> Result<Option<GValue>, MatchFault>
    decreases s, 0int,
{
    let vs = s.spec_variants();
    match s.spec_mode() {
        MatchMode::Longest => {
            let full = match re_captures(combined_pattern(vs), text, combined_names(vs)) {
                Some(c) => if c.end - c.start == text.len() {
                    Some(c)
                } else {
                    None
                },
                None => None,
            };
            ft_longest_from(vs, text, full, 0)
        },
        MatchMode::First => ft_first_from(vs, text, 0),
    }
}

proof fn lemma_names_upto_prefix(vs: Seq<VariantDef>, i: int, j: int)
    requires
        0 <= i <= j <= vs.len(),
    ensures
        names_upto(vs, i).len() <= names_upto(vs, j).len(),
        forall|t: int|
            0 <= t < names_upto(vs, i).len() ==> names_upto(vs, j)[t] == names_upto(vs, i)[t],
    decreases j - i,
{
    if i < j {
        lemma_names_upto_prefix(vs, i, j - 1);
    }
}

proof fn lemma_resolved_upto_mono(v: VariantDef, prefixed: bool, a: int, b: int)
    requires
        0 <= a <= b,
    ensures
        resolved_upto(v, prefixed, a).len() <= resolved_upto(v, prefixed, b).len(),
        resolved_upto(v, prefixed, b).len() <= resolved_upto(v, prefixed, a).len() + (b - a),
    decreases b - a,
{
    if a < b {
        lemma_resolved_upto_mono(v, prefixed, a, b - 1);
    }
}

proof fn lemma_construct_none_mono(
    v: VariantDef,
    prefixed: bool,
    groups: Seq<Option<Seq<u8>>>,
    idx: int,
    a: int,
    b: int,
)
    requires
        0 <= a <= b,
        construct_upto(v, prefixed, groups, idx, a) is None,
    ensures
        construct_upto(v, prefixed, groups, idx, b) is None,
    decreases b - a,
{
    if a < b {
        lemma_construct_none_mono(v, prefixed, groups, idx, a + 1, b);
    }
}

/// Build a variant's field values from a match report, reading resolved
/// groups at consecutive indices from `idx0` on.
fn build_fields(v: &VariantDef, gset: &Vec<GroupSpec>, prefixed: bool, cap: &CapMatch, idx0: usize) -> (r:
    Option<Vec<Option<Vec<u8>>>>)
    requires
        groups_view(gset@) == variant_gset(*v, prefixed),
        idx0 + resolved_names(*v, prefixed).len() <= cap.groups@.len(),
    ensures
        match r {
            Some(fields) => spec_construct(*v, prefixed, cap_view(*cap).groups, idx0 as int)
                == Some(opt_bytes_list_view(fields@)),
            None => spec_construct(*v, prefixed, cap_view(*cap).groups, idx0 as int) is None,
        },
{
    let ghost ggroups = cap_view(*cap).groups;
    let glen = cap.groups.len();
    let nfields = v.fields.len();
    let mut fields: Vec<Option<Vec<u8>>> = Vec::new();
    let mut idx: usize = idx0;
    let mut j: usize = 0;
    proof {
        assert(opt_bytes_list_view(fields@) =~= Seq::<Option<Seq<u8>>>::empty());
    }
    while j < nfields
        invariant
            groups_view(gset@) == variant_gset(*v, prefixed),
            idx0 + resolved_names(*v, prefixed).len() <= cap.groups@.len(),
            ggroups == cap_view(*cap).groups,
            glen == cap.groups@.len(),
            nfields == v.fields@.len(),
            j <= nfields,
            idx as int == idx0 + resolved_upto(*v, prefixed, j as int).len(),
            construct_upto(*v, prefixed, ggroups, idx0 as int, j as int) == Some(
                opt_bytes_list_view(fields@),
            ),
        decreases nfields - j,
    {
        let ghost fields_pre = fields@;
        let n = if prefixed {
            make_prefixed(&v.name, &v.fields[j])
        } else {
            copy_bytes(&v.fields[j])
        };
        proof {
            assert(n@ == field_group_name(v.name@, v.fields@[j as int]@, prefixed));
            lemma_resolved_upto_mono(*v, prefixed, j as int, nfields as int);
        }
        match find_group(gset, &n) {
            None => {
                fields.push(None);
                proof {
                    assert(opt_bytes_list_view(fields@) =~= opt_bytes_list_view(fields_pre).push(
                        None,
                    ));
                }
            },
            Some(optional) => {
                proof {
                    assert(resolved_upto(*v, prefixed, j as int + 1).len() == resolved_upto(
                        *v,
                        prefixed,
                        j as int,
                    ).len() + 1);
                    lemma_resolved_upto_mono(*v, prefixed, j as int + 1, nfields as int);
                    assert(idx < cap.groups@.len());
                    assert(ggroups[idx as int] == opt_bytes_view(cap.groups@[idx as int]));
                }
                let g = &cap.groups[idx];
                match g {
                    None => {
                        if !optional {
                            proof {
                                assert(construct_upto(
                                    *v,
                                    prefixed,
                                    ggroups,
                                    idx0 as int,
                                    j as int + 1,
                                ) is None);
                                lemma_construct_none_mono(
                                    *v,
                                    prefixed,
                                    ggroups,
                                    idx0 as int,
                                    j as int + 1,
                                    nfields as int,
                                );
                            }
                            return None;
                        }
                        fields.push(None);
                        proof {
                            assert(opt_bytes_list_view(fields@) =~= opt_bytes_list_view(
                                fields_pre,
                            ).push(None));
                        }
                    },
                    Some(bytes) => {
                        fields.push(Some(copy_bytes(bytes)));
                        proof {
                            assert(opt_bytes_list_view(fields@) =~= opt_bytes_list_view(
                                fields_pre,
                            ).push(Some(bytes@)));
                        }
                    },
                }
                idx = idx + 1;
            },
        }
        j = j + 1;
    }
    Some(fields)
}

impl Shape {
    /// The declared default variant's value: every field absent.
    fn default_of(&self) -> (r: Option<Value>)
        ensures
            opt_val_view(r) == spec_default(self.spec_variants()),
    {
        let ghost vs = self.spec_variants();
        let mut d: usize = 0;
        while d < self.variants.len()
            invariant
                vs == self.spec_variants(),
                vs.len() == self.variants@.len(),
                d <= vs.len(),
                default_idx(vs, 0) == default_idx(vs, d as int),
            decreases self.variants.len() - d,
        {
            if self.variants[d].default {
                let nfields = self.variants[d].fields.len();
                let mut fields: Vec<Option<Vec<u8>>> = Vec::new();
                let mut k: usize = 0;
                while k < nfields
                    invariant
                        k <= nfields,
                        fields@.len() == k,
                        forall|t: int| 0 <= t < k ==> fields@[t] is None,
                    decreases nfields - k,
                {
                    fields.push(None);
                    k = k + 1;
                }
                proof {
                    assert(default_idx(vs, d as int) == d as int);
                    assert(opt_bytes_list_view(fields@) =~= Seq::new(
                        vs[d as int].fields@.len(),
                        |t: int| None,
                    ));
                }
                return Some(Value::Record { variant: d, fields });
            }
            proof {
                assert(default_idx(vs, d as int) == default_idx(vs, d as int + 1));
            }
            d = d + 1;
        }
        proof {
            assert(default_idx(vs, d as int) == vs.len() as int);
        }
        None
    }

    /// Try to construct a value from the entire input: a variant is accepted
    /// only if its match spans all of `text`; when nothing matches, the
    /// declared default variant's value is returned, if there is one.  A
    /// fired variant whose required capture group is absent from the report
    /// is the internal-consistency fault: matching aborts with it at once.
    pub fn from_text(&self, text: &[u8]) -> (r: Result<Option<Value>, MatchFault>)
        requires
            self.wf(),
        ensures
            res_val_view(r) == spec_from_text(*self, text@),
        decreases *self,
    {
        let ghost vs = self.spec_variants();
        proof {
            assert(nested_wf_from(vs, 0));
        }
        match &self.engine {
            Engine::Combined { re, names, plans } => {
                let capo = rex::captures(re, text, names);
                let full = match capo {
                    Some(c) => if c.end - c.start == text.len() {
                        Some(c)
                    } else {
                        None
                    },
                    None => None,
                };
                let ghost gfull = opt_cap_view(full);
                proof {
                    assert(spec_from_text(*self, text@) == ft_longest_from(vs, text@, gfull, 0));
                }
                let n = self.variants.len();
                let names_len = names.len();
                let mut i: usize = 0;
                while i < n
                    invariant
                        vs == self.spec_variants(),
                        nested_wf_from(vs, 0),
                        n == vs.len(),
                        i <= n,
                        names_len == names@.len(),
                        names_view(names@) == combined_names(vs),
                        plans@.len() == vs.len(),
                        forall|k: int| 0 <= k < vs.len() ==> longest_plan_ok(vs, plans@, k),
                        gfull == opt_cap_view(full),
                        full matches Some(c) ==> c.groups@.len() == names@.len(),
                        spec_from_text(*self, text@) == ft_longest_from(vs, text@, gfull, i as int),
                    decreases n - i,
                {
                    match &self.variants[i].kind {
                        VariantKind::Patterned(_) => {
                            match &plans[i] {
                                VarPlan::Marked { base, gset } => {
                                    proof {
                                        assert(longest_plan_ok(vs, plans@, i as int));
                                        lemma_names_upto_prefix(vs, i as int + 1, vs.len() as int);
                                        assert(longest_var_names(vs[i as int]).len() == 1
                                            + resolved_names(vs[i as int], true).len());
                                        assert(names_upto(vs, i as int + 1).len() == names_upto(
                                            vs,
                                            i as int,
                                        ).len() + longest_var_names(vs[i as int]).len());
                                        assert(names@.len() == names_view(names@).len());
                                        assert(*base + 1 <= names_len);
                                    }
                                    if let Some(c) = &full {
                                        proof {
                                            assert(cap_view(*c).groups[*base as int]
                                                == opt_bytes_view(c.groups@[*base as int]));
                                        }
                                        if c.groups[*base].is_some() {
                                            match build_fields(
                                                &self.variants[i],
                                                gset,
                                                true,
                                                c,
                                                *base + 1,
                                            ) {
                                                Some(fields) => {
                                                    proof {
                                                        assert(ft_longest_from(
                                                            vs,
                                                            text@,
                                                            gfull,
                                                            i as int,
                                                        ) == Ok::<Option<GValue>, MatchFault>(Some(
                                                            GValue::Record {
                                                                variant: i as int,
                                                                fields: opt_bytes_list_view(
                                                                    fields@,
                                                                ),
                                                            },
                                                        )));
                                                    }
                                                    return Ok(Some(
                                                        Value::Record { variant: i, fields },
                                                    ));
                                                },
                                                None => {
                                                    proof {
                                                        assert(ft_longest_from(
                                                            vs,
                                                            text@,
                                                            gfull,
                                                            i as int,
                                                        ) == Err::<Option<GValue>, MatchFault>(
                                                            MatchFault::MissingRequiredGroup,
                                                        ));
                                                    }
                                                    return Err(MatchFault::MissingRequiredGroup);
                                                },
                                            }
                                        }
                                    }
                                },
                                VarPlan::Inert => {
                                    proof {
                                        assert(longest_plan_ok(vs, plans@, i as int));
                                        assert(false);
                                    }
                                },
                            }
                        },
                        VariantKind::Transparent(b) => {
                            proof {
                                lemma_nested_wf_at(vs, i as int);
                            }
                            match b.from_text(text) {
                                Ok(Some(v)) => {
                                    proof {
                                        assert(ft_longest_from(vs, text@, gfull, i as int)
                                            == Ok::<Option<GValue>, MatchFault>(Some(
                                            GValue::Nested {
                                                variant: i as int,
                                                inner: Box::new(val_view(v)),
                                            },
                                        )));
                                    }
                                    return Ok(Some(
                                        Value::Nested { variant: i, inner: Box::new(v) },
                                    ));
                                },
                                Ok(None) => {},
                                Err(e) => {
                                    proof {
                                        assert(ft_longest_from(vs, text@, gfull, i as int)
                                            == Err::<Option<GValue>, MatchFault>(e));
                                    }
                                    return Err(e);
                                },
                            }
                        },
                        VariantKind::Plain => {},
                    }
                    proof {
                        assert(ft_longest_from(vs, text@, gfull, i as int) == ft_longest_from(
                            vs,
                            text@,
                            gfull,
                            i as int + 1,
                        ));
                    }
                    i = i + 1;
                }
                Ok(self.default_of())
            },
            Engine::Separate { plans } => {
                let n = self.variants.len();
                let mut i: usize = 0;
                proof {
                    assert(spec_from_text(*self, text@) == ft_first_from(vs, text@, 0));
                }
                while i < n
                    invariant
                        vs == self.spec_variants(),
                        nested_wf_from(vs, 0),
                        n == vs.len(),
                        i <= n,
                        plans@.len() == vs.len(),
                        forall|k: int| 0 <= k < vs.len() ==> separate_plan_ok(vs, plans@, k),
                        spec_from_text(*self, text@) == ft_first_from(vs, text@, i as int),
                    decreases n - i,
                {
                    match &self.variants[i].kind {
                        VariantKind::Patterned(_) => {
                            match &plans[i] {
                                SepPlan::Pat { re, names, gset } => {
                                    proof {
                                        assert(separate_plan_ok(vs, plans@, i as int));
                                    }
                                    let capo = rex::captures(re, text, names);
                                    match capo {
                                        Some(c) => {
                                            if c.end - c.start == text.len() {
                                                match build_fields(
                                                    &self.variants[i],
                                                    gset,
                                                    false,
                                                    &c,
                                                    0,
                                                ) {
                                                    Some(fields) => {
                                                        proof {
                                                            assert(ft_first_from(
                                                                vs,
                                                                text@,
                                                                i as int,
                                                            ) == Ok::<Option<GValue>, MatchFault>(
                                                                Some(GValue::Record {
                                                                    variant: i as int,
                                                                    fields: opt_bytes_list_view(
                                                                        fields@,
                                                                    ),
                                                                }),
                                                            ));
                                                        }
                                                        return Ok(Some(
                                                            Value::Record { variant: i, fields },
                                                        ));
                                                    },
                                                    None => {
                                                        proof {
                                                            assert(ft_first_from(
                                                                vs,
                                                                text@,
                                                                i as int,
                                                            ) == Err::<Option<GValue>, MatchFault>(
                                                                MatchFault::MissingRequiredGroup,
                                                            ));
                                                        }
                                                        return Err(
                                                            MatchFault::MissingRequiredGroup,
                                                        );
                                                    },
                                                }
                                            }
                                        },
                                        None => {},
                                    }
                                },
                                SepPlan::Inert => {
                                    proof {
                                        assert(separate_plan_ok(vs, plans@, i as int));
                                        assert(false);
                                    }
                                },
                            }
                        },
                        VariantKind::Transparent(b) => {
                            proof {
                                lemma_nested_wf_at(vs, i as int);
                            }
                            match b.from_text(text) {
                                Ok(Some(v)) => {
                                    proof {
                                        assert(ft_first_from(vs, text@, i as int)
                                            == Ok::<Option<GValue>, MatchFault>(Some(
                                            GValue::Nested {
                                                variant: i as int,
                                                inner: Box::new(val_view(v)),
                                            },
                                        )));
                                    }
                                    return Ok(Some(
                                        Value::Nested { variant: i, inner: Box::new(v) },
                                    ));
                                },
                                Ok(None) => {},
                                Err(e) => {
                                    proof {
                                        assert(ft_first_from(vs, text@, i as int)
                                            == Err::<Option<GValue>, MatchFault>(e));
                                    }
                                    return Err(e);
                                },
                            }
                        },
                        VariantKind::Plain => {},
                    }
                    proof {
                        assert(ft_first_from(vs, text@, i as int) == ft_first_from(
                            vs,
                            text@,
                            i as int + 1,
                        ));
                    }
                    i = i + 1;
                }
                Ok(self.default_of())
            },
        }
    }
}

proof fn lemma_nested_wf_at(vs: Seq<VariantDef>, i: int)
    requires
        nested_wf_from(vs, 0),
        0 <= i < vs.len(),
    ensures
        vs[i].kind matches VariantKind::Transparent(b) ==> (*b).wf(),
{
    lemma_nested_wf_at_from(vs, 0, i);
}

proof fn lemma_nested_wf_at_from(vs: Seq<VariantDef>, j: int, i: int)
    requires
        nested_wf_from(vs, j),
        0 <= j <= i < vs.len(),
    ensures
        vs[i].kind matches VariantKind::Transparent(b) ==> (*b).wf(),
    decreases i - j,
{
    if j < i {
        lemma_nested_wf_at_from(vs, j + 1, i);
    }
}


/// The value one combined-search match yields: the first variant in
/// declaration order whose marker group fired, or the fault where that
/// variant's required group is absent from the report.
pub open spec fn cap_value(vs: Seq<VariantDef>, c: GCapMatch, i: int) -> Result<
    Option<GValue>,
    MatchFault,
>
    decreases vs.len() - i,
{
    if i < 0 || i >= vs.len() {
        Ok(None)
    } else {
        match vs[i].kind {
            VariantKind::Patterned(p) => {
                let base = names_upto(vs, i).len() as int;
                if c.groups[base] is Some {
                    match spec_construct(vs[i], true, c.groups, base + 1) {
                        Some(fs) => Ok(Some(GValue::Record { variant: i, fields: fs })),
                        None => Err(MatchFault::MissingRequiredGroup),
                    }
                } else {
                    cap_value(vs, c, i + 1)
                }
            },
            _ => cap_value(vs, c, i + 1),
        }
    }
}

/// The map the first `k` combined-search matches fold to: each non-empty
/// match that yields a value is placed only where the map is still empty;
/// a fault aborts the fold.
pub open spec fn ml_longest_upto(vs: Seq<VariantDef>, caps: Seq<GCapMatch>, k: int) -> Result<
    Seq<GEntry>,
    MatchFault,
>
    decreases k,
{
    if k <= 0 {
        Ok(Seq::empty())
    } else {
        match ml_longest_upto(vs, caps, k - 1) {
            Err(e) => Err(e),
            Ok(m) => {
                let c = caps[k - 1];
                if c.start < c.end {
                    match cap_value(vs, c, 0) {
                        Err(e) => Err(e),
                        Ok(Some(v)) => Ok(spec_insert_if_empty(m, c.start, c.end, v).0),
                        Ok(None) => Ok(m),
                    }
                } else {
                    Ok(m)
                }
            },
        }
    }
}

/// A nested shape's search results, each wrapped in the transparent variant
/// at index `i`.
pub open spec fn wrap_nested(es: Seq<GEntry>, i: int) -> Seq<GEntry> {
    es.map(
        |k: int, e: GEntry|
            GEntry {
                start: e.start,
                end: e.end,
                value: GValue::Nested { variant: i, inner: Box::new(e.value) },
            },
    )
}

/// Under `Longest` priority, the transparent variants' search results are
/// folded into the map one variant after another, each batch through the
/// longest-overlap merge; a fault (here or in a nested search) aborts the
/// fold.
pub open spec fn ml_trans_upto(
    vs: Seq<VariantDef>,
    text: Seq<u8>,
    m0: Result<Seq<GEntry>, MatchFault>,
    k: int,
) -> Result<Seq<GEntry>, MatchFault>
    decreases vs, k,
    when k <= vs.len()
{
    if k <= 0 {
        m0
    } else {
        match ml_trans_upto(vs, text, m0, k - 1) {
            Err(e) => Err(e),
            Ok(prev) => match vs[k - 1].kind {
                VariantKind::Transparent(b) => match spec_match_locations(*b, text) {
                    Err(e) => Err(e),
                    Ok(inner) => Ok(spec_merge(prev, wrap_nested(inner, k - 1))),
                },
                _ => Ok(prev),
            },
        }
    }
}

/// Under `First` priority, the map one patterned variant's first `k` matches
/// fold to: a non-empty match is placed only where the map is still empty,
/// so earlier variants keep their claims; a fault aborts the fold.
pub open spec fn ml_first_caps(
    v: VariantDef,
    vidx: int,
    caps: Seq<GCapMatch>,
    k: int,
    m0: Seq<GEntry>,
) -> Result<Seq<GEntry>, MatchFault>
    decreases k,
{
    if k <= 0 {
        Ok(m0)
    } else {
        match ml_first_caps(v, vidx, caps, k - 1, m0) {
            Err(e) => Err(e),
            Ok(m) => {
                let c = caps[k - 1];
                if c.start < c.end {
                    match spec_construct(v, false, c.groups, 0) {
                        Some(fs) => Ok(spec_insert_if_empty(
                            m,
                            c.start,
                            c.end,
                            GValue::Record { variant: vidx, fields: fs },
                        ).0),
                        None => Err(MatchFault::MissingRequiredGroup),
                    }
                } else {
                    Ok(m)
                }
            },
        }
    }
}

/// Under `First` priority, a transparent variant's search results are placed
/// one by one, each only where the map is still empty.
pub open spec fn ml_first_entries(es: Seq<GEntry>, vidx: int, k: int, m0: Seq<GEntry>) -> Seq<
    GEntry,
>
    decreases k,
{
    if k <= 0 {
        m0
    } else {
        let m = ml_first_entries(es, vidx, k - 1, m0);
        let e = es[k - 1];
        spec_insert_if_empty(
            m,
            e.start,
            e.end,
            GValue::Nested { variant: vidx, inner: Box::new(e.value) },
        ).0
    }
}

/// Under `First` priority, the map the first `k` variants fold to, strictly
/// in declaration order; a fault (here or in a nested search) aborts the
/// fold.
pub open spec fn ml_first_upto(vs: Seq<VariantDef>, text: Seq<u8>, k: int) -> Result<
    Seq<GEntry>,
    MatchFault,
>
    decreases vs, k,
    when k <= vs.len()
{
    if k <= 0 {
        Ok(Seq::empty())
    } else {
        match ml_first_upto(vs, text, k - 1) {
            Err(e) => Err(e),
            Ok(prev) => match vs[k - 1].kind {
                VariantKind::Patterned(p) => {
                    let caps = re_captures_all(p@, text, resolved_names(vs[k - 1], false));
                    ml_first_caps(vs[k - 1], k - 1, caps, caps.len() as int, prev)
                },
                VariantKind::Transparent(b) => match spec_match_locations(*b, text) {
                    Err(e) => Err(e),
                    Ok(inner) => Ok(ml_first_entries(inner, k - 1, inner.len() as int, prev)),
                },
                VariantKind::Plain => Ok(prev),
            },
        }
    }
}

/// What searching a text returns: the disjoint map of all non-overlapping,
/// non-empty occurrences of the shape's variants — longer matches preferred
/// under `Longest` priority; under `First` each variant's occurrences are
/// placed strictly in declaration order, so an earlier variant keeps its
/// claim whatever a later candidate's length — or the internal-consistency
/// fault.
pub open spec fn spec_match_locations(s: Shape, text: Seq<u8>) -> Result<Seq<GEntry>, MatchFault>
    decreases s, 0int,
{
    let vs = s.spec_variants();
    match s.spec_mode() {
        MatchMode::Longest => {
            let caps = re_captures_all(combined_pattern(vs), text, combined_names(vs));
            ml_trans_upto(vs, text, ml_longest_upto(vs, caps, caps.len() as int), vs.len() as int)
        },
        MatchMode::First => ml_first_upto(vs, text, vs.len() as int),
    }
}

/// Pick the value one combined-search match yields, trying the variants in
/// declaration order.
fn pick_variant_value(
    variants: &Vec<VariantDef>,
    plans: &Vec<VarPlan>,
    c: &CapMatch,
) -> (r: Result<Option<Value>, MatchFault>)
    requires
        plans@.len() == variants@.len(),
        forall|k: int| 0 <= k < variants@.len() ==> longest_plan_ok(variants@, plans@, k),
        c.groups@.len() == combined_names(variants@).len(),
    ensures
        res_val_view(r) == cap_value(variants@, cap_view(*c), 0),
{
    let ghost vs = variants@;
    let ghost gc = cap_view(*c);
    let glen = c.groups.len();
    let n = variants.len();
    let mut i: usize = 0;
    while i < n
        invariant
            vs == variants@,
            gc == cap_view(*c),
            n == vs.len(),
            i <= n,
            glen == c.groups@.len(),
            plans@.len() == vs.len(),
            forall|k: int| 0 <= k < vs.len() ==> longest_plan_ok(vs, plans@, k),
            glen == combined_names(vs).len(),
            cap_value(vs, gc, 0) == cap_value(vs, gc, i as int),
        decreases n - i,
    {
        match &variants[i].kind {
            VariantKind::Patterned(_) => {
                match &plans[i] {
                    VarPlan::Marked { base, gset } => {
                        proof {
                            assert(longest_plan_ok(vs, plans@, i as int));
                            lemma_names_upto_prefix(vs, i as int + 1, vs.len() as int);
                            assert(longest_var_names(vs[i as int]).len() == 1 + resolved_names(
                                vs[i as int],
                                true,
                            ).len());
                            assert(names_upto(vs, i as int + 1).len() == names_upto(
                                vs,
                                i as int,
                            ).len() + longest_var_names(vs[i as int]).len());
                            assert(*base + 1 <= glen);
                            assert(gc.groups[*base as int] == opt_bytes_view(
                                c.groups@[*base as int],
                            ));
                        }
                        if c.groups[*base].is_some() {
                            match build_fields(&variants[i], gset, true, c, *base + 1) {
                                Some(fields) => {
                                    proof {
                                        assert(cap_value(vs, gc, i as int)
                                            == Ok::<Option<GValue>, MatchFault>(Some(
                                            GValue::Record {
                                                variant: i as int,
                                                fields: opt_bytes_list_view(fields@),
                                            },
                                        )));
                                    }
                                    return Ok(Some(Value::Record { variant: i, fields }));
                                },
                                None => {
                                    proof {
                                        assert(cap_value(vs, gc, i as int)
                                            == Err::<Option<GValue>, MatchFault>(
                                            MatchFault::MissingRequiredGroup,
                                        ));
                                    }
                                    return Err(MatchFault::MissingRequiredGroup);
                                },
                            }
                        }
                    },
                    VarPlan::Inert => {
                        proof {
                            assert(longest_plan_ok(vs, plans@, i as int));
                            assert(false);
                        }
                    },
                }
            },
            VariantKind::Transparent(_) => {},
            VariantKind::Plain => {},
        }
        proof {
            assert(cap_value(vs, gc, i as int) == cap_value(vs, gc, i as int + 1));
        }
        i = i + 1;
    }
    Ok(None)
}

proof fn lemma_ml_longest_err(vs: Seq<VariantDef>, caps: Seq<GCapMatch>, a: int, b: int)
    requires
        0 <= a <= b,
        ml_longest_upto(vs, caps, a) is Err,
    ensures
        ml_longest_upto(vs, caps, b) == ml_longest_upto(vs, caps, a),
    decreases b - a,
{
    if a < b {
        lemma_ml_longest_err(vs, caps, a, b - 1);
    }
}

proof fn lemma_ml_trans_err(
    vs: Seq<VariantDef>,
    text: Seq<u8>,
    m0: Result<Seq<GEntry>, MatchFault>,
    a: int,
    b: int,
)
    requires
        0 <= a <= b <= vs.len(),
        ml_trans_upto(vs, text, m0, a) is Err,
    ensures
        ml_trans_upto(vs, text, m0, b) == ml_trans_upto(vs, text, m0, a),
    decreases b - a,
{
    if a < b {
        lemma_ml_trans_err(vs, text, m0, a, b - 1);
    }
}

proof fn lemma_ml_first_caps_err(
    v: VariantDef,
    vidx: int,
    caps: Seq<GCapMatch>,
    m0: Seq<GEntry>,
    a: int,
    b: int,
)
    requires
        0 <= a <= b,
        ml_first_caps(v, vidx, caps, a, m0) is Err,
    ensures
        ml_first_caps(v, vidx, caps, b, m0) == ml_first_caps(v, vidx, caps, a, m0),
    decreases b - a,
{
    if a < b {
        lemma_ml_first_caps_err(v, vidx, caps, m0, a, b - 1);
    }
}

proof fn lemma_ml_first_upto_err(vs: Seq<VariantDef>, text: Seq<u8>, a: int, b: int)
    requires
        0 <= a <= b <= vs.len(),
        ml_first_upto(vs, text, a) is Err,
    ensures
        ml_first_upto(vs, text, b) == ml_first_upto(vs, text, a),
    decreases b - a,
{
    if a < b {
        lemma_ml_first_upto_err(vs, text, a, b - 1);
    }
}

impl Shape {
    /// Search the text and return every non-overlapping occurrence with its
    /// source range, as a disjoint interval map: no two returned ranges
    /// intersect.  Under `Longest` priority a longer match displaces shorter
    /// boundary entries (per the longest-overlap merge); under `First`
    /// priority earlier-declared variants keep their claims.  An occurrence
    /// that fires a variant whose required group is absent from the report is
    /// the internal-consistency fault: the search aborts with it.
    pub fn match_locations(&self, text: &[u8]) -> (r: Result<SegmentMap, MatchFault>)
        requires
            self.wf(),
        ensures
            match r {
                Ok(m) => m.wf() && spec_match_locations(*self, text@)
                    == Ok::<Seq<GEntry>, MatchFault>(m@),
                Err(e) => spec_match_locations(*self, text@) == Err::<Seq<GEntry>, MatchFault>(e),
            },
        decreases *self,
    {
        let ghost vs = self.spec_variants();
        proof {
            assert(nested_wf_from(vs, 0));
        }
        let n = self.variants.len();
        let mut map = SegmentMap::new();
        match &self.engine {
            Engine::Combined { re, names, plans } => {
                let caps = rex::captures_all(re, text, names);
                let ghost gcaps = caps_view(caps@);
                proof {
                    assert(gcaps == re_captures_all(
                        combined_pattern(vs),
                        text@,
                        combined_names(vs),
                    ));
                    assert(map@ =~= Seq::<GEntry>::empty());
                    assert(ml_longest_upto(vs, gcaps, 0) == Ok::<Seq<GEntry>, MatchFault>(map@));
                    assert(spec_match_locations(*self, text@) == ml_trans_upto(
                        vs,
                        text@,
                        ml_longest_upto(vs, gcaps, gcaps.len() as int),
                        vs.len() as int,
                    ));
                }
                let caps_len = caps.len();
                let mut k: usize = 0;
                while k < caps_len
                    invariant
                        vs == self.spec_variants(),
                        n == vs.len(),
                        caps_len == caps@.len(),
                        gcaps == caps_view(caps@),
                        k <= caps_len,
                        plans@.len() == vs.len(),
                        forall|t: int| 0 <= t < vs.len() ==> longest_plan_ok(vs, plans@, t),
                        names_view(names@) == combined_names(vs),
                        forall|t: int|
                            0 <= t < caps@.len() ==> (#[trigger] caps@[t]).groups@.len()
                                == names@.len(),
                        map.wf(),
                        ml_longest_upto(vs, gcaps, k as int) == Ok::<Seq<GEntry>, MatchFault>(
                            map@,
                        ),
                        spec_match_locations(*self, text@) == ml_trans_upto(
                            vs,
                            text@,
                            ml_longest_upto(vs, gcaps, gcaps.len() as int),
                            vs.len() as int,
                        ),
                    decreases caps_len - k,
                {
                    let ghost pre_map = map@;
                    let c = &caps[k];
                    proof {
                        assert(gcaps[k as int] == cap_view(caps@[k as int]));
                        assert(names@.len() == names_view(names@).len());
                    }
                    if c.start < c.end {
                        match pick_variant_value(&self.variants, plans, c) {
                            Ok(Some(v)) => {
                                let ghost gv = val_view(v);
                                let _ = map.insert_if_empty(c.start, c.end, v);
                                proof {
                                    assert(map@ == spec_insert_if_empty(
                                        pre_map,
                                        gcaps[k as int].start,
                                        gcaps[k as int].end,
                                        gv,
                                    ).0);
                                }
                            },
                            Ok(None) => {},
                            Err(e) => {
                                proof {
                                    assert(ml_longest_upto(vs, gcaps, k as int + 1)
                                        == Err::<Seq<GEntry>, MatchFault>(e));
                                    lemma_ml_longest_err(
                                        vs,
                                        gcaps,
                                        k as int + 1,
                                        gcaps.len() as int,
                                    );
                                    lemma_ml_trans_err(vs, text@, Err(e), 0, vs.len() as int);
                                }
                                return Err(e);
                            },
                        }
                    }
                    proof {
                        assert(ml_longest_upto(vs, gcaps, k as int + 1)
                            == Ok::<Seq<GEntry>, MatchFault>(map@));
                    }
                    k = k + 1;
                }
                let ghost base_map = map@;
                proof {
                    assert(ml_longest_upto(vs, gcaps, gcaps.len() as int)
                        == Ok::<Seq<GEntry>, MatchFault>(base_map));
                    assert(ml_trans_upto(vs, text@, Ok(base_map), 0)
                        == Ok::<Seq<GEntry>, MatchFault>(map@));
                    assert(spec_match_locations(*self, text@) == ml_trans_upto(
                        vs,
                        text@,
                        Ok(base_map),
                        vs.len() as int,
                    ));
                }
                let mut i: usize = 0;
                while i < n
                    invariant
                        vs == self.spec_variants(),
                        nested_wf_from(vs, 0),
                        n == vs.len(),
                        i <= n,
                        map.wf(),
                        ml_trans_upto(vs, text@, Ok(base_map), i as int)
                            == Ok::<Seq<GEntry>, MatchFault>(map@),
                        spec_match_locations(*self, text@) == ml_trans_upto(
                            vs,
                            text@,
                            Ok(base_map),
                            vs.len() as int,
                        ),
                    decreases n - i,
                {
                    match &self.variants[i].kind {
                        VariantKind::Transparent(b) => {
                            proof {
                                lemma_nested_wf_at(vs, i as int);
                            }
                            let inner = match b.match_locations(text) {
                                Ok(m) => m,
                                Err(e) => {
                                    proof {
                                        assert(ml_trans_upto(vs, text@, Ok(base_map), i as int + 1)
                                            == Err::<Seq<GEntry>, MatchFault>(e));
                                        lemma_ml_trans_err(
                                            vs,
                                            text@,
                                            Ok(base_map),
                                            i as int + 1,
                                            vs.len() as int,
                                        );
                                    }
                                    return Err(e);
                                },
                            };
                            let ghost inner_view = inner@;
                            proof {
                                assert(entries_wf(inner_view));
                            }
                            let mut entries = inner.into_entries();
                            let mut batch: Vec<SegEntry> = Vec::new();
                            proof {
                                assert(entries_view(batch@) + wrap_nested(
                                    entries_view(entries@),
                                    i as int,
                                ) =~= wrap_nested(inner_view, i as int));
                            }
                            while entries.len() > 0
                                invariant
                                    entries_view(batch@) + wrap_nested(
                                        entries_view(entries@),
                                        i as int,
                                    ) =~= wrap_nested(inner_view, i as int),
                                    forall|t: int|
                                        0 <= t < batch@.len() ==> (#[trigger] batch@[t]).start
                                            < batch@[t].end,
                                    entries_wf(entries_view(entries@)),
                                decreases entries.len(),
                            {
                                let ghost pre = entries@;
                                let ghost batch_pre = batch@;
                                let e = entries.remove(0);
                                proof {
                                    lemma_entries_view_remove(pre, 0);
                                    assert(entries_view(entries@) =~= entries_view(
                                        pre,
                                    ).drop_first());
                                    assert(entries_view(pre)[0] == entry_view(e));
                                    assert(entry_view(e).start < entry_view(e).end);
                                    lemma_wf_remove(entries_view(pre), 0);
                                    assert(entries_view(pre).remove(0) =~= entries_view(
                                        pre,
                                    ).drop_first());
                                }
                                let wrapped = SegEntry {
                                    start: e.start,
                                    end: e.end,
                                    value: Value::Nested { variant: i, inner: Box::new(e.value) },
                                };
                                batch.push(wrapped);
                                proof {
                                    assert(entries_view(batch@) =~= entries_view(batch_pre)
                                        + seq![entry_view(wrapped)]);
                                    assert(wrap_nested(entries_view(pre), i as int)
                                        =~= seq![entry_view(wrapped)] + wrap_nested(
                                        entries_view(entries@),
                                        i as int,
                                    ));
                                    assert(entries_view(batch@) + wrap_nested(
                                        entries_view(entries@),
                                        i as int,
                                    ) =~= wrap_nested(inner_view, i as int));
                                }
                            }
                            proof {
                                assert(entries_view(entries@) =~= Seq::<GEntry>::empty());
                                assert(wrap_nested(entries_view(entries@), i as int)
                                    =~= Seq::<GEntry>::empty());
                                assert(entries_view(batch@) =~= wrap_nested(inner_view, i as int));
                            }
                            let ghost pre_map = map@;
                            map.merge_only_longest(batch);
                            proof {
                                assert(map@ == spec_merge(
                                    pre_map,
                                    wrap_nested(inner_view, i as int),
                                ));
                                assert(ml_trans_upto(vs, text@, Ok(base_map), i as int + 1)
                                    == Ok::<Seq<GEntry>, MatchFault>(map@));
                            }
                        },
                        VariantKind::Patterned(_) => {
                            proof {
                                assert(ml_trans_upto(vs, text@, Ok(base_map), i as int + 1)
                                    == ml_trans_upto(vs, text@, Ok(base_map), i as int));
                            }
                        },
                        VariantKind::Plain => {
                            proof {
                                assert(ml_trans_upto(vs, text@, Ok(base_map), i as int + 1)
                                    == ml_trans_upto(vs, text@, Ok(base_map), i as int));
                            }
                        },
                    }
                    i = i + 1;
                }
                Ok(map)
            },
            Engine::Separate { plans } => {
                proof {
                    assert(map@ =~= Seq::<GEntry>::empty());
                    assert(ml_first_upto(vs, text@, 0) == Ok::<Seq<GEntry>, MatchFault>(map@));
                    assert(spec_match_locations(*self, text@) == ml_first_upto(
                        vs,
                        text@,
                        vs.len() as int,
                    ));
                }
                let mut i: usize = 0;
                while i < n
                    invariant
                        vs == self.spec_variants(),
                        nested_wf_from(vs, 0),
                        n == vs.len(),
                        i <= n,
                        plans@.len() == vs.len(),
                        forall|t: int| 0 <= t < vs.len() ==> separate_plan_ok(vs, plans@, t),
                        map.wf(),
                        ml_first_upto(vs, text@, i as int) == Ok::<Seq<GEntry>, MatchFault>(map@),
                        spec_match_locations(*self, text@) == ml_first_upto(
                            vs,
                            text@,
                            vs.len() as int,
                        ),
                    decreases n - i,
                {
                    let ghost prev_map = map@;
                    match &self.variants[i].kind {
                        VariantKind::Patterned(_) => {
                            match &plans[i] {
                                SepPlan::Pat { re, names, gset } => {
                                    proof {
                                        assert(separate_plan_ok(vs, plans@, i as int));
                                    }
                                    let caps = rex::captures_all(re, text, names);
                                    let ghost gcaps = caps_view(caps@);
                                    proof {
                                        assert(ml_first_caps(vs[i as int], i as int, gcaps, 0, prev_map)
                                            == Ok::<Seq<GEntry>, MatchFault>(map@));
                                    }
                                    let caps_len = caps.len();
                                    let mut k: usize = 0;
                                    while k < caps_len
                                        invariant
                                            vs == self.spec_variants(),
                                            0 <= i < vs.len(),
                                            separate_plan_ok(vs, plans@, i as int),
                                            plans@.len() == vs.len(),
                                            vs[i as int].kind is Patterned,
                                            groups_view(gset@) == variant_gset(vs[i as int], false),
                                            names_view(names@) == resolved_names(
                                                vs[i as int],
                                                false,
                                            ),
                                            caps_len == caps@.len(),
                                            gcaps == caps_view(caps@),
                                            k <= caps_len,
                                            forall|t: int|
                                                0 <= t < caps@.len() ==> (
                                                #[trigger] caps@[t]).groups@.len() == names@.len(),
                                            map.wf(),
                                            ml_first_caps(
                                                vs[i as int],
                                                i as int,
                                                gcaps,
                                                k as int,
                                                prev_map,
                                            ) == Ok::<Seq<GEntry>, MatchFault>(map@),
                                            vs[i as int].kind matches VariantKind::Patterned(q)
                                                && gcaps == re_captures_all(
                                                q@,
                                                text@,
                                                resolved_names(vs[i as int], false),
                                            ),
                                            ml_first_upto(vs, text@, i as int)
                                                == Ok::<Seq<GEntry>, MatchFault>(prev_map),
                                            spec_match_locations(*self, text@) == ml_first_upto(
                                                vs,
                                                text@,
                                                vs.len() as int,
                                            ),
                                        decreases caps_len - k,
                                    {
                                        let ghost pre_map = map@;
                                        let c = &caps[k];
                                        proof {
                                            assert(gcaps[k as int] == cap_view(caps@[k as int]));
                                            assert(names@.len() == names_view(names@).len());
                                        }
                                        if c.start < c.end {
                                            match build_fields(&self.variants[i], gset, false, c, 0)
                                                {
                                                Some(fields) => {
                                                    let ghost gfs = opt_bytes_list_view(fields@);
                                                    let _ = map.insert_if_empty(
                                                        c.start,
                                                        c.end,
                                                        Value::Record { variant: i, fields },
                                                    );
                                                    proof {
                                                        assert(map@ == spec_insert_if_empty(
                                                            pre_map,
                                                            gcaps[k as int].start,
                                                            gcaps[k as int].end,
                                                            GValue::Record {
                                                                variant: i as int,
                                                                fields: gfs,
                                                            },
                                                        ).0);
                                                    }
                                                },
                                                None => {
                                                    proof {
                                                        assert(ml_first_caps(
                                                            vs[i as int],
                                                            i as int,
                                                            gcaps,
                                                            k as int + 1,
                                                            prev_map,
                                                        ) == Err::<Seq<GEntry>, MatchFault>(
                                                            MatchFault::MissingRequiredGroup,
                                                        ));
                                                        lemma_ml_first_caps_err(
                                                            vs[i as int],
                                                            i as int,
                                                            gcaps,
                                                            prev_map,
                                                            k as int + 1,
                                                            gcaps.len() as int,
                                                        );
                                                        assert(ml_first_upto(
                                                            vs,
                                                            text@,
                                                            i as int + 1,
                                                        ) == Err::<Seq<GEntry>, MatchFault>(
                                                            MatchFault::MissingRequiredGroup,
                                                        ));
                                                        lemma_ml_first_upto_err(
                                                            vs,
                                                            text@,
                                                            i as int + 1,
                                                            vs.len() as int,
                                                        );
                                                    }
                                                    return Err(MatchFault::MissingRequiredGroup);
                                                },
                                            }
                                        }
                                        proof {
                                            assert(ml_first_caps(
                                                vs[i as int],
                                                i as int,
                                                gcaps,
                                                k as int + 1,
                                                prev_map,
                                            ) == Ok::<Seq<GEntry>, MatchFault>(map@));
                                        }
                                        k = k + 1;
                                    }
                                    proof {
                                        assert(ml_first_upto(vs, text@, i as int + 1)
                                            == Ok::<Seq<GEntry>, MatchFault>(map@));
                                    }
                                },
                                SepPlan::Inert => {
                                    proof {
                                        assert(separate_plan_ok(vs, plans@, i as int));
                                        assert(false);
                                    }
                                },
                            }
                        },
                        VariantKind::Transparent(b) => {
                            proof {
                                lemma_nested_wf_at(vs, i as int);
                            }
                            let inner = match b.match_locations(text) {
                                Ok(m) => m,
                                Err(e) => {
                                    proof {
                                        assert(ml_first_upto(vs, text@, i as int + 1)
                                            == Err::<Seq<GEntry>, MatchFault>(e));
                                        lemma_ml_first_upto_err(
                                            vs,
                                            text@,
                                            i as int + 1,
                                            vs.len() as int,
                                        );
                                    }
                                    return Err(e);
                                },
                            };
                            let ghost inner_view = inner@;
                            proof {
                                assert(entries_wf(inner_view));
                            }
                            let mut entries = inner.into_entries();
                            let total_len = entries.len();
                            let mut t: usize = 0;
                            proof {
                                assert(inner_view.len() == total_len);
                                assert(entries_view(entries@) =~= inner_view.subrange(
                                    0,
                                    inner_view.len() as int,
                                ));
                                assert(map@ == ml_first_entries(inner_view, i as int, 0, prev_map));
                            }
                            while entries.len() > 0
                                invariant
                                    0 <= i,
                                    entries_wf(inner_view),
                                    inner_view.len() == total_len,
                                    t as int + entries@.len() == inner_view.len(),
                                    entries_view(entries@) =~= inner_view.subrange(
                                        t as int,
                                        inner_view.len() as int,
                                    ),
                                    map.wf(),
                                    map@ == ml_first_entries(
                                        inner_view,
                                        i as int,
                                        t as int,
                                        prev_map,
                                    ),
                                decreases entries.len(),
                            {
                                let ghost pre = entries@;
                                let ghost pre_map = map@;
                                let e = entries.remove(0);
                                proof {
                                    lemma_entries_view_remove(pre, 0);
                                    assert(entries_view(entries@) =~= entries_view(
                                        pre,
                                    ).drop_first());
                                    assert(entries_view(pre)[0] == entry_view(e));
                                    assert(entry_view(e) == inner_view[t as int]);
                                    assert(inner_view[t as int].start < inner_view[t as int].end);
                                    assert(entries_view(entries@) =~= inner_view.subrange(
                                        t as int + 1,
                                        inner_view.len() as int,
                                    ));
                                }
                                let ghost gv = val_view(e.value);
                                let _ = map.insert_if_empty(
                                    e.start,
                                    e.end,
                                    Value::Nested { variant: i, inner: Box::new(e.value) },
                                );
                                proof {
                                    assert(map@ == spec_insert_if_empty(
                                        pre_map,
                                        inner_view[t as int].start,
                                        inner_view[t as int].end,
                                        GValue::Nested {
                                            variant: i as int,
                                            inner: Box::new(inner_view[t as int].value),
                                        },
                                    ).0);
                                    assert(map@ == ml_first_entries(
                                        inner_view,
                                        i as int,
                                        t as int + 1,
                                        prev_map,
                                    ));
                                }
                                t = t + 1;
                            }
                            proof {
                                assert(t as int == inner_view.len());
                                assert(ml_first_upto(vs, text@, i as int + 1)
                                    == Ok::<Seq<GEntry>, MatchFault>(map@));
                            }
                        },
                        VariantKind::Plain => {
                            proof {
                                assert(ml_first_upto(vs, text@, i as int + 1) == ml_first_upto(
                                    vs,
                                    text@,
                                    i as int,
                                ));
                            }
                        },
                    }
                    i = i + 1;
                }
                Ok(map)
            },
        }
    }

    /// Search the text and return every value matched, left to right by its
    /// winning range — or the internal-consistency fault.
    pub fn matches(&self, text: &[u8]) -> (r: Result<Vec<Value>, MatchFault>)
        requires
            self.wf(),
        ensures
            match r {
                Ok(v) => spec_match_locations(*self, text@) matches Ok(es) && vals_view(v@)
                    == values_of(es),
                Err(e) => spec_match_locations(*self, text@) == Err::<Seq<GEntry>, MatchFault>(e),
            },
    {
        match self.match_locations(text) {
            Ok(m) => Ok(m.into_values()),
            Err(e) => Err(e),
        }
    }
}

} // verus!

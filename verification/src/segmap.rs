//! A sorted interval map: disjoint half-open `usize` ranges, each holding a
//! value, with point lookup, conditional insert, exact removal, forced
//! overwrite, and a merge that keeps the longer span on conflict.

use vstd::prelude::*;

use crate::value::{opt_val_view, val_view, GValue, Value};

verus! {

/// One stored entry: the half-open interval `[start, end)` and its value.
pub struct SegEntry {
    pub start: usize,
    pub end: usize,
    pub value: Value,
}

/// The mathematical form of an entry.
pub struct GEntry {
    pub start: int,
    pub end: int,
    pub value: GValue,
}

/// The mathematical form of a concrete entry.
pub open spec fn entry_view(e: SegEntry) -> GEntry {
    GEntry { start: e.start as int, end: e.end as int, value: val_view(e.value) }
}

/// The mathematical form of a vector of entries.
pub open spec fn entries_view(es: Seq<SegEntry>) -> Seq<GEntry> {
    es.map(|i: int, e: SegEntry| entry_view(e))
}

/// Two half-open ranges share at least one point.
pub open spec fn ranges_overlap(a_start: int, a_end: int, b_start: int, b_end: int) -> bool {
    a_start < b_end && b_start < a_end
}

/// Entries are non-empty, sorted by position, and pairwise disjoint.
pub open spec fn entries_wf(es: Seq<GEntry>) -> bool {
    &&& forall|i: int| 0 <= i < es.len() ==> (#[trigger] es[i]).start < es[i].end
    &&& forall|i: int, j: int|
        0 <= i < j < es.len() ==> (#[trigger] es[i]).end <= (#[trigger] es[j]).start
}

/// No stored entry intersects `[start, end)`.
pub open spec fn range_free(es: Seq<GEntry>, start: int, end: int) -> bool {
    forall|i: int|
        0 <= i < es.len() ==> !ranges_overlap((#[trigger] es[i]).start, es[i].end, start, end)
}

/// Where an entry starting at `start` belongs in the sorted order.
pub open spec fn insert_pos(es: Seq<GEntry>, start: int) -> int
    decreases es.len(),
{
    if es.len() == 0 {
        0
    } else if es[0].start >= start {
        0
    } else {
        1 + insert_pos(es.drop_first(), start)
    }
}

/// Conditional insert: the new map and the rejected value, if any.
pub open spec fn spec_insert_if_empty(es: Seq<GEntry>, start: int, end: int, v: GValue) -> (
    Seq<GEntry>,
    Option<GValue>,
) {
    if range_free(es, start, end) {
        (es.insert(insert_pos(es, start), GEntry { start, end, value: v }), None)
    } else {
        (es, Some(v))
    }
}

proof fn lemma_insert_pos_is(es: Seq<GEntry>, start: int, p: int)
    requires
        0 <= p <= es.len(),
        forall|i: int| 0 <= i < p ==> (#[trigger] es[i]).start < start,
        p < es.len() ==> es[p].start >= start,
    ensures
        insert_pos(es, start) == p,
    decreases es.len(),
{
    if es.len() > 0 && es[0].start < start {
        assert(p > 0);
        let rest = es.drop_first();
        assert forall|i: int| 0 <= i < p - 1 implies (#[trigger] rest[i]).start < start by {
            assert(rest[i] == es[i + 1]);
        }
        lemma_insert_pos_is(rest, start, p - 1);
    }
}

proof fn lemma_entries_view_insert(es: Seq<SegEntry>, i: int, e: SegEntry)
    requires
        0 <= i <= es.len(),
    ensures
        entries_view(es.insert(i, e)) =~= entries_view(es).insert(i, entry_view(e)),
{
}

pub(crate) proof fn lemma_entries_view_remove(es: Seq<SegEntry>, i: int)
    requires
        0 <= i < es.len(),
    ensures
        entries_view(es.remove(i)) =~= entries_view(es).remove(i),
{
}

pub(crate) proof fn lemma_wf_remove(es: Seq<GEntry>, i: int)
    requires
        entries_wf(es),
        0 <= i < es.len(),
    ensures
        entries_wf(es.remove(i)),
{
    let ns = es.remove(i);
    assert forall|a: int| 0 <= a < ns.len() implies (#[trigger] ns[a]).start < ns[a].end by {
        if a < i {
            assert(ns[a] == es[a]);
        } else {
            assert(ns[a] == es[a + 1]);
        }
    }
    assert forall|a: int, b: int| 0 <= a < b < ns.len() implies (#[trigger] ns[a]).end
        <= (#[trigger] ns[b]).start by {
        if b < i {
            assert(ns[a] == es[a] && ns[b] == es[b]);
        } else if a < i {
            assert(ns[a] == es[a] && ns[b] == es[b + 1]);
        } else {
            assert(ns[a] == es[a + 1] && ns[b] == es[b + 1]);
        }
    }
}

/// The entry whose range holds the point `p`, if any.
pub open spec fn spec_lookup_at(es: Seq<GEntry>, p: int) -> Option<GEntry>
    decreases es.len(),
{
    if es.len() == 0 {
        None
    } else if es[0].start <= p < es[0].end {
        Some(es[0])
    } else {
        spec_lookup_at(es.drop_first(), p)
    }
}

proof fn lemma_lookup_at_found(es: Seq<GEntry>, p: int, i: int)
    requires
        0 <= i < es.len(),
        es[i].start <= p < es[i].end,
        forall|k: int| 0 <= k < i ==> !((#[trigger] es[k]).start <= p < es[k].end),
    ensures
        spec_lookup_at(es, p) == Some(es[i]),
    decreases es.len(),
{
    if i > 0 {
        let rest = es.drop_first();
        assert forall|k: int| 0 <= k < i - 1 implies !((#[trigger] rest[k]).start <= p
            < rest[k].end) by {
            assert(rest[k] == es[k + 1]);
        }
        assert(rest[i - 1] == es[i]);
        lemma_lookup_at_found(rest, p, i - 1);
    }
}

proof fn lemma_lookup_at_absent(es: Seq<GEntry>, p: int)
    requires
        forall|k: int| 0 <= k < es.len() ==> !((#[trigger] es[k]).start <= p < es[k].end),
    ensures
        spec_lookup_at(es, p) is None,
    decreases es.len(),
{
    if es.len() > 0 {
        let rest = es.drop_first();
        assert forall|k: int| 0 <= k < rest.len() implies !((#[trigger] rest[k]).start <= p
            < rest[k].end) by {
            assert(rest[k] == es[k + 1]);
        }
        lemma_lookup_at_absent(rest, p);
    }
}

proof fn lemma_lookup_at_member(es: Seq<GEntry>, p: int)
    requires
        spec_lookup_at(es, p) is Some,
    ensures
        exists|i: int|
            0 <= i < es.len() && es[i] == spec_lookup_at(es, p)->Some_0 && es[i].start <= p
                < es[i].end,
    decreases es.len(),
{
    if es.len() > 0 && !(es[0].start <= p < es[0].end) {
        let rest = es.drop_first();
        lemma_lookup_at_member(rest, p);
        let i = choose|i: int|
            0 <= i < rest.len() && rest[i] == spec_lookup_at(rest, p)->Some_0 && rest[i].start <= p
                < rest[i].end;
        assert(es[i + 1] == rest[i]);
    }
}

/// Remove the entry matching `[start, end)` exactly, if one is stored.
pub open spec fn spec_clear(es: Seq<GEntry>, start: int, end: int) -> Seq<GEntry>
    decreases es.len(),
{
    if es.len() == 0 {
        es
    } else if es[0].start == start && es[0].end == end {
        es.drop_first()
    } else {
        seq![es[0]] + spec_clear(es.drop_first(), start, end)
    }
}

proof fn lemma_clear_at(es: Seq<GEntry>, start: int, end: int, i: int)
    requires
        0 <= i < es.len(),
        es[i].start == start && es[i].end == end,
        forall|k: int| 0 <= k < i ==> !((#[trigger] es[k]).start == start && es[k].end == end),
    ensures
        spec_clear(es, start, end) =~= es.remove(i),
    decreases es.len(),
{
    if i == 0 {
    } else {
        let rest = es.drop_first();
        assert forall|k: int| 0 <= k < i - 1 implies !((#[trigger] rest[k]).start == start
            && rest[k].end == end) by {
            assert(rest[k] == es[k + 1]);
        }
        assert(rest[i - 1] == es[i]);
        lemma_clear_at(rest, start, end, i - 1);
        assert(spec_clear(es, start, end) =~= seq![es[0]] + rest.remove(i - 1));
    }
}

proof fn lemma_clear_none(es: Seq<GEntry>, start: int, end: int)
    requires
        forall|k: int|
            0 <= k < es.len() ==> !((#[trigger] es[k]).start == start && es[k].end == end),
    ensures
        spec_clear(es, start, end) =~= es,
    decreases es.len(),
{
    if es.len() > 0 {
        let rest = es.drop_first();
        assert forall|k: int| 0 <= k < rest.len() implies !((#[trigger] rest[k]).start == start
            && rest[k].end == end) by {
            assert(rest[k] == es[k + 1]);
        }
        lemma_clear_none(rest, start, end);
    }
}

/// The entries that do not intersect `[start, end)`, in order.
pub open spec fn keep_outside(es: Seq<GEntry>, start: int, end: int) -> Seq<GEntry>
    decreases es.len(),
{
    if es.len() == 0 {
        es
    } else {
        let rest = keep_outside(es.drop_first(), start, end);
        if ranges_overlap(es[0].start, es[0].end, start, end) {
            rest
        } else {
            seq![es[0]] + rest
        }
    }
}

proof fn lemma_keep_outside_props(es: Seq<GEntry>, start: int, end: int)
    requires
        entries_wf(es),
    ensures
        entries_wf(keep_outside(es, start, end)),
        range_free(keep_outside(es, start, end), start, end),
        forall|k: int|
            0 <= k < keep_outside(es, start, end).len() ==> es.contains(
                #[trigger] keep_outside(es, start, end)[k],
            ),
        forall|i: int|
            0 <= i < es.len() && !ranges_overlap((#[trigger] es[i]).start, es[i].end, start, end)
                ==> keep_outside(es, start, end).contains(es[i]),
    decreases es.len(),
{
    let kept = keep_outside(es, start, end);
    if es.len() > 0 {
        let tail = es.drop_first();
        lemma_wf_remove(es, 0);
        assert(tail =~= es.remove(0));
        lemma_keep_outside_props(tail, start, end);
        let krest = keep_outside(tail, start, end);
        assert forall|k: int| 0 <= k < kept.len() implies es.contains(#[trigger] kept[k]) by {
            if ranges_overlap(es[0].start, es[0].end, start, end) {
                assert(tail.contains(kept[k]));
                let j = choose|j: int| 0 <= j < tail.len() && tail[j] == kept[k];
                assert(es[j + 1] == tail[j]);
            } else {
                if k == 0 {
                    assert(kept[0] == es[0]);
                } else {
                    assert(krest[k - 1] == kept[k]);
                    assert(tail.contains(kept[k]));
                    let j = choose|j: int| 0 <= j < tail.len() && tail[j] == kept[k];
                    assert(es[j + 1] == tail[j]);
                }
            }
        }
        assert forall|i: int|
            0 <= i < es.len() && !ranges_overlap(
                (#[trigger] es[i]).start,
                es[i].end,
                start,
                end,
            ) implies kept.contains(es[i]) by {
            if i == 0 {
                assert(kept[0] == es[0]);
            } else {
                assert(tail[i - 1] == es[i]);
                assert(krest.contains(es[i]));
                let j = choose|j: int| 0 <= j < krest.len() && krest[j] == es[i];
                if !ranges_overlap(es[0].start, es[0].end, start, end) {
                    assert(kept[j + 1] == krest[j]);
                }
            }
        }
        if !ranges_overlap(es[0].start, es[0].end, start, end) {
            assert forall|a: int| 0 <= a < kept.len() implies (#[trigger] kept[a]).start
                < kept[a].end by {
                if a > 0 {
                    assert(kept[a] == krest[a - 1]);
                }
            }
            assert forall|a: int, b: int| 0 <= a < b < kept.len() implies (#[trigger] kept[a]).end
                <= (#[trigger] kept[b]).start by {
                assert(kept[b] == krest[b - 1]);
                assert(tail.contains(krest[b - 1]));
                let j = choose|j: int| 0 <= j < tail.len() && tail[j] == krest[b - 1];
                if a == 0 {
                    assert(es[0].end <= es[j + 1].start);
                } else {
                    assert(kept[a] == krest[a - 1]);
                }
            }
            assert forall|a: int|
                0 <= a < kept.len() implies !ranges_overlap(
                (#[trigger] kept[a]).start,
                kept[a].end,
                start,
                end,
            ) by {
                if a > 0 {
                    assert(kept[a] == krest[a - 1]);
                }
            }
        }
    }
}

/// Unconditional write: every entry intersecting `[start, end)` is removed,
/// then the new entry is inserted in sorted position.
pub open spec fn spec_force_set(es: Seq<GEntry>, start: int, end: int, v: GValue) -> Seq<GEntry> {
    let kept = keep_outside(es, start, end);
    kept.insert(insert_pos(kept, start), GEntry { start, end, value: v })
}

/// Whether the longest-overlap merge keeps a candidate: either its range is
/// free, or it is strictly longer than the stored entry at its start point
/// (if any) and strictly longer than the stored entry at its end point (if
/// any).
pub open spec fn merge_step_accepts(es: Seq<GEntry>, c: GEntry) -> bool {
    ||| range_free(es, c.start, c.end)
    ||| {
        let len = c.end - c.start;
        let ok_before = match spec_lookup_at(es, c.start) {
            Some(b) => len > b.end - b.start,
            None => true,
        };
        let ok_after = match spec_lookup_at(es, c.end) {
            Some(a) => len > a.end - a.start,
            None => true,
        };
        ok_before && ok_after
    }
}

/// One fold step of the longest-overlap merge: try a plain insert; on
/// conflict, compare the candidate against the boundary entries at its two
/// endpoints, and either clear them and force the candidate in, or discard
/// the candidate.
pub open spec fn spec_merge_step(es: Seq<GEntry>, c: GEntry) -> Seq<GEntry> {
    if range_free(es, c.start, c.end) {
        es.insert(insert_pos(es, c.start), c)
    } else if merge_step_accepts(es, c) {
        let es1 = match spec_lookup_at(es, c.start) {
            Some(b) => spec_clear(es, b.start, b.end),
            None => es,
        };
        let es2 = match spec_lookup_at(es, c.end) {
            Some(a) => spec_clear(es1, a.start, a.end),
            None => es1,
        };
        spec_force_set(es2, c.start, c.end, c.value)
    } else {
        es
    }
}

/// Fold a batch of candidates into the map, left to right.
pub open spec fn spec_merge(es: Seq<GEntry>, cs: Seq<GEntry>) -> Seq<GEntry>
    decreases cs.len(),
{
    if cs.len() == 0 {
        es
    } else {
        spec_merge(spec_merge_step(es, cs[0]), cs.drop_first())
    }
}

/// A sorted collection of disjoint `[start, end)` ranges, each mapped to a
/// value.  Invariant: no two entries overlap, and no entry is empty.
pub struct SegmentMap {
    entries: Vec<SegEntry>,
}

impl View for SegmentMap {
    type V = Seq<GEntry>;

    closed spec fn view(&self) -> Seq<GEntry> {
        entries_view(self.entries@)
    }
}

impl SegmentMap {
    /// The map's invariant: non-empty, sorted, pairwise disjoint entries.
    pub open spec fn wf(&self) -> bool {
        entries_wf(self@)
    }

    /// An empty map.
    pub fn new() -> (r: SegmentMap)
        ensures
            r@ =~= Seq::<GEntry>::empty(),
            r.wf(),
    {
        SegmentMap { entries: Vec::new() }
    }

    /// How many ranges are stored.
    pub fn len(&self) -> (r: usize)
        ensures
            r == self@.len(),
    {
        self.entries.len()
    }

    /// The entry at a position in the sorted order.
    pub fn entry_at(&self, i: usize) -> (r: &SegEntry)
        requires
            i < self@.len(),
        ensures
            entry_view(*r) == self@[i as int],
    {
        &self.entries[i]
    }

    /// Give the sorted entries up, consuming the map.
    pub fn into_entries(self) -> (r: Vec<SegEntry>)
        ensures
            entries_view(r@) == self@,
    {
        self.entries
    }

    /// Insert `[start, end) -> value` only if no stored entry intersects the
    /// range; on conflict, hand the rejected value back unchanged.
    pub fn insert_if_empty(&mut self, start: usize, end: usize, value: Value) -> (r: Option<
        Value,
    >)
        requires
            old(self).wf(),
            start < end,
        ensures
            final(self).wf(),
            final(self)@ == spec_insert_if_empty(
                old(self)@,
                start as int,
                end as int,
                val_view(value),
            ).0,
            opt_val_view(r) == spec_insert_if_empty(
                old(self)@,
                start as int,
                end as int,
                val_view(value),
            ).1,
    {
        let ghost es = entries_view(self.entries@);
        proof {
            assert(es == old(self)@);
        }
        let mut pos: usize = 0;
        while pos < self.entries.len() && self.entries[pos].start < start
            invariant
                *self == *old(self),
                es == entries_view(self.entries@),
                pos <= self.entries.len(),
                forall|i: int| 0 <= i < pos ==> (#[trigger] es[i]).start < start,
            decreases self.entries.len() - pos,
        {
            proof {
                assert(es[pos as int] == entry_view(self.entries@[pos as int]));
            }
            pos = pos + 1;
        }
        assert(pos < es.len() ==> es[pos as int].start >= start) by {
            if pos < self.entries.len() {
                assert(es[pos as int] == entry_view(self.entries@[pos as int]));
            }
        }
        let conflict_before = pos > 0 && self.entries[pos - 1].end > start;
        let conflict_after = pos < self.entries.len() && self.entries[pos].start < end;
        if conflict_before || conflict_after {
            proof {
                if conflict_before {
                    assert(es[pos - 1] == entry_view(self.entries@[pos - 1]));
                    assert(ranges_overlap(
                        es[pos - 1].start,
                        es[pos - 1].end,
                        start as int,
                        end as int,
                    ));
                } else {
                    assert(es[pos as int] == entry_view(self.entries@[pos as int]));
                    assert(ranges_overlap(
                        es[pos as int].start,
                        es[pos as int].end,
                        start as int,
                        end as int,
                    ));
                }
                assert(!range_free(es, start as int, end as int));
            }
            Some(value)
        } else {
            proof {
                assert forall|i: int| 0 <= i < pos implies (#[trigger] es[i]).end <= start by {
                    if i < pos - 1 {
                        assert(es[i].end <= es[pos - 1].start);
                    }
                }
                assert forall|i: int| pos <= i < es.len() implies (#[trigger] es[i]).start
                    >= end by {
                    if i > pos {
                        assert(es[pos as int].end <= es[i].start);
                        assert(es[pos as int].start < es[pos as int].end);
                    }
                }
                assert(range_free(es, start as int, end as int));
                lemma_insert_pos_is(es, start as int, pos as int);
            }
            let entry = SegEntry { start, end, value };
            let ghost ge = entry_view(entry);
            self.entries.insert(pos, entry);
            proof {
                lemma_entries_view_insert(old(self).entries@, pos as int, entry);
                let ns = self@;
                assert(ns =~= es.insert(pos as int, ge));
                assert forall|i: int| 0 <= i < ns.len() implies (#[trigger] ns[i]).start
                    < ns[i].end by {}
                assert forall|i: int, j: int| 0 <= i < j < ns.len() implies (#[trigger] ns[i]).end
                    <= (#[trigger] ns[j]).start by {
                    if i < pos && j == pos {
                        assert(ns[i] == es[i]);
                    } else if i == pos && j > pos {
                        assert(ns[j] == es[j - 1]);
                    } else if i < pos && j > pos {
                        assert(ns[i] == es[i] && ns[j] == es[j - 1]);
                    } else if j < pos {
                        assert(ns[i] == es[i] && ns[j] == es[j]);
                    } else if i > pos {
                        assert(ns[i] == es[i - 1] && ns[j] == es[j - 1]);
                    }
                }
            }
            None
        }
    }

    /// The index of the entry whose range holds `p`, if any.
    fn find_at_idx(&self, p: usize) -> (r: Option<usize>)
        ensures
            match r {
                Some(i) => 0 <= i < self@.len() && self@[i as int].start <= p
                    < self@[i as int].end && spec_lookup_at(self@, p as int) == Some(
                    self@[i as int],
                ),
                None => spec_lookup_at(self@, p as int) is None,
            },
    {
        let ghost es = self@;
        let mut i: usize = 0;
        while i < self.entries.len()
            invariant
                es == self@,
                i <= self.entries.len(),
                es.len() == self.entries@.len(),
                forall|k: int| 0 <= k < i ==> !((#[trigger] es[k]).start <= p < es[k].end),
            decreases self.entries.len() - i,
        {
            proof {
                assert(es[i as int] == entry_view(self.entries@[i as int]));
            }
            if self.entries[i].start <= p && p < self.entries[i].end {
                proof {
                    lemma_lookup_at_found(es, p as int, i as int);
                }
                return Some(i);
            }
            i = i + 1;
        }
        proof {
            lemma_lookup_at_absent(es, p as int);
        }
        None
    }

    /// The stored entry whose range holds the point `p`, if any.
    pub fn lookup_at(&self, p: usize) -> (r: Option<&SegEntry>)
        ensures
            match r {
                Some(e) => spec_lookup_at(self@, p as int) == Some(entry_view(*e)),
                None => spec_lookup_at(self@, p as int) is None,
            },
    {
        match self.find_at_idx(p) {
            Some(i) => Some(&self.entries[i]),
            None => None,
        }
    }

    /// Remove the entry matching `[start, end)` exactly, if one is stored.
    pub fn clear(&mut self, start: usize, end: usize)
        requires
            old(self).wf(),
        ensures
            final(self).wf(),
            final(self)@ == spec_clear(old(self)@, start as int, end as int),
    {
        let ghost es = entries_view(self.entries@);
        proof {
            assert(es == old(self)@);
        }
        let mut i: usize = 0;
        while i < self.entries.len()
            invariant
                *self == *old(self),
                es == entries_view(self.entries@),
                entries_wf(es),
                i <= self.entries.len(),
                forall|k: int|
                    0 <= k < i ==> !((#[trigger] es[k]).start == start && es[k].end == end),
            decreases self.entries.len() - i,
        {
            proof {
                assert(es[i as int] == entry_view(self.entries@[i as int]));
            }
            if self.entries[i].start == start && self.entries[i].end == end {
                let ghost pre = self.entries@;
                self.entries.remove(i);
                proof {
                    lemma_entries_view_remove(pre, i as int);
                    lemma_clear_at(es, start as int, end as int, i as int);
                    lemma_wf_remove(es, i as int);
                    assert(self@ =~= spec_clear(es, start as int, end as int));
                }
                return ;
            }
            i = i + 1;
        }
        proof {
            lemma_clear_none(es, start as int, end as int);
            assert(self@ =~= spec_clear(es, start as int, end as int));
        }
    }

    /// Write `[start, end) -> value` unconditionally, removing every entry
    /// the range intersects.
    pub fn force_set(&mut self, start: usize, end: usize, value: Value)
        requires
            old(self).wf(),
            start < end,
        ensures
            final(self).wf(),
            final(self)@ == spec_force_set(old(self)@, start as int, end as int, val_view(value)),
    {
        let ghost orig = entries_view(self.entries@);
        proof {
            assert(orig == old(self)@);
            lemma_keep_outside_props(orig, start as int, end as int);
        }
        let mut kept: Vec<SegEntry> = Vec::new();
        proof {
            assert(entries_view(kept@) =~= Seq::<GEntry>::empty());
            assert(keep_outside(orig, start as int, end as int) =~= entries_view(kept@)
                + keep_outside(entries_view(self.entries@), start as int, end as int));
        }
        while self.entries.len() > 0
            invariant
                keep_outside(orig, start as int, end as int) =~= entries_view(kept@)
                    + keep_outside(entries_view(self.entries@), start as int, end as int),
            decreases self.entries.len(),
        {
            let ghost pre = self.entries@;
            let ghost pres = entries_view(pre);
            let e = self.entries.remove(0);
            proof {
                lemma_entries_view_remove(pre, 0);
                assert(entries_view(self.entries@) =~= pres.drop_first());
                assert(pres[0] == entry_view(e));
            }
            let overlapping = e.start < end && start < e.end;
            let ghost kept_pre = kept@;
            if !overlapping {
                kept.push(e);
                proof {
                    assert(entries_view(kept@) =~= entries_view(kept_pre) + seq![entry_view(e)]);
                    assert(keep_outside(pres, start as int, end as int) == seq![pres[0]]
                        + keep_outside(pres.drop_first(), start as int, end as int));
                }
            } else {
                proof {
                    assert(keep_outside(pres, start as int, end as int) == keep_outside(
                        pres.drop_first(),
                        start as int,
                        end as int,
                    ));
                }
            }
        }
        proof {
            assert(entries_view(self.entries@) =~= Seq::<GEntry>::empty());
            assert(keep_outside(entries_view(self.entries@), start as int, end as int)
                =~= Seq::<GEntry>::empty());
            assert(entries_view(kept@) =~= keep_outside(orig, start as int, end as int));
        }
        insert_sorted(&mut kept, SegEntry { start, end, value });
        self.entries = kept;
    }

    /// Fold candidate entries into the map, left to right, keeping the
    /// longer span on conflict: a candidate that cannot be placed in empty
    /// space survives only if it is strictly longer than the stored entries
    /// at both of its endpoints; those are then cleared and the candidate is
    /// forced in, removing anything else it covers.
    pub fn merge_only_longest(&mut self, other: Vec<SegEntry>)
        requires
            old(self).wf(),
            forall|k: int|
                0 <= k < other@.len() ==> (#[trigger] other@[k]).start < other@[k].end,
        ensures
            final(self).wf(),
            final(self)@ == spec_merge(old(self)@, entries_view(other@)),
    {
        let ghost orig = entries_view(other@);
        let mut rest = other;
        proof {
            assert(entries_view(rest@) =~= orig);
            assert(spec_merge(old(self)@, orig) == spec_merge(self@, entries_view(rest@)));
        }
        while rest.len() > 0
            invariant
                self.wf(),
                spec_merge(old(self)@, orig) == spec_merge(self@, entries_view(rest@)),
                forall|k: int|
                    0 <= k < rest@.len() ==> (#[trigger] rest@[k]).start < rest@[k].end,
            decreases rest.len(),
        {
            let ghost pre_rest = rest@;
            let ghost pre_map = self@;
            let cand = rest.remove(0);
            let ghost gc = entry_view(cand);
            proof {
                lemma_entries_view_remove(pre_rest, 0);
                assert(entries_view(rest@) =~= entries_view(pre_rest).drop_first());
                assert(entries_view(pre_rest)[0] == gc);
            }
            let (cs, ce) = (cand.start, cand.end);
            let rejected = self.insert_if_empty(cand.start, cand.end, cand.value);
            match rejected {
                None => {
                    proof {
                        assert(self@ == spec_merge_step(pre_map, gc));
                    }
                },
                Some(value) => {
                    proof {
                        assert(self@ == pre_map);
                        assert(!range_free(pre_map, gc.start, gc.end));
                    }
                    let before: Option<(usize, usize)> = match self.find_at_idx(cs) {
                        Some(i) => Some((self.entries[i].start, self.entries[i].end)),
                        None => None,
                    };
                    let after: Option<(usize, usize)> = match self.find_at_idx(ce) {
                        Some(i) => Some((self.entries[i].start, self.entries[i].end)),
                        None => None,
                    };
                    let clen = ce - cs;
                    let ok_before = match before {
                        Some((bs, be)) => clen > be - bs,
                        None => true,
                    };
                    let ok_after = match after {
                        Some((as_, ae)) => clen > ae - as_,
                        None => true,
                    };
                    if ok_before && ok_after {
                        proof {
                            assert(merge_step_accepts(pre_map, gc));
                        }
                        if let Some((bs, be)) = before {
                            self.clear(bs, be);
                        }
                        if let Some((as_, ae)) = after {
                            self.clear(as_, ae);
                        }
                        self.force_set(cs, ce, value);
                        proof {
                            assert(self@ == spec_merge_step(pre_map, gc));
                        }
                    } else {
                        proof {
                            assert(!merge_step_accepts(pre_map, gc));
                            assert(self@ == spec_merge_step(pre_map, gc));
                        }
                    }
                },
            }
            proof {
                assert(spec_merge(pre_map, entries_view(pre_rest)) == spec_merge(
                    self@,
                    entries_view(rest@),
                ));
            }
        }
        proof {
            assert(entries_view(rest@) =~= Seq::<GEntry>::empty());
            assert(spec_merge(self@, entries_view(rest@)) == self@);
        }
    }

    /// The stored values, left to right, consuming the map.
    pub fn into_values(self) -> (r: Vec<Value>)
        ensures
            vals_view(r@) == values_of(self@),
    {
        let mut entries = self.into_entries();
        let ghost orig = entries_view(entries@);
        let mut out: Vec<Value> = Vec::new();
        proof {
            assert(vals_view(out@) + values_of(entries_view(entries@)) =~= values_of(orig));
        }
        while entries.len() > 0
            invariant
                vals_view(out@) + values_of(entries_view(entries@)) =~= values_of(orig),
            decreases entries.len(),
        {
            let ghost pre = entries@;
            let e = entries.remove(0);
            let ghost out_pre = out@;
            out.push(e.value);
            proof {
                lemma_entries_view_remove(pre, 0);
                assert(entries_view(entries@) =~= entries_view(pre).drop_first());
                assert(entries_view(pre)[0] == entry_view(e));
                assert(vals_view(out@) =~= vals_view(out_pre) + seq![val_view(e.value)]);
                assert(values_of(entries_view(pre)) =~= seq![entry_view(e).value] + values_of(
                    entries_view(entries@),
                ));
                assert(vals_view(out@) + values_of(entries_view(entries@)) =~= values_of(orig));
            }
        }
        proof {
            assert(values_of(entries_view(entries@)) =~= Seq::<GValue>::empty());
            assert(vals_view(out@) =~= values_of(orig));
        }
        out
    }
}

/// The values a sequence of entries holds, in order.
pub open spec fn values_of(es: Seq<GEntry>) -> Seq<GValue> {
    es.map(|i: int, e: GEntry| e.value)
}

/// The mathematical form of a vector of values.
pub open spec fn vals_view(vs: Seq<Value>) -> Seq<GValue> {
    vs.map(|i: int, v: Value| val_view(v))
}

/// Insert an entry into a sorted entry vector whose stored ranges it does
/// not intersect.
fn insert_sorted(es: &mut Vec<SegEntry>, entry: SegEntry)
    requires
        entries_wf(entries_view(old(es)@)),
        range_free(entries_view(old(es)@), entry.start as int, entry.end as int),
        entry.start < entry.end,
    ensures
        entries_view(final(es)@) == entries_view(old(es)@).insert(
            insert_pos(entries_view(old(es)@), entry.start as int),
            entry_view(entry),
        ),
        entries_wf(entries_view(final(es)@)),
{
    let ghost ges = entries_view(es@);
    let start = entry.start;
    let ghost gstart = entry.start as int;
    let ghost gend = entry.end as int;
    let mut pos: usize = 0;
    while pos < es.len() && es[pos].start < start
        invariant
            *es == *old(es),
            ges == entries_view(es@),
            gstart == start as int,
            pos <= es.len(),
            forall|i: int| 0 <= i < pos ==> (#[trigger] ges[i]).start < gstart,
        decreases es.len() - pos,
    {
        proof {
            assert(ges[pos as int] == entry_view(es@[pos as int]));
        }
        pos = pos + 1;
    }
    assert(pos < ges.len() ==> ges[pos as int].start >= gstart) by {
        if pos < es.len() {
            assert(ges[pos as int] == entry_view(es@[pos as int]));
        }
    }
    proof {
        lemma_insert_pos_is(ges, gstart, pos as int);
        assert forall|i: int| 0 <= i < pos implies (#[trigger] ges[i]).end <= gstart by {
            assert(!ranges_overlap(ges[i].start, ges[i].end, gstart, gend));
        }
        assert forall|i: int| pos <= i < ges.len() implies (#[trigger] ges[i]).start >= gend by {
            assert(!ranges_overlap(ges[i].start, ges[i].end, gstart, gend));
        }
    }
    let ghost ge = entry_view(entry);
    let ghost pre = es@;
    es.insert(pos, entry);
    proof {
        lemma_entries_view_insert(pre, pos as int, entry);
        let ns = entries_view(es@);
        assert(ns =~= ges.insert(pos as int, ge));
        assert forall|i: int| 0 <= i < ns.len() implies (#[trigger] ns[i]).start < ns[i].end by {}
        assert forall|i: int, j: int| 0 <= i < j < ns.len() implies (#[trigger] ns[i]).end
            <= (#[trigger] ns[j]).start by {
            if i < pos && j == pos {
                assert(ns[i] == ges[i]);
            } else if i == pos && j > pos {
                assert(ns[j] == ges[j - 1]);
            } else if i < pos && j > pos {
                assert(ns[i] == ges[i] && ns[j] == ges[j - 1]);
            } else if j < pos {
                assert(ns[i] == ges[i] && ns[j] == ges[j]);
            } else if i > pos {
                assert(ns[i] == ges[i - 1] && ns[j] == ges[j - 1]);
            }
        }
    }
}


proof fn lemma_clear_props(es: Seq<GEntry>, start: int, end: int)
    requires
        entries_wf(es),
    ensures
        entries_wf(spec_clear(es, start, end)),
        forall|x: GEntry| #![auto]
            es.contains(x) && !(x.start == start && x.end == end) ==> spec_clear(
                es,
                start,
                end,
            ).contains(x),
    decreases es.len(),
{
    let cl = spec_clear(es, start, end);
    if es.len() == 0 {
    } else if es[0].start == start && es[0].end == end {
        lemma_wf_remove(es, 0);
        assert(cl =~= es.remove(0));
        assert forall|x: GEntry|
            es.contains(x) && !(x.start == start && x.end == end) implies cl.contains(x) by {
            let j = choose|j: int| 0 <= j < es.len() && es[j] == x;
            assert(j != 0);
            assert(cl[j - 1] == es[j]);
        }
    } else {
        let rest = es.drop_first();
        lemma_wf_remove(es, 0);
        assert(rest =~= es.remove(0));
        lemma_clear_props(rest, start, end);
        let crest = spec_clear(rest, start, end);
        // every element of crest is an element of rest
        assert forall|k: int| 0 <= k < crest.len() implies rest.contains(#[trigger] crest[k]) by {
            lemma_clear_subset(rest, start, end, k);
        }
        assert forall|a: int| 0 <= a < cl.len() implies (#[trigger] cl[a]).start < cl[a].end by {
            if a > 0 {
                assert(cl[a] == crest[a - 1]);
                assert(rest.contains(crest[a - 1]));
            }
        }
        assert forall|a: int, b: int| 0 <= a < b < cl.len() implies (#[trigger] cl[a]).end
            <= (#[trigger] cl[b]).start by {
            assert(cl[b] == crest[b - 1]);
            assert(rest.contains(crest[b - 1]));
            let j = choose|j: int| 0 <= j < rest.len() && rest[j] == crest[b - 1];
            assert(rest[j] == es[j + 1]);
            if a == 0 {
                assert(es[0].end <= es[j + 1].start);
            } else {
                assert(cl[a] == crest[a - 1]);
            }
        }
        assert forall|x: GEntry|
            es.contains(x) && !(x.start == start && x.end == end) implies cl.contains(x) by {
            let j = choose|j: int| 0 <= j < es.len() && es[j] == x;
            if j == 0 {
                assert(cl[0] == x);
            } else {
                assert(rest[j - 1] == x);
                assert(rest.contains(x));
                assert(crest.contains(x));
                let k = choose|k: int| 0 <= k < crest.len() && crest[k] == x;
                assert(cl[k + 1] == x);
            }
        }
    }
}

proof fn lemma_clear_subset(es: Seq<GEntry>, start: int, end: int, k: int)
    requires
        0 <= k < spec_clear(es, start, end).len(),
    ensures
        es.contains(spec_clear(es, start, end)[k]),
    decreases es.len(),
{
    let cl = spec_clear(es, start, end);
    if es.len() > 0 {
        if es[0].start == start && es[0].end == end {
            assert(cl[k] == es[k + 1]);
        } else {
            if k == 0 {
                assert(cl[0] == es[0]);
            } else {
                lemma_clear_subset(es.drop_first(), start, end, k - 1);
                let rest = es.drop_first();
                let j = choose|j: int| 0 <= j < rest.len() && rest[j] == cl[k];
                assert(es[j + 1] == rest[j]);
            }
        }
    }
}

proof fn lemma_insert_membership(es: Seq<GEntry>, pos: int, y: GEntry, x: GEntry)
    requires
        0 <= pos <= es.len(),
        es.contains(x),
    ensures
        es.insert(pos, y).contains(x),
{
    let j = choose|j: int| 0 <= j < es.len() && es[j] == x;
    if j < pos {
        assert(es.insert(pos, y)[j] == x);
    } else {
        assert(es.insert(pos, y)[j + 1] == x);
    }
}

proof fn lemma_lookup_at_unique(es: Seq<GEntry>, p: int, i: int)
    requires
        entries_wf(es),
        0 <= i < es.len(),
        es[i].start <= p < es[i].end,
    ensures
        spec_lookup_at(es, p) == Some(es[i]),
{
    assert forall|k: int| 0 <= k < i implies !((#[trigger] es[k]).start <= p < es[k].end) by {
        assert(es[k].end <= es[i].start);
    }
    lemma_lookup_at_found(es, p, i);
}

/// In a well-formed map no two entries intersect: what any search returns is
/// a set of pairwise disjoint ranges.
pub proof fn lemma_wf_entries_disjoint(es: Seq<GEntry>, i: int, j: int)
    requires
        entries_wf(es),
        0 <= i < es.len(),
        0 <= j < es.len(),
        i != j,
    ensures
        !ranges_overlap(es[i].start, es[i].end, es[j].start, es[j].end),
{
}

/// When the longest-overlap merge discards a candidate, the map is unchanged
/// and a stored entry at one of the candidate's endpoints is at least as
/// long as the candidate.  In particular, an existing entry of equal length
/// wins the tie: what came first (earlier in the text, or from an earlier
/// declared variant) stays.
pub proof fn lemma_merge_discard_keeps_longest(es: Seq<GEntry>, c: GEntry)
    requires
        entries_wf(es),
        c.start < c.end,
        !merge_step_accepts(es, c),
    ensures
        spec_merge_step(es, c) == es,
        exists|i: int|
            0 <= i < es.len() && (#[trigger] es[i]).end - es[i].start >= c.end - c.start && (
            es[i].start <= c.start < es[i].end || es[i].start <= c.end < es[i].end),
{
    let len = c.end - c.start;
    let before = spec_lookup_at(es, c.start);
    let after = spec_lookup_at(es, c.end);
    let ok_before = match before {
        Some(b) => len > b.end - b.start,
        None => true,
    };
    if !ok_before {
        lemma_lookup_at_member(es, c.start);
        let i = choose|i: int|
            0 <= i < es.len() && es[i] == before->Some_0 && es[i].start <= c.start < es[i].end;
        assert(es[i].end - es[i].start >= len && es[i].start <= c.start < es[i].end);
    } else {
        lemma_lookup_at_member(es, c.end);
        let i = choose|i: int|
            0 <= i < es.len() && es[i] == after->Some_0 && es[i].start <= c.end < es[i].end;
        assert(es[i].end - es[i].start >= len && es[i].start <= c.end < es[i].end);
    }
}

/// When the longest-overlap merge accepts a candidate, no stored entry at
/// least as long as the candidate is removed; read the other way round,
/// every entry the step removes is strictly shorter than the accepted
/// candidate.
pub proof fn lemma_merge_accept_removes_shorter(es: Seq<GEntry>, c: GEntry)
    requires
        entries_wf(es),
        c.start < c.end,
        merge_step_accepts(es, c),
    ensures
        forall|i: int|
            0 <= i < es.len() && (#[trigger] es[i]).end - es[i].start >= c.end - c.start
                ==> spec_merge_step(es, c).contains(es[i]),
{
    let len = c.end - c.start;
    let result = spec_merge_step(es, c);
    if range_free(es, c.start, c.end) {
        assert forall|i: int|
            0 <= i < es.len() && (#[trigger] es[i]).end - es[i].start >= len implies result.contains(
            es[i],
        ) by {
            lemma_insert_pos_is_bounds(es, c.start);
            lemma_insert_membership(es, insert_pos(es, c.start), c, es[i]);
        }
    } else {
        let before = spec_lookup_at(es, c.start);
        let after = spec_lookup_at(es, c.end);
        let es1 = match before {
            Some(b) => spec_clear(es, b.start, b.end),
            None => es,
        };
        let es2 = match after {
            Some(a) => spec_clear(es1, a.start, a.end),
            None => es1,
        };
        lemma_clear_props_all(es, before);
        let ghost wf1 = entries_wf(es1);
        assert forall|i: int|
            0 <= i < es.len() && (#[trigger] es[i]).end - es[i].start >= len implies result.contains(
            es[i],
        ) by {
            let x = es[i];
            assert(es.contains(x));
            // `x` holds neither endpoint of the candidate: the entry at an
            // endpoint is strictly shorter than the candidate, and `x` is not.
            assert(!(x.start <= c.start < x.end)) by {
                if x.start <= c.start < x.end {
                    lemma_lookup_at_unique(es, c.start, i);
                }
            }
            assert(!(x.start <= c.end < x.end)) by {
                if x.start <= c.end < x.end {
                    lemma_lookup_at_unique(es, c.end, i);
                }
            }
            // So `x` does not intersect the candidate at all.
            assert(!ranges_overlap(x.start, x.end, c.start, c.end));
            // `x` survives both clears: its range differs from each cleared range.
            assert(es1.contains(x)) by {
                match before {
                    Some(b) => {
                        lemma_clear_props(es, b.start, b.end);
                        assert(!(x.start == b.start && x.end == b.end));
                    },
                    None => {},
                }
            }
            assert(es2.contains(x)) by {
                match after {
                    Some(a) => {
                        lemma_clear_props(es1, a.start, a.end);
                        assert(!(x.start == a.start && x.end == a.end)) by {
                            if x.start == a.start && x.end == a.end {
                                assert(x.start <= c.end < x.end);
                            }
                        }
                    },
                    None => {},
                }
            }
            // `x` survives the forced write: it does not intersect the candidate.
            assert(entries_wf(es2)) by {
                match after {
                    Some(a) => {
                        lemma_clear_props(es1, a.start, a.end);
                    },
                    None => {},
                }
            }
            let kept = keep_outside(es2, c.start, c.end);
            lemma_keep_outside_props(es2, c.start, c.end);
            let j = choose|j: int| 0 <= j < es2.len() && es2[j] == x;
            assert(kept.contains(es2[j]));
            lemma_insert_pos_is_bounds(kept, c.start);
            lemma_insert_membership(kept, insert_pos(kept, c.start), c, x);
        }
    }
}

proof fn lemma_clear_props_all(es: Seq<GEntry>, before: Option<GEntry>)
    requires
        entries_wf(es),
    ensures
        entries_wf(
            match before {
                Some(b) => spec_clear(es, b.start, b.end),
                None => es,
            },
        ),
{
    match before {
        Some(b) => {
            lemma_clear_props(es, b.start, b.end);
        },
        None => {},
    }
}

proof fn lemma_insert_pos_is_bounds(es: Seq<GEntry>, start: int)
    ensures
        0 <= insert_pos(es, start) <= es.len(),
    decreases es.len(),
{
    if es.len() > 0 && es[0].start < start {
        lemma_insert_pos_is_bounds(es.drop_first(), start);
    }
}

} // verus!

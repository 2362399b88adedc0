use from_regex::{
    from_regex_pattern, MatchFault, MatchMode, SegEntry, SegmentMap, Shape, ShapeError, Value,
    VariantDef, VariantKind,
};

fn bytes(s: &str) -> Vec<u8> {
    s.as_bytes().to_vec()
}

fn patterned(name: &str, pattern: &str, fields: &[&str]) -> VariantDef {
    VariantDef {
        name: bytes(name),
        kind: VariantKind::Patterned(bytes(pattern)),
        default: false,
        fields: fields.iter().map(|f| bytes(f)).collect(),
    }
}

fn fallback(name: &str) -> VariantDef {
    VariantDef { name: bytes(name), kind: VariantKind::Plain, default: true, fields: Vec::new() }
}

fn transparent(name: &str, inner: Shape) -> VariantDef {
    VariantDef {
        name: bytes(name),
        kind: VariantKind::Transparent(Box::new(inner)),
        default: false,
        fields: Vec::new(),
    }
}

fn record(variant: usize, fields: Vec<Option<Vec<u8>>>) -> Value {
    Value::Record { variant, fields }
}

fn nested(variant: usize, inner: Value) -> Value {
    Value::Nested { variant, inner: Box::new(inner) }
}

/// A struct-like shape: one patterned variant, one required field.
fn my_struct() -> Shape {
    Shape::new(
        MatchMode::Longest,
        vec![patterned("MyStruct", "abc(?P<named>def)", &["named"])],
    )
    .unwrap()
}

fn my_struct_value() -> Value {
    record(0, vec![Some(bytes("def"))])
}

/// Variants `Shorter` (`c`), `Capturing` (`(?P<a>a)(?P<b>b)?c`), and a
/// default `Fallback`, under the default longest-match priority.
fn flat_enum() -> Shape {
    Shape::new(
        MatchMode::Longest,
        vec![
            patterned("Shorter", "c", &[]),
            patterned("Capturing", "(?P<a>a)(?P<b>b)?c", &["a", "b"]),
            fallback("Fallback"),
        ],
    )
    .unwrap()
}

fn flat_captured_full() -> Value {
    record(1, vec![Some(bytes("a")), Some(bytes("b"))])
}

fn flat_captured_partial() -> Value {
    record(1, vec![Some(bytes("a")), None])
}

/// Like `flat_enum`, but under first-declared priority and with both groups
/// optional.
fn sorted_enum() -> Shape {
    Shape::new(
        MatchMode::First,
        vec![
            patterned("Shorter", "c", &[]),
            patterned("Capturing", "(?P<a>a)?(?P<b>b)?c", &["a", "b"]),
        ],
    )
    .unwrap()
}

fn sorted_captured_full() -> Value {
    record(1, vec![Some(bytes("a")), Some(bytes("b"))])
}

/// A capturing variant beside a transparent delegation to `my_struct`.
fn nested_enum() -> Shape {
    Shape::new(
        MatchMode::Longest,
        vec![
            patterned("Capturing", "(?P<a>a)(?P<b>b)?c", &["a", "b"]),
            transparent("Nested", my_struct()),
        ],
    )
    .unwrap()
}

fn nested_captured_full() -> Value {
    record(0, vec![Some(bytes("a")), Some(bytes("b"))])
}

fn nested_captured_partial() -> Value {
    record(0, vec![Some(bytes("a")), None])
}

#[test]
fn matches() {
    assert!(
        my_struct().from_text(b"abcdef").unwrap().expect("Didn't match MyStruct") == my_struct_value()
    );

    // Flat Enum
    assert!(
        flat_enum().from_text(b"abc").unwrap().expect("Didn't match FlatEnum") == flat_captured_full()
    );
    assert!(flat_enum().from_text(b"c").unwrap().expect("Didn't match FlatEnum") == record(0, vec![]));
    assert!(
        flat_enum().from_text(b"something else").unwrap().expect("Didn't match FlatEnum")
            == record(2, vec![])
    );

    // Sorted Enum (still matches `Capturing` because matches must match the
    // entire input, however, search would use `Shorter` for this input since
    // it has higher priority)
    assert!(
        sorted_enum().from_text(b"abc").unwrap().expect("Didn't match SortedEnum")
            == sorted_captured_full()
    );

    // Nested Enum
    assert!(
        nested_enum().from_text(b"abc").unwrap().expect("Didn't match NestedEnum")
            == nested_captured_full()
    );
    // Should match the longer of the two (which is the nested match)
    assert!(
        nested_enum().from_text(b"abcdef").unwrap().expect("Didn't match NestedEnum")
            == nested(1, my_struct_value())
    );
}

const SEARCH_TEXT: &[u8] = b"abcdef, abc, a c ac bc ba bc";

#[test]
fn searches() {
    assert!(my_struct().matches(SEARCH_TEXT).unwrap() == vec![my_struct_value()]);

    assert!(
        flat_enum().matches(SEARCH_TEXT).unwrap()
            == vec![
                flat_captured_full(),
                flat_captured_full(),
                record(0, vec![]),
                flat_captured_partial(),
                record(0, vec![]),
                record(0, vec![]),
            ]
    );

    // For SortedEnum, all the `"c"` bits will get picked up by `Shorter` and
    // keep other variants from overlapping
    let shorter: Vec<Value> = (0..6).map(|_| record(0, vec![])).collect();
    assert!(sorted_enum().matches(SEARCH_TEXT).unwrap() == shorter);

    assert!(
        nested_enum().matches(SEARCH_TEXT).unwrap()
            == vec![
                nested(1, my_struct_value()),
                nested_captured_full(),
                nested_captured_partial(),
            ]
    );
}

#[test]
fn capture_sets_are_scanned_lexically() {
    let groups = from_regex_pattern(b"abc(?P<named>def)");
    assert_eq!(groups.len(), 1);
    assert_eq!(groups[0].name, bytes("named"));
    assert!(!groups[0].optional);

    let groups = from_regex_pattern(b"(?P<a>a)(?P<b>b)?c");
    assert_eq!(groups.len(), 2);
    assert_eq!(groups[0].name, bytes("a"));
    assert!(!groups[0].optional);
    assert_eq!(groups[1].name, bytes("b"));
    assert!(groups[1].optional);

    let groups = from_regex_pattern(b"(?P<one>[0-9]{5})-(?P<two>[a-z]*)?");
    assert_eq!(groups.len(), 2);
    assert_eq!(groups[0].name, bytes("one"));
    assert!(!groups[0].optional);
    assert_eq!(groups[1].name, bytes("two"));
    assert!(groups[1].optional);

    // A group whose name run is not closed by `>` is not a named group.
    assert_eq!(from_regex_pattern(b"(?P<a*>x)").len(), 0);
    // No groups at all.
    assert_eq!(from_regex_pattern(b"plain").len(), 0);
}

#[test]
fn required_and_optional_fields() {
    // Fields {a: required, b: optional} where `b` never fires.
    let shape = Shape::new(
        MatchMode::Longest,
        vec![patterned("Pair", "(?P<a>a)(?P<b>b)?c", &["a", "b"])],
    )
    .unwrap();
    let v = shape.from_text(b"ac").unwrap().expect("Didn't match Pair");
    assert!(v == record(0, vec![Some(bytes("a")), None]));
}

#[test]
fn field_without_group_is_absent() {
    // A field no capture group resolves is assigned the absent value.
    let shape = Shape::new(
        MatchMode::Longest,
        vec![patterned("Loose", "(?P<a>a)c", &["a", "missing"])],
    )
    .unwrap();
    let v = shape.from_text(b"ac").unwrap().expect("Didn't match Loose");
    assert!(v == record(0, vec![Some(bytes("a")), None]));
}

#[test]
fn partial_match_is_rejected() {
    // The pattern matches a strict prefix of the text; without a default
    // variant nothing is returned.
    let shape = Shape::new(
        MatchMode::Longest,
        vec![patterned("MyStruct", "abc(?P<named>def)", &["named"])],
    )
    .unwrap();
    assert!(shape.from_text(b"abcdef-tail").unwrap().is_none());
    assert!(shape.from_text(b"xabcdef").unwrap().is_none());
}

#[test]
fn empty_input_and_empty_matches() {
    let shape = Shape::new(MatchMode::Longest, vec![patterned("Opt", "a?", &[])]).unwrap();
    // The empty match spans the empty input in full.
    assert!(shape.from_text(b"").unwrap() == Some(record(0, vec![])));
    // Empty occurrences are not collected by search.
    assert!(shape.matches(b"bbb").unwrap() == Vec::<Value>::new());
}

#[test]
fn construction_errors() {
    let two_defaults = Shape::new(
        MatchMode::Longest,
        vec![fallback("First"), fallback("Second")],
    );
    assert!(two_defaults.err() == Some(ShapeError::DuplicateDefault));

    let mut marked = transparent("Inner", my_struct());
    marked.default = true;
    let transparent_default = Shape::new(MatchMode::Longest, vec![marked]);
    assert!(transparent_default.err() == Some(ShapeError::TransparentDefault));

    let bad = Shape::new(MatchMode::Longest, vec![patterned("Broken", "(", &[])]);
    assert!(bad.err() == Some(ShapeError::BadPattern));

    let bad_first = Shape::new(MatchMode::First, vec![patterned("Broken", "(", &[])]);
    assert!(bad_first.err() == Some(ShapeError::BadPattern));
}

fn maps_equal(a: &SegmentMap, b: &SegmentMap) -> bool {
    if a.len() != b.len() {
        return false;
    }
    for i in 0..a.len() {
        let x = a.entry_at(i);
        let y = b.entry_at(i);
        if x.start != y.start || x.end != y.end || x.value != y.value {
            return false;
        }
    }
    true
}

#[test]
fn search_is_pure() {
    let shape = flat_enum();
    let first = shape.match_locations(SEARCH_TEXT).unwrap();
    let second = shape.match_locations(SEARCH_TEXT).unwrap();
    assert!(maps_equal(&first, &second));
}

#[test]
fn search_reports_ranges() {
    let map = nested_enum().match_locations(b"abcdef").unwrap();
    // The nested shape's full six-byte match outranks the three-byte match
    // the outer capturing variant finds on its own.
    assert_eq!(map.len(), 1);
    let entry = map.entry_at(0);
    assert_eq!(entry.start, 0);
    assert_eq!(entry.end, 6);
    assert!(entry.value == nested(1, my_struct_value()));
}

#[test]
fn search_results_are_disjoint() {
    let map = flat_enum().match_locations(SEARCH_TEXT).unwrap();
    for i in 0..map.len() {
        for j in 0..map.len() {
            if i != j {
                let a = map.entry_at(i);
                let b = map.entry_at(j);
                assert!(a.end <= b.start || b.end <= a.start);
            }
        }
    }
    // And they come out sorted, each non-empty.
    for i in 0..map.len() {
        let e = map.entry_at(i);
        assert!(e.start < e.end);
        if i + 1 < map.len() {
            assert!(e.end <= map.entry_at(i + 1).start);
        }
    }
}

fn entry(start: usize, end: usize, variant: usize) -> SegEntry {
    SegEntry { start, end, value: record(variant, vec![]) }
}

#[test]
fn merge_checks_boundaries_only() {
    // Two stored entries tile [0, 4); the candidate covering both is judged
    // only by the entries at its endpoints: [0, 2) at its start is shorter,
    // no entry holds the point 4, so the candidate is accepted and displaces
    // everything it covers.
    let mut map = SegmentMap::new();
    assert!(map.insert_if_empty(0, 2, record(0, vec![])).is_none());
    assert!(map.insert_if_empty(2, 4, record(1, vec![])).is_none());
    map.merge_only_longest(vec![entry(0, 4, 2)]);
    assert_eq!(map.len(), 1);
    let e = map.entry_at(0);
    assert_eq!((e.start, e.end), (0, 4));
    assert!(e.value == record(2, vec![]));
}

#[test]
fn merge_keeps_longer_boundary_entry() {
    // The stored entry at the candidate's start point is as long as the
    // candidate, so the candidate is discarded: ties keep what came first.
    let mut map = SegmentMap::new();
    assert!(map.insert_if_empty(0, 3, record(0, vec![])).is_none());
    map.merge_only_longest(vec![entry(1, 4, 1)]);
    assert_eq!(map.len(), 1);
    let e = map.entry_at(0);
    assert_eq!((e.start, e.end), (0, 3));
    assert!(e.value == record(0, vec![]));
}

#[test]
fn merge_probes_endpoint_even_past_the_candidate() {
    // The documented approximation probes the candidate's end *point*: the
    // entry [4, 9) holds the point 4 without intersecting the candidate
    // [1, 4), yet its length outranks the candidate, which is discarded even
    // though the only entry it intersects, [2, 3), is shorter.
    let mut map = SegmentMap::new();
    assert!(map.insert_if_empty(2, 3, record(0, vec![])).is_none());
    assert!(map.insert_if_empty(4, 9, record(1, vec![])).is_none());
    map.merge_only_longest(vec![entry(1, 4, 2)]);
    assert_eq!(map.len(), 2);
    assert_eq!((map.entry_at(0).start, map.entry_at(0).end), (2, 3));
    assert_eq!((map.entry_at(1).start, map.entry_at(1).end), (4, 9));
}

#[test]
fn interval_map_operations() {
    let mut map = SegmentMap::new();
    assert!(map.insert_if_empty(2, 5, record(0, vec![])).is_none());
    // A conflicting insert hands the value back and changes nothing.
    let rejected = map.insert_if_empty(4, 6, record(1, vec![]));
    assert!(rejected == Some(record(1, vec![])));
    assert_eq!(map.len(), 1);
    // Point lookup: only points inside the stored range answer.
    assert!(map.lookup_at(1).is_none());
    let found = map.lookup_at(3).expect("point inside the range");
    assert_eq!((found.start, found.end), (2, 5));
    assert!(map.lookup_at(5).is_none());
    // Exact removal.
    map.clear(2, 5);
    assert_eq!(map.len(), 0);
    // Forced write removes whatever the range covers.
    assert!(map.insert_if_empty(0, 2, record(0, vec![])).is_none());
    assert!(map.insert_if_empty(2, 4, record(1, vec![])).is_none());
    map.force_set(1, 3, record(2, vec![]));
    assert_eq!(map.len(), 1);
    assert_eq!((map.entry_at(0).start, map.entry_at(0).end), (1, 3));
}

#[test]
fn first_mode_prefers_declaration_order() {
    // Even a longer candidate from a later variant cannot displace an
    // earlier variant's claim under first-declared priority.
    let shape = sorted_enum();
    let values = shape.matches(b"abc").unwrap();
    assert!(values == vec![record(0, vec![])]);
}

#[test]
fn required_group_missing_is_a_fault() {
    // The alternation can match without the group participating, yet the
    // lexical capture set holds the group as required: the pattern and the
    // field declarations disagree, and matching aborts with the
    // internal-consistency fault rather than continue.
    let strict = Shape::new(
        MatchMode::Longest,
        vec![patterned("Either", "(?P<a>x)|y", &["a"])],
    )
    .unwrap();
    assert!(strict.from_text(b"x").unwrap() == Some(record(0, vec![Some(bytes("x"))])));
    assert!(strict.from_text(b"y") == Err(MatchFault::MissingRequiredGroup));

    // Not even a declared default masks the fault.
    let with_default = Shape::new(
        MatchMode::First,
        vec![patterned("Either", "(?P<a>x)|y", &["a"]), fallback("Fallback")],
    )
    .unwrap();
    assert!(with_default.from_text(b"y") == Err(MatchFault::MissingRequiredGroup));
    // Search hits the same fault on the occurrence that lacks the group.
    assert!(with_default.matches(b"x y") == Err(MatchFault::MissingRequiredGroup));
    assert!(with_default.matches(b"x x").unwrap().len() == 2);
}

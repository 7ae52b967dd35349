use protean::action::{Action, ListAction, MapAction, PatchOptions};
use protean::diff::decimal_text;
use protean::error::ProteanError;
use protean::patch::{Field, Patch, PatchAction, PatchValue};
use protean::value::FieldValue;
use protean::wire::{decode, encode};

fn text(s: &str) -> FieldValue {
    FieldValue::Text(s.to_string())
}

fn list(items: Vec<FieldValue>) -> FieldValue {
    FieldValue::List(items)
}

fn dict(entries: Vec<(&str, FieldValue)>) -> FieldValue {
    FieldValue::Dict(entries.into_iter().map(|(k, v)| (k.to_string(), v)).collect())
}

fn leaf(action: Action, name: &str, value: FieldValue, expected: Option<u64>) -> PatchAction {
    PatchAction::new(action, Field::new(name.to_string(), value), expected)
}

fn patch_of(name: &str, entries: Vec<PatchAction>) -> Patch {
    let mut p = Patch::new(name.to_string());
    for e in entries {
        p.add_entry(e).unwrap();
    }
    p
}

fn leaf_of(name: &str, value: FieldValue) -> PatchAction {
    leaf(Action::Replace, name, value, None)
}

fn set(name: &str, value: i64, expected: Option<u64>) -> PatchAction {
    leaf(Action::Replace, name, FieldValue::Int(value), expected)
}

#[test]
fn new_patch_is_empty_and_allows_upserts() {
    let p = Patch::new("T".to_string());
    assert!(p.is_empty());
    assert_eq!(p.len(), 0);
    assert_eq!(p.get_name(), "T");
    assert_eq!(p.get_version(), None);
    assert_eq!(p.get_options(), Some(PatchOptions::new(true)));
    assert!(PatchOptions::default().allow_upsert());
    assert_eq!(p.find("x"), None);
}

#[test]
fn add_twice_is_a_duplicate() {
    let mut p = Patch::new("T".to_string());
    p.add(Action::Replace, Field::new("integer".to_string(), FieldValue::Int(1)), None).unwrap();
    let e = p
        .add(Action::Clear, Field::new("integer".to_string(), FieldValue::Null), Some(3))
        .unwrap_err();
    assert!(matches!(e.kind, ProteanError::DuplicateKey));
    assert_eq!(e.field, "integer");
    assert_eq!(p.len(), 1);
    assert!(p.entry(0).action().same(&Action::Replace));
    assert_eq!(p.find("integer"), Some(0));
}

#[test]
fn add_keeps_order_and_payload() {
    let mut p = Patch::new("T".to_string());
    p.add_field(Action::Replace, Field::new("a".to_string(), FieldValue::Int(1)), Some(7)).unwrap();
    p.add_field(Action::Clear, Field::new("b".to_string(), FieldValue::Null), None).unwrap();
    assert_eq!(p.len(), 2);
    assert_eq!(p.entry(0).get_name(), "a");
    assert_eq!(p.entry(0).expected(), Some(7));
    assert_eq!(p.entry(1).get_name(), "b");
    match p.entry(0).payload() {
        PatchValue::Value(f) => {
            assert_eq!(f.name, "a");
            assert!(f.value.same(&FieldValue::Int(1)));
        }
        PatchValue::Patch(_) => panic!("a leaf was added"),
    }
    assert_eq!(p.entry(0).payload().get_field_name(), "a");
}

#[test]
fn version_and_options_can_be_set() {
    let mut p = Patch::new("T".to_string());
    p.set_version(Some("1.2".to_string()));
    p.set_options(None);
    assert_eq!(p.get_version(), Some("1.2".to_string()));
    assert_eq!(p.get_options(), None);
    assert!(p.copy().same(&p));
    let mut q = p.copy();
    q.set_options(Some(PatchOptions::new(false)));
    assert!(!q.same(&p));
}

#[test]
fn merge_of_disjoint_patches_is_the_union() {
    let mut a = patch_of("T", vec![set("x", 1, None), set("y", 2, None)]);
    let b = patch_of("T", vec![set("z", 3, Some(9))]);
    a.merge(b).unwrap();
    let union = patch_of("T", vec![set("x", 1, None), set("y", 2, None), set("z", 3, Some(9))]);
    assert!(a.same(&union));
}

#[test]
fn merge_conflict_is_refused() {
    let mut a = patch_of("T", vec![set("x", 1, None), set("y", 2, None)]);
    let before = a.copy();
    let b = patch_of("T", vec![set("z", 3, None), set("y", 5, None)]);
    let e = a.merge(b).unwrap_err();
    assert!(matches!(e.kind, ProteanError::DuplicateKey));
    assert_eq!(e.field, "y");
    assert!(a.same(&before));
}

#[test]
fn merge_of_equal_actions_agrees() {
    let mut a = patch_of("T", vec![set("x", 1, Some(4))]);
    let b = patch_of("T", vec![set("x", 1, None)]);
    a.merge(b).unwrap();
    assert!(a.same(&patch_of("T", vec![set("x", 1, Some(4))])));
}

#[test]
fn merge_chains_on_matching_expectation() {
    let mut a = patch_of("T", vec![set("x", 1, Some(FieldValue::Int(0).fingerprint()))]);
    let b = patch_of("T", vec![set("x", 2, Some(FieldValue::Int(1).fingerprint()))]);
    a.merge(b).unwrap();
    assert!(a.same(&patch_of("T", vec![set("x", 2, Some(FieldValue::Int(0).fingerprint()))])));
    let mut c = patch_of("T", vec![set("x", 1, None)]);
    let stale = patch_of("T", vec![set("x", 2, Some(FieldValue::Int(7).fingerprint()))]);
    assert!(matches!(c.merge(stale).unwrap_err().kind, ProteanError::DuplicateKey));
}

#[test]
fn merge_recurses_into_nested_patches() {
    let nested = |entries: Vec<PatchAction>| {
        let mut outer = Patch::new("Outer".to_string());
        outer
            .add_entry(PatchAction::nested(Action::Replace, patch_of("inner", entries), None))
            .unwrap();
        outer
    };
    let mut a = nested(vec![set("x", 1, None)]);
    a.merge(nested(vec![set("y", 2, None)])).unwrap();
    assert!(a.same(&nested(vec![set("x", 1, None), set("y", 2, None)])));
    let mut b = nested(vec![set("x", 1, None)]);
    let before = b.copy();
    let e = b.merge(nested(vec![set("x", 9, None)])).unwrap_err();
    assert!(matches!(e.kind, ProteanError::DuplicateKey));
    assert_eq!(e.field, "inner.x");
    assert!(b.same(&before));
    let mut c = nested(vec![set("x", 1, None)]);
    let flat = patch_of("Outer", vec![set("inner", 1, None)]);
    let e = c.merge(flat).unwrap_err();
    assert!(matches!(e.kind, ProteanError::DuplicateKey));
    assert_eq!(e.field, "inner");
}

#[test]
fn merge_keeps_its_own_header() {
    let mut a = patch_of("T", vec![set("x", 1, None)]);
    a.set_version(Some("1".to_string()));
    let mut b = patch_of("U", vec![set("y", 1, None)]);
    b.set_options(None);
    a.merge(b).unwrap();
    assert_eq!(a.get_name(), "T");
    assert_eq!(a.get_version(), Some("1".to_string()));
    assert_eq!(a.get_options(), Some(PatchOptions::new(true)));
    assert_eq!(a.len(), 2);
}

#[test]
fn decimal_text_writes_numbers() {
    assert_eq!(decimal_text(0), "0");
    assert_eq!(decimal_text(7), "7");
    assert_eq!(decimal_text(10), "10");
    assert_eq!(decimal_text(409), "409");
    assert_eq!(decimal_text(usize::MAX), usize::MAX.to_string());
}

#[test]
fn wire_form_of_a_leaf_action() {
    let p = patch_of("T", vec![set("integer", 1, None)]);
    let expected = dict(vec![
        ("name", text("T")),
        ("version", FieldValue::Null),
        ("options", dict(vec![("allow_upsert", FieldValue::Bool(true))])),
        (
            "actions",
            dict(vec![(
                "integer",
                list(vec![text("Set"), FieldValue::Int(1)]),
            )]),
        ),
    ]);
    assert!(encode(&p).unwrap().same(&expected));
}

#[test]
fn wire_form_with_expected_has_three_parts() {
    let low = 5u64;
    let high = 0xffff_ffff_ffff_fffe_u64;
    let mut p = patch_of("T", vec![set("a", 1, Some(low)), set("b", 2, Some(high))]);
    p.set_version(Some("3".to_string()));
    p.set_options(None);
    let expected = dict(vec![
        ("name", text("T")),
        ("version", text("3")),
        ("options", FieldValue::Null),
        (
            "actions",
            dict(vec![
                (
                    "a",
                    list(vec![text("Set"), FieldValue::Int(5), FieldValue::Int(1)]),
                ),
                (
                    "b",
                    list(vec![text("Set"), FieldValue::Unsigned(0xffff_ffff_ffff_fffe), FieldValue::Int(2)]),
                ),
            ]),
        ),
    ]);
    assert!(encode(&p).unwrap().same(&expected));
    assert!(decode(&expected).unwrap().same(&p));
}

#[test]
fn wire_form_of_each_tag() {
    let p = patch_of(
        "T",
        vec![
            leaf(Action::Clear, "a", FieldValue::Null, None),
            leaf(Action::Reset, "b", FieldValue::Null, None),
            leaf(Action::List(ListAction::Swap(1, 2)), "c", FieldValue::Null, None),
            leaf(Action::List(ListAction::Remove(3)), "d", FieldValue::Null, None),
            leaf(Action::List(ListAction::Insert(4)), "e", FieldValue::Int(9), None),
            leaf(Action::List(ListAction::Append()), "f", FieldValue::Int(9), None),
            leaf(Action::Keyed(MapAction::Insert("k".to_string())), "g", FieldValue::Int(9), None),
            leaf(Action::Keyed(MapAction::Update("k".to_string())), "h", FieldValue::Int(9), None),
            leaf(Action::Keyed(MapAction::Delete("k".to_string())), "i", FieldValue::Null, None),
        ],
    );
    let tag = |kind: &str, step: &str, arg: FieldValue| dict(vec![(kind, dict(vec![(step, arg)]))]);
    let entry = |tag: FieldValue, v: FieldValue| list(vec![tag, v]);
    let actions = dict(vec![
        ("a", entry(text("Clear"), FieldValue::Null)),
        ("b", entry(text("Reset"), FieldValue::Null)),
        (
            "c",
            entry(
                tag("List", "Swap", list(vec![FieldValue::Int(1), FieldValue::Int(2)])),
                FieldValue::Null,
            ),
        ),
        ("d", entry(tag("List", "Remove", FieldValue::Int(3)), FieldValue::Null)),
        ("e", entry(tag("List", "Insert", FieldValue::Int(4)), FieldValue::Int(9))),
        ("f", entry(tag("List", "Append", list(vec![])), FieldValue::Int(9))),
        ("g", entry(tag("Map", "Insert", text("k")), FieldValue::Int(9))),
        ("h", entry(tag("Map", "Update", text("k")), FieldValue::Int(9))),
        ("i", entry(tag("Map", "Delete", text("k")), FieldValue::Null)),
    ]);
    let expected = dict(vec![
        ("name", text("T")),
        ("version", FieldValue::Null),
        ("options", dict(vec![("allow_upsert", FieldValue::Bool(true))])),
        ("actions", actions),
    ]);
    let written = encode(&p).unwrap();
    assert!(written.same(&expected));
    assert!(decode(&written).unwrap().same(&p));
}

#[test]
fn wire_round_trip_leaves_out_null_actions() {
    let inner = patch_of(
        "inner",
        vec![leaf(Action::Null, "skip", FieldValue::Int(0), None), set("keep", 1, Some(2))],
    );
    let mut p = patch_of("T", vec![leaf(Action::Null, "first", FieldValue::Null, None), set("x", 1, None)]);
    p.add_entry(PatchAction::nested(Action::Replace, inner, Some(11))).unwrap();
    let written = encode(&p).unwrap();
    let read = decode(&written).unwrap();
    let mut expected = patch_of("T", vec![set("x", 1, None)]);
    expected
        .add_entry(PatchAction::nested(
            Action::Replace,
            patch_of("inner", vec![set("keep", 1, Some(2))]),
            Some(11),
        ))
        .unwrap();
    assert!(read.same(&expected));
    assert!(encode(&read).unwrap().same(&written));
}

#[test]
fn wire_keys_may_come_in_any_order() {
    let shuffled = dict(vec![
        ("actions", dict(vec![("x", list(vec![text("Set"), text("v")]))])),
        ("options", FieldValue::Null),
        ("name", text("T")),
        ("version", FieldValue::Null),
    ]);
    let p = decode(&shuffled).unwrap();
    let mut expected = patch_of("T", vec![leaf(Action::Replace, "x", text("v"), None)]);
    expected.set_options(None);
    assert!(p.same(&expected));
}

#[test]
fn decode_refuses_what_is_not_a_patch() {
    let bad = |v: FieldValue| matches!(decode(&v).unwrap_err().kind, ProteanError::SerializationError(_));
    assert!(bad(FieldValue::Int(1)));
    assert!(bad(dict(vec![("name", text("T"))])));
    let with_actions = |actions: FieldValue| {
        dict(vec![
            ("name", text("T")),
            ("version", FieldValue::Null),
            ("options", FieldValue::Null),
            ("actions", actions),
        ])
    };
    assert!(decode(&with_actions(dict(vec![]))).is_ok());
    assert!(bad(with_actions(list(vec![]))));
    assert!(bad(with_actions(dict(vec![("x", text("Set"))]))));
    assert!(bad(with_actions(dict(vec![("x", list(vec![text("Set")]))]))));
    assert!(bad(with_actions(dict(vec![("x", list(vec![text("Null"), FieldValue::Null]))]))));
    assert!(bad(with_actions(dict(vec![("x", list(vec![text("Put"), FieldValue::Null]))]))));
    assert!(bad(with_actions(dict(vec![(
        "x",
        list(vec![text("Set"), text("7"), FieldValue::Null])
    )]))));
    assert!(bad(with_actions(dict(vec![(
        "x",
        list(vec![text("Set"), FieldValue::Int(-7), FieldValue::Null])
    )]))));
    let twice = dict(vec![
        ("x", list(vec![text("Set"), FieldValue::Int(1)])),
        ("x", list(vec![text("Set"), FieldValue::Int(2)])),
    ]);
    assert!(bad(with_actions(twice)));
    let negative = dict(vec![(
        "x",
        list(vec![
            dict(vec![("List", dict(vec![("Remove", FieldValue::Int(-1))]))]),
            FieldValue::Null,
        ]),
    )]);
    assert!(bad(with_actions(negative)));
    let misnamed = dict(vec![("x", list(vec![text("Set"), with_actions(dict(vec![]))]))]);
    assert!(bad(with_actions(misnamed)));
}

#[test]
fn payload_is_told_by_its_shape() {
    let patch = |name: &str, actions: FieldValue| {
        dict(vec![
            ("name", text(name)),
            ("version", FieldValue::Null),
            ("options", FieldValue::Null),
            ("actions", actions),
        ])
    };
    let leaf = dict(vec![("Value", FieldValue::Int(1)), ("name", text("x"))]);
    let with_leaf = patch("T", dict(vec![("x", list(vec![text("Set"), leaf.copy()]))]));
    let p = decode(&with_leaf).unwrap();
    match p.entry(0).payload() {
        PatchValue::Value(f) => assert!(f.value.same(&leaf)),
        PatchValue::Patch(_) => panic!("two entries do not make a patch"),
    }
    assert!(encode(&p).unwrap().same(&with_leaf));
    let nested = patch("x", dict(vec![("y", list(vec![text("Clear"), FieldValue::Null]))]));
    let with_nested = patch("T", dict(vec![("x", list(vec![text("Set"), nested]))]));
    let q = decode(&with_nested).unwrap();
    match q.entry(0).payload() {
        PatchValue::Patch(inner) => {
            assert_eq!(inner.get_name(), "x");
            assert_eq!(inner.entry(0).get_name(), "y");
        }
        PatchValue::Value(_) => panic!("the four keys make a patch"),
    }
    assert!(encode(&q).unwrap().same(&with_nested));
    let shaped = patch("x", dict(vec![]));
    let sent = patch_of("T", vec![leaf_of("x", shaped)]);
    let back = decode(&encode(&sent).unwrap()).unwrap();
    assert!(!back.same(&sent));
    assert!(matches!(back.entry(0).payload(), PatchValue::Patch(_)));
}

#[test]
fn decode_error_names_the_entry() {
    let v = dict(vec![
        ("name", text("T")),
        ("version", FieldValue::Null),
        ("options", FieldValue::Null),
        ("actions", dict(vec![("x", text("Set"))])),
    ]);
    let e = decode(&v).unwrap_err();
    assert_eq!(e.field, "x");
}

#[test]
fn positions_and_fingerprints_are_written_unsigned() {
    let far = usize::MAX;
    let p = patch_of(
        "T",
        vec![leaf(Action::List(ListAction::Remove(far)), "items", FieldValue::Null, Some(u64::MAX))],
    );
    let written = encode(&p).unwrap();
    let number = |n: u64| {
        if n <= i64::MAX as u64 {
            FieldValue::Int(n as i64)
        } else {
            FieldValue::Unsigned(n)
        }
    };
    let expected = dict(vec![
        ("name", text("T")),
        ("version", FieldValue::Null),
        ("options", dict(vec![("allow_upsert", FieldValue::Bool(true))])),
        (
            "actions",
            dict(vec![(
                "items",
                list(vec![
                    dict(vec![("List", dict(vec![("Remove", number(far as u64))]))]),
                    FieldValue::Unsigned(u64::MAX),
                    FieldValue::Null,
                ]),
            )]),
        ),
    ]);
    assert!(written.same(&expected));
    assert!(decode(&written).unwrap().same(&p));
}

#[test]
fn encode_refuses_field_without_projection() {
    let mut inner = Patch::new("inner".to_string());
    inner.add_entry(set("ok", 1, None)).unwrap();
    inner
        .add_projected(
            Action::Replace,
            "gone".to_string(),
            Err(ProteanError::ConversionError),
            None,
        )
        .unwrap();
    assert_eq!(inner.len(), 2);
    match inner.entry(1).payload() {
        PatchValue::Value(f) => assert_eq!(
            f.lost,
            Some("There was an error attempting to convert from one type to another".to_string())
        ),
        PatchValue::Patch(_) => panic!("a leaf was added"),
    }
    let mut p = Patch::new("T".to_string());
    p.add_entry(PatchAction::nested(Action::Replace, inner, None)).unwrap();
    let e = encode(&p).unwrap_err();
    assert!(matches!(e.kind, ProteanError::SerializationError(_)));
    assert_eq!(e.field, "inner.gone");
}

#[test]
fn decode_error_names_the_nested_entry() {
    let patch = |name: &str, actions: FieldValue| {
        dict(vec![
            ("name", text(name)),
            ("version", FieldValue::Null),
            ("options", FieldValue::Null),
            ("actions", actions),
        ])
    };
    let inner = patch("inner", dict(vec![("deep", list(vec![text("Set")]))]));
    let outer = patch(
        "T",
        dict(vec![("inner", list(vec![text("Set"), inner]))]),
    );
    let e = decode(&outer).unwrap_err();
    assert!(matches!(e.kind, ProteanError::SerializationError(_)));
    assert_eq!(e.field, "inner.deep");
    let e = decode(&FieldValue::Null).unwrap_err();
    assert_eq!(e.field, "");
}

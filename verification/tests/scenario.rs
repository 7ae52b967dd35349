use protean::action::{Action, ListAction, MapAction, PatchOptions};
use protean::error::ProteanError;
use protean::patch::{Field, Patch, PatchAction, PatchValue};
use protean::record::{Content, Record, Slot};
use protean::value::FieldValue;

fn text(s: &str) -> FieldValue {
    FieldValue::Text(s.to_string())
}

fn ints(items: &[i64]) -> FieldValue {
    FieldValue::List(items.iter().map(|i| FieldValue::Int(*i)).collect())
}

fn dict(entries: Vec<(&str, FieldValue)>) -> FieldValue {
    FieldValue::Dict(entries.into_iter().map(|(k, v)| (k.to_string(), v)).collect())
}

fn record(name: &str, fields: Vec<(&str, FieldValue)>) -> Record {
    let mut r = Record::new(name.to_string());
    for (k, v) in fields {
        r.push(Slot::value(k.to_string(), v)).unwrap();
    }
    r
}

fn t(integer: i64, label: &str) -> Record {
    record("T", vec![("integer", FieldValue::Int(integer)), ("label", text(label))])
}

fn leaf(action: Action, name: &str, value: FieldValue, expected: Option<u64>) -> PatchAction {
    PatchAction::new(action, Field::new(name.to_string(), value), expected)
}

fn patch_of(name: &str, entries: Vec<PatchAction>) -> Patch {
    let mut p = Patch::new(name.to_string());
    for e in entries {
        p.add_entry(e).unwrap();
    }
    p
}

fn value_at<'a>(r: &'a Record, name: &str) -> &'a FieldValue {
    match &r.slot(r.find(name).unwrap()).content {
        Content::Value(v) => v,
        Content::Object(_) => panic!("the field holds a record"),
    }
}

#[test]
fn concrete_scenario_diff() {
    let a = t(0, "");
    let b = t(1, "");
    let p = a.diff(&b).unwrap();
    let expected = patch_of(
        "T",
        vec![leaf(
            Action::Replace,
            "integer",
            FieldValue::Int(1),
            Some(FieldValue::Int(0).fingerprint()),
        )],
    );
    assert!(p.same(&expected));
    assert_eq!(p.len(), 1);
    assert_eq!(p.entry(0).get_name(), "integer");
    assert_eq!(p.entry(0).expected(), Some(0x0839_5407_b4f1_363f));
}

#[test]
fn concrete_scenario_apply() {
    let mut a = t(0, "");
    let b = t(1, "");
    let p = a.diff(&b).unwrap();
    let undo = a.apply(p).unwrap();
    assert!(a.same(&b));
    let expected = patch_of("T", vec![leaf(Action::Replace, "integer", FieldValue::Int(0), None)]);
    assert!(undo.same(&expected));
}

#[test]
fn inverse_patch_undoes() {
    let mut a = t(0, "x");
    let b = t(5, "y");
    let p = a.diff(&b).unwrap();
    let undo = a.apply(p).unwrap();
    assert!(a.same(&b));
    a.apply(undo).unwrap();
    assert!(a.same(&t(0, "x")));
}

#[test]
fn diff_is_reflexive() {
    let a = t(3, "abc");
    let p = a.diff(&a).unwrap();
    assert!(p.is_empty());
    assert_eq!(p.get_name(), "T");
    let mut nested = Record::new("Outer".to_string());
    nested.push(Slot::object("inner".to_string(), t(1, "z"))).unwrap();
    nested.push(Slot::value("tags".to_string(), ints(&[1, 2, 3]))).unwrap();
    assert!(nested.diff(&nested).unwrap().is_empty());
}

#[test]
fn diff_keeps_field_order() {
    let a = t(0, "x");
    let b = t(1, "y");
    let p = a.diff(&b).unwrap();
    assert_eq!(p.len(), 2);
    assert_eq!(p.entry(0).get_name(), "integer");
    assert_eq!(p.entry(1).get_name(), "label");
    assert_eq!(p.entry(1).expected(), Some(text("x").fingerprint()));
}

#[test]
fn round_trip_nested_record() {
    let mut a = Record::new("Outer".to_string());
    a.push(Slot::value("id".to_string(), FieldValue::Int(1))).unwrap();
    a.push(Slot::object("inner".to_string(), t(0, "a"))).unwrap();
    let mut b = Record::new("Outer".to_string());
    b.push(Slot::value("id".to_string(), FieldValue::Int(1))).unwrap();
    b.push(Slot::object("inner".to_string(), t(7, "a"))).unwrap();
    let p = a.diff(&b).unwrap();
    assert_eq!(p.len(), 1);
    assert_eq!(p.entry(0).get_name(), "inner");
    match p.entry(0).payload() {
        PatchValue::Patch(q) => {
            assert_eq!(q.get_name(), "inner");
            assert_eq!(q.len(), 1);
            assert_eq!(q.entry(0).get_name(), "integer");
        }
        PatchValue::Value(_) => panic!("a nested record is diffed by a nested patch"),
    }
    let mut c = a.copy();
    let undo = c.apply(p).unwrap();
    assert!(c.same(&b));
    c.apply(undo).unwrap();
    assert!(c.same(&a));
}

#[test]
fn round_trip_list_by_script() {
    let a = record("L", vec![("items", ints(&[1, 2, 3, 4]))]);
    let b = record("L", vec![("items", ints(&[1, 9, 4]))]);
    let p = a.diff(&b).unwrap();
    assert_eq!(p.len(), 1);
    assert_eq!(p.entry(0).expected(), Some(ints(&[1, 2, 3, 4]).fingerprint()));
    match p.entry(0).payload() {
        PatchValue::Patch(script) => {
            assert_eq!(script.len(), 3);
            assert_eq!(script.entry(0).get_name(), "0");
            assert!(script.entry(0).action().same(&Action::List(ListAction::Insert(3))));
            match script.entry(0).payload() {
                PatchValue::Value(f) => assert!(f.value.same(&FieldValue::Int(9))),
                PatchValue::Patch(_) => panic!("a step carries a value"),
            }
            assert_eq!(script.entry(1).get_name(), "1");
            assert!(script.entry(1).action().same(&Action::List(ListAction::Remove(2))));
            assert_eq!(script.entry(2).get_name(), "2");
            assert!(script.entry(2).action().same(&Action::List(ListAction::Remove(1))));
        }
        PatchValue::Value(_) => panic!("three steps for three items make a script"),
    }
    let mut c = a.copy();
    c.apply(p).unwrap();
    assert!(c.same(&b));
}

#[test]
fn list_script_keeps_longest_common_subsequence() {
    let a = record("L", vec![("items", ints(&[1, 2, 3, 4, 5]))]);
    let b = record("L", vec![("items", ints(&[2, 3, 4, 5, 6]))]);
    let p = a.diff(&b).unwrap();
    match p.entry(0).payload() {
        PatchValue::Patch(script) => {
            assert_eq!(script.len(), 2);
            assert!(script.entry(0).action().same(&Action::List(ListAction::Insert(5))));
            assert!(script.entry(1).action().same(&Action::List(ListAction::Remove(0))));
        }
        PatchValue::Value(_) => panic!("two steps for five items make a script"),
    }
    let mut c = a.copy();
    c.apply(p).unwrap();
    assert!(c.same(&b));
    let x = record("L", vec![("items", ints(&[1, 2, 3, 4, 5, 6, 7, 8]))]);
    let y = record("L", vec![("items", ints(&[8, 1, 3, 5, 7, 9, 2]))]);
    let q = x.diff(&y).unwrap();
    match q.entry(0).payload() {
        PatchValue::Patch(script) => assert_eq!(script.len(), 7),
        PatchValue::Value(_) => panic!("seven steps for seven items make a script"),
    }
    let mut z = x.copy();
    z.apply(q).unwrap();
    assert!(z.same(&y));
}

#[test]
fn list_script_swaps_exchanged_ends() {
    let a = record("L", vec![("items", ints(&[0, 1, 2, 3, 4, 5]))]);
    let b = record("L", vec![("items", ints(&[0, 4, 2, 3, 1, 5]))]);
    let p = a.diff(&b).unwrap();
    match p.entry(0).payload() {
        PatchValue::Patch(script) => {
            assert_eq!(script.len(), 1);
            assert_eq!(script.entry(0).get_name(), "0");
            assert!(script.entry(0).action().same(&Action::List(ListAction::Swap(1, 4))));
        }
        PatchValue::Value(_) => panic!("one swap makes a script"),
    }
    let mut c = a.copy();
    c.apply(p).unwrap();
    assert!(c.same(&b));
    let two = record("L", vec![("items", ints(&[1, 2]))]);
    let owt = record("L", vec![("items", ints(&[2, 1]))]);
    let q = two.diff(&owt).unwrap();
    match q.entry(0).payload() {
        PatchValue::Patch(script) => {
            assert!(script.entry(0).action().same(&Action::List(ListAction::Swap(0, 1))));
        }
        PatchValue::Value(_) => panic!("one swap makes a script"),
    }
    let mut d = two.copy();
    d.apply(q).unwrap();
    assert!(d.same(&owt));
}

#[test]
fn script_of_other_actions_is_refused() {
    let mut a = record("L", vec![("items", ints(&[1, 2]))]);
    let script = patch_of("items", vec![leaf(Action::Replace, "0", ints(&[]), None)]);
    let mut p = Patch::new("L".to_string());
    p.add_entry(PatchAction::nested(Action::Replace, script, None)).unwrap();
    let e = a.apply(p).unwrap_err();
    assert!(matches!(e.kind, ProteanError::ConversionError));
    assert_eq!(e.field, "items.0");
    assert!(a.same(&record("L", vec![("items", ints(&[1, 2]))])));
}

#[test]
fn patch_for_other_type_fails_at_first_entry() {
    let mut a = t(0, "x");
    let missing = patch_of("U", vec![leaf(Action::Replace, "nowhere", FieldValue::Int(9), None)]);
    let e = a.apply(missing).unwrap_err();
    assert!(matches!(e.kind, ProteanError::FieldNotFound));
    assert_eq!(e.field, "nowhere");
    let present = patch_of("U", vec![leaf(Action::Replace, "label", text("y"), None)]);
    let e = a.apply(present).unwrap_err();
    assert!(matches!(e.kind, ProteanError::InvalidPatchType));
    assert_eq!(e.field, "label");
    let undo = a.apply(Patch::new("U".to_string())).unwrap();
    assert!(undo.is_empty());
    assert!(a.same(&t(0, "x")));
}

#[test]
fn list_script_falls_back_to_replace() {
    let a = record("L", vec![("items", ints(&[1, 2, 3, 4]))]);
    let b = record("L", vec![("items", ints(&[5, 6]))]);
    let p = a.diff(&b).unwrap();
    match p.entry(0).payload() {
        PatchValue::Value(f) => assert!(f.value.same(&ints(&[5, 6]))),
        PatchValue::Patch(_) => panic!("six steps for two items are replaced by the list"),
    }
    assert!(p.entry(0).action().same(&Action::Replace));
    let mut c = a.copy();
    c.apply(p).unwrap();
    assert!(c.same(&b));
}

#[test]
fn list_script_appends_and_empties() {
    let a = record("L", vec![("items", ints(&[1, 2]))]);
    let b = record("L", vec![("items", ints(&[1, 2, 3]))]);
    let p = a.diff(&b).unwrap();
    match p.entry(0).payload() {
        PatchValue::Patch(script) => {
            assert_eq!(script.len(), 1);
            assert!(script.entry(0).action().same(&Action::List(ListAction::Insert(2))));
        }
        PatchValue::Value(_) => panic!("one insertion makes a script"),
    }
    let mut c = a.copy();
    c.apply(p).unwrap();
    assert!(c.same(&b));
    let empty = record("L", vec![("items", ints(&[]))]);
    let q = a.diff(&empty).unwrap();
    match q.entry(0).payload() {
        PatchValue::Value(f) => assert!(f.value.same(&ints(&[]))),
        PatchValue::Patch(_) => panic!("two removals for no item are replaced by the list"),
    }
    let mut d = a.copy();
    d.apply(q).unwrap();
    assert!(d.same(&empty));
}

#[test]
fn round_trip_dict_by_keys() {
    let a = record(
        "D",
        vec![("m", dict(vec![("a", FieldValue::Int(1)), ("b", FieldValue::Int(2)), ("c", FieldValue::Int(3))]))],
    );
    let b = record(
        "D",
        vec![("m", dict(vec![("a", FieldValue::Int(1)), ("c", FieldValue::Int(30)), ("d", FieldValue::Int(4))]))],
    );
    let p = a.diff(&b).unwrap();
    match p.entry(0).payload() {
        PatchValue::Patch(script) => {
            assert_eq!(script.len(), 3);
            assert_eq!(script.entry(0).get_name(), "b");
            assert!(script
                .entry(0)
                .action()
                .same(&Action::Keyed(MapAction::Delete("b".to_string()))));
            assert_eq!(script.entry(1).get_name(), "c");
            assert!(script
                .entry(1)
                .action()
                .same(&Action::Keyed(MapAction::Update("c".to_string()))));
            assert_eq!(script.entry(2).get_name(), "d");
            assert!(script
                .entry(2)
                .action()
                .same(&Action::Keyed(MapAction::Insert("d".to_string()))));
        }
        PatchValue::Value(_) => panic!("keyed steps reproduce the target"),
    }
    let mut c = a.copy();
    c.apply(p).unwrap();
    assert!(c.same(&b));
}

#[test]
fn dict_in_another_order_is_replaced() {
    let a = record("D", vec![("m", dict(vec![("a", FieldValue::Int(1)), ("b", FieldValue::Int(2))]))]);
    let b = record("D", vec![("m", dict(vec![("b", FieldValue::Int(2)), ("a", FieldValue::Int(1))]))]);
    let p = a.diff(&b).unwrap();
    assert_eq!(p.len(), 1);
    match p.entry(0).payload() {
        PatchValue::Value(f) => assert!(f.value.same(value_at(&b, "m"))),
        PatchValue::Patch(_) => panic!("keyed steps cannot reorder"),
    }
    let mut c = a.copy();
    c.apply(p).unwrap();
    assert!(c.same(&b));
}

#[test]
fn diff_refuses_other_types() {
    let a = t(0, "");
    let other = record("U", vec![("integer", FieldValue::Int(0)), ("label", text(""))]);
    let e = a.diff(&other).unwrap_err();
    assert!(matches!(e.kind, ProteanError::InvalidPatchType));
    assert_eq!(e.field, "");
    let renamed = record("T", vec![("integer", FieldValue::Int(0)), ("title", text(""))]);
    let e = a.diff(&renamed).unwrap_err();
    assert!(matches!(e.kind, ProteanError::InvalidPatchType));
    assert_eq!(e.field, "label");
    let shorter = record("T", vec![("integer", FieldValue::Int(0))]);
    assert!(matches!(a.diff(&shorter).unwrap_err().kind, ProteanError::InvalidPatchType));
    let retyped = record("T", vec![("integer", text("0")), ("label", text(""))]);
    let e = a.diff(&retyped).unwrap_err();
    assert!(matches!(e.kind, ProteanError::ConversionError));
    assert_eq!(e.field, "integer");
    let mut versioned = t(0, "");
    versioned.set_version(Some("2".to_string()));
    assert!(matches!(a.diff(&versioned).unwrap_err().kind, ProteanError::InvalidPatchType));
}

#[test]
fn diff_error_names_nested_field() {
    let mut a = Record::new("Outer".to_string());
    a.push(Slot::object("inner".to_string(), t(0, ""))).unwrap();
    let mut b = Record::new("Outer".to_string());
    b.push(Slot::object(
        "inner".to_string(),
        record("T", vec![("integer", text("x")), ("label", text(""))]),
    ))
    .unwrap();
    let e = a.diff(&b).unwrap_err();
    assert!(matches!(e.kind, ProteanError::ConversionError));
    assert_eq!(e.field, "inner.integer");
}

#[test]
fn stale_write_is_rejected() {
    let mut a = t(5, "x");
    let before = a.copy();
    let p = patch_of(
        "T",
        vec![leaf(
            Action::Replace,
            "integer",
            FieldValue::Int(1),
            Some(FieldValue::Int(0).fingerprint()),
        )],
    );
    let e = a.apply(p).unwrap_err();
    assert!(matches!(e.kind, ProteanError::StaleFingerprint));
    assert_eq!(e.field, "integer");
    assert!(a.same(&before));
}

#[test]
fn apply_is_all_or_nothing() {
    let mut a = t(0, "x");
    let before = a.copy();
    let p = patch_of(
        "T",
        vec![
            leaf(Action::Replace, "integer", FieldValue::Int(9), None),
            leaf(Action::Replace, "missing", FieldValue::Int(1), None),
        ],
    );
    let e = a.apply(p).unwrap_err();
    assert!(matches!(e.kind, ProteanError::FieldNotFound));
    assert_eq!(e.field, "missing");
    assert!(a.same(&before));
}

#[test]
fn apply_refuses_patch_for_other_type() {
    let mut a = t(0, "x");
    let p = patch_of("U", vec![leaf(Action::Replace, "integer", FieldValue::Int(9), None)]);
    let e = a.apply(p).unwrap_err();
    assert!(matches!(e.kind, ProteanError::InvalidPatchType));
    assert!(a.same(&t(0, "x")));
}

#[test]
fn apply_refuses_value_of_other_genre() {
    let mut a = t(0, "x");
    let p = patch_of("T", vec![leaf(Action::Replace, "integer", text("nine"), None)]);
    let e = a.apply(p).unwrap_err();
    assert!(matches!(e.kind, ProteanError::ConversionError));
    assert_eq!(e.field, "integer");
}

#[test]
fn apply_refuses_keyed_action_without_key() {
    let mut a = record("D", vec![("m", dict(vec![]))]);
    let p = patch_of(
        "D",
        vec![leaf(Action::Keyed(MapAction::Insert(String::new())), "m", FieldValue::Int(1), None)],
    );
    let e = a.apply(p).unwrap_err();
    assert!(matches!(e.kind, ProteanError::NoKeySet));
    assert_eq!(e.field, "m");
}

#[test]
fn upsert_can_be_switched_off() {
    let base = record("D", vec![("m", dict(vec![("a", FieldValue::Int(1))]))]);
    let entry = || leaf(Action::Keyed(MapAction::Insert("a".to_string())), "m", FieldValue::Int(2), None);
    let mut with = base.copy();
    with.apply(patch_of("D", vec![entry()])).unwrap();
    assert!(value_at(&with, "m").same(&dict(vec![("a", FieldValue::Int(2))])));
    let mut without = base.copy();
    let mut strict = patch_of("D", vec![entry()]);
    strict.set_options(Some(PatchOptions::new(false)));
    let e = without.apply(strict).unwrap_err();
    assert!(matches!(e.kind, ProteanError::DuplicateKey));
    assert!(without.same(&base));
}

#[test]
fn nested_patch_inherits_options() {
    let mut base = Record::new("Outer".to_string());
    base.push(Slot::object("inner".to_string(), record("D", vec![("m", dict(vec![]))]))).unwrap();
    let make = |own: Option<PatchOptions>| {
        let mut inner = patch_of(
            "inner",
            vec![leaf(Action::Keyed(MapAction::Update("a".to_string())), "m", FieldValue::Int(1), None)],
        );
        inner.set_options(own);
        let mut outer = Patch::new("Outer".to_string());
        outer.set_options(Some(PatchOptions::new(false)));
        outer.add_entry(PatchAction::nested(Action::Replace, inner, None)).unwrap();
        outer
    };
    let mut a = base.copy();
    let e = a.apply(make(None)).unwrap_err();
    assert!(matches!(e.kind, ProteanError::FieldNotFound));
    assert_eq!(e.field, "inner.m");
    let mut b = base.copy();
    b.apply(make(Some(PatchOptions::new(true)))).unwrap();
    assert!(!b.same(&base));
}

#[test]
fn clear_and_reset_empty_the_field() {
    let mut outer = Record::new("Outer".to_string());
    outer.push(Slot::value("n".to_string(), FieldValue::Int(5))).unwrap();
    outer.push(Slot::value("s".to_string(), text("abc"))).unwrap();
    outer.push(Slot::object("inner".to_string(), t(4, "z"))).unwrap();
    let before = outer.copy();
    let p = patch_of(
        "Outer",
        vec![
            leaf(Action::Clear, "n", FieldValue::Null, None),
            leaf(Action::Reset, "s", FieldValue::Null, None),
            leaf(Action::Clear, "inner", FieldValue::Null, None),
        ],
    );
    let undo = outer.apply(p).unwrap();
    let mut cleared = Record::new("Outer".to_string());
    cleared.push(Slot::value("n".to_string(), FieldValue::Int(0))).unwrap();
    cleared.push(Slot::value("s".to_string(), text(""))).unwrap();
    cleared.push(Slot::object("inner".to_string(), t(0, ""))).unwrap();
    assert!(outer.same(&cleared));
    outer.apply(undo).unwrap();
    assert!(outer.same(&before));
}

#[test]
fn null_action_does_nothing() {
    let mut a = t(1, "x");
    let p = patch_of("T", vec![leaf(Action::Null, "integer", FieldValue::Int(9), None)]);
    let undo = a.apply(p).unwrap();
    assert!(a.same(&t(1, "x")));
    assert!(undo.is_empty());
}

#[test]
fn replace_only_patch_is_idempotent() {
    let p = || {
        patch_of(
            "T",
            vec![
                leaf(Action::Replace, "integer", FieldValue::Int(4), None),
                leaf(Action::Replace, "label", text("w"), None),
            ],
        )
    };
    let mut a = t(0, "");
    a.apply(p()).unwrap();
    let once = a.copy();
    a.apply(p()).unwrap();
    assert!(a.same(&once));
    assert!(a.same(&t(4, "w")));
}

#[test]
fn replace_only_patch_with_expectation_is_idempotent() {
    let a0 = t(0, "");
    let p = a0.diff(&t(4, "")).unwrap();
    let mut a = a0.copy();
    a.apply(p.copy()).unwrap();
    let once = a.copy();
    let e = a.apply(p).unwrap_err();
    assert!(matches!(e.kind, ProteanError::StaleFingerprint));
    assert!(a.same(&once));
}

#[test]
fn record_rejects_second_field_of_a_name() {
    let mut r = t(0, "");
    let e = r.push(Slot::value("label".to_string(), text("again"))).unwrap_err();
    assert!(matches!(e.kind, ProteanError::DuplicateKey));
    assert_eq!(e.field, "label");
    assert_eq!(r.len(), 2);
    assert!(r.is_valid());
}

#[test]
fn record_projection_and_export() {
    let mut outer = Record::new("Outer".to_string());
    outer.push(Slot::value("n".to_string(), FieldValue::Int(5))).unwrap();
    outer.push(Slot::object("inner".to_string(), t(4, "z"))).unwrap();
    let projected = outer.project();
    let expected = dict(vec![
        ("n", FieldValue::Int(5)),
        ("inner", dict(vec![("integer", FieldValue::Int(4)), ("label", text("z"))])),
    ]);
    assert!(projected.same(&expected));
    let export = outer.export_as("Outer".to_string());
    assert_eq!(export.len(), 2);
    assert!(export.entry(0).action().same(&Action::Replace));
    assert_eq!(export.entry(0).expected(), None);
    let mut blank = outer.blank();
    assert!(!blank.same(&outer));
    blank.apply(export).unwrap();
    assert!(blank.same(&outer));
}

#[test]
fn reset_restores_the_default_and_clear_empties() {
    let make = || {
        let mut inner = Record::new("Inner".to_string());
        inner
            .push(Slot::with_default("level".to_string(), FieldValue::Int(9), FieldValue::Int(3)))
            .unwrap();
        let mut r = Record::new("Outer".to_string());
        r.push(Slot::with_default("n".to_string(), FieldValue::Int(5), FieldValue::Int(42))).unwrap();
        r.push(Slot::with_default("s".to_string(), text("abc"), text("none"))).unwrap();
        r.push(Slot::value("plain".to_string(), FieldValue::Int(7))).unwrap();
        r.push(Slot::with_default("odd".to_string(), FieldValue::Int(7), text("seven"))).unwrap();
        r.push(Slot::object("inner".to_string(), inner)).unwrap();
        r
    };
    let all = |action: fn() -> Action| {
        patch_of(
            "Outer",
            vec![
                leaf(action(), "n", FieldValue::Null, None),
                leaf(action(), "s", FieldValue::Null, None),
                leaf(action(), "plain", FieldValue::Null, None),
                leaf(action(), "odd", FieldValue::Null, None),
                leaf(action(), "inner", FieldValue::Null, None),
            ],
        )
    };
    let level = |r: &Record| match &r.slot(r.find("inner").unwrap()).content {
        Content::Object(inner) => value_at(inner, "level").copy(),
        Content::Value(_) => panic!("the field holds a value"),
    };
    let mut reset = make();
    let undo = reset.apply(all(|| Action::Reset)).unwrap();
    assert!(value_at(&reset, "n").same(&FieldValue::Int(42)));
    assert!(value_at(&reset, "s").same(&text("none")));
    assert!(value_at(&reset, "plain").same(&FieldValue::Int(0)));
    assert!(value_at(&reset, "odd").same(&FieldValue::Int(0)));
    assert!(level(&reset).same(&FieldValue::Int(3)));
    reset.apply(undo).unwrap();
    assert!(reset.same(&make()));
    let mut cleared = make();
    let undo = cleared.apply(all(|| Action::Clear)).unwrap();
    assert!(value_at(&cleared, "n").same(&FieldValue::Int(0)));
    assert!(value_at(&cleared, "s").same(&text("")));
    assert!(value_at(&cleared, "plain").same(&FieldValue::Int(0)));
    assert!(level(&cleared).same(&FieldValue::Int(0)));
    cleared.apply(undo).unwrap();
    assert!(cleared.same(&make()));
    assert!(make().reset().same(&{
        let mut r = make();
        r.apply(all(|| Action::Reset)).unwrap();
        r
    }));
}

#[test]
fn diff_refuses_other_defaults() {
    let mut a = Record::new("T".to_string());
    a.push(Slot::with_default("n".to_string(), FieldValue::Int(1), FieldValue::Int(5))).unwrap();
    let mut b = Record::new("T".to_string());
    b.push(Slot::with_default("n".to_string(), FieldValue::Int(2), FieldValue::Int(6))).unwrap();
    let e = a.diff(&b).unwrap_err();
    assert!(matches!(e.kind, ProteanError::InvalidPatchType));
    assert_eq!(e.field, "n");
    let mut c = Record::new("T".to_string());
    c.push(Slot::with_default("n".to_string(), FieldValue::Int(2), FieldValue::Int(5))).unwrap();
    let p = a.diff(&c).unwrap();
    let mut d = a.copy();
    d.apply(p).unwrap();
    assert!(d.same(&c));
    assert!(!a.same(&b));
}

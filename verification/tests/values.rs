use protean::action::{Action, ListAction, MapAction};
use protean::error::{join_path, Failure, ProteanError};
use protean::text::{same_str, same_text};
use protean::value::{fingerprint_text, FieldValue, Kind};

fn text(s: &str) -> FieldValue {
    FieldValue::Text(s.to_string())
}

fn list(items: Vec<FieldValue>) -> FieldValue {
    FieldValue::List(items)
}

fn dict(entries: Vec<(&str, FieldValue)>) -> FieldValue {
    FieldValue::Dict(entries.into_iter().map(|(k, v)| (k.to_string(), v)).collect())
}

#[test]
fn fingerprint_of_text_is_fnv1a() {
    assert_eq!(fingerprint_text(""), 0xcbf2_9ce4_8422_2325);
    assert_eq!(fingerprint_text("a"), 0xaf63_dc4c_8601_ec8c);
}

#[test]
fn fingerprint_of_each_genre() {
    assert_eq!(FieldValue::Null.fingerprint(), 0xaf63_bd4c_8601_b7df);
    assert_eq!(FieldValue::Bool(true).fingerprint(), 0x082f_2307_b4e8_8e77);
    assert_eq!(FieldValue::Bool(false).fingerprint(), 0x082f_2207_b4e8_8cc4);
    assert_eq!(FieldValue::Int(0).fingerprint(), 0x0839_5407_b4f1_363f);
    assert_eq!(FieldValue::Int(1).fingerprint(), 0x0839_5307_b4f1_348c);
    assert_eq!(FieldValue::Int(-1).fingerprint(), 0x0835_ee07_b4ee_5316);
    assert_eq!(text("").fingerprint(), 0x0635_327b_a271_71c2);
    assert_eq!(text("integer").fingerprint(), 0x21d8_583d_bc4d_c662);
    assert_eq!(list(vec![]).fingerprint(), 0xaf63_b84c_8601_af60);
    assert_eq!(
        list(vec![FieldValue::Int(1), FieldValue::Int(2)]).fingerprint(),
        0xe9ba_85a2_d505_0293
    );
    assert_eq!(dict(vec![]).fingerprint(), 0xaf63_bb4c_8601_b479);
    assert_eq!(dict(vec![("k", FieldValue::Int(1))]).fingerprint(), 0x9eec_9d17_cade_749f);
}

#[test]
fn fingerprint_of_extreme_numbers() {
    let low = FieldValue::Int(i64::MIN).fingerprint();
    let high = FieldValue::Int(i64::MAX).fingerprint();
    assert_ne!(low, high);
    assert_eq!(low, FieldValue::Int(i64::MIN).fingerprint());
}

#[test]
fn same_tells_values_apart() {
    assert!(FieldValue::Null.same(&FieldValue::Null));
    assert!(!FieldValue::Null.same(&FieldValue::Int(0)));
    assert!(FieldValue::Int(3).same(&FieldValue::Int(3)));
    assert!(!FieldValue::Int(3).same(&FieldValue::Int(4)));
    assert!(text("a").same(&text("a")));
    assert!(!text("a").same(&text("b")));
    let a = list(vec![FieldValue::Int(1), text("x")]);
    let b = list(vec![FieldValue::Int(1), text("x")]);
    let c = list(vec![FieldValue::Int(1)]);
    assert!(a.same(&b));
    assert!(!a.same(&c));
    let d = dict(vec![("k", FieldValue::Int(1)), ("l", FieldValue::Int(2))]);
    let e = dict(vec![("l", FieldValue::Int(2)), ("k", FieldValue::Int(1))]);
    assert!(d.same(&d.copy()));
    assert!(!d.same(&e));
    assert!(!d.same(&a));
}

#[test]
fn copy_is_deep() {
    let a = dict(vec![("k", list(vec![FieldValue::Int(1), FieldValue::Bool(true)]))]);
    let b = a.copy();
    assert!(a.same(&b));
    assert_eq!(a.fingerprint(), b.fingerprint());
}

#[test]
fn kind_and_blank_go_by_genre() {
    assert_eq!(FieldValue::Int(7).kind(), Kind::Int);
    assert_eq!(text("x").kind(), Kind::Text);
    assert!(FieldValue::Int(7).blank().same(&FieldValue::Int(0)));
    assert!(text("x").blank().same(&text("")));
    assert!(FieldValue::Bool(true).blank().same(&FieldValue::Bool(false)));
    assert!(FieldValue::Null.blank().same(&FieldValue::Null));
    assert!(list(vec![FieldValue::Int(1)]).blank().same(&list(vec![])));
    assert!(dict(vec![("k", FieldValue::Int(1))]).blank().same(&dict(vec![])));
}

#[test]
fn accepts_same_genre_or_null() {
    assert!(FieldValue::Int(1).accepts(&FieldValue::Int(2)));
    assert!(FieldValue::Int(1).accepts(&FieldValue::Null));
    assert!(FieldValue::Null.accepts(&text("x")));
    assert!(!FieldValue::Int(1).accepts(&text("x")));
    assert!(!list(vec![]).accepts(&dict(vec![])));
}

#[test]
fn act_null_reset_clear_replace() {
    let seven = FieldValue::Int(7);
    assert!(seven.act(&Action::Null, &FieldValue::Int(9), true).unwrap().same(&seven));
    assert!(seven.act(&Action::Reset, &FieldValue::Null, true).unwrap().same(&FieldValue::Int(0)));
    assert!(seven.act(&Action::Clear, &FieldValue::Null, true).unwrap().same(&FieldValue::Int(0)));
    assert!(seven
        .act(&Action::Replace, &FieldValue::Int(9), true)
        .unwrap()
        .same(&FieldValue::Int(9)));
    assert!(matches!(
        seven.act(&Action::Replace, &text("x"), true),
        Err(ProteanError::ConversionError)
    ));
}

#[test]
fn act_list_steps() {
    let base = list(vec![FieldValue::Int(1), FieldValue::Int(2), FieldValue::Int(3)]);
    let swapped = base.act(&Action::List(ListAction::Swap(0, 2)), &FieldValue::Null, true).unwrap();
    assert!(swapped.same(&list(vec![FieldValue::Int(3), FieldValue::Int(2), FieldValue::Int(1)])));
    let removed = base.act(&Action::List(ListAction::Remove(1)), &FieldValue::Null, true).unwrap();
    assert!(removed.same(&list(vec![FieldValue::Int(1), FieldValue::Int(3)])));
    let inserted =
        base.act(&Action::List(ListAction::Insert(1)), &FieldValue::Int(9), true).unwrap();
    assert!(inserted.same(&list(vec![
        FieldValue::Int(1),
        FieldValue::Int(9),
        FieldValue::Int(2),
        FieldValue::Int(3)
    ])));
    let at_end = base.act(&Action::List(ListAction::Insert(3)), &FieldValue::Int(9), true).unwrap();
    let appended = base.act(&Action::List(ListAction::Append()), &FieldValue::Int(9), true).unwrap();
    assert!(at_end.same(&appended));
    assert!(matches!(
        base.act(&Action::List(ListAction::Remove(3)), &FieldValue::Null, true),
        Err(ProteanError::FieldNotFound)
    ));
    assert!(matches!(
        base.act(&Action::List(ListAction::Insert(4)), &FieldValue::Null, true),
        Err(ProteanError::FieldNotFound)
    ));
    assert!(matches!(
        base.act(&Action::List(ListAction::Swap(0, 3)), &FieldValue::Null, true),
        Err(ProteanError::FieldNotFound)
    ));
    assert!(matches!(
        FieldValue::Int(1).act(&Action::List(ListAction::Append()), &FieldValue::Null, true),
        Err(ProteanError::ConversionError)
    ));
}

#[test]
fn act_dict_steps() {
    let base = dict(vec![("a", FieldValue::Int(1)), ("b", FieldValue::Int(2))]);
    let insert = |k: &str| Action::Keyed(MapAction::Insert(k.to_string()));
    let update = |k: &str| Action::Keyed(MapAction::Update(k.to_string()));
    let delete = |k: &str| Action::Keyed(MapAction::Delete(k.to_string()));
    let grown = base.act(&insert("c"), &FieldValue::Int(3), true).unwrap();
    assert!(grown.same(&dict(vec![
        ("a", FieldValue::Int(1)),
        ("b", FieldValue::Int(2)),
        ("c", FieldValue::Int(3))
    ])));
    let upserted = base.act(&insert("a"), &FieldValue::Int(5), true).unwrap();
    assert!(upserted.same(&dict(vec![("a", FieldValue::Int(5)), ("b", FieldValue::Int(2))])));
    assert!(matches!(
        base.act(&insert("a"), &FieldValue::Int(5), false),
        Err(ProteanError::DuplicateKey)
    ));
    let changed = base.act(&update("b"), &FieldValue::Int(7), false).unwrap();
    assert!(changed.same(&dict(vec![("a", FieldValue::Int(1)), ("b", FieldValue::Int(7))])));
    let added = base.act(&update("z"), &FieldValue::Int(7), true).unwrap();
    assert!(added.same(&dict(vec![
        ("a", FieldValue::Int(1)),
        ("b", FieldValue::Int(2)),
        ("z", FieldValue::Int(7))
    ])));
    assert!(matches!(
        base.act(&update("z"), &FieldValue::Int(7), false),
        Err(ProteanError::FieldNotFound)
    ));
    let shrunk = base.act(&delete("a"), &FieldValue::Null, true).unwrap();
    assert!(shrunk.same(&dict(vec![("b", FieldValue::Int(2))])));
    assert!(matches!(
        base.act(&delete("z"), &FieldValue::Null, true),
        Err(ProteanError::FieldNotFound)
    ));
    assert!(matches!(
        base.act(&insert(""), &FieldValue::Null, true),
        Err(ProteanError::NoKeySet)
    ));
    assert!(matches!(
        list(vec![]).act(&insert("a"), &FieldValue::Null, true),
        Err(ProteanError::ConversionError)
    ));
}

#[test]
fn join_path_puts_dots_between_names() {
    assert_eq!(join_path("", "a"), "a");
    assert_eq!(join_path("a", "b"), "a.b");
    assert_eq!(join_path("a.b", "c"), "a.b.c");
    let f = Failure::at(ProteanError::FieldNotFound, "outer", "inner");
    assert_eq!(f.field, "outer.inner");
    assert!(matches!(f.kind, ProteanError::FieldNotFound));
}

#[test]
fn text_comparison() {
    assert!(same_str("abc", "abc"));
    assert!(!same_str("abc", "abd"));
    assert!(!same_str("abc", "ab"));
    assert!(same_str("", ""));
    assert!(same_str("h\u{e9}llo", "h\u{e9}llo"));
    assert!(!same_str("h\u{e9}llo", "hello"));
    assert!(same_text(&"x".to_string(), &"x".to_string()));
    assert!(!same_text(&"x".to_string(), &"y".to_string()));
}

#[test]
fn actions_compare_by_kind_and_argument() {
    assert!(Action::Replace.same(&Action::Replace));
    assert!(!Action::Replace.same(&Action::Clear));
    assert!(Action::List(ListAction::Swap(1, 2)).same(&Action::List(ListAction::Swap(1, 2))));
    assert!(!Action::List(ListAction::Swap(1, 2)).same(&Action::List(ListAction::Swap(2, 1))));
    let a = Action::Keyed(MapAction::Update("k".to_string()));
    assert!(a.same(&a.copy()));
    assert!(!a.same(&Action::Keyed(MapAction::Insert("k".to_string()))));
    assert!(!a.same(&Action::Keyed(MapAction::Update("l".to_string()))));
}

#[test]
fn unsigned_numbers_are_numbers() {
    assert!(FieldValue::Unsigned(5).same(&FieldValue::Int(5)));
    assert!(FieldValue::Int(5).same(&FieldValue::Unsigned(5)));
    assert!(!FieldValue::Unsigned(5).same(&FieldValue::Int(-5)));
    assert!(!FieldValue::Unsigned(u64::MAX).same(&FieldValue::Int(-1)));
    assert!(FieldValue::Unsigned(u64::MAX).same(&FieldValue::Unsigned(u64::MAX)));
    assert_eq!(FieldValue::Unsigned(1).fingerprint(), FieldValue::Int(1).fingerprint());
    assert_eq!(FieldValue::Unsigned(1).fingerprint(), 0x0839_5307_b4f1_348c);
    assert_eq!(FieldValue::Unsigned(7).kind(), Kind::Int);
    assert!(FieldValue::Unsigned(7).blank().same(&FieldValue::Int(0)));
    assert!(FieldValue::Unsigned(7).copy().same(&FieldValue::Int(7)));
    assert!(FieldValue::Int(1).accepts(&FieldValue::Unsigned(u64::MAX)));
}

#[test]
fn errors_say_what_they_are() {
    assert_eq!(ProteanError::NoKeySet.message(), "The patch did not set a key");
    assert_eq!(
        ProteanError::SerializationError("x".to_string()).message(),
        "Error (de)serializing the patch: x"
    );
    assert_eq!(
        ProteanError::DuplicateKey.message(),
        "Tried to add the second of the same key to a set"
    );
}

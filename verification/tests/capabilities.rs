use protean::action::Action;
use protean::error::ProteanError;
use protean::patch::{Field, Patch, PatchAction, PatchValue};
use protean::record::{Record, Slot};
use protean::replicant::{Filter, FilterType, KeyType, Registrar, ReplicantError, Subscription};
use protean::wire::encode;
use protean::stats::PatchResult;
use protean::strain::StrainError;
use protean::traits::{Patchwork, Patchworthy};
use protean::value::FieldValue;
use protean::version::ModelVersion;

struct Celsius(i64);

impl Patchworthy for Celsius {
    fn get_field_name(&self) -> String {
        "celsius".to_string()
    }

    fn as_patch(&self) -> Result<Patch, ProteanError> {
        Err(ProteanError::ConversionError)
    }

    fn as_json(&self) -> Result<FieldValue, ProteanError> {
        Ok(FieldValue::Int(self.0))
    }
}

struct Broken;

impl Patchworthy for Broken {
    fn get_field_name(&self) -> String {
        "broken".to_string()
    }

    fn as_patch(&self) -> Result<Patch, ProteanError> {
        Err(ProteanError::ConversionError)
    }

    fn as_json(&self) -> Result<FieldValue, ProteanError> {
        Err(ProteanError::SerializationError("no projection".to_string()))
    }
}

fn sample() -> Record {
    let mut inner = Record::new("Inner".to_string());
    inner.push(Slot::value("level".to_string(), FieldValue::Int(2))).unwrap();
    let mut r = Record::new("Outer".to_string());
    r.set_version(Some("0.1.0".to_string()));
    r.push(Slot::value("n".to_string(), FieldValue::Int(5))).unwrap();
    r.push(Slot::object("inner".to_string(), inner)).unwrap();
    r
}

#[test]
fn add_takes_any_patchworthy_field() {
    let mut p = Patch::new("Weather".to_string());
    p.add(Action::Replace, Celsius(21), Some(4)).unwrap();
    assert_eq!(p.len(), 1);
    assert_eq!(p.entry(0).get_name(), "celsius");
    assert_eq!(p.entry(0).expected(), Some(4));
    match p.entry(0).payload() {
        PatchValue::Value(f) => assert!(f.value.same(&FieldValue::Int(21))),
        PatchValue::Patch(_) => panic!("a scalar is carried as a value"),
    }
    let e = p.add(Action::Replace, Celsius(22), None).unwrap_err();
    assert!(matches!(e.kind, ProteanError::DuplicateKey));
}

#[test]
fn add_keeps_a_field_without_projection() {
    let mut p = Patch::new("Weather".to_string());
    p.add(Action::Replace, Broken, Some(3)).unwrap();
    assert_eq!(p.len(), 1);
    assert_eq!(p.entry(0).get_name(), "broken");
    assert_eq!(p.entry(0).expected(), Some(3));
    assert!(p.entry(0).action().same(&Action::Replace));
    match p.entry(0).payload() {
        PatchValue::Value(f) => {
            assert_eq!(f.lost, Some("Error (de)serializing the patch: no projection".to_string()));
            assert!(matches!(f.as_json(), Err(ProteanError::SerializationError(_))));
        }
        PatchValue::Patch(_) => panic!("a scalar is carried as a value"),
    }
    let e = p.add(Action::Replace, Broken, None).unwrap_err();
    assert!(matches!(e.kind, ProteanError::DuplicateKey));
    assert_eq!(e.field, "broken");
    let e = encode(&p).unwrap_err();
    assert!(matches!(e.kind, ProteanError::SerializationError(_)));
    assert_eq!(e.field, "broken");
    let mut target = Record::new("Weather".to_string());
    target.push(Slot::value("broken".to_string(), FieldValue::Int(1))).unwrap();
    let e = target.apply(p).unwrap_err();
    assert!(matches!(e.kind, ProteanError::StaleFingerprint));
    let mut free = Patch::new("Weather".to_string());
    free.add(Action::Replace, Broken, None).unwrap();
    let e = target.apply(free).unwrap_err();
    assert!(matches!(e.kind, ProteanError::ConversionError));
    assert_eq!(e.field, "broken");
    assert!(target.get_field("broken").unwrap().as_json().unwrap().same(&FieldValue::Int(1)));
}

#[test]
fn registrar_is_patchwork_without_fields() {
    let mut a = Registrar::new().unwrap();
    let b = Registrar::new().unwrap();
    assert_eq!(Patchwork::get_name(&a), "Registrar");
    assert_eq!(a.get_id(), None);
    assert_eq!(a.get_version(), None);
    assert!(a.values().is_empty());
    assert!(matches!(a.get_field("x"), Err(ProteanError::FieldNotFound)));
    let p = a.diff(&b).unwrap();
    assert!(p.is_empty());
    assert_eq!(p.get_name(), "Registrar");
    assert!(a.as_patch().is_empty());
    let undo = a.apply(p).unwrap();
    assert!(undo.is_empty());
    let mut q = a.new_patch();
    q.add(Action::Replace, Celsius(1), None).unwrap();
    let e = a.apply(q).unwrap_err();
    assert!(matches!(e.kind, ProteanError::FieldNotFound));
    assert_eq!(e.field, "celsius");
}

#[test]
fn filter_names_fields() {
    let all = FilterType::Off;
    let some = FilterType::Fields(vec!["a".to_string()]);
    assert_ne!(all, some);
    assert_eq!(some.clone(), FilterType::Fields(vec!["a".to_string()]));
}

#[test]
fn scalar_field_has_no_sub_patch() {
    let f = Field::new("n".to_string(), FieldValue::Int(1));
    assert_eq!(f.get_field_name(), "n");
    assert!(f.as_json().unwrap().same(&FieldValue::Int(1)));
    assert!(matches!(f.as_patch(), Err(ProteanError::ConversionError)));
}

#[test]
fn composite_field_exports_its_children() {
    let r = sample();
    let slot = r.get_field("inner").unwrap();
    assert_eq!(slot.get_field_name(), "inner");
    let p = slot.as_patch().unwrap();
    assert_eq!(p.get_name(), "inner");
    assert_eq!(p.len(), 1);
    assert_eq!(p.entry(0).get_name(), "level");
    let projected = slot.as_json().unwrap();
    let expected = FieldValue::Dict(vec![("level".to_string(), FieldValue::Int(2))]);
    assert!(projected.same(&expected));
    let scalar = r.get_field("n").unwrap();
    assert!(matches!(scalar.as_patch(), Err(ProteanError::ConversionError)));
}

#[test]
fn record_is_patchwork() {
    let r = sample();
    assert_eq!(Patchwork::get_name(&r), "Outer");
    assert_eq!(r.get_id(), None);
    assert_eq!(r.get_version(), Some("0.1.0".to_string()));
    assert!(r.new_patch().is_empty());
    assert_eq!(r.new_patch().get_name(), "Outer");
    let values = r.values();
    assert_eq!(values.len(), 2);
    assert_eq!(values[0].name, "n");
    assert_eq!(values[1].name, "inner");
    assert!(matches!(r.get_field("missing"), Err(ProteanError::FieldNotFound)));
}

#[test]
fn full_export_sets_every_field() {
    let r = sample();
    let p = r.as_patch();
    assert_eq!(p.get_name(), "Outer");
    assert_eq!(p.get_version(), Some("0.1.0".to_string()));
    assert_eq!(p.len(), 2);
    assert!(p.entry(0).action().same(&Action::Replace));
    assert!(p.entry(1).action().same(&Action::Replace));
    let mut blank = r.blank();
    Patchwork::apply(&mut blank, p).unwrap();
    assert!(blank.same(&r));
    let again = Patchwork::diff(&blank, &r).unwrap();
    assert!(again.is_empty());
}

#[test]
fn registrar_is_made_without_failure() {
    assert_eq!(Registrar::new(), Ok(Registrar {}));
    assert_eq!(Registrar::default(), Registrar {});
}

#[test]
fn only_keyed_items_can_be_roots() {
    assert_eq!(KeyType::default(), KeyType::Unkeyed);
    assert_eq!(KeyType::Unkeyed.check_root(), Err(ReplicantError::UnkeyedReplicantError));
    assert_eq!(KeyType::Local.check_root(), Ok(()));
    assert_eq!(KeyType::Global.check_root(), Ok(()));
}

#[test]
fn markers_have_their_defaults() {
    assert_eq!(Filter::default(), Filter {});
    assert_eq!(Subscription::default(), Subscription {});
    let v = ModelVersion {};
    let _ = v.clone();
    assert!(matches!(StrainError::ConversionError.clone(), StrainError::ConversionError));
}

#[test]
fn json_error_becomes_serialization_error() {
    let err = serde_json::from_str::<serde_json::Value>("{").unwrap_err();
    let message = err.to_string();
    match ProteanError::from(err) {
        ProteanError::SerializationError(s) => assert_eq!(s, message),
        _ => panic!("a failure of the reader is a serialization error"),
    }
}

#[test]
fn stats_count_the_actions_that_change_something() {
    let mut inner = Patch::new("inner".to_string());
    inner.add(Action::Replace, Field::new("a".to_string(), FieldValue::Int(1)), None).unwrap();
    inner.add(Action::Null, Field::new("b".to_string(), FieldValue::Int(1)), None).unwrap();
    inner.add(Action::Clear, Field::new("c".to_string(), FieldValue::Null), None).unwrap();
    let mut p = Patch::new("Outer".to_string());
    p.add(Action::Replace, Field::new("n".to_string(), FieldValue::Int(1)), None).unwrap();
    p.add_entry(PatchAction::nested(Action::Replace, inner, None)).unwrap();
    let result = PatchResult::from_patch(&p);
    assert!(result.errors().is_empty());
    let stats = result.stats();
    assert_eq!(stats.count(), 3);
    assert_eq!(stats.target(), "Outer");
    assert_eq!(stats.action(), "Patch");
    assert_eq!(stats.children().len(), 2);
    assert_eq!(stats.children()[0].target(), "n");
    assert_eq!(stats.children()[0].action(), "Set");
    assert_eq!(stats.children()[0].count(), 1);
    assert_eq!(stats.children()[1].target(), "inner");
    assert_eq!(stats.children()[1].count(), 2);
    assert_eq!(stats.children()[1].children().len(), 3);
    assert_eq!(stats.children()[1].children()[1].action(), "Null");
    assert_eq!(stats.children()[1].children()[1].count(), 0);
    assert_eq!(PatchResult::from_patch(&Patch::new("E".to_string())).stats().count(), 0);
}

//! What one action does to one value.

use crate::action::{Action, ActionView, ListAction, MapAction, MapActionView};
use crate::error::ProteanError;
use crate::text::{lemma_position_absent, lemma_position_found, position, same_str};
use crate::value::{dict_view, list_view, FieldValue, ValueView};
use vstd::prelude::*;

verus! {

/// The keys of the entries of a dictionary, in order.
pub open spec fn dict_keys(entries: Seq<(Seq<char>, ValueView)>) -> Seq<Seq<char>> {
    Seq::new(entries.len(), |i: int| entries[i].0)
}

/// The items after one step on a list, or `None` where the step names a
/// position that the list does not have.
pub open spec fn list_step(items: Seq<ValueView>, step: ListAction, v: ValueView) -> Option<
    Seq<ValueView>,
> {
    match step {
        ListAction::Swap(i, j) => if i < items.len() && j < items.len() {
            Some(items.update(i as int, items[j as int]).update(j as int, items[i as int]))
        } else {
            None
        },
        ListAction::Remove(i) => if i < items.len() {
            Some(items.remove(i as int))
        } else {
            None
        },
        ListAction::Insert(i) => if i <= items.len() {
            Some(items.insert(i as int, v))
        } else {
            None
        },
        ListAction::Append() => Some(items.push(v)),
    }
}

/// The entries after one step on a dictionary.
///
/// A step without a key is refused. An insert under a key that is present
/// changes its value where upserts are allowed, and is a duplicate
/// otherwise; an update under a key that is absent adds it where upserts are
/// allowed, and finds nothing otherwise; a delete needs its key.
pub open spec fn dict_step(
    entries: Seq<(Seq<char>, ValueView)>,
    step: MapActionView,
    v: ValueView,
    upsert: bool,
) -> Result<Seq<(Seq<char>, ValueView)>, ProteanError> {
    let k = step.key();
    if k.len() == 0 {
        Err(ProteanError::NoKeySet)
    } else {
        match (step, position(dict_keys(entries), k)) {
            (MapActionView::Insert(_), None) => Ok(entries.push((k, v))),
            (MapActionView::Insert(_), Some(i)) => if upsert {
                Ok(entries.update(i, (k, v)))
            } else {
                Err(ProteanError::DuplicateKey)
            },
            (MapActionView::Update(_), Some(i)) => Ok(entries.update(i, (k, v))),
            (MapActionView::Update(_), None) => if upsert {
                Ok(entries.push((k, v)))
            } else {
                Err(ProteanError::FieldNotFound)
            },
            (MapActionView::Delete(_), Some(i)) => Ok(entries.remove(i)),
            (MapActionView::Delete(_), None) => Err(ProteanError::FieldNotFound),
        }
    }
}

/// The value after the action `action`, carrying `v`, on the value `cur`.
///
/// Nothing changes under `Null`. `Clear` gives the empty value of the
/// genre, and so does `Reset` here, where the value stands alone without a
/// field that gives it a default. `Replace` gives `v` where the value
/// accepts it. A list step needs a list, a dictionary step a dictionary.
pub open spec fn act_on_value(cur: ValueView, action: ActionView, v: ValueView, upsert: bool) -> Result<
    ValueView,
    ProteanError,
> {
    match action {
        ActionView::Null => Ok(cur),
        ActionView::Reset => Ok(cur.blank()),
        ActionView::Clear => Ok(cur.blank()),
        ActionView::Replace => if cur.accepts(v) {
            Ok(v)
        } else {
            Err(ProteanError::ConversionError)
        },
        ActionView::List(step) => match cur {
            ValueView::List(items) => match list_step(items, step, v) {
                Some(r) => Ok(ValueView::List(r)),
                None => Err(ProteanError::FieldNotFound),
            },
            _ => Err(ProteanError::ConversionError),
        },
        ActionView::Keyed(step) => match cur {
            ValueView::Dict(entries) => match dict_step(entries, step, v, upsert) {
                Ok(r) => Ok(ValueView::Dict(r)),
                Err(e) => Err(e),
            },
            _ => Err(ProteanError::ConversionError),
        },
    }
}

/// The position of the first entry under `key`, if there is one.
pub fn dict_find(entries: &Vec<(String, FieldValue)>, key: &str) -> (r: Option<usize>)
    ensures
        match r {
            Some(i) => position(dict_keys(dict_view(entries@)), key@) == Some(i as int),
            None => position(dict_keys(dict_view(entries@)), key@) is None,
        },
{
    let mut i: usize = 0;
    while i < entries.len()
        invariant
            i <= entries.len(),
            forall|j: int| 0 <= j < i ==> dict_keys(dict_view(entries@))[j] != key@,
        decreases entries.len() - i,
    {
        if same_str(entries[i].0.as_str(), key) {
            proof {
                lemma_position_found(dict_keys(dict_view(entries@)), key@, i as int);
            }
            return Some(i);
        }
        i += 1;
    }
    proof {
        lemma_position_absent(dict_keys(dict_view(entries@)), key@);
    }
    None
}

/// Carries out one step on the items of a list.
fn step_list(items: Vec<FieldValue>, step: ListAction, v: FieldValue) -> (r: Option<Vec<FieldValue>>)
    ensures
        match list_step(list_view(items@), step, v@) {
            Some(s) => r matches Some(x) && list_view(x@) == s,
            None => r is None,
        },
{
    let mut items = items;
    let ghost before = list_view(items@);
    match step {
        ListAction::Swap(i, j) => {
            if i < items.len() && j < items.len() {
                let a = items[i].copy();
                let b = items[j].copy();
                items.set(i, b);
                items.set(j, a);
                assert(list_view(items@) =~= before.update(i as int, before[j as int]).update(
                    j as int,
                    before[i as int],
                ));
                Some(items)
            } else {
                None
            }
        },
        ListAction::Remove(i) => {
            if i < items.len() {
                let _ = items.remove(i);
                assert(list_view(items@) =~= before.remove(i as int));
                Some(items)
            } else {
                None
            }
        },
        ListAction::Insert(i) => {
            if i <= items.len() {
                items.insert(i, v);
                assert(list_view(items@) =~= before.insert(i as int, v@));
                Some(items)
            } else {
                None
            }
        },
        ListAction::Append() => {
            items.push(v);
            assert(list_view(items@) =~= before.push(v@));
            Some(items)
        },
    }
}

/// Carries out one step on the entries of a dictionary.
fn step_dict(entries: Vec<(String, FieldValue)>, step: &MapAction, v: FieldValue, upsert: bool) -> (r:
    Result<Vec<(String, FieldValue)>, ProteanError>)
    ensures
        match dict_step(dict_view(entries@), step@, v@, upsert) {
            Ok(s) => r matches Ok(x) && dict_view(x@) == s,
            Err(e) => r matches Err(x) && x == e,
        },
{
    let mut entries = entries;
    let ghost before = dict_view(entries@);
    let key = step.key();
    if key.as_str().is_empty() {
        return Err(ProteanError::NoKeySet);
    }
    let found = dict_find(&entries, key.as_str());
    match step {
        MapAction::Insert(_) => match found {
            None => {
                entries.push((key.clone(), v));
                assert(dict_view(entries@) =~= before.push((key@, v@)));
                Ok(entries)
            },
            Some(i) => {
                if upsert {
                    entries.set(i, (key.clone(), v));
                    assert(dict_view(entries@) =~= before.update(i as int, (key@, v@)));
                    Ok(entries)
                } else {
                    Err(ProteanError::DuplicateKey)
                }
            },
        },
        MapAction::Update(_) => match found {
            Some(i) => {
                entries.set(i, (key.clone(), v));
                assert(dict_view(entries@) =~= before.update(i as int, (key@, v@)));
                Ok(entries)
            },
            None => {
                if upsert {
                    entries.push((key.clone(), v));
                    assert(dict_view(entries@) =~= before.push((key@, v@)));
                    Ok(entries)
                } else {
                    Err(ProteanError::FieldNotFound)
                }
            },
        },
        MapAction::Delete(_) => match found {
            Some(i) => {
                let _ = entries.remove(i);
                assert(dict_view(entries@) =~= before.remove(i as int));
                Ok(entries)
            },
            None => Err(ProteanError::FieldNotFound),
        },
    }
}

impl FieldValue {
    /// The value after the action `action`, carrying `v`, on this value.
    pub fn act(&self, action: &Action, v: &FieldValue, upsert: bool) -> (r: Result<
        FieldValue,
        ProteanError,
    >)
        ensures
            match act_on_value(self@, action@, v@, upsert) {
                Ok(x) => r matches Ok(y) && y@ == x,
                Err(e) => r matches Err(x) && x == e,
            },
    {
        match action {
            Action::Null => Ok(self.copy()),
            Action::Reset => Ok(self.blank()),
            Action::Clear => Ok(self.blank()),
            Action::Replace => {
                if self.accepts(v) {
                    Ok(v.copy())
                } else {
                    Err(ProteanError::ConversionError)
                }
            },
            Action::List(step) => match self.copy() {
                FieldValue::List(items) => match step_list(items, *step, v.copy()) {
                    Some(r) => Ok(FieldValue::List(r)),
                    None => Err(ProteanError::FieldNotFound),
                },
                _ => Err(ProteanError::ConversionError),
            },
            Action::Keyed(step) => match self.copy() {
                FieldValue::Dict(entries) => match step_dict(entries, step, v.copy(), upsert) {
                    Ok(r) => Ok(FieldValue::Dict(r)),
                    Err(e) => Err(e),
                },
                _ => Err(ProteanError::ConversionError),
            },
        }
    }
}

} // verus!

//! The two capabilities that diffing and patching rest on: what a field
//! offers, and what a patchable object offers.

use crate::action::Action;
use crate::error::{Failure, Fault, ProteanError};
use crate::patch::{EntryView, Field, FieldView, Patch, PatchView, PayloadView};
use crate::record::{Content, ContentView, Record, RecordView, Slot, SlotView};
use crate::value::{FieldValue, ValueView};
use vstd::prelude::*;

verus! {

/// What a field offers: its name, its canonical projection, and, for a
/// composite field, the patch that exports what is below it.
pub trait Patchworthy {
    /// The name of the field.
    open spec fn field_name(&self) -> Seq<char> {
        arbitrary()
    }

    /// The canonical projection of the field, where it has one.
    open spec fn projection(&self) -> Option<ValueView> {
        arbitrary()
    }

    /// The patch that exports what is below the field, for a composite
    /// field; `None` for a scalar.
    open spec fn sub_patch(&self) -> Option<PatchView> {
        None
    }

    /// The name of the field.
    fn get_field_name(&self) -> (r: String)
        ensures
            r@ == self.field_name(),
    ;

    /// Exports what is below the field as a patch of its own. A scalar has
    /// nothing below it and gives `ConversionError`.
    fn as_patch(&self) -> (r: Result<Patch, ProteanError>)
        ensures
            match self.sub_patch() {
                Some(p) => r matches Ok(x) && x@ == p && p.wf(),
                None => r matches Err(e) && e == ProteanError::ConversionError,
            },
    ;

    /// The canonical projection of the field: the one form in which its
    /// value goes into a patch and over the wire.
    fn as_json(&self) -> (r: Result<FieldValue, ProteanError>)
        ensures
            match self.projection() {
                Some(v) => r matches Ok(x) && x@ == v,
                None => r is Err,
            },
    ;
}

impl Patchworthy for Field {
    open spec fn field_name(&self) -> Seq<char> {
        self@.name
    }

    open spec fn projection(&self) -> Option<ValueView> {
        if self@.lost is Some {
            None
        } else {
            Some(self@.value)
        }
    }

    open spec fn sub_patch(&self) -> Option<PatchView> {
        None
    }

    fn get_field_name(&self) -> (r: String) {
        self.name.clone()
    }

    fn as_patch(&self) -> (r: Result<Patch, ProteanError>) {
        Err(ProteanError::ConversionError)
    }

    fn as_json(&self) -> (r: Result<FieldValue, ProteanError>) {
        match &self.lost {
            Some(why) => Err(ProteanError::SerializationError(why.clone())),
            None => Ok(self.value.copy()),
        }
    }
}

/// The patch that exports what is below a field of a record: for a field
/// that holds a well-formed record, the full export of that record under
/// the field's name; for any other field, none.
pub open spec fn export_below(s: SlotView) -> Option<PatchView> {
    match s.content {
        ContentView::Object(r) => if r.wf() {
            Some(PatchView { name: s.name, ..r.export() })
        } else {
            None
        },
        ContentView::Value(_) => None,
    }
}

impl Patchworthy for Slot {
    open spec fn field_name(&self) -> Seq<char> {
        self@.name
    }

    open spec fn projection(&self) -> Option<ValueView> {
        Some(self@.content.project())
    }

    open spec fn sub_patch(&self) -> Option<PatchView> {
        export_below(self@)
    }

    fn get_field_name(&self) -> (r: String) {
        self.name.clone()
    }

    fn as_patch(&self) -> (r: Result<Patch, ProteanError>) {
        match &self.content {
            Content::Object(r) => {
                if r.is_valid() {
                    Ok(r.export_as(self.name.clone()))
                } else {
                    Err(ProteanError::ConversionError)
                }
            },
            Content::Value(_) => Err(ProteanError::ConversionError),
        }
    }

    fn as_json(&self) -> (r: Result<FieldValue, ProteanError>) {
        Ok(self.content.project())
    }
}

impl Patch {
    /// Adds the action `action` for the field `field`, under the field's
    /// name and carrying its projection.
    ///
    /// Fails with `DuplicateKey` when the patch has an action for a field of
    /// that name already, and the patch is then left as it was; otherwise
    /// the action is added. A field without projection is added all the
    /// same, with the reason in place of the value (see
    /// [`Patch::add_projected`]); the failure shows when the patch is
    /// written or applied. The field itself is never changed.
    pub fn add<T: Patchworthy>(&mut self, action: Action, field: T, expected: Option<u64>) -> (r:
        Result<(), Failure>)
        requires
            old(self)@.wf(),
        ensures
            final(self)@.wf(),
            match old(self)@.find(field.field_name()) {
                Some(_) => r matches Err(x) && x@ == (Fault {
                    kind: ProteanError::DuplicateKey,
                    field: field.field_name(),
                }) && final(self)@ == old(self)@,
                None => {
                    let added = final(self)@.actions.last();
                    &&& r is Ok
                    &&& final(self)@ == (PatchView {
                        actions: old(self)@.actions.push(added),
                        ..old(self)@
                    })
                    &&& added.action == action@
                    &&& added.expected == expected
                    &&& added.payload matches PayloadView::Value(f)
                    &&& f.name == field.field_name()
                    &&& match field.projection() {
                        Some(v) => f.value == v && f.lost is None,
                        None => f.value == ValueView::Null && f.lost is Some,
                    }
                },
            },
    {
        let name = field.get_field_name();
        let projection = field.as_json();
        self.add_projected(action, name, projection, expected)
    }

    /// Adds the action `action` for the field `name`, carrying what its
    /// projection gave: the value, or the message of the failure.
    ///
    /// Fails with `DuplicateKey` when the patch has an action for a field of
    /// that name already; the patch is then left as it was.
    pub fn add_projected(
        &mut self,
        action: Action,
        name: String,
        projection: Result<FieldValue, ProteanError>,
        expected: Option<u64>,
    ) -> (r: Result<(), Failure>)
        requires
            old(self)@.wf(),
        ensures
            final(self)@.wf(),
            match old(self)@.add(
                EntryView {
                    action: action@,
                    payload: PayloadView::Value(projected(name@, projection)),
                    expected,
                },
            ) {
                Ok(p) => r is Ok && final(self)@ == p,
                Err(f) => r matches Err(x) && x@ == f && final(self)@ == old(self)@,
            },
    {
        let field = match projection {
            Ok(value) => Field::new(name, value),
            Err(e) => Field::unprojected(name, e.message()),
        };
        self.add_field(action, field, expected)
    }
}

/// What a patch carries for the field `name` whose projection gave
/// `projection`: the value, or the message of the failure.
pub open spec fn projected(name: Seq<char>, projection: Result<FieldValue, ProteanError>) -> FieldView {
    match projection {
        Ok(v) => FieldView { name, value: v@, lost: None },
        Err(e) => FieldView {
            name,
            value: ValueView::Null,
            lost: Some(crate::error::message_of(e)),
        },
    }
}

/// What a patchable object offers: its fields, the diff against another
/// instance, the replay of a patch, and its full export.
///
/// The object is described by a record, its `model`; every method says
/// what it does in terms of that record.
pub trait Patchwork: Sized {
    /// The wrapper that stands for one field.
    type Field: Patchworthy;

    /// The record that describes the object.
    open spec fn model(&self) -> RecordView {
        arbitrary()
    }

    /// An identifier of the object, where it has one. Unless a type says
    /// otherwise it has none.
    fn get_id(&self) -> (r: Option<String>)
        default_ensures
            r is None,
    {
        None
    }

    /// The name of the object's type.
    fn get_name(&self) -> (r: String)
        ensures
            r@ == self.model().name,
    ;

    /// The wrapper of the field `name`, or `FieldNotFound`. The wrapper
    /// bears the field's name, projects to the field's projection, and
    /// exports what is below a composite field.
    fn get_field(&self, name: &str) -> (r: Result<Self::Field, ProteanError>)
        ensures
            match self.model().find(name@) {
                Some(i) => r matches Ok(f) && f.field_name() == name@ && f.projection() == Some(
                    self.model().fields[i].content.project(),
                ) && f.sub_patch() == export_below(self.model().fields[i]),
                None => r matches Err(e) && e == ProteanError::FieldNotFound,
            },
    ;

    /// The version of the object's type, where it has one.
    fn get_version(&self) -> (r: Option<String>)
        ensures
            crate::patch::text_option_view(r) == self.model().version,
    ;

    /// An empty patch for this type.
    fn new_patch(&self) -> (r: Patch)
        ensures
            r@ == (PatchView {
                name: self.model().name,
                version: None,
                options: Some(true),
                actions: Seq::empty(),
            }),
    {
        Patch::new(self.get_name())
    }

    /// Replays the patch onto the object and returns the inverse patch, or
    /// reports the first refusal and leaves the object as it was.
    fn apply(&mut self, patch: Patch) -> (r: Result<Patch, Failure>)
        requires
            old(self).model().wf(),
            patch@.wf(),
        ensures
            final(self).model().wf(),
            match old(self).model().apply(patch@) {
                Ok((after, undo)) => r matches Ok(p) && p@ == undo && p@.wf() && final(self).model()
                    == after,
                Err(f) => r matches Err(x) && x@ == f && final(self).model() == old(self).model(),
            },
    ;

    /// Computes the patch that turns this object into `other`.
    fn diff(&self, other: &Self) -> (r: Result<Patch, Failure>)
        requires
            self.model().wf(),
        ensures
            match self.model().diff(other.model()) {
                Ok(p) => r matches Ok(x) && x@ == p && p.wf(),
                Err(f) => r matches Err(x) && x@ == f,
            },
    ;

    /// The full export: the patch that sets every field to what it holds.
    fn as_patch(&self) -> (r: Patch)
        requires
            self.model().wf(),
        ensures
            r@ == self.model().export(),
            r@.wf(),
    ;

    /// One wrapper for each field, in the declared order: each bears the
    /// field's name, projects to the field's projection, and exports what
    /// is below a composite field.
    fn values(&self) -> (r: Vec<Self::Field>)
        ensures
            r@.len() == self.model().fields.len(),
            forall|i: int|
                0 <= i < r@.len() ==> (#[trigger] r@[i]).field_name() == self.model().fields[i].name
                    && r@[i].projection() == Some(self.model().fields[i].content.project())
                    && r@[i].sub_patch() == export_below(self.model().fields[i]),
    ;
}

impl Patchwork for Record {
    type Field = Slot;

    open spec fn model(&self) -> RecordView {
        self@
    }

    fn get_name(&self) -> (r: String) {
        self.name().clone()
    }

    fn get_field(&self, name: &str) -> (r: Result<Slot, ProteanError>) {
        match self.find(name) {
            Some(i) => {
                proof {
                    crate::text::lemma_position(crate::record::names_of(self@.fields), name@);
                }
                Ok(self.slot(i).copy())
            },
            None => Err(ProteanError::FieldNotFound),
        }
    }

    fn get_version(&self) -> (r: Option<String>) {
        match self.version() {
            Some(v) => Some(v.clone()),
            None => None,
        }
    }

    fn apply(&mut self, patch: Patch) -> (r: Result<Patch, Failure>) {
        Record::apply(self, patch)
    }

    fn diff(&self, other: &Record) -> (r: Result<Patch, Failure>) {
        Record::diff(self, other)
    }

    fn as_patch(&self) -> (r: Patch) {
        self.export_as(self.name().clone())
    }

    fn values(&self) -> (r: Vec<Slot>) {
        let mut out: Vec<Slot> = Vec::new();
        let mut i: usize = 0;
        while i < self.len()
            invariant
                i <= self@.fields.len(),
                out@.len() == i,
                forall|j: int| 0 <= j < i ==> (#[trigger] out@[j])@ == self@.fields[j],
            decreases self@.fields.len() - i,
        {
            out.push(self.slot(i).copy());
            i += 1;
        }
        out
    }
}

} // verus!

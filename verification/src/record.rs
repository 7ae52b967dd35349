//! Records: live instances whose fields a patch describes.

use crate::error::{Failure, Fault, ProteanError};
use crate::text::{
    distinct, lemma_position, lemma_position_absent, lemma_position_found, position, same_str,
    same_text,
};
use crate::action::{Action, ActionView};
use crate::patch::{
    keys_of, EntryView, Field, FieldView, Patch, PatchAction, PatchView, PayloadView,
};
use crate::value::{dict_view, fingerprint, FieldValue, ValueView};
use vstd::prelude::*;

verus! {

/// What a field of a record holds: a value, or a record of its own.
#[derive(Debug)]
pub enum Content {
    Value(FieldValue),
    Object(Record),
}

/// A field of a record: its name and what it holds.
#[derive(Debug)]
pub struct Slot {
    /// The field's name.
    pub name: String,
    /// What the field holds.
    pub content: Content,
    /// The default of the field's type, where it is not the empty value of
    /// its genre.
    pub default: Option<FieldValue>,
}

/// An instance of a named type: its fields in their declared order, no two
/// under the same name.
#[derive(Debug)]
pub struct Record {
    name: String,
    version: Option<String>,
    fields: Vec<Slot>,
}

/// The mathematical content of a [`Content`].
pub enum ContentView {
    Value(ValueView),
    Object(RecordView),
}

/// The mathematical content of a [`Slot`].
pub struct SlotView {
    pub name: Seq<char>,
    pub content: ContentView,
    pub initial: Option<ValueView>,
}

/// The mathematical content of a [`Record`].
pub struct RecordView {
    pub name: Seq<char>,
    pub version: Option<Seq<char>>,
    pub fields: Seq<SlotView>,
}

/// The names of the fields, in order.
pub open spec fn names_of(fields: Seq<SlotView>) -> Seq<Seq<char>> {
    Seq::new(fields.len(), |i: int| fields[i].name)
}

impl RecordView {
    /// Whether the record is well formed: no two fields have the same name,
    /// here and in every nested record.
    pub open spec fn wf(self) -> bool
        decreases self,
    {
        &&& distinct(names_of(self.fields))
        &&& forall|i: int|
            0 <= i < self.fields.len() ==> match (#[trigger] self.fields[i]).content {
                ContentView::Value(_) => true,
                ContentView::Object(r) => r.wf(),
            }
    }

    /// The position of the field `name`, if the record has it.
    pub open spec fn find(self, name: Seq<char>) -> Option<int> {
        position(names_of(self.fields), name)
    }

    /// The record with `content` in the place of what field `i` holds.
    pub open spec fn with_content(self, i: int, content: ContentView) -> RecordView {
        RecordView {
            fields: self.fields.update(i, SlotView { content, ..self.fields[i] }),
            ..self
        }
    }
}

impl ContentView {
    /// Whether the content is well formed: a value always, a record if it
    /// is.
    pub open spec fn wf(self) -> bool {
        match self {
            ContentView::Value(_) => true,
            ContentView::Object(r) => r.wf(),
        }
    }
}

/// The content of what a field holds.
pub open spec fn content_view(c: Content) -> ContentView
    decreases c,
{
    match c {
        Content::Value(v) => ContentView::Value(v@),
        Content::Object(r) => ContentView::Object(record_view(r)),
    }
}

/// The view of an optional value.
pub open spec fn value_option_view(v: Option<FieldValue>) -> Option<ValueView> {
    match v {
        Some(x) => Some(x@),
        None => None,
    }
}

/// The content of a field.
pub open spec fn slot_view(s: Slot) -> SlotView
    decreases s,
{
    SlotView {
        name: s.name@,
        content: content_view(s.content),
        initial: value_option_view(s.default),
    }
}

/// The contents of fields, in order.
pub closed spec fn slots_view(s: Seq<Slot>) -> Seq<SlotView>
    decreases s,
{
    Seq::new(
        s.len(),
        |i: int| if 0 <= i < s.len() {
            slot_view(s[i])
        } else {
            arbitrary()
        },
    )
}

/// The content of a record.
pub closed spec fn record_view(r: Record) -> RecordView
    decreases r,
{
    RecordView {
        name: r.name@,
        version: crate::patch::text_option_view(r.version),
        fields: slots_view(r.fields@),
    }
}

impl View for Content {
    type V = ContentView;

    open spec fn view(&self) -> ContentView {
        content_view(*self)
    }
}

impl View for Slot {
    type V = SlotView;

    open spec fn view(&self) -> SlotView {
        slot_view(*self)
    }
}

impl View for Record {
    type V = RecordView;

    open spec fn view(&self) -> RecordView {
        record_view(*self)
    }
}

/// Putting other content into a field keeps a record well formed.
pub proof fn lemma_with_content_wf(r: RecordView, i: int, content: ContentView)
    requires
        r.wf(),
        0 <= i < r.fields.len(),
        content.wf(),
    ensures
        r.with_content(i, content).wf(),
        names_of(r.with_content(i, content).fields) == names_of(r.fields),
{
    let q = r.with_content(i, content);
    assert(names_of(q.fields) =~= names_of(r.fields));
    assert forall|j: int| 0 <= j < q.fields.len() implies match (#[trigger] q.fields[j]).content {
        ContentView::Value(_) => true,
        ContentView::Object(sub) => sub.wf(),
    } by {
        if j != i {
            assert(q.fields[j] == r.fields[j]);
        }
    }
}

impl Content {
    /// A deep copy.
    pub fn copy(&self) -> (r: Content)
        ensures
            r@ == self@,
        decreases self,
    {
        match self {
            Content::Value(v) => Content::Value(v.copy()),
            Content::Object(r) => Content::Object(r.copy()),
        }
    }

    /// Whether two contents are the same.
    pub fn same(&self, other: &Content) -> (r: bool)
        ensures
            r == (self@ == other@),
        decreases self,
    {
        match self {
            Content::Value(a) => match other {
                Content::Value(b) => a.same(b),
                Content::Object(_) => false,
            },
            Content::Object(a) => match other {
                Content::Value(_) => false,
                Content::Object(b) => a.same(b),
            },
        }
    }
}

impl Slot {
    /// The field `name` holding the value `value`; its default is the empty
    /// value of its genre.
    pub fn value(name: String, value: FieldValue) -> (r: Slot)
        ensures
            r@ == (SlotView { name: name@, content: ContentView::Value(value@), initial: None }),
    {
        Slot { name, content: Content::Value(value), default: None }
    }

    /// The field `name` holding the value `value`, with the default
    /// `default`.
    pub fn with_default(name: String, value: FieldValue, default: FieldValue) -> (r: Slot)
        ensures
            r@ == (SlotView {
                name: name@,
                content: ContentView::Value(value@),
                initial: Some(default@),
            }),
    {
        Slot { name, content: Content::Value(value), default: Some(default) }
    }

    /// The field `name` holding the record `record`.
    pub fn object(name: String, record: Record) -> (r: Slot)
        ensures
            r@ == (SlotView { name: name@, content: ContentView::Object(record@), initial: None }),
    {
        Slot { name, content: Content::Object(record), default: None }
    }

    /// A copy of the field's default.
    pub fn default_copy(&self) -> (r: Option<FieldValue>)
        ensures
            value_option_view(r) == self@.initial,
    {
        match &self.default {
            Some(d) => Some(d.copy()),
            None => None,
        }
    }

    /// Whether two fields have the same default.
    pub fn same_default(&self, other: &Slot) -> (r: bool)
        ensures
            r == (self@.initial == other@.initial),
    {
        match &self.default {
            Some(a) => match &other.default {
                Some(b) => a.same(b),
                None => false,
            },
            None => other.default.is_none(),
        }
    }

    /// A deep copy.
    pub fn copy(&self) -> (r: Slot)
        ensures
            r@ == self@,
        decreases self,
    {
        Slot { name: self.name.clone(), content: self.content.copy(), default: self.default_copy() }
    }
}

impl Record {
    /// An instance of the type `name` without fields.
    pub fn new(name: String) -> (r: Record)
        ensures
            r@ == (RecordView { name: name@, version: None, fields: Seq::empty() }),
            r@.wf(),
    {
        let r = Record { name, version: None, fields: Vec::new() };
        assert(r@.fields =~= Seq::empty());
        r
    }

    /// The name of the record's type.
    pub fn name(&self) -> (r: &String)
        ensures
            r@ == self@.name,
    {
        &self.name
    }

    /// The version of the record's type, where it has one.
    pub fn version(&self) -> (r: &Option<String>)
        ensures
            crate::patch::text_option_view(*r) == self@.version,
    {
        &self.version
    }

    /// States the version of the record's type.
    pub fn set_version(&mut self, version: Option<String>)
        ensures
            final(self)@ == (RecordView {
                version: crate::patch::text_option_view(version),
                ..old(self)@
            }),
    {
        self.version = version;
    }

    /// How many fields the record has.
    pub fn len(&self) -> (n: usize)
        ensures
            n == self@.fields.len(),
    {
        self.fields.len()
    }

    /// The field at position `i`.
    pub fn slot(&self, i: usize) -> (r: &Slot)
        requires
            i < self@.fields.len(),
        ensures
            r@ == self@.fields[i as int],
    {
        &self.fields[i]
    }

    /// The position of the field `name`, if the record has it.
    pub fn find(&self, name: &str) -> (r: Option<usize>)
        ensures
            match r {
                Some(i) => self@.find(name@) == Some(i as int),
                None => self@.find(name@) is None,
            },
    {
        let mut i: usize = 0;
        while i < self.fields.len()
            invariant
                i <= self.fields.len(),
                forall|j: int| 0 <= j < i ==> names_of(self@.fields)[j] != name@,
            decreases self.fields.len() - i,
        {
            if same_str(self.fields[i].name.as_str(), name) {
                proof {
                    lemma_position_found(names_of(self@.fields), name@, i as int);
                }
                return Some(i);
            }
            i += 1;
        }
        proof {
            lemma_position_absent(names_of(self@.fields), name@);
        }
        None
    }

    /// Adds a field at the end, unless the record has one of that name.
    pub fn push(&mut self, slot: Slot) -> (r: Result<(), Failure>)
        requires
            old(self)@.wf(),
            slot@.content.wf(),
        ensures
            final(self)@.wf(),
            match r {
                Ok(_) => old(self)@.find(slot@.name) is None && final(self)@ == (RecordView {
                    fields: old(self)@.fields.push(slot@),
                    ..old(self)@
                }),
                Err(f) => old(self)@.find(slot@.name) is Some && f@ == (Fault {
                    kind: ProteanError::DuplicateKey,
                    field: slot@.name,
                }) && final(self)@ == old(self)@,
            },
    {
        match self.find(slot.name.as_str()) {
            Some(_) => Err(Failure { kind: ProteanError::DuplicateKey, field: slot.name }),
            None => {
                proof {
                    let p = self@;
                    let q = RecordView { fields: p.fields.push(slot@), ..p };
                    lemma_position(names_of(p.fields), slot@.name);
                    assert forall|i: int, j: int| 0 <= i < j < q.fields.len() implies names_of(
                        q.fields,
                    )[i] != names_of(q.fields)[j] by {
                        if j < p.fields.len() {
                            assert(names_of(p.fields)[i] != names_of(p.fields)[j]);
                        } else {
                            assert(names_of(p.fields)[i] != slot@.name);
                        }
                    }
                    assert forall|i: int| 0 <= i < q.fields.len() implies match (
                    #[trigger] q.fields[i]).content {
                        ContentView::Value(_) => true,
                        ContentView::Object(sub) => sub.wf(),
                    } by {
                        if i < p.fields.len() {
                            assert(q.fields[i] == p.fields[i]);
                        }
                    }
                }
                self.fields.push(slot);
                assert(self@.fields =~= old(self)@.fields.push(slot@));
                Ok(())
            },
        }
    }

    /// Puts `content` in the place of what field `i` holds.
    pub fn set_content(&mut self, i: usize, content: Content)
        requires
            i < old(self)@.fields.len(),
            old(self)@.wf(),
            content@.wf(),
        ensures
            final(self)@ == old(self)@.with_content(i as int, content@),
            final(self)@.wf(),
    {
        proof {
            lemma_with_content_wf(self@, i as int, content@);
        }
        let name = self.fields[i].name.clone();
        let default = self.fields[i].default_copy();
        self.fields.set(i, Slot { name, content, default });
        assert(self@.fields =~= old(self)@.with_content(i as int, content@).fields);
    }

    /// A deep copy.
    pub fn copy(&self) -> (r: Record)
        ensures
            r@ == self@,
        decreases self,
    {
        let mut out: Vec<Slot> = Vec::new();
        let mut i: usize = 0;
        while i < self.fields.len()
            invariant
                i <= self.fields.len(),
                out@.len() == i,
                decreases_to!(self => self.fields),
                forall|j: int| 0 <= j < i ==> out@[j]@ == self.fields@[j]@,
            decreases self.fields.len() - i,
        {
            assert(decreases_to!(self.fields => self.fields[i as int]));
            out.push(self.fields[i].copy());
            i += 1;
        }
        let r = Record {
            name: self.name.clone(),
            version: match &self.version {
                Some(v) => Some(v.clone()),
                None => None,
            },
            fields: out,
        };
        assert(r@.fields =~= self@.fields);
        r
    }

    /// Whether two records are the same: type, version and every field.
    pub fn same(&self, other: &Record) -> (r: bool)
        ensures
            r == (self@ == other@),
        decreases self,
    {
        if !same_text(&self.name, &other.name) {
            return false;
        }
        let versions = match &self.version {
            Some(a) => match &other.version {
                Some(b) => same_text(a, b),
                None => false,
            },
            None => other.version.is_none(),
        };
        if !versions {
            return false;
        }
        if self.fields.len() != other.fields.len() {
            assert(self@.fields.len() != other@.fields.len());
            return false;
        }
        let mut i: usize = 0;
        while i < self.fields.len()
            invariant
                i <= self.fields.len(),
                self.fields.len() == other.fields.len(),
                decreases_to!(self => self.fields),
                forall|j: int| 0 <= j < i ==> self@.fields[j] == other@.fields[j],
            decreases self.fields.len() - i,
        {
            assert(decreases_to!(self.fields => self.fields[i as int]));
            if !same_text(&self.fields[i].name, &other.fields[i].name) || !self.fields[i].content.same(
                &other.fields[i].content,
            ) || !self.fields[i].same_default(&other.fields[i]) {
                assert(self@.fields[i as int] != other@.fields[i as int]);
                return false;
            }
            i += 1;
        }
        assert(self@.fields =~= other@.fields);
        true
    }
}

/// The entries that the first `n` fields project to: each field's name with
/// the projection of what it holds.
pub open spec fn project_fields(fields: Seq<SlotView>, n: nat) -> Seq<(Seq<char>, ValueView)>
    decreases fields, n,
{
    if n == 0 || n > fields.len() {
        Seq::empty()
    } else {
        project_fields(fields, (n - 1) as nat).push(
            (fields[n - 1].name, fields[n - 1].content.project()),
        )
    }
}

/// The default that a field takes on `Reset`: its own where it has one that
/// fits what it holds, the empty value of its genre otherwise.
pub open spec fn reset_value(cur: ValueView, initial: Option<ValueView>) -> ValueView {
    match initial {
        Some(d) => if cur.accepts(d) {
            d
        } else {
            cur.blank()
        },
        None => cur.blank(),
    }
}

/// The first `n` fields emptied, the others dropped: each brought to its
/// default where `reset` is set, to the empty value of its genre otherwise.
pub open spec fn emptied_fields(fields: Seq<SlotView>, n: nat, reset: bool) -> Seq<SlotView>
    decreases fields, n,
{
    if n == 0 || n > fields.len() {
        Seq::empty()
    } else {
        emptied_fields(fields, (n - 1) as nat, reset).push(
            SlotView {
                content: fields[n - 1].content.emptied(fields[n - 1].initial, reset),
                ..fields[n - 1]
            },
        )
    }
}

/// The actions that set the first `n` fields to what they hold.
pub open spec fn export_fields(fields: Seq<SlotView>, n: nat) -> Seq<EntryView>
    decreases fields, n,
{
    if n == 0 || n > fields.len() {
        Seq::empty()
    } else {
        export_fields(fields, (n - 1) as nat).push(
            fields[n - 1].content.restore(fields[n - 1].name),
        )
    }
}

impl ContentView {
    /// The canonical projection of what a field holds: a value as it is, a
    /// record as the dictionary of its fields' projections.
    pub open spec fn project(self) -> ValueView
        decreases self,
    {
        match self {
            ContentView::Value(v) => v,
            ContentView::Object(r) => ValueView::Dict(project_fields(r.fields, r.fields.len())),
        }
    }

    /// The fingerprint of what a field holds: that of its projection.
    pub open spec fn fingerprint(self) -> u64 {
        fingerprint(self.project())
    }

    /// The content emptied. Where `reset` is set, a value becomes the default
    /// `initial` of its field (see [`reset_value`]) and a record has every
    /// field brought to its default; otherwise a value becomes the empty
    /// value of its genre and a record has every field emptied.
    pub open spec fn emptied(self, initial: Option<ValueView>, reset: bool) -> ContentView
        decreases self,
    {
        match self {
            ContentView::Value(v) => ContentView::Value(
                if reset {
                    reset_value(v, initial)
                } else {
                    v.blank()
                },
            ),
            ContentView::Object(r) => ContentView::Object(
                RecordView { fields: emptied_fields(r.fields, r.fields.len(), reset), ..r },
            ),
        }
    }

    /// The content cleared: a value becomes the empty value of its genre, a
    /// record has every field cleared.
    pub open spec fn blank(self) -> ContentView {
        self.emptied(None, false)
    }

    /// The content reset: a value becomes the default of its field, a
    /// record has every field reset.
    pub open spec fn reset(self, initial: Option<ValueView>) -> ContentView {
        self.emptied(initial, true)
    }

    /// The action that puts this content into the field `name`: for a value
    /// the replacement by it, for a record the patch that sets every field.
    pub open spec fn restore(self, name: Seq<char>) -> EntryView
        decreases self,
    {
        match self {
            ContentView::Value(v) => EntryView {
                action: ActionView::Replace,
                payload: PayloadView::Value(FieldView { name, value: v, lost: None }),
                expected: None,
            },
            ContentView::Object(r) => EntryView {
                action: ActionView::Replace,
                payload: PayloadView::Patch(
                    PatchView {
                        name,
                        version: r.version,
                        options: Some(true),
                        actions: export_fields(r.fields, r.fields.len()),
                    },
                ),
                expected: None,
            },
        }
    }
}

impl RecordView {
    /// The full export: the patch that sets every field to what it holds.
    pub open spec fn export(self) -> PatchView {
        PatchView {
            name: self.name,
            version: self.version,
            options: Some(true),
            actions: export_fields(self.fields, self.fields.len()),
        }
    }
}

/// The export of fields has one action per field, under the field's name.
pub proof fn lemma_export_keys(fields: Seq<SlotView>, n: nat)
    requires
        n <= fields.len(),
    ensures
        export_fields(fields, n).len() == n,
        forall|i: int| 0 <= i < n ==> (#[trigger] export_fields(fields, n)[i]).key() == fields[i].name,
        forall|i: int| 0 <= i < n ==> #[trigger] export_fields(fields, n)[i] == fields[i].content.restore(fields[i].name),
    decreases n,
{
    if n > 0 {
        lemma_export_keys(fields, (n - 1) as nat);
    }
    assert forall|i: int| 0 <= i < n implies (#[trigger] export_fields(fields, n)[i]).key()
        == fields[i].name by {
        assert(export_fields(fields, n)[i] == fields[i].content.restore(fields[i].name));
        match fields[i].content {
            ContentView::Value(_) => {},
            ContentView::Object(_) => {},
        }
    }
}

impl Content {
    /// The canonical projection of what the field holds.
    pub fn project(&self) -> (r: FieldValue)
        ensures
            r@ == self@.project(),
        decreases self,
    {
        match self {
            Content::Value(v) => v.copy(),
            Content::Object(r) => r.project(),
        }
    }

    /// The fingerprint of what the field holds.
    pub fn fingerprint(&self) -> (r: u64)
        ensures
            r == self@.fingerprint(),
    {
        match self {
            Content::Value(v) => v.fingerprint(),
            Content::Object(r) => r.project().fingerprint(),
        }
    }

    /// The content emptied: reset to the default where `reset` is set,
    /// cleared otherwise.
    pub fn emptied(&self, default: &Option<FieldValue>, reset: bool) -> (r: Content)
        ensures
            r@ == self@.emptied(value_option_view(*default), reset),
            self@.wf() ==> r@.wf(),
        decreases self,
    {
        match self {
            Content::Value(v) => {
                if reset {
                    match default {
                        Some(d) => {
                            if v.accepts(d) {
                                Content::Value(d.copy())
                            } else {
                                Content::Value(v.blank())
                            }
                        },
                        None => Content::Value(v.blank()),
                    }
                } else {
                    Content::Value(v.blank())
                }
            },
            Content::Object(r) => Content::Object(r.emptied(reset)),
        }
    }

    /// The content cleared.
    pub fn blank(&self) -> (r: Content)
        ensures
            r@ == self@.blank(),
            self@.wf() ==> r@.wf(),
    {
        self.emptied(&None, false)
    }

    /// The action that puts this content into the field `name`.
    pub fn restore(&self, name: String) -> (r: PatchAction)
        requires
            self@.wf(),
        ensures
            r@ == self@.restore(name@),
            r@.payload matches PayloadView::Patch(p) ==> p.wf(),
        decreases self,
    {
        match self {
            Content::Value(v) => PatchAction::new(Action::Replace, Field::new(name, v.copy()), None),
            Content::Object(r) => {
                let patch = r.export_as(name);
                PatchAction::nested(Action::Replace, patch, None)
            },
        }
    }
}

impl Record {
    /// The canonical projection of the record: the dictionary of its fields.
    pub fn project(&self) -> (r: FieldValue)
        ensures
            r@ == ContentView::Object(self@).project(),
        decreases self,
    {
        let mut out: Vec<(String, FieldValue)> = Vec::new();
        let mut i: usize = 0;
        while i < self.fields.len()
            invariant
                i <= self.fields.len(),
                decreases_to!(self => self.fields),
                dict_view(out@) == project_fields(self@.fields, i as nat),
            decreases self.fields.len() - i,
        {
            assert(decreases_to!(self.fields => self.fields[i as int]));
            let ghost before = out@;
            let v = self.fields[i].content.project();
            out.push((self.fields[i].name.clone(), v));
            assert(dict_view(out@) =~= dict_view(before).push(
                (self@.fields[i as int].name, self@.fields[i as int].content.project()),
            ));
            i += 1;
        }
        FieldValue::Dict(out)
    }

    /// The record with every field emptied: reset to its default where
    /// `reset` is set, cleared otherwise.
    pub fn emptied(&self, reset: bool) -> (r: Record)
        ensures
            ContentView::Object(r@) == ContentView::Object(self@).emptied(None, reset),
            self@.wf() ==> r@.wf(),
        decreases self,
    {
        let mut out: Vec<Slot> = Vec::new();
        let mut i: usize = 0;
        while i < self.fields.len()
            invariant
                i <= self.fields.len(),
                out@.len() == i,
                decreases_to!(self => self.fields),
                slots_view(out@) == emptied_fields(self@.fields, i as nat, reset),
                forall|j: int| 0 <= j < i ==> (#[trigger] slots_view(out@)[j]).name == self@.fields[j].name,
                self@.wf() ==> forall|j: int|
                    0 <= j < i ==> match (#[trigger] slots_view(out@)[j]).content {
                        ContentView::Value(_) => true,
                        ContentView::Object(sub) => sub.wf(),
                    },
            decreases self.fields.len() - i,
        {
            assert(decreases_to!(self.fields => self.fields[i as int]));
            let ghost before = out@;
            let c = self.fields[i].content.emptied(&self.fields[i].default, reset);
            let slot = Slot {
                name: self.fields[i].name.clone(),
                content: c,
                default: self.fields[i].default_copy(),
            };
            out.push(slot);
            proof {
                assert(slots_view(out@) =~= slots_view(before).push(slot@));
                assert forall|j: int| 0 <= j < i + 1 implies (#[trigger] slots_view(out@)[j]).name
                    == self@.fields[j].name by {
                    if j < i {
                        assert(slots_view(out@)[j] == slots_view(before)[j]);
                    }
                }
                if self@.wf() {
                    assert forall|j: int| 0 <= j < i + 1 implies match (#[trigger] slots_view(
                        out@,
                    )[j]).content {
                        ContentView::Value(_) => true,
                        ContentView::Object(sub) => sub.wf(),
                    } by {
                        if j < i {
                            assert(slots_view(out@)[j] == slots_view(before)[j]);
                        } else {
                            assert(match self@.fields[i as int].content {
                                ContentView::Value(_) => true,
                                ContentView::Object(sub) => sub.wf(),
                            });
                        }
                    }
                }
            }
            i += 1;
        }
        let r = Record {
            name: self.name.clone(),
            version: match &self.version {
                Some(v) => Some(v.clone()),
                None => None,
            },
            fields: out,
        };
        proof {
            if self@.wf() {
                assert(names_of(r@.fields) =~= names_of(self@.fields));
            }
        }
        r
    }

    /// The record with every field cleared.
    pub fn blank(&self) -> (r: Record)
        ensures
            ContentView::Object(r@) == ContentView::Object(self@).blank(),
            self@.wf() ==> r@.wf(),
    {
        self.emptied(false)
    }

    /// The record with every field reset to its default.
    pub fn reset(&self) -> (r: Record)
        ensures
            ContentView::Object(r@) == ContentView::Object(self@).reset(None),
            self@.wf() ==> r@.wf(),
    {
        self.emptied(true)
    }

    /// The full export under the name `name`: the patch that sets every
    /// field to what it holds.
    pub fn export_as(&self, name: String) -> (r: Patch)
        requires
            self@.wf(),
        ensures
            r@ == (PatchView { name: name@, ..self@.export() }),
            r@.wf(),
        decreases self,
    {
        let mut patch = Patch::new(name);
        patch.set_version(
            match &self.version {
                Some(v) => Some(v.clone()),
                None => None,
            },
        );
        let mut i: usize = 0;
        while i < self.fields.len()
            invariant
                i <= self.fields.len(),
                self@.wf(),
                decreases_to!(self => self.fields),
                patch@.wf(),
                patch@ == (PatchView {
                    name: name@,
                    version: self@.version,
                    options: Some(true),
                    actions: export_fields(self@.fields, i as nat),
                }),
            decreases self.fields.len() - i,
        {
            assert(decreases_to!(self.fields => self.fields[i as int]));
            assert(match (#[trigger] self@.fields[i as int]).content {
                ContentView::Value(_) => true,
                ContentView::Object(sub) => sub.wf(),
            });
            let entry = self.fields[i].content.restore(self.fields[i].name.clone());
            proof {
                lemma_export_keys(self@.fields, i as nat);
                assert forall|j: int| 0 <= j < keys_of(patch@.actions).len() implies keys_of(
                    patch@.actions,
                )[j] != entry@.key() by {
                    assert(keys_of(patch@.actions)[j] == self@.fields[j].name);
                    assert(names_of(self@.fields)[j] != names_of(self@.fields)[i as int]);
                }
                lemma_position_absent(keys_of(patch@.actions), entry@.key());
            }
            let added = patch.add_entry(entry);
            assert(added is Ok);
            i += 1;
        }
        patch
    }
}

impl Record {
    /// Whether the record is well formed. A record made by [`Record::new`]
    /// and [`Record::push`] always is.
    pub fn is_valid(&self) -> (r: bool)
        ensures
            r == self@.wf(),
        decreases self,
    {
        let mut i: usize = 0;
        while i < self.fields.len()
            invariant
                i <= self.fields.len(),
                decreases_to!(self => self.fields),
                forall|a: int, b: int|
                    0 <= a < b < i ==> names_of(self@.fields)[a] != names_of(self@.fields)[b],
                forall|k: int| 0 <= k < i ==> (#[trigger] self@.fields[k]).content.wf(),
            decreases self.fields.len() - i,
        {
            let mut j: usize = 0;
            while j < i
                invariant
                    j <= i,
                    i < self.fields.len(),
                    forall|a: int|
                        0 <= a < j ==> names_of(self@.fields)[a] != names_of(self@.fields)[i as int],
                decreases i - j,
            {
                if same_text(&self.fields[j].name, &self.fields[i].name) {
                    assert(names_of(self@.fields)[j as int] == names_of(self@.fields)[i as int]);
                    return false;
                }
                j += 1;
            }
            assert(decreases_to!(self.fields => self.fields[i as int]));
            let nested = match &self.fields[i].content {
                Content::Value(_) => true,
                Content::Object(sub) => sub.is_valid(),
            };
            if !nested {
                assert(!self@.fields[i as int].content.wf());
                assert(!match (#[trigger] self@.fields[i as int]).content {
                    ContentView::Value(_) => true,
                    ContentView::Object(sub) => sub.wf(),
                });
                return false;
            }
            i += 1;
        }
        assert forall|k: int| 0 <= k < self@.fields.len() implies match (
        #[trigger] self@.fields[k]).content {
            ContentView::Value(_) => true,
            ContentView::Object(sub) => sub.wf(),
        } by {
            assert(self@.fields[k].content.wf());
        }
        true
    }
}

} // verus!

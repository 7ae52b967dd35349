//! Replaying a patch onto a record.

use crate::action::{Action, ActionView};
use crate::error::{dotted, join_path, Failure, Fault, ProteanError};
use crate::patch::{keys_of, EntryView, Patch, PatchAction, PatchValue, PatchView, PayloadView};
use crate::record::{Content, ContentView, Record, RecordView};
use crate::step::act_on_value;
use crate::text::lemma_position_absent;
use crate::value::{FieldValue, ValueView};
use vstd::prelude::*;

verus! {

/// Whether an expected fingerprint is there and is not the content's.
pub open spec fn stale(expected: Option<u64>, content: ContentView) -> bool {
    expected matches Some(x) && x != content.fingerprint()
}

/// The options in force below a patch: its own, or else those of its
/// parent.
pub open spec fn inherit(options: Option<bool>, parent: bool) -> bool {
    match options {
        Some(b) => b,
        None => parent,
    }
}

/// What a field with the default `initial` holds after a leaf action.
///
/// `Reset` brings the field to its default and `Clear` to the empty value
/// of its genre, a nested record field by field. Any other action on a
/// value goes by [`act_on_value`]; a nested record can only be left alone.
pub open spec fn apply_leaf(
    content: ContentView,
    initial: Option<ValueView>,
    action: ActionView,
    v: ValueView,
    upsert: bool,
) -> Result<ContentView, ProteanError> {
    match action {
        ActionView::Reset => Ok(content.reset(initial)),
        ActionView::Clear => Ok(content.blank()),
        _ => match content {
            ContentView::Value(cur) => match act_on_value(cur, action, v, upsert) {
                Ok(x) => Ok(ContentView::Value(x)),
                Err(e) => Err(e),
            },
            ContentView::Object(_) => match action {
                ActionView::Null => Ok(content),
                _ => Err(ProteanError::ConversionError),
            },
        },
    }
}

/// Whether an action can be a step of a script: it works on a container as
/// it is, or does nothing.
pub open spec fn is_step(action: ActionView) -> bool {
    action is Null || action is List || action is Keyed
}

/// The value after one step of a script on a container at `path`. A step
/// is a list or dictionary action; anything that would put another value in
/// the container's place is refused.
pub open spec fn replay_one(v: ValueView, e: EntryView, upsert: bool, path: Seq<char>) -> Result<
    ValueView,
    Fault,
> {
    let at = dotted(path, e.key());
    match e.payload {
        PayloadView::Patch(_) => Err(Fault { kind: ProteanError::ConversionError, field: at }),
        PayloadView::Value(f) => if stale(e.expected, ContentView::Value(v)) {
            Err(Fault { kind: ProteanError::StaleFingerprint, field: at })
        } else if f.lost is Some || !is_step(e.action) {
            Err(Fault { kind: ProteanError::ConversionError, field: at })
        } else {
            match act_on_value(v, e.action, f.value, upsert) {
                Ok(x) => Ok(x),
                Err(kind) => Err(Fault { kind, field: at }),
            }
        },
    }
}

/// The value after the first `n` steps of a script on a container, each
/// step working on what the one before it left; the first refusal is the
/// result.
pub open spec fn replay(cur: ValueView, steps: Seq<EntryView>, n: nat, upsert: bool, path: Seq<char>) -> Result<
    ValueView,
    Fault,
>
    decreases n,
{
    if n == 0 || n > steps.len() {
        Ok(cur)
    } else {
        match replay(cur, steps, (n - 1) as nat, upsert, path) {
            Ok(v) => replay_one(v, steps[n - 1], upsert, path),
            Err(f) => Err(f),
        }
    }
}

/// What the field at `at`, with the default `initial`, holds after the
/// entry `e`, and the entry that undoes it.
///
/// A stale expectation is refused first, then a field whose projection
/// failed (there is nothing to apply). A leaf action goes by
/// [`apply_leaf`]; it is undone by putting back what the field held, and a
/// `Null` action needs no undoing. A nested patch is replayed under
/// `Replace`: entry by entry onto a nested record, step by step onto a list
/// or a dictionary; under `Null` it is skipped.
pub open spec fn apply_entry(
    content: ContentView,
    initial: Option<ValueView>,
    e: EntryView,
    upsert: bool,
    at: Seq<char>,
) -> Result<(ContentView, Option<EntryView>), Fault>
    decreases e, 0nat,
{
    if stale(e.expected, content) {
        Err(Fault { kind: ProteanError::StaleFingerprint, field: at })
    } else {
        match e.payload {
            PayloadView::Value(f) => match if f.lost is Some {
                Err(ProteanError::ConversionError)
            } else {
                apply_leaf(content, initial, e.action, f.value, upsert)
            } {
                Ok(c) => Ok(
                    (
                        c,
                        if e.action is Null {
                            None
                        } else {
                            Some(content.restore(f.name))
                        },
                    ),
                ),
                Err(kind) => Err(Fault { kind, field: at }),
            },
            PayloadView::Patch(p) => match e.action {
                ActionView::Null => Ok((content, None)),
                ActionView::Replace => match content {
                    ContentView::Object(rec) => match apply_entries(
                        rec,
                        p.actions,
                        p.actions.len(),
                        inherit(p.options, upsert),
                        at,
                    ) {
                        Ok((r, undo)) => Ok(
                            (
                                ContentView::Object(r),
                                Some(
                                    EntryView {
                                        action: ActionView::Replace,
                                        payload: PayloadView::Patch(PatchView { actions: undo, ..p }),
                                        expected: None,
                                    },
                                ),
                            ),
                        ),
                        Err(f) => Err(f),
                    },
                    ContentView::Value(cur) => if cur is List || cur is Dict {
                        match replay(cur, p.actions, p.actions.len(), inherit(p.options, upsert), at) {
                            Ok(v) => Ok((ContentView::Value(v), Some(content.restore(p.name)))),
                            Err(f) => Err(f),
                        }
                    } else {
                        Err(Fault { kind: ProteanError::ConversionError, field: at })
                    },
                },
                _ => Err(Fault { kind: ProteanError::ConversionError, field: at }),
            },
        }
    }
}

/// The record and the undo entries after one more entry: its field is
/// looked up by name, and the entry is carried out on it.
pub open spec fn apply_one(
    rec: RecordView,
    undo: Seq<EntryView>,
    e: EntryView,
    upsert: bool,
    path: Seq<char>,
) -> Result<(RecordView, Seq<EntryView>), Fault>
    decreases e, 1nat,
{
    let at = dotted(path, e.key());
    match rec.find(e.key()) {
        None => Err(Fault { kind: ProteanError::FieldNotFound, field: at }),
        Some(i) => match apply_entry(rec.fields[i].content, rec.fields[i].initial, e, upsert, at) {
            Ok((c, back)) => Ok(
                (
                    rec.with_content(i, c),
                    match back {
                        Some(b) => undo.push(b),
                        None => undo,
                    },
                ),
            ),
            Err(f) => Err(f),
        },
    }
}

/// The record after the first `n` entries, with the entries that undo them;
/// the first refusal is the result.
pub open spec fn apply_entries(
    rec: RecordView,
    entries: Seq<EntryView>,
    n: nat,
    upsert: bool,
    path: Seq<char>,
) -> Result<(RecordView, Seq<EntryView>), Fault>
    decreases entries, n,
{
    if n == 0 || n > entries.len() {
        Ok((rec, Seq::empty()))
    } else {
        match apply_entries(rec, entries, (n - 1) as nat, upsert, path) {
            Ok((r, undo)) => apply_one(r, undo, entries[n - 1], upsert, path),
            Err(f) => Err(f),
        }
    }
}

impl RecordView {
    /// The record after the patch, with the inverse patch; or the first
    /// refusal, in the order of the patch's entries.
    ///
    /// For each entry the field is looked up first, then the patch must be
    /// for the record's type, then the entry is carried out. So a patch for
    /// another type is refused at its first entry: with `FieldNotFound`
    /// where the record has no such field, with `InvalidPatchType`
    /// otherwise.
    pub open spec fn apply(self, patch: PatchView) -> Result<(RecordView, PatchView), Fault> {
        if patch.name != self.name && patch.actions.len() > 0 {
            let key = patch.actions[0].key();
            match self.find(key) {
                None => Err(Fault { kind: ProteanError::FieldNotFound, field: key }),
                Some(_) => Err(Fault { kind: ProteanError::InvalidPatchType, field: key }),
            }
        } else {
            match apply_entries(
                self,
                patch.actions,
                patch.actions.len(),
                inherit(patch.options, true),
                Seq::empty(),
            ) {
                Ok((r, undo)) => Ok((r, PatchView { actions: undo, ..patch })),
                Err(f) => Err(f),
            }
        }
    }
}

/// A refusal among the first `n` steps is the result for every longer
/// prefix.
pub proof fn lemma_replay_refusal_stays(
    cur: ValueView,
    steps: Seq<EntryView>,
    n: nat,
    m: nat,
    upsert: bool,
    path: Seq<char>,
)
    requires
        n <= m <= steps.len(),
        replay(cur, steps, n, upsert, path) is Err,
    ensures
        replay(cur, steps, m, upsert, path) == replay(cur, steps, n, upsert, path),
    decreases m,
{
    if n < m {
        lemma_replay_refusal_stays(cur, steps, n, (m - 1) as nat, upsert, path);
    }
}

/// A refusal among the first `n` entries is the result for every longer
/// prefix.
pub proof fn lemma_apply_refusal_stays(
    rec: RecordView,
    entries: Seq<EntryView>,
    n: nat,
    m: nat,
    upsert: bool,
    path: Seq<char>,
)
    requires
        n <= m <= entries.len(),
        apply_entries(rec, entries, n, upsert, path) is Err,
    ensures
        apply_entries(rec, entries, m, upsert, path) == apply_entries(rec, entries, n, upsert, path),
    decreases m,
{
    if n < m {
        lemma_apply_refusal_stays(rec, entries, n, (m - 1) as nat, upsert, path);
    }
}

/// The view of an optional entry.
pub open spec fn entry_option_view(e: Option<PatchAction>) -> Option<EntryView> {
    match e {
        Some(x) => Some(x@),
        None => None,
    }
}

/// The options in force below a patch.
fn effective(options: Option<crate::action::PatchOptions>, parent: bool) -> (r: bool)
    ensures
        r == inherit(crate::patch::options_view(options), parent),
{
    match options {
        Some(o) => o.allow_upsert(),
        None => parent,
    }
}

/// Replays a script on a container, step by step.
pub fn replay_steps(cur: &FieldValue, script: &Patch, upsert: bool, path: &str) -> (r: Result<
    FieldValue,
    Failure,
>)
    ensures
        match replay(cur@, script@.actions, script@.actions.len(), upsert, path@) {
            Ok(v) => r matches Ok(x) && x@ == v,
            Err(f) => r matches Err(x) && x@ == f,
        },
{
    let mut acc = cur.copy();
    let mut n: usize = 0;
    while n < script.len()
        invariant
            n <= script@.actions.len(),
            replay(cur@, script@.actions, n as nat, upsert, path@) == Ok::<ValueView, Fault>(acc@),
        decreases script@.actions.len() - n,
    {
        let e = script.entry(n);
        let key = e.get_name();
        let at = join_path(path, key.as_str());
        assert(replay(cur@, script@.actions, (n + 1) as nat, upsert, path@) == replay_one(
            acc@,
            e@,
            upsert,
            path@,
        ));
        let next = match e.payload() {
            PatchValue::Patch(_) => Err(Failure { kind: ProteanError::ConversionError, field: at }),
            PatchValue::Value(f) => {
                let mismatch = match e.expected() {
                    Some(x) => x != acc.fingerprint(),
                    None => false,
                };
                let step = match e.action() {
                    Action::Null => true,
                    Action::List(_) => true,
                    Action::Keyed(_) => true,
                    _ => false,
                };
                if mismatch {
                    Err(Failure { kind: ProteanError::StaleFingerprint, field: at })
                } else if f.lost.is_some() || !step {
                    Err(Failure { kind: ProteanError::ConversionError, field: at })
                } else {
                    match acc.act(e.action(), &f.value, upsert) {
                        Ok(x) => Ok(x),
                        Err(kind) => Err(Failure { kind, field: at }),
                    }
                }
            },
        };
        match next {
            Ok(x) => {
                acc = x;
            },
            Err(f) => {
                proof {
                    lemma_replay_refusal_stays(
                        cur@,
                        script@.actions,
                        (n + 1) as nat,
                        script@.actions.len(),
                        upsert,
                        path@,
                    );
                }
                return Err(f);
            },
        }
        n += 1;
    }
    Ok(acc)
}

/// Carries out one entry on what its field holds.
fn apply_to_content(
    content: &Content,
    default: &Option<FieldValue>,
    e: &PatchAction,
    upsert: bool,
    at: &str,
) -> (r: Result<(Content, Option<PatchAction>), Failure>)
    requires
        content@.wf(),
        e@.payload matches PayloadView::Patch(p) ==> p.wf(),
    ensures
        match apply_entry(content@, crate::record::value_option_view(*default), e@, upsert, at@) {
            Ok((c, back)) => r matches Ok(x) && x.0@ == c && c.wf() && entry_option_view(x.1) == back
                && (x.1 matches Some(b) ==> b@.key() == e@.key() && (b@.payload matches PayloadView::Patch(
                p,
            ) ==> p.wf())),
            Err(f) => r matches Err(x) && x@ == f,
        },
    decreases e@,
{
    let mismatch = match e.expected() {
        Some(x) => x != content.fingerprint(),
        None => false,
    };
    if mismatch {
        return Err(Failure { kind: ProteanError::StaleFingerprint, field: String::from_str(at) });
    }
    match e.payload() {
        PatchValue::Value(f) => {
            let changed: Result<Content, ProteanError> = if f.lost.is_some() {
                Err(ProteanError::ConversionError)
            } else {
                match e.action() {
                Action::Reset => Ok(content.emptied(default, true)),
                Action::Clear => Ok(content.blank()),
                _ => match content {
                    Content::Value(cur) => match cur.act(e.action(), &f.value, upsert) {
                        Ok(x) => Ok(Content::Value(x)),
                        Err(k) => Err(k),
                    },
                    Content::Object(_) => match e.action() {
                        Action::Null => Ok(content.copy()),
                        _ => Err(ProteanError::ConversionError),
                    },
                },
                }
            };
            match changed {
                Ok(c) => {
                    let back = match e.action() {
                        Action::Null => None,
                        _ => Some(content.restore(f.name.clone())),
                    };
                    Ok((c, back))
                },
                Err(kind) => Err(Failure { kind, field: String::from_str(at) }),
            }
        },
        PatchValue::Patch(p) => match e.action() {
            Action::Null => Ok((content.copy(), None)),
            Action::Replace => {
                let inner = effective(p.get_options(), upsert);
                match content {
                    Content::Object(rec) => match apply_entries_to(rec, p, inner, at) {
                        Ok((r, undo)) => Ok(
                            (Content::Object(r), Some(PatchAction::nested(Action::Replace, undo, None))),
                        ),
                        Err(f) => Err(f),
                    },
                    Content::Value(cur) => {
                        let container = match cur {
                            FieldValue::List(_) => true,
                            FieldValue::Dict(_) => true,
                            _ => false,
                        };
                        if container {
                            match replay_steps(cur, p, inner, at) {
                                Ok(v) => Ok((Content::Value(v), Some(content.restore(p.get_name())))),
                                Err(f) => Err(f),
                            }
                        } else {
                            Err(
                                Failure {
                                    kind: ProteanError::ConversionError,
                                    field: String::from_str(at),
                                },
                            )
                        }
                    },
                }
            },
            _ => Err(Failure { kind: ProteanError::ConversionError, field: String::from_str(at) }),
        },
    }
}

/// Carries out the entries of a patch on a copy of the record.
fn apply_entries_to(rec: &Record, patch: &Patch, upsert: bool, path: &str) -> (r: Result<
    (Record, Patch),
    Failure,
>)
    requires
        rec@.wf(),
        patch@.wf(),
    ensures
        match apply_entries(rec@, patch@.actions, patch@.actions.len(), upsert, path@) {
            Ok((x, undo)) => r matches Ok(y) && y.0@ == x && x.wf() && y.1@ == (PatchView {
                actions: undo,
                ..patch@
            }) && y.1@.wf(),
            Err(f) => r matches Err(x) && x@ == f,
        },
    decreases patch@,
{
    let mut acc = rec.copy();
    let mut undo = Patch::new(patch.get_name());
    undo.set_version(patch.get_version());
    undo.set_options(patch.get_options());
    let mut n: usize = 0;
    while n < patch.len()
        invariant
            n <= patch@.actions.len(),
            patch@.wf(),
            acc@.wf(),
            undo@.wf(),
            undo@.name == patch@.name,
            undo@.version == patch@.version,
            undo@.options == patch@.options,
            forall|j: int, m: int|
                0 <= j < undo@.actions.len() && n <= m < patch@.actions.len() ==> keys_of(
                    undo@.actions,
                )[j] != keys_of(patch@.actions)[m],
            apply_entries(rec@, patch@.actions, n as nat, upsert, path@) == Ok::<
                (RecordView, Seq<EntryView>),
                Fault,
            >((acc@, undo@.actions)),
        decreases patch@.actions.len() - n,
    {
        let e = patch.entry(n);
        let key = e.get_name();
        let at = join_path(path, key.as_str());
        let ghost before = acc@;
        let ghost undone = undo@;
        assert(apply_entries(rec@, patch@.actions, (n + 1) as nat, upsert, path@) == apply_one(
            before,
            undone.actions,
            e@,
            upsert,
            path@,
        ));
        assert(decreases_to!(patch@ => e@));
        assert(match (#[trigger] patch@.actions[n as int]).payload {
            PayloadView::Value(_) => true,
            PayloadView::Patch(p) => p.wf(),
        });
        let step = match acc.find(key.as_str()) {
            None => Err(Failure { kind: ProteanError::FieldNotFound, field: at }),
            Some(i) => {
                assert(before.fields[i as int].content.wf()) by {
                    assert(match (#[trigger] before.fields[i as int]).content {
                        ContentView::Value(_) => true,
                        ContentView::Object(sub) => sub.wf(),
                    });
                }
                match apply_to_content(
                    &acc.slot(i).content,
                    &acc.slot(i).default,
                    e,
                    upsert,
                    at.as_str(),
                ) {
                    Ok((c, back)) => {
                        acc.set_content(i, c);
                        Ok(back)
                    },
                    Err(f) => Err(f),
                }
            },
        };
        match step {
            Ok(back) => {
                match back {
                    Some(b) => {
                        proof {
                            assert forall|j: int| 0 <= j < keys_of(undone.actions).len() implies keys_of(
                                undone.actions,
                            )[j] != b@.key() by {
                                assert(keys_of(patch@.actions)[n as int] == e@.key());
                            }
                            lemma_position_absent(keys_of(undone.actions), b@.key());
                        }
                        let added = undo.add_entry(b);
                        assert(added is Ok);
                        proof {
                            assert forall|j: int, m: int|
                                0 <= j < undo@.actions.len() && n + 1 <= m
                                    < patch@.actions.len() implies keys_of(undo@.actions)[j]
                                != keys_of(patch@.actions)[m] by {
                                if j < undone.actions.len() {
                                    assert(keys_of(undo@.actions)[j] == keys_of(undone.actions)[j]);
                                } else {
                                    assert(keys_of(undo@.actions)[j] == keys_of(patch@.actions)[n as int]);
                                }
                            }
                        }
                    },
                    None => {},
                }
            },
            Err(f) => {
                proof {
                    lemma_apply_refusal_stays(
                        rec@,
                        patch@.actions,
                        (n + 1) as nat,
                        patch@.actions.len(),
                        upsert,
                        path@,
                    );
                }
                return Err(f);
            },
        }
        n += 1;
    }
    Ok((acc, undo))
}

impl Record {
    /// Replays the patch onto this record and returns the inverse patch.
    ///
    /// Either every action is carried out, or the first one that is refused
    /// is reported and the record is left as it was.
    pub fn apply(&mut self, patch: Patch) -> (r: Result<Patch, Failure>)
        requires
            old(self)@.wf(),
            patch@.wf(),
        ensures
            final(self)@.wf(),
            match old(self)@.apply(patch@) {
                Ok((after, undo)) => r matches Ok(p) && p@ == undo && p@.wf() && final(self)@ == after,
                Err(f) => r matches Err(x) && x@ == f && final(self)@ == old(self)@,
            },
    {
        if !crate::text::same_text(self.name(), &patch.get_name()) && patch.len() > 0 {
            let key = patch.entry(0).get_name();
            return match self.find(key.as_str()) {
                None => Err(Failure { kind: ProteanError::FieldNotFound, field: key }),
                Some(_) => Err(Failure { kind: ProteanError::InvalidPatchType, field: key }),
            };
        }
        let upsert = effective(patch.get_options(), true);
        proof {
            reveal_strlit("");
            assert(""@ =~= Seq::<char>::empty());
        }
        match apply_entries_to(self, &patch, upsert, "") {
            Ok((after, undo)) => {
                *self = after;
                Ok(undo)
            },
            Err(f) => Err(f),
        }
    }
}

} // verus!

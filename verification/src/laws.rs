//! What holds of diffing, applying, merging and the wire form, for every
//! record and every patch.

use crate::action::ActionView;
use crate::apply::{
    apply_entries, apply_entry, apply_one, inherit, lemma_apply_refusal_stays, stale,
};
use crate::apply::{replay, replay_one};
use crate::record::{emptied_fields, export_fields, lemma_export_keys};
use crate::step::act_on_value;
use crate::diff::{descent, diff_content, diff_fields, diff_record, diff_value, replacement};
use crate::script::{dict_script, lemma_list_script, list_script};
use crate::error::{dotted, Fault, ProteanError};
use crate::patch::{
    keys_of, merge_entries, merge_one, reconcile, EntryView, PatchView, PayloadView,
};
use crate::record::{names_of, ContentView, RecordView, SlotView};
use crate::text::{distinct, lemma_position, lemma_position_absent, lemma_position_found, position};
use crate::value::{fingerprint, ValueView};
use crate::step::dict_keys;
use crate::wire::{
    decode_action, decode_entries, decode_entry, decode_expected, decode_index, decode_list_step,
    decode_map_step, decode_options, decode_patch, decode_payload, decode_version, encode_action,
    encode_entries, encode_entry, encode_options, encode_patch, encode_payload, encode_version,
    number, patch_shaped, plain, plain_entry, single, without_null, without_null_entries,
    without_null_entry,
};
use crate::action::{ListAction, MapActionView};
use vstd::prelude::*;

verus! {

/// A second action for a field is refused: once an entry was added, adding
/// any entry for the same field gives `DuplicateKey`.
pub proof fn lemma_second_add_refused(p: PatchView, first: EntryView, second: EntryView)
    requires
        first.key() == second.key(),
        p.add(first) is Ok,
    ensures
        p.add(first)->Ok_0.add(second) == Err::<PatchView, Fault>(
            Fault { kind: ProteanError::DuplicateKey, field: second.key() },
        ),
{
    let q = p.add(first)->Ok_0;
    let keys = keys_of(q.actions);
    let at = p.actions.len() as int;
    assert(keys[at] == first.key());
    crate::text::lemma_position(keys, second.key());
}

/// The diff of a record with itself is the empty patch.
pub proof fn lemma_diff_reflexive(x: RecordView)
    ensures
        x.diff(x) == Ok::<PatchView, Fault>(
            PatchView { name: x.name, version: x.version, options: Some(true), actions: Seq::empty() },
        ),
{
    lemma_diff_same_fields(x.fields, x.fields.len(), Seq::empty());
}

/// The fields of a record, diffed with themselves, give no entry.
pub proof fn lemma_diff_same_fields(fields: Seq<SlotView>, n: nat, path: Seq<char>)
    requires
        n <= fields.len(),
    ensures
        diff_fields(fields, fields, n, path) == Ok::<Seq<EntryView>, Fault>(Seq::empty()),
    decreases fields, n,
{
    if n > 0 {
        lemma_diff_same_fields(fields, (n - 1) as nat, path);
        let name = fields[n - 1].name;
        let at = dotted(path, name);
        match fields[n - 1].content {
            ContentView::Value(v) => {
                assert(diff_value(name, v, v) is None);
            },
            ContentView::Object(r) => {
                lemma_diff_same_fields(r.fields, r.fields.len(), at);
            },
        }
        assert(diff_content(name, fields[n - 1].content, fields[n - 1].content, at) == Ok::<
            Option<EntryView>,
            Fault,
        >(None));
    }
}

/// A stale write is refused: where the entries before entry `k` are
/// accepted, and entry `k` expects a fingerprint that its field does not
/// have by then, applying the patch gives `StaleFingerprint` for that
/// field.
pub proof fn lemma_stale_write_refused(r: RecordView, p: PatchView, k: nat)
    requires
        p.name == r.name,
        k < p.actions.len(),
        apply_entries(r, p.actions, k, inherit(p.options, true), Seq::empty()) is Ok,
        ({
            let before = apply_entries(r, p.actions, k, inherit(p.options, true), Seq::empty())->Ok_0.0;
            let e = p.actions[k as int];
            before.find(e.key()) matches Some(i) && stale(e.expected, before.fields[i].content)
        }),
    ensures
        r.apply(p) == Err::<(RecordView, PatchView), Fault>(
            Fault { kind: ProteanError::StaleFingerprint, field: p.actions[k as int].key() },
        ),
{
    let upsert = inherit(p.options, true);
    let e = p.actions[k as int];
    let path = Seq::<char>::empty();
    let before = apply_entries(r, p.actions, k, upsert, path)->Ok_0;
    lemma_stale_entry_refused(before.0, before.1, e, upsert, path);
    assert(dotted(path, e.key()) == e.key());
    assert(apply_entries(r, p.actions, k + 1, upsert, path) == apply_one(
        before.0,
        before.1,
        e,
        upsert,
        path,
    ));
    lemma_apply_refusal_stays(r, p.actions, k + 1, p.actions.len(), upsert, path);
}

/// An entry that expects a fingerprint which its field does not have is
/// refused with `StaleFingerprint`, whatever it asks for.
pub proof fn lemma_stale_entry_refused(
    rec: RecordView,
    undo: Seq<EntryView>,
    e: EntryView,
    upsert: bool,
    path: Seq<char>,
)
    requires
        rec.find(e.key()) matches Some(i) && stale(e.expected, rec.fields[i].content),
    ensures
        apply_one(rec, undo, e, upsert, path) == Err::<(RecordView, Seq<EntryView>), Fault>(
            Fault { kind: ProteanError::StaleFingerprint, field: dotted(path, e.key()) },
        ),
{
    let i = rec.find(e.key())->Some_0;
    let at = dotted(path, e.key());
    assert(apply_entry(rec.fields[i].content, rec.fields[i].initial, e, upsert, at) == Err::<
        (ContentView, Option<EntryView>),
        Fault,
    >(Fault { kind: ProteanError::StaleFingerprint, field: at }));
}

/// Merging patches over disjoint fields gives the union of their actions:
/// those of the first patch, then those of the second.
pub proof fn lemma_merge_disjoint(a: PatchView, b: PatchView)
    requires
        b.wf(),
        forall|i: int, j: int|
            0 <= i < a.actions.len() && 0 <= j < b.actions.len() ==> (#[trigger] a.actions[i]).key()
                != (#[trigger] b.actions[j]).key(),
    ensures
        a.merge(b) == Ok::<PatchView, Fault>(PatchView { actions: a.actions + b.actions, ..a }),
{
    lemma_merge_disjoint_prefix(a.actions, b.actions, b.actions.len(), Seq::empty());
    assert(b.actions.subrange(0, b.actions.len() as int) =~= b.actions);
}

/// Merging the first `n` entries over disjoint fields appends them.
pub proof fn lemma_merge_disjoint_prefix(
    mine: Seq<EntryView>,
    theirs: Seq<EntryView>,
    n: nat,
    path: Seq<char>,
)
    requires
        n <= theirs.len(),
        distinct(keys_of(theirs)),
        forall|i: int, j: int|
            0 <= i < mine.len() && 0 <= j < theirs.len() ==> (#[trigger] mine[i]).key() != (
            #[trigger] theirs[j]).key(),
    ensures
        merge_entries(mine, theirs, n, path) == Ok::<Seq<EntryView>, Fault>(
            mine + theirs.subrange(0, n as int),
        ),
    decreases n,
{
    if n == 0 {
        assert(mine + theirs.subrange(0, 0) =~= mine);
    } else {
        lemma_merge_disjoint_prefix(mine, theirs, (n - 1) as nat, path);
        let cur = mine + theirs.subrange(0, n - 1);
        let e = theirs[n - 1];
        assert forall|j: int| 0 <= j < keys_of(cur).len() implies keys_of(cur)[j] != e.key() by {
            if j < mine.len() {
                assert(cur[j] == mine[j]);
            } else {
                assert(cur[j] == theirs[j - mine.len()]);
                assert(keys_of(theirs)[j - mine.len()] != keys_of(theirs)[n - 1]);
            }
        }
        lemma_position_absent(keys_of(cur), e.key());
        assert(merge_entries(mine, theirs, n, path) == merge_one(cur, e, path));
        assert(merge_one(cur, e, path) == Ok::<Seq<EntryView>, Fault>(cur.push(e)));
        assert(cur.push(e) =~= mine + theirs.subrange(0, n as int));
    }
}

/// While the first `n` entries are merged, an entry of the first patch
/// stays as it is until an entry for its field comes.
pub proof fn lemma_merge_untouched(
    mine: Seq<EntryView>,
    theirs: Seq<EntryView>,
    n: nat,
    path: Seq<char>,
    i: int,
)
    requires
        n <= theirs.len(),
        0 <= i < mine.len(),
        distinct(keys_of(mine)),
        merge_entries(mine, theirs, n, path) is Ok,
        forall|j: int| 0 <= j < n ==> (#[trigger] theirs[j]).key() != mine[i].key(),
    ensures
        ({
            let cur = merge_entries(mine, theirs, n, path)->Ok_0;
            &&& cur.len() >= mine.len()
            &&& cur[i] == mine[i]
            &&& forall|j: int| 0 <= j < mine.len() ==> (#[trigger] cur[j]).key() == mine[j].key()
        }),
    decreases n,
{
    if n > 0 {
        let e = theirs[n - 1];
        assert(merge_entries(mine, theirs, (n - 1) as nat, path) is Ok);
        lemma_merge_untouched(mine, theirs, (n - 1) as nat, path, i);
        let before = merge_entries(mine, theirs, (n - 1) as nat, path)->Ok_0;
        let cur = merge_entries(mine, theirs, n, path)->Ok_0;
        assert(merge_one(before, e, path) == Ok::<Seq<EntryView>, Fault>(cur));
        lemma_position(keys_of(before), e.key());
        match position(keys_of(before), e.key()) {
            None => {
                assert(cur == before.push(e));
            },
            Some(at) => {
                assert(keys_of(before)[at] == before[at].key());
                let m = reconcile(before[at], e, dotted(path, e.key()))->Ok_0;
                assert(cur == before.update(at, m));
                lemma_reconcile_keeps_key(before[at], e, dotted(path, e.key()));
                assert(at != i);
                assert forall|j: int| 0 <= j < mine.len() implies (#[trigger] cur[j]).key()
                    == mine[j].key() by {
                    if j == at {
                    } else {
                        assert(cur[j] == before[j]);
                    }
                }
            },
        }
    }
}

/// Reconciling two entries for a field gives an entry for that field.
pub proof fn lemma_reconcile_keeps_key(mine: EntryView, theirs: EntryView, path: Seq<char>)
    requires
        mine.key() == theirs.key(),
        reconcile(mine, theirs, path) is Ok,
    ensures
        reconcile(mine, theirs, path)->Ok_0.key() == mine.key(),
{
}

/// Two patches that replace the same leaf field by different values, the
/// second without the expectation of the first one's value, do not merge.
pub proof fn lemma_merge_conflict(a: PatchView, b: PatchView, i: int, j: int)
    requires
        a.wf(),
        b.wf(),
        0 <= i < a.actions.len(),
        0 <= j < b.actions.len(),
        a.actions[i].key() == b.actions[j].key(),
        a.actions[i].action is Replace,
        b.actions[j].action is Replace,
        a.actions[i].payload is Value,
        b.actions[j].payload is Value,
        a.actions[i].payload->Value_0.value != b.actions[j].payload->Value_0.value,
        b.actions[j].expected != Some(fingerprint(a.actions[i].payload->Value_0.value)),
    ensures
        a.merge(b) is Err,
{
    let path = Seq::<char>::empty();
    let n = b.actions.len();
    if merge_entries(a.actions, b.actions, j as nat, path) is Ok {
        assert forall|m: int| 0 <= m < j implies (#[trigger] b.actions[m]).key()
            != a.actions[i].key() by {
            assert(keys_of(b.actions)[m] != keys_of(b.actions)[j]);
        }
        lemma_merge_untouched(a.actions, b.actions, j as nat, path, i);
        let before = merge_entries(a.actions, b.actions, j as nat, path)->Ok_0;
        let e = b.actions[j];
        assert forall|m: int| 0 <= m < i implies keys_of(before)[m] != e.key() by {
            assert(before[m].key() == a.actions[m].key());
            assert(keys_of(a.actions)[m] != keys_of(a.actions)[i]);
        }
        assert(keys_of(before)[i] == e.key());
        lemma_position_found(keys_of(before), e.key(), i);
        assert(reconcile(before[i], e, dotted(path, e.key())) is Err);
        assert(merge_one(before, e, path) is Err);
        assert(merge_entries(a.actions, b.actions, (j + 1) as nat, path) is Err);
        crate::patch::lemma_merge_conflict_stays(a.actions, b.actions, (j + 1) as nat, n, path);
    } else {
        crate::patch::lemma_merge_conflict_stays(a.actions, b.actions, j as nat, n, path);
    }
}

/// What the first `n` entries do depends on those entries alone.
pub proof fn lemma_apply_prefix(
    rec: RecordView,
    s: Seq<EntryView>,
    t: Seq<EntryView>,
    n: nat,
    upsert: bool,
    path: Seq<char>,
)
    requires
        n <= s.len(),
        n <= t.len(),
        forall|i: int| 0 <= i < n ==> s[i] == t[i],
    ensures
        apply_entries(rec, s, n, upsert, path) == apply_entries(rec, t, n, upsert, path),
    decreases n,
{
    if n > 0 {
        lemma_apply_prefix(rec, s, t, (n - 1) as nat, upsert, path);
    }
}

/// Whether a script succeeds, and what it gives, does not depend on where
/// the container stands.
pub proof fn lemma_replay_anywhere(
    cur: ValueView,
    steps: Seq<EntryView>,
    n: nat,
    upsert: bool,
    here: Seq<char>,
    there: Seq<char>,
)
    requires
        replay(cur, steps, n, upsert, here) is Ok,
    ensures
        replay(cur, steps, n, upsert, there) == replay(cur, steps, n, upsert, here),
    decreases n,
{
    if n > 0 && n <= steps.len() {
        lemma_replay_anywhere(cur, steps, (n - 1) as nat, upsert, here, there);
        let v = replay(cur, steps, (n - 1) as nat, upsert, here)->Ok_0;
        assert(replay(cur, steps, n, upsert, here) == replay_one(v, steps[n - 1], upsert, here));
        assert(replay(cur, steps, n, upsert, there) == replay_one(v, steps[n - 1], upsert, there));
    }
}

/// The entry that the diff of two values gives turns the first into the
/// second.
pub proof fn lemma_round_trip_value(
    name: Seq<char>,
    a: ValueView,
    b: ValueView,
    initial: Option<ValueView>,
    upsert: bool,
    at: Seq<char>,
)
    requires
        a.accepts(b),
    ensures
        match diff_value(name, a, b) {
            None => a == b,
            Some(e) => e.key() == name && (apply_entry(
                ContentView::Value(a),
                initial,
                e,
                upsert,
                at,
            ) matches Ok(x) && x.0 == ContentView::Value(b)),
        },
{
    if a != b {
        let expected = Some(fingerprint(a));
        let e = diff_value(name, a, b)->Some_0;
        let content = ContentView::Value(a);
        assert(content.project() == a);
        assert(!stale(expected, content));
        if e == replacement(name, b, expected) {
            assert(crate::step::act_on_value(a, ActionView::Replace, b, upsert) == Ok::<
                ValueView,
                ProteanError,
            >(b));
        } else {
            match (a, b) {
                (ValueView::List(x), ValueView::List(y)) => {
                    assert(e == descent(name, list_script(x, y), expected));
                    lemma_list_script(x, y, true, at);
                    assert(crate::script::list_script_fits(x, y));
                },
                (ValueView::Dict(x), ValueView::Dict(y)) => {
                    assert(e == descent(name, dict_script(x, y), expected));
                    let steps = dict_script(x, y);
                    lemma_replay_anywhere(a, steps, steps.len(), true, Seq::empty(), at);
                },
                _ => {},
            }
        }
    }
}

/// The fields after the diff of the first `n` was applied: those of the
/// target, then the rest of the base.
pub open spec fn midway(base: Seq<SlotView>, target: Seq<SlotView>, n: nat) -> Seq<SlotView> {
    target.subrange(0, n as int) + base.subrange(n as int, base.len() as int)
}

/// The entry that the diff of two contents gives turns the first into the
/// second; where it gives none, the two are the same.
pub proof fn lemma_round_trip_content(
    name: Seq<char>,
    a: ContentView,
    b: ContentView,
    initial: Option<ValueView>,
    from: Seq<char>,
    upsert: bool,
    at: Seq<char>,
)
    requires
        a.wf(),
        diff_content(name, a, b, from) is Ok,
    ensures
        match diff_content(name, a, b, from)->Ok_0 {
            None => a == b,
            Some(e) => e.key() == name && (apply_entry(a, initial, e, upsert, at) matches Ok(x)
                && x.0 == b),
        },
    decreases a, 1nat,
{
    match (a, b) {
        (ContentView::Value(x), ContentView::Value(y)) => {
            lemma_round_trip_value(name, x, y, initial, upsert, at);
        },
        (ContentView::Object(r), ContentView::Object(q)) => {
            let actions = diff_record(r, q, from)->Ok_0;
            lemma_round_trip_fields(r, q.fields, r.fields.len(), from, at);
            assert(midway(r.fields, q.fields, r.fields.len()) =~= q.fields);
            if actions.len() == 0 {
                assert(r == q);
            } else {
                let e = descent(name, actions, None);
                assert(!stale(e.expected, a));
                assert(inherit(Some(true), upsert));
            }
        },
        _ => {},
    }
}

/// Applying the diff of the first `n` fields turns them into those of the
/// target.
pub proof fn lemma_round_trip_fields(
    base: RecordView,
    target: Seq<SlotView>,
    n: nat,
    from: Seq<char>,
    at: Seq<char>,
)
    requires
        base.wf(),
        n <= base.fields.len(),
        base.fields.len() == target.len(),
        diff_fields(base.fields, target, n, from) is Ok,
    ensures
        forall|i: int|
            0 <= i < n ==> (#[trigger] target[i]).name == base.fields[i].name && target[i].initial
                == base.fields[i].initial,
        ({
            let entries = diff_fields(base.fields, target, n, from)->Ok_0;
            apply_entries(base, entries, entries.len(), true, at) matches Ok(x) && x.0 == (RecordView {
                fields: midway(base.fields, target, n),
                ..base
            })
        }),
    decreases base, n,
{
    let entries = diff_fields(base.fields, target, n, from)->Ok_0;
    if n == 0 {
        assert(midway(base.fields, target, 0) =~= base.fields);
    } else {
        let k = (n - 1) as int;
        assert(diff_fields(base.fields, target, k as nat, from) is Ok);
        lemma_round_trip_fields(base, target, k as nat, from, at);
        let earlier = diff_fields(base.fields, target, k as nat, from)->Ok_0;
        let before = apply_entries(base, earlier, earlier.len(), true, at)->Ok_0;
        let name = base.fields[k].name;
        let a = base.fields[k].content;
        let b = target[k].content;
        assert(target[k].name == name);
        assert(target[k].initial == base.fields[k].initial);
        assert(a.wf()) by {
            assert(match (#[trigger] base.fields[k]).content {
                ContentView::Value(_) => true,
                ContentView::Object(sub) => sub.wf(),
            });
        }
        assert(diff_content(name, a, b, dotted(from, name)) is Ok);
        lemma_round_trip_content(
            name,
            a,
            b,
            base.fields[k].initial,
            dotted(from, name),
            true,
            dotted(at, name),
        );
        let after = RecordView { fields: midway(base.fields, target, n), ..base };
        match diff_content(name, a, b, dotted(from, name))->Ok_0 {
            None => {
                assert(entries == earlier);
                assert(target[k] == base.fields[k]);
                assert(midway(base.fields, target, n) =~= midway(base.fields, target, k as nat));
            },
            Some(e) => {
                assert(entries == earlier.push(e));
                lemma_apply_prefix(base, entries, earlier, earlier.len(), true, at);
                assert(apply_entries(base, entries, entries.len(), true, at) == apply_one(
                    before.0,
                    before.1,
                    e,
                    true,
                    at,
                ));
                assert(names_of(before.0.fields) =~= names_of(base.fields));
                assert forall|j: int| 0 <= j < k implies names_of(before.0.fields)[j] != name by {
                    assert(names_of(base.fields)[j] != names_of(base.fields)[k]);
                }
                lemma_position_found(names_of(before.0.fields), name, k);
                assert(before.0.fields[k] == base.fields[k]);
                assert(before.0.with_content(k, b).fields =~= midway(base.fields, target, n));
            },
        }
    }
}

/// Applying the diff of two records to the first gives the second.
pub proof fn lemma_round_trip(base: RecordView, target: RecordView)
    requires
        base.wf(),
        base.diff(target) is Ok,
    ensures
        base.apply(base.diff(target)->Ok_0) matches Ok(x) && x.0 == target,
{
    let path = Seq::<char>::empty();
    lemma_round_trip_fields(base, target.fields, base.fields.len(), path, path);
    assert(midway(base.fields, target.fields, base.fields.len()) =~= target.fields);
}

/// The words of the wire form are all different where they stand side by
/// side.
pub proof fn lemma_words()
    ensures
        "Clear"@ != "Reset"@,
        "Set"@ != "Reset"@,
        "Set"@ != "Clear"@,
        "Map"@ != "List"@,
        "Remove"@ != "Swap"@,
        "Insert"@ != "Swap"@,
        "Insert"@ != "Remove"@,
        "Append"@ != "Swap"@,
        "Append"@ != "Remove"@,
        "Append"@ != "Insert"@,
        "Update"@ != "Insert"@,
        "Delete"@ != "Insert"@,
        "Delete"@ != "Update"@,
        "version"@ != "name"@,
        "options"@ != "name"@,
        "options"@ != "version"@,
        "actions"@ != "name"@,
        "actions"@ != "version"@,
        "actions"@ != "options"@,
{
    reveal_strlit("Clear");
    reveal_strlit("Reset");
    reveal_strlit("Set");
    reveal_strlit("Map");
    reveal_strlit("List");
    reveal_strlit("Remove");
    reveal_strlit("Swap");
    reveal_strlit("Insert");
    reveal_strlit("Append");
    reveal_strlit("Update");
    reveal_strlit("Delete");
    reveal_strlit("name");
    reveal_strlit("version");
    reveal_strlit("options");
    reveal_strlit("actions");
    assert("Map"@.len() == 3 && "List"@.len() == 4 && "Set"@.len() == 3);
    assert("Swap"@.len() == 4 && "Remove"@.len() == 6 && "Insert"@.len() == 6);
    assert("Append"@.len() == 6 && "name"@.len() == 4 && "version"@.len() == 7);
    assert("options"@.len() == 7 && "actions"@.len() == 7);
    assert("Clear"@.len() == 5 && "Reset"@.len() == 5);
    assert("Clear"@[0] != "Reset"@[0]);
    assert("Insert"@[0] != "Remove"@[0]);
    assert("Append"@[0] != "Remove"@[0]);
    assert("Append"@[0] != "Insert"@[0]);
    assert("Update"@[0] != "Insert"@[0]);
    assert("Delete"@[0] != "Insert"@[0]);
    assert("Delete"@[0] != "Update"@[0]);
    assert("options"@[0] != "version"@[0]);
    assert("actions"@[0] != "version"@[0]);
    assert("actions"@[0] != "options"@[0]);
}

/// A written action is read back as it was.
pub proof fn lemma_wire_action(a: ActionView)
    requires
        !(a is Null),
    ensures
        decode_action(encode_action(a)) == Some(a),
{
    lemma_words();
    match a {
        ActionView::List(step) => {
            match step {
                ListAction::Swap(i, j) => {
                    assert(decode_index(number(i)) == Some(i));
                    assert(decode_index(number(j)) == Some(j));
                    let inner = single("Swap"@, ValueView::List(seq![number(i), number(j)]));
                    assert(decode_list_step(inner) == Some(step));
                },
                ListAction::Remove(i) => {
                    assert(decode_index(number(i)) == Some(i));
                    assert(decode_list_step(single("Remove"@, number(i))) == Some(step));
                },
                ListAction::Insert(i) => {
                    assert(decode_index(number(i)) == Some(i));
                    assert(decode_list_step(single("Insert"@, number(i))) == Some(step));
                },
                ListAction::Append() => {
                    assert(decode_list_step(single("Append"@, ValueView::List(Seq::empty()))) == Some(
                        step,
                    ));
                },
            }
        },
        ActionView::Keyed(step) => {
            match step {
                MapActionView::Insert(k) => {
                    assert(decode_map_step(single("Insert"@, ValueView::Text(k))) == Some(step));
                },
                MapActionView::Update(k) => {
                    assert(decode_map_step(single("Update"@, ValueView::Text(k))) == Some(step));
                },
                MapActionView::Delete(k) => {
                    assert(decode_map_step(single("Delete"@, ValueView::Text(k))) == Some(step));
                },
            }
        },
        _ => {},
    }
}

/// A written fingerprint is read back as it was.
pub proof fn lemma_wire_expected(x: u64)
    ensures
        decode_expected(ValueView::Int(x as int)) == Some(x),
{
}

/// What the first `n` entries of the `actions` dictionary stand for depends
/// on those entries alone.
pub proof fn lemma_decode_prefix(
    s: Seq<(Seq<char>, ValueView)>,
    t: Seq<(Seq<char>, ValueView)>,
    n: nat,
    path: Seq<char>,
)
    requires
        n <= s.len(),
        n <= t.len(),
        forall|i: int| 0 <= i < n ==> s[i] == t[i],
    ensures
        decode_entries(s, n, path) == decode_entries(t, n, path),
    decreases n,
{
    if n > 0 {
        lemma_decode_prefix(s, t, (n - 1) as nat, path);
    }
}

/// Taking the `Null` actions out of an entry keeps its field.
pub proof fn lemma_without_null_key(e: EntryView)
    ensures
        without_null_entry(e).key() == e.key(),
{
}

/// A written entry is read back as it was, but for the `Null` actions of
/// its nested patch.
pub proof fn lemma_wire_entry(e: EntryView, from: Seq<char>, to: Seq<char>)
    requires
        e.payload matches PayloadView::Patch(q) ==> q.wf(),
        !(e.action is Null),
        plain_entry(e),
        encode_entry(e, from) is Ok,
    ensures
        decode_entry(e.key(), encode_entry(e, from)->Ok_0, to) == Ok::<EntryView, Seq<char>>(
            without_null_entry(e),
        ),
    decreases e, 0nat,
{
    lemma_words();
    lemma_wire_action(e.action);
    let key = e.key();
    let payload = encode_payload(e.payload, from)->Ok_0;
    match e.payload {
        PayloadView::Value(f) => {
            assert(decode_payload(key, payload, to) == Ok::<PayloadView, Seq<char>>(
                PayloadView::Value(f),
            ));
        },
        PayloadView::Patch(q) => {
            lemma_wire_patch(q, from, to);
            assert(patch_shaped(payload));
            assert(decode_payload(key, payload, to) == Ok::<PayloadView, Seq<char>>(
                PayloadView::Patch(without_null(q)),
            ));
        },
    }
    match e.expected {
        None => {},
        Some(x) => {
            lemma_wire_expected(x);
        },
    }
}

/// The written entries are read back as they were, but for the `Null`
/// actions.
pub proof fn lemma_wire_entries(entries: Seq<EntryView>, n: nat, from: Seq<char>, to: Seq<char>)
    requires
        n <= entries.len(),
        (PatchView { name: Seq::empty(), version: None, options: None, actions: entries }).wf(),
        forall|i: int| 0 <= i < entries.len() ==> plain_entry(#[trigger] entries[i]),
        encode_entries(entries, n, from) is Ok,
    ensures
        ({
            let written = encode_entries(entries, n, from)->Ok_0;
            decode_entries(written, written.len(), to) == Ok::<Seq<EntryView>, Seq<char>>(
                without_null_entries(entries, n),
            )
        }),
        forall|j: int, m: int|
            0 <= j < without_null_entries(entries, n).len() && n <= m < entries.len() ==> keys_of(
                without_null_entries(entries, n),
            )[j] != keys_of(entries)[m],
    decreases entries, n,
{
    if n > 0 {
        let e = entries[n - 1];
        assert(encode_entries(entries, (n - 1) as nat, from) is Ok);
        lemma_wire_entries(entries, (n - 1) as nat, from, to);
        let rest = encode_entries(entries, (n - 1) as nat, from)->Ok_0;
        let kept = without_null_entries(entries, (n - 1) as nat);
        if e.action is Null {
        } else {
            let v = encode_entry(e, dotted(from, e.key()))->Ok_0;
            let written = rest.push((e.key(), v));
            assert(encode_entries(entries, n, from) == Ok::<
                Seq<(Seq<char>, ValueView)>,
                Seq<char>,
            >(written));
            lemma_decode_prefix(written, rest, rest.len(), to);
            assert(match (#[trigger] entries[n - 1]).payload {
                PayloadView::Value(_) => true,
                PayloadView::Patch(q) => q.wf(),
            });
            assert(plain_entry(entries[n - 1]));
            lemma_wire_entry(e, dotted(from, e.key()), dotted(to, e.key()));
            assert forall|j: int| 0 <= j < keys_of(kept).len() implies keys_of(kept)[j] != e.key() by {
                assert(keys_of(entries)[n - 1] == e.key());
            }
            lemma_position_absent(keys_of(kept), e.key());
            assert(decode_entries(written, written.len(), to) == Ok::<Seq<EntryView>, Seq<char>>(
                kept.push(without_null_entry(e)),
            ));
            lemma_without_null_key(e);
            let all = without_null_entries(entries, n);
            assert(all == kept.push(without_null_entry(e)));
            assert forall|j: int, m: int|
                0 <= j < all.len() && n <= m < entries.len() implies keys_of(all)[j] != keys_of(
                entries,
            )[m] by {
                if j < kept.len() {
                    assert(keys_of(all)[j] == keys_of(kept)[j]);
                } else {
                    assert(keys_of(all)[j] == keys_of(entries)[n - 1]);
                }
            }
        }
    }
}

/// Decoding an encoded patch gives the patch back, but for its `Null`
/// actions, which are not written. What is written has the shape of a
/// patch.
pub proof fn lemma_wire_patch(p: PatchView, from: Seq<char>, to: Seq<char>)
    requires
        p.wf(),
        plain(p),
        encode_patch(p, from) is Ok,
    ensures
        decode_patch(encode_patch(p, from)->Ok_0, to) == Ok::<PatchView, Seq<char>>(without_null(p)),
        patch_shaped(encode_patch(p, from)->Ok_0),
    decreases p, 0nat,
{
    lemma_words();
    crate::patch::lemma_wf_shell(p);
    lemma_wire_entries(p.actions, p.actions.len(), from, to);
    let actions = encode_entries(p.actions, p.actions.len(), from)->Ok_0;
    let es = seq![
        ("name"@, ValueView::Text(p.name)),
        ("version"@, encode_version(p.version)),
        ("options"@, encode_options(p.options)),
        ("actions"@, ValueView::Dict(actions)),
    ];
    let keys = dict_keys(es);
    assert(keys[0] == "name"@ && keys[1] == "version"@ && keys[2] == "options"@ && keys[3]
        == "actions"@);
    lemma_position_found(keys, "name"@, 0);
    lemma_position_found(keys, "version"@, 1);
    lemma_position_found(keys, "options"@, 2);
    lemma_position_found(keys, "actions"@, 3);
    assert(decode_version(encode_version(p.version)) == Some(p.version));
    assert(decode_options(encode_options(p.options)) == Some(p.options));
}

/// The wire round trip: what `encode` writes, `decode` reads back as the
/// patch without its `Null` actions, provided that no leaf value that is
/// sent has the shape of a patch (such a value would be read as a nested
/// patch).
pub proof fn lemma_wire_round_trip(p: PatchView)
    requires
        p.wf(),
        plain(p),
        encode_patch(p, Seq::empty()) is Ok,
    ensures
        decode_patch(encode_patch(p, Seq::empty())->Ok_0, Seq::empty()) == Ok::<
            PatchView,
            Seq<char>,
        >(without_null(p)),
{
    lemma_wire_patch(p, Seq::empty(), Seq::empty());
}

/// Whether an entry only replaces: its action is `Replace`, and so is every
/// action of its nested patch.
pub open spec fn replace_only_entry(e: EntryView) -> bool
    decreases e,
{
    &&& e.action is Replace
    &&& match e.payload {
        PayloadView::Value(_) => true,
        PayloadView::Patch(q) => replace_only(q),
    }
}

/// Whether a patch only replaces, here and in every nested patch.
pub open spec fn replace_only(p: PatchView) -> bool
    decreases p,
{
    forall|i: int| 0 <= i < p.actions.len() ==> replace_only_entry(#[trigger] p.actions[i])
}

/// The record as `apply` leaves it: changed where the patch is accepted,
/// as it was where the patch is refused.
pub open spec fn state_after(r: RecordView, p: PatchView) -> RecordView {
    match r.apply(p) {
        Ok(x) => x.0,
        Err(_) => r,
    }
}

/// Applying entries changes what fields hold, never their names.
pub proof fn lemma_names_stable(
    r: RecordView,
    entries: Seq<EntryView>,
    n: nat,
    upsert: bool,
    path: Seq<char>,
)
    requires
        n <= entries.len(),
        apply_entries(r, entries, n, upsert, path) is Ok,
    ensures
        names_of(apply_entries(r, entries, n, upsert, path)->Ok_0.0.fields) == names_of(r.fields),
        apply_entries(r, entries, n, upsert, path)->Ok_0.0.fields.len() == r.fields.len(),
        forall|i: int|
            0 <= i < r.fields.len() ==> (#[trigger] apply_entries(
                r,
                entries,
                n,
                upsert,
                path,
            )->Ok_0.0.fields[i]).initial == r.fields[i].initial,
    decreases n,
{
    if n > 0 {
        assert(apply_entries(r, entries, (n - 1) as nat, upsert, path) is Ok);
        lemma_names_stable(r, entries, (n - 1) as nat, upsert, path);
        let before = apply_entries(r, entries, (n - 1) as nat, upsert, path)->Ok_0;
        let after = apply_entries(r, entries, n, upsert, path)->Ok_0;
        let e = entries[n - 1];
        assert(apply_one(before.0, before.1, e, upsert, path) == Ok::<
            (RecordView, Seq<EntryView>),
            Fault,
        >(after));
        lemma_position(names_of(before.0.fields), e.key());
        assert(names_of(after.0.fields) =~= names_of(before.0.fields));
    }
}

/// A field stays as it is while the entries applied are for other fields.
pub proof fn lemma_field_untouched(
    r: RecordView,
    entries: Seq<EntryView>,
    n: nat,
    upsert: bool,
    path: Seq<char>,
    i: int,
)
    requires
        n <= entries.len(),
        0 <= i < r.fields.len(),
        apply_entries(r, entries, n, upsert, path) is Ok,
        forall|m: int| 0 <= m < n ==> (#[trigger] entries[m]).key() != r.fields[i].name,
    ensures
        apply_entries(r, entries, n, upsert, path)->Ok_0.0.fields.len() == r.fields.len(),
        apply_entries(r, entries, n, upsert, path)->Ok_0.0.fields[i] == r.fields[i],
    decreases n,
{
    if n > 0 {
        assert(apply_entries(r, entries, (n - 1) as nat, upsert, path) is Ok);
        lemma_field_untouched(r, entries, (n - 1) as nat, upsert, path, i);
        lemma_names_stable(r, entries, (n - 1) as nat, upsert, path);
        let before = apply_entries(r, entries, (n - 1) as nat, upsert, path)->Ok_0;
        let after = apply_entries(r, entries, n, upsert, path)->Ok_0;
        let e = entries[n - 1];
        assert(apply_one(before.0, before.1, e, upsert, path) == Ok::<
            (RecordView, Seq<EntryView>),
            Fault,
        >(after));
        lemma_position(names_of(before.0.fields), e.key());
        let j = before.0.find(e.key())->Some_0;
        assert(names_of(before.0.fields)[j] == e.key());
        assert(names_of(r.fields)[i] == r.fields[i].name);
        assert(j != i);
    }
}

/// What an accepted entry leaves in its field: the result of the entry on
/// what the field held at the start, and it stays there to the end.
pub proof fn lemma_entry_effect(
    r: RecordView,
    entries: Seq<EntryView>,
    n: nat,
    k: int,
    upsert: bool,
    path: Seq<char>,
)
    requires
        distinct(names_of(r.fields)),
        distinct(keys_of(entries)),
        0 <= k < n <= entries.len(),
        apply_entries(r, entries, n, upsert, path) is Ok,
    ensures
        r.find(entries[k].key()) is Some,
        ({
            let i = r.find(entries[k].key())->Some_0;
            let at = dotted(path, entries[k].key());
            let last = apply_entries(r, entries, n, upsert, path)->Ok_0.0;
            &&& 0 <= i < r.fields.len()
            &&& last.fields.len() == r.fields.len()
            &&& apply_entry(r.fields[i].content, r.fields[i].initial, entries[k], upsert, at) is Ok
            &&& last.fields[i].content == apply_entry(
                r.fields[i].content,
                r.fields[i].initial,
                entries[k],
                upsert,
                at,
            )->Ok_0.0
        }),
    decreases n,
{
    let e = entries[k];
    let at = dotted(path, e.key());
    assert(apply_entries(r, entries, (n - 1) as nat, upsert, path) is Ok);
    let before = apply_entries(r, entries, (n - 1) as nat, upsert, path)->Ok_0;
    let after = apply_entries(r, entries, n, upsert, path)->Ok_0;
    let last = entries[n - 1];
    assert(apply_one(before.0, before.1, last, upsert, path) == Ok::<
        (RecordView, Seq<EntryView>),
        Fault,
    >(after));
    lemma_names_stable(r, entries, (n - 1) as nat, upsert, path);
    lemma_position(names_of(before.0.fields), last.key());
    let j = before.0.find(last.key())->Some_0;
    assert(names_of(before.0.fields)[j] == last.key());
    if k == n - 1 {
        assert forall|m: int| 0 <= m < n - 1 implies (#[trigger] entries[m]).key()
            != r.fields[j].name by {
            assert(keys_of(entries)[m] != keys_of(entries)[k]);
            assert(names_of(r.fields)[j] == r.fields[j].name);
        }
        lemma_field_untouched(r, entries, (n - 1) as nat, upsert, path, j);
    } else {
        lemma_entry_effect(r, entries, (n - 1) as nat, k, upsert, path);
        let i = r.find(e.key())->Some_0;
        lemma_position(names_of(r.fields), e.key());
        assert(names_of(r.fields)[i] == e.key());
        assert(keys_of(entries)[k] != keys_of(entries)[n - 1]);
        assert(i != j);
    }
}

/// Applying entries that only replace a second time changes nothing: where
/// they are accepted again, the record is what the first pass left.
pub proof fn lemma_second_pass(
    r: RecordView,
    entries: Seq<EntryView>,
    n: nat,
    m: nat,
    upsert: bool,
    path: Seq<char>,
)
    requires
        r.wf(),
        (PatchView { name: Seq::empty(), version: None, options: None, actions: entries }).wf(),
        forall|i: int| 0 <= i < entries.len() ==> replace_only_entry(#[trigger] entries[i]),
        m <= n <= entries.len(),
        apply_entries(r, entries, n, upsert, path) is Ok,
        apply_entries(
            apply_entries(r, entries, n, upsert, path)->Ok_0.0,
            entries,
            m,
            upsert,
            path,
        ) is Ok,
    ensures
        apply_entries(
            apply_entries(r, entries, n, upsert, path)->Ok_0.0,
            entries,
            m,
            upsert,
            path,
        )->Ok_0.0 == apply_entries(r, entries, n, upsert, path)->Ok_0.0,
    decreases entries, m,
{
    let first = apply_entries(r, entries, n, upsert, path)->Ok_0.0;
    if m > 0 {
        let k = (m - 1) as int;
        let e = entries[k];
        let at = dotted(path, e.key());
        assert(apply_entries(first, entries, k as nat, upsert, path) is Ok);
        lemma_second_pass(r, entries, n, k as nat, upsert, path);
        let before = apply_entries(first, entries, k as nat, upsert, path)->Ok_0;
        let after = apply_entries(first, entries, m, upsert, path)->Ok_0;
        assert(before.0 == first);
        assert(apply_one(first, before.1, e, upsert, path) == Ok::<
            (RecordView, Seq<EntryView>),
            Fault,
        >(after));
        lemma_entry_effect(r, entries, n, k, upsert, path);
        lemma_names_stable(r, entries, n, upsert, path);
        let i = r.find(e.key())->Some_0;
        let held = r.fields[i].content;
        let left = first.fields[i].content;
        assert(first.find(e.key()) == Some(i));
        assert(held.wf()) by {
            assert(match (#[trigger] r.fields[i]).content {
                ContentView::Value(_) => true,
                ContentView::Object(sub) => sub.wf(),
            });
        }
        assert(match (#[trigger] entries[k]).payload {
            PayloadView::Value(_) => true,
            PayloadView::Patch(q) => q.wf(),
        });
        let initial = r.fields[i].initial;
        assert(first.fields[i].initial == initial);
        lemma_settled(held, initial, e, upsert, at);
        let again = apply_entry(left, initial, e, upsert, at)->Ok_0.0;
        assert(again == left);
        assert(first.with_content(i, left).fields =~= first.fields);
    }
}

/// What an entry that only replaces leaves in a field is settled: the same
/// entry, accepted once more, leaves it as it is.
pub proof fn lemma_settled(
    c: ContentView,
    initial: Option<ValueView>,
    e: EntryView,
    upsert: bool,
    at: Seq<char>,
)
    requires
        c.wf(),
        replace_only_entry(e),
        e.payload matches PayloadView::Patch(q) ==> q.wf(),
        apply_entry(c, initial, e, upsert, at) is Ok,
        apply_entry(apply_entry(c, initial, e, upsert, at)->Ok_0.0, initial, e, upsert, at) is Ok,
    ensures
        apply_entry(
            apply_entry(c, initial, e, upsert, at)->Ok_0.0,
            initial,
            e,
            upsert,
            at,
        )->Ok_0.0 == apply_entry(c, initial, e, upsert, at)->Ok_0.0,
    decreases e, 0nat,
{
    let once = apply_entry(c, initial, e, upsert, at)->Ok_0.0;
    match e.payload {
        PayloadView::Value(f) => {},
        PayloadView::Patch(p) => {
            let inner = inherit(p.options, upsert);
            match c {
                ContentView::Object(rec) => {
                    crate::patch::lemma_wf_shell(p);
                    lemma_second_pass(rec, p.actions, p.actions.len(), p.actions.len(), inner, at);
                },
                ContentView::Value(cur) => {
                    let n = p.actions.len();
                    let v = replay(cur, p.actions, n, inner, at)->Ok_0;
                    lemma_replace_script(cur, p.actions, n, inner, at);
                    lemma_replace_script(v, p.actions, n, inner, at);
                },
            }
        },
    }
}

/// A script of replacements is refused at its first step: a script that is
/// accepted has no step, and leaves the value as it is.
pub proof fn lemma_replace_script(
    cur: ValueView,
    steps: Seq<EntryView>,
    n: nat,
    upsert: bool,
    path: Seq<char>,
)
    requires
        n <= steps.len(),
        forall|i: int| 0 <= i < steps.len() ==> replace_only_entry(#[trigger] steps[i]),
        replay(cur, steps, n, upsert, path) is Ok,
    ensures
        n == 0,
        replay(cur, steps, n, upsert, path)->Ok_0 == cur,
    decreases n,
{
    if n > 0 {
        assert(replay(cur, steps, (n - 1) as nat, upsert, path) is Ok);
        lemma_replace_script(cur, steps, (n - 1) as nat, upsert, path);
        assert(replace_only_entry(steps[n - 1]));
        assert(replay_one(cur, steps[n - 1], upsert, path) is Err);
    }
}

/// Applying a patch that only replaces twice leaves the record as applying
/// it once does.
pub proof fn lemma_replace_only_idempotent(r: RecordView, p: PatchView)
    requires
        r.wf(),
        p.wf(),
        replace_only(p),
    ensures
        state_after(state_after(r, p), p) == state_after(r, p),
{
    if r.apply(p) is Ok && p.actions.len() > 0 {
        let once = state_after(r, p);
        let upsert = inherit(p.options, true);
        let path = Seq::<char>::empty();
        let n = p.actions.len();
        crate::patch::lemma_wf_shell(p);
        assert(once == apply_entries(r, p.actions, n, upsert, path)->Ok_0.0);
        lemma_names_stable(r, p.actions, n, upsert, path);
        lemma_record_kept(r, p.actions, n, upsert, path);
        if once.apply(p) is Ok {
            lemma_second_pass(r, p.actions, n, n, upsert, path);
        }
    }
}

/// Applying entries keeps the name and version of a record.
pub proof fn lemma_record_kept(
    r: RecordView,
    entries: Seq<EntryView>,
    n: nat,
    upsert: bool,
    path: Seq<char>,
)
    requires
        n <= entries.len(),
        apply_entries(r, entries, n, upsert, path) is Ok,
    ensures
        apply_entries(r, entries, n, upsert, path)->Ok_0.0.name == r.name,
        apply_entries(r, entries, n, upsert, path)->Ok_0.0.version == r.version,
    decreases n,
{
    if n > 0 {
        assert(apply_entries(r, entries, (n - 1) as nat, upsert, path) is Ok);
        lemma_record_kept(r, entries, (n - 1) as nat, upsert, path);
        let before = apply_entries(r, entries, (n - 1) as nat, upsert, path)->Ok_0;
        assert(apply_one(before.0, before.1, entries[n - 1], upsert, path) is Ok);
    }
}

/// Whether what a field holds now can give way to what it held before: a
/// value to one that it accepts, a record to one of the same type whose
/// fields can each be put back.
pub open spec fn gives_way(now: ContentView, before: ContentView) -> bool
    decreases before,
{
    match (now, before) {
        (ContentView::Value(a), ContentView::Value(b)) => a.accepts(b),
        (ContentView::Object(x), ContentView::Object(y)) => {
            &&& x.name == y.name
            &&& x.version == y.version
            &&& x.fields.len() == y.fields.len()
            &&& forall|i: int|
                0 <= i < y.fields.len() ==> (#[trigger] x.fields[i]).name == y.fields[i].name
                    && x.fields[i].initial == y.fields[i].initial && gives_way(
                    x.fields[i].content,
                    y.fields[i].content,
                )
        },
        _ => false,
    }
}

/// What a field holds can give way to itself.
pub proof fn lemma_gives_way_to_itself(c: ContentView)
    ensures
        gives_way(c, c),
    decreases c,
{
    match c {
        ContentView::Value(_) => {},
        ContentView::Object(r) => {
            assert forall|i: int| 0 <= i < r.fields.len() implies (#[trigger] r.fields[i]).name
                == r.fields[i].name && r.fields[i].initial == r.fields[i].initial && gives_way(
                r.fields[i].content,
                r.fields[i].content,
            ) by {
                lemma_gives_way_to_itself(r.fields[i].content);
            }
        },
    }
}

/// The emptied fields are the fields, each with its content emptied.
pub proof fn lemma_emptied_fields(fields: Seq<SlotView>, n: nat, reset: bool)
    requires
        n <= fields.len(),
    ensures
        emptied_fields(fields, n, reset).len() == n,
        forall|i: int|
            0 <= i < n ==> #[trigger] emptied_fields(fields, n, reset)[i] == (SlotView {
                content: fields[i].content.emptied(fields[i].initial, reset),
                ..fields[i]
            }),
    decreases n,
{
    if n > 0 {
        lemma_emptied_fields(fields, (n - 1) as nat, reset);
    }
}

/// A content that was cleared or reset can give way to what it was.
pub proof fn lemma_emptied_gives_way(c: ContentView, initial: Option<ValueView>, reset: bool)
    ensures
        gives_way(c.emptied(initial, reset), c),
    decreases c,
{
    match c {
        ContentView::Value(_) => {},
        ContentView::Object(r) => {
            lemma_emptied_fields(r.fields, r.fields.len(), reset);
            let b = emptied_fields(r.fields, r.fields.len(), reset);
            assert forall|i: int| 0 <= i < r.fields.len() implies (#[trigger] b[i]).name
                == r.fields[i].name && b[i].initial == r.fields[i].initial && gives_way(
                b[i].content,
                r.fields[i].content,
            ) by {
                lemma_emptied_gives_way(r.fields[i].content, r.fields[i].initial, reset);
            }
        },
    }
}

/// A step of a script leaves a container of the genre it found.
pub proof fn lemma_replay_keeps_genre(
    cur: ValueView,
    steps: Seq<EntryView>,
    n: nat,
    upsert: bool,
    path: Seq<char>,
)
    requires
        cur is List || cur is Dict,
        replay(cur, steps, n, upsert, path) is Ok,
    ensures
        replay(cur, steps, n, upsert, path)->Ok_0.kind() == cur.kind(),
    decreases n,
{
    if n > 0 && n <= steps.len() {
        assert(replay(cur, steps, (n - 1) as nat, upsert, path) is Ok);
        lemma_replay_keeps_genre(cur, steps, (n - 1) as nat, upsert, path);
        let v = replay(cur, steps, (n - 1) as nat, upsert, path)->Ok_0;
        assert(replay(cur, steps, n, upsert, path) == replay_one(v, steps[n - 1], upsert, path));
    }
}

/// What an accepted entry leaves in a field can give way to what the field
/// held.
pub proof fn lemma_entry_gives_way(
    c: ContentView,
    initial: Option<ValueView>,
    e: EntryView,
    upsert: bool,
    at: Seq<char>,
)
    requires
        c.wf(),
        e.payload matches PayloadView::Patch(q) ==> q.wf(),
        apply_entry(c, initial, e, upsert, at) is Ok,
    ensures
        gives_way(apply_entry(c, initial, e, upsert, at)->Ok_0.0, c),
    decreases e, 0nat,
{
    let after = apply_entry(c, initial, e, upsert, at)->Ok_0.0;
    lemma_gives_way_to_itself(c);
    lemma_emptied_gives_way(c, None, false);
    lemma_emptied_gives_way(c, initial, true);
    match e.payload {
        PayloadView::Value(f) => {},
        PayloadView::Patch(p) => {
            if e.action is Replace {
                let inner = inherit(p.options, upsert);
                match c {
                    ContentView::Object(rec) => {
                        crate::patch::lemma_wf_shell(p);
                        lemma_entries_give_way(rec, p.actions, p.actions.len(), inner, at);
                    },
                    ContentView::Value(cur) => {
                        lemma_replay_keeps_genre(cur, p.actions, p.actions.len(), inner, at);
                    },
                }
            }
        },
    }
}

/// The record that accepted entries leave can give way to the record they
/// found.
pub proof fn lemma_entries_give_way(
    r: RecordView,
    entries: Seq<EntryView>,
    n: nat,
    upsert: bool,
    path: Seq<char>,
)
    requires
        r.wf(),
        (PatchView { name: Seq::empty(), version: None, options: None, actions: entries }).wf(),
        n <= entries.len(),
        apply_entries(r, entries, n, upsert, path) is Ok,
    ensures
        gives_way(
            ContentView::Object(apply_entries(r, entries, n, upsert, path)->Ok_0.0),
            ContentView::Object(r),
        ),
    decreases entries, n,
{
    let last = apply_entries(r, entries, n, upsert, path)->Ok_0.0;
    lemma_record_kept(r, entries, n, upsert, path);
    lemma_names_stable(r, entries, n, upsert, path);
    assert forall|i: int| 0 <= i < r.fields.len() implies (#[trigger] last.fields[i]).name
        == r.fields[i].name && last.fields[i].initial == r.fields[i].initial && gives_way(
        last.fields[i].content,
        r.fields[i].content,
    ) by {
        assert(names_of(last.fields)[i] == names_of(r.fields)[i]);
        if forall|m: int| 0 <= m < n ==> (#[trigger] entries[m]).key() != r.fields[i].name {
            lemma_field_untouched(r, entries, n, upsert, path, i);
            lemma_gives_way_to_itself(r.fields[i].content);
        } else {
            let k = choose|m: int| 0 <= m < n && (#[trigger] entries[m]).key() == r.fields[i].name;
            lemma_entry_effect(r, entries, n, k, upsert, path);
            lemma_position(names_of(r.fields), entries[k].key());
            let found = r.find(entries[k].key())->Some_0;
            if found != i {
                assert(names_of(r.fields)[found] == names_of(r.fields)[i]);
            }
            assert(r.fields[i].content.wf()) by {
                assert(match (#[trigger] r.fields[i]).content {
                    ContentView::Value(_) => true,
                    ContentView::Object(sub) => sub.wf(),
                });
            }
            assert(match (#[trigger] entries[k]).payload {
                PayloadView::Value(_) => true,
                PayloadView::Patch(q) => q.wf(),
            });
            lemma_entry_gives_way(
                r.fields[i].content,
                r.fields[i].initial,
                entries[k],
                upsert,
                dotted(path, entries[k].key()),
            );
        }
    }
}

/// The entry that restores a content puts it back, wherever what the field
/// holds now can give way.
pub proof fn lemma_restore(
    now: ContentView,
    before: ContentView,
    initial: Option<ValueView>,
    name: Seq<char>,
    upsert: bool,
    at: Seq<char>,
)
    requires
        before.wf(),
        gives_way(now, before),
    ensures
        before.restore(name).key() == name,
        apply_entry(now, initial, before.restore(name), upsert, at) matches Ok(x) && x.0 == before,
    decreases before, 1nat,
{
    let e = before.restore(name);
    match (now, before) {
        (ContentView::Value(a), ContentView::Value(b)) => {
            assert(!stale(e.expected, now));
            assert(act_on_value(a, ActionView::Replace, b, upsert) == Ok::<ValueView, ProteanError>(
                b,
            ));
        },
        (ContentView::Object(x), ContentView::Object(y)) => {
            lemma_restore_fields(x, y, y.fields.len(), at);
            lemma_export_keys(y.fields, y.fields.len());
            assert(midway(x.fields, y.fields, y.fields.len()) =~= y.fields);
            assert(!stale(e.expected, now));
            assert(e.payload->Patch_0.actions == export_fields(y.fields, y.fields.len()));
            assert(inherit(Some(true), upsert));
        },
        _ => {},
    }
}

/// Applying the export of the first `n` fields puts them back.
pub proof fn lemma_restore_fields(now: RecordView, before: RecordView, n: nat, at: Seq<char>)
    requires
        before.wf(),
        gives_way(ContentView::Object(now), ContentView::Object(before)),
        n <= before.fields.len(),
    ensures
        apply_entries(now, export_fields(before.fields, n), n, true, at) matches Ok(x) && x.0 == (
        RecordView { fields: midway(now.fields, before.fields, n), ..now }),
    decreases before, 0nat, n,
{
    let entries = export_fields(before.fields, n);
    lemma_export_keys(before.fields, n);
    if n == 0 {
        assert(midway(now.fields, before.fields, 0) =~= now.fields);
    } else {
        let k = (n - 1) as int;
        let earlier = export_fields(before.fields, k as nat);
        lemma_export_keys(before.fields, k as nat);
        lemma_restore_fields(now, before, k as nat, at);
        lemma_apply_prefix(now, entries, earlier, k as nat, true, at);
        let reached = apply_entries(now, earlier, k as nat, true, at)->Ok_0;
        let name = before.fields[k].name;
        let e = entries[k];
        assert(e == before.fields[k].content.restore(name));
        assert(apply_entries(now, entries, n, true, at) == apply_one(
            reached.0,
            reached.1,
            e,
            true,
            at,
        ));
        assert(before.fields[k].content.wf()) by {
            assert(match (#[trigger] before.fields[k]).content {
                ContentView::Value(_) => true,
                ContentView::Object(sub) => sub.wf(),
            });
        }
        assert(now.fields[k].name == before.fields[k].name);
        lemma_restore(
            now.fields[k].content,
            before.fields[k].content,
            now.fields[k].initial,
            name,
            true,
            dotted(at, name),
        );
        assert(names_of(reached.0.fields) =~= names_of(before.fields)) by {
            assert forall|j: int| 0 <= j < before.fields.len() implies names_of(reached.0.fields)[j]
                == names_of(before.fields)[j] by {
                assert(now.fields[j].name == before.fields[j].name);
            }
        }
        assert forall|j: int| 0 <= j < k implies names_of(reached.0.fields)[j] != name by {
            assert(names_of(before.fields)[j] != names_of(before.fields)[k]);
        }
        lemma_position_found(names_of(reached.0.fields), name, k);
        assert(reached.0.fields[k] == now.fields[k]);
        assert(now.fields[k].initial == before.fields[k].initial);
        assert(reached.0.with_content(k, before.fields[k].content).fields =~= midway(
            now.fields,
            before.fields,
            n,
        ));
    }
}

/// The entry that `apply` hands back for an entry undoes it; where it hands
/// none back, the entry changed nothing.
pub proof fn lemma_undo_entry(
    c: ContentView,
    initial: Option<ValueView>,
    e: EntryView,
    upsert: bool,
    at: Seq<char>,
    again: bool,
    there: Seq<char>,
)
    requires
        c.wf(),
        e.payload matches PayloadView::Patch(q) ==> q.wf(),
        apply_entry(c, initial, e, upsert, at) is Ok,
    ensures
        match apply_entry(c, initial, e, upsert, at)->Ok_0.1 {
            None => apply_entry(c, initial, e, upsert, at)->Ok_0.0 == c,
            Some(b) => b.key() == e.key() && (apply_entry(
                apply_entry(c, initial, e, upsert, at)->Ok_0.0,
                initial,
                b,
                again,
                there,
            ) matches Ok(x) && x.0 == c),
        },
    decreases e, 0nat,
{
    let after = apply_entry(c, initial, e, upsert, at)->Ok_0.0;
    let back = apply_entry(c, initial, e, upsert, at)->Ok_0.1;
    lemma_entry_gives_way(c, initial, e, upsert, at);
    match e.payload {
        PayloadView::Value(f) => {
            if !(e.action is Null) {
                lemma_restore(after, c, initial, f.name, again, there);
            }
        },
        PayloadView::Patch(p) => {
            if e.action is Replace {
                let inner = inherit(p.options, upsert);
                match c {
                    ContentView::Object(rec) => {
                        crate::patch::lemma_wf_shell(p);
                        lemma_undo_entries(
                            rec,
                            p.actions,
                            p.actions.len(),
                            inner,
                            at,
                            inherit(p.options, again),
                            there,
                        );
                        let b = back->Some_0;
                        assert(!stale(b.expected, after));
                    },
                    ContentView::Value(cur) => {
                        lemma_restore(after, c, initial, p.name, again, there);
                    },
                }
            }
        },
    }
}

/// Changing a field that the entries do not touch changes nothing of what
/// they do.
pub proof fn lemma_frame(
    s: RecordView,
    entries: Seq<EntryView>,
    n: nat,
    i: int,
    c: ContentView,
    upsert: bool,
    path: Seq<char>,
)
    requires
        n <= entries.len(),
        0 <= i < s.fields.len(),
        distinct(names_of(s.fields)),
        apply_entries(s, entries, n, upsert, path) is Ok,
        forall|m: int| 0 <= m < n ==> (#[trigger] entries[m]).key() != s.fields[i].name,
    ensures
        apply_entries(s.with_content(i, c), entries, n, upsert, path) == Ok::<
            (RecordView, Seq<EntryView>),
            Fault,
        >(
            (
                apply_entries(s, entries, n, upsert, path)->Ok_0.0.with_content(i, c),
                apply_entries(s, entries, n, upsert, path)->Ok_0.1,
            ),
        ),
    decreases n,
{
    if n > 0 {
        assert(apply_entries(s, entries, (n - 1) as nat, upsert, path) is Ok);
        lemma_frame(s, entries, (n - 1) as nat, i, c, upsert, path);
        lemma_names_stable(s, entries, (n - 1) as nat, upsert, path);
        let before = apply_entries(s, entries, (n - 1) as nat, upsert, path)->Ok_0;
        let after = apply_entries(s, entries, n, upsert, path)->Ok_0;
        let e = entries[n - 1];
        assert(apply_one(before.0, before.1, e, upsert, path) == Ok::<
            (RecordView, Seq<EntryView>),
            Fault,
        >(after));
        let moved = before.0.with_content(i, c);
        assert(names_of(moved.fields) =~= names_of(before.0.fields));
        lemma_position(names_of(before.0.fields), e.key());
        let j = before.0.find(e.key())->Some_0;
        assert(names_of(before.0.fields)[j] == e.key());
        assert(names_of(s.fields)[i] == s.fields[i].name);
        assert(j != i);
        assert(moved.fields[j] == before.0.fields[j]);
        let result = apply_entry(
            before.0.fields[j].content,
            before.0.fields[j].initial,
            e,
            upsert,
            dotted(path, e.key()),
        )->Ok_0;
        assert(moved.find(e.key()) == Some(j));
        assert(apply_entries(s.with_content(i, c), entries, n, upsert, path) == apply_one(
            moved,
            before.1,
            e,
            upsert,
            path,
        ));
        assert(moved.with_content(j, result.0).fields =~= before.0.with_content(j, result.0).with_content(
            i,
            c,
        ).fields);
        assert(after.0 == before.0.with_content(j, result.0));
    } else {
    }
}

/// The entries that `apply` hands back undo the entries that were applied.
pub proof fn lemma_undo_entries(
    r: RecordView,
    entries: Seq<EntryView>,
    n: nat,
    upsert: bool,
    path: Seq<char>,
    again: bool,
    there: Seq<char>,
)
    requires
        r.wf(),
        (PatchView { name: Seq::empty(), version: None, options: None, actions: entries }).wf(),
        n <= entries.len(),
        apply_entries(r, entries, n, upsert, path) is Ok,
    ensures
        ({
            let done = apply_entries(r, entries, n, upsert, path)->Ok_0;
            &&& apply_entries(done.0, done.1, done.1.len(), again, there) matches Ok(x) && x.0 == r
            &&& forall|j: int, m: int|
                0 <= j < done.1.len() && n <= m < entries.len() ==> keys_of(done.1)[j] != keys_of(
                    entries,
                )[m]
        }),
    decreases entries, n,
{
    let done = apply_entries(r, entries, n, upsert, path)->Ok_0;
    if n > 0 {
        let k = (n - 1) as int;
        let e = entries[k];
        assert(apply_entries(r, entries, k as nat, upsert, path) is Ok);
        lemma_undo_entries(r, entries, k as nat, upsert, path, again, there);
        let before = apply_entries(r, entries, k as nat, upsert, path)->Ok_0;
        assert(apply_one(before.0, before.1, e, upsert, path) == Ok::<
            (RecordView, Seq<EntryView>),
            Fault,
        >(done));
        lemma_names_stable(r, entries, k as nat, upsert, path);
        lemma_position(names_of(before.0.fields), e.key());
        let i = before.0.find(e.key())->Some_0;
        assert(names_of(before.0.fields)[i] == e.key());
        assert(names_of(r.fields)[i] == r.fields[i].name);
        assert forall|m: int| 0 <= m < k implies (#[trigger] entries[m]).key() != r.fields[i].name by {
            assert(keys_of(entries)[m] != keys_of(entries)[k]);
        }
        lemma_field_untouched(r, entries, k as nat, upsert, path, i);
        let held = r.fields[i].content;
        assert(before.0.fields[i].content == held);
        assert(held.wf()) by {
            assert(match (#[trigger] r.fields[i]).content {
                ContentView::Value(_) => true,
                ContentView::Object(sub) => sub.wf(),
            });
        }
        assert(match (#[trigger] entries[k]).payload {
            PayloadView::Value(_) => true,
            PayloadView::Patch(q) => q.wf(),
        });
        let at = dotted(path, e.key());
        let initial = r.fields[i].initial;
        assert(before.0.fields[i] == r.fields[i]);
        lemma_undo_entry(held, initial, e, upsert, at, again, dotted(there, e.key()));
        let step = apply_entry(held, initial, e, upsert, at)->Ok_0;
        assert(done.0 == before.0.with_content(i, step.0));
        // The earlier undo entries do not touch field `i`.
        assert forall|m: int| 0 <= m < before.1.len() implies (#[trigger] before.1[m]).key()
            != before.0.fields[i].name by {
            assert(keys_of(before.1)[m] != keys_of(entries)[k]);
        }
        lemma_frame(before.0, before.1, before.1.len(), i, step.0, again, there);
        let rolled = apply_entries(done.0, before.1, before.1.len(), again, there)->Ok_0;
        assert(rolled.0 == r.with_content(i, step.0));
        match step.1 {
            None => {
                assert(done.1 == before.1);
                assert(r.with_content(i, step.0).fields =~= r.fields);
            },
            Some(b) => {
                assert(done.1 == before.1.push(b));
                lemma_apply_prefix(done.0, done.1, before.1, before.1.len(), again, there);
                assert(apply_entries(done.0, done.1, done.1.len(), again, there) == apply_one(
                    rolled.0,
                    rolled.1,
                    b,
                    again,
                    there,
                ));
                assert(names_of(rolled.0.fields) =~= names_of(r.fields));
                assert(rolled.0.find(b.key()) == Some(i));
                assert(rolled.0.with_content(i, held).fields =~= r.fields);
                assert forall|j: int, m: int|
                    0 <= j < done.1.len() && n <= m < entries.len() implies keys_of(done.1)[j]
                    != keys_of(entries)[m] by {
                    if j < before.1.len() {
                        assert(keys_of(done.1)[j] == keys_of(before.1)[j]);
                    } else {
                        assert(keys_of(done.1)[j] == keys_of(entries)[k]);
                    }
                }
            },
        }
    }
}

/// The inverse patch undoes the patch: applied to the record that `apply`
/// left, it gives back the record that `apply` found.
pub proof fn lemma_inverse_undoes(r: RecordView, p: PatchView)
    requires
        r.wf(),
        p.wf(),
        r.apply(p) is Ok,
    ensures
        r.apply(p)->Ok_0.0.apply(r.apply(p)->Ok_0.1) matches Ok(x) && x.0 == r,
{
    let done = r.apply(p)->Ok_0;
    let path = Seq::<char>::empty();
    let upsert = inherit(p.options, true);
    crate::patch::lemma_wf_shell(p);
    lemma_undo_entries(r, p.actions, p.actions.len(), upsert, path, upsert, path);
    lemma_record_kept(r, p.actions, p.actions.len(), upsert, path);
    if p.name != r.name {
        assert(p.actions.len() == 0);
    }
}

} // verus!

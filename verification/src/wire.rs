//! The wire form of a patch: a tree of plain values.
//!
//! A patch is written as the dictionary
//! `{ name, version, options, actions }`, where `actions` holds one entry
//! per field: the list `[tag, value]`, or `[tag, expected, value]` where
//! the action expects a fingerprint. The value of a leaf action is the
//! carried value itself; that of a composite is the nested patch in the
//! same form. A `Null` action is not written.

use crate::action::{Action, ActionView, ListAction, MapAction, MapActionView, PatchOptions};
use crate::error::{dotted, join_path, Failure, ProteanError};
use crate::patch::{
    keys_of, EntryView, Field, FieldView, Patch, PatchAction, PatchValue, PatchView, PayloadView,
};
use crate::step::{dict_find, dict_keys};
use crate::text::{lemma_position, position, same_str};
use crate::value::{dict_view, list_view, FieldValue, ValueView};
use vstd::prelude::*;
use vstd::string::StringExecFns;

verus! {

/// The dictionary with the one entry `key: v`.
pub open spec fn single(key: Seq<char>, v: ValueView) -> ValueView {
    ValueView::Dict(seq![(key, v)])
}

/// A position as a number.
pub open spec fn number(i: usize) -> ValueView {
    ValueView::Int(i as int)
}

/// The tag of an action: its name, and for a step on a list or dictionary
/// the kind of step with its positions or key.
pub open spec fn encode_action(a: ActionView) -> ValueView {
    match a {
        ActionView::Null => ValueView::Text("Null"@),
        ActionView::Reset => ValueView::Text("Reset"@),
        ActionView::Clear => ValueView::Text("Clear"@),
        ActionView::Replace => ValueView::Text("Set"@),
        ActionView::List(ListAction::Swap(i, j)) => single(
            "List"@,
            single("Swap"@, ValueView::List(seq![number(i), number(j)])),
        ),
        ActionView::List(ListAction::Remove(i)) => single("List"@, single("Remove"@, number(i))),
        ActionView::List(ListAction::Insert(i)) => single("List"@, single("Insert"@, number(i))),
        ActionView::List(ListAction::Append()) => single(
            "List"@,
            single("Append"@, ValueView::List(Seq::empty())),
        ),
        ActionView::Keyed(MapActionView::Insert(k)) => single(
            "Map"@,
            single("Insert"@, ValueView::Text(k)),
        ),
        ActionView::Keyed(MapActionView::Update(k)) => single(
            "Map"@,
            single("Update"@, ValueView::Text(k)),
        ),
        ActionView::Keyed(MapActionView::Delete(k)) => single(
            "Map"@,
            single("Delete"@, ValueView::Text(k)),
        ),
    }
}

/// The wire form of what an action carries: the value itself for a leaf,
/// the wire form of the nested patch for a composite; or the path of the
/// entry that cannot be written. A field whose projection failed cannot be
/// written.
pub open spec fn encode_payload(p: PayloadView, at: Seq<char>) -> Result<ValueView, Seq<char>>
    decreases p,
{
    match p {
        PayloadView::Value(f) => if f.lost is Some {
            Err(at)
        } else {
            Ok(f.value)
        },
        PayloadView::Patch(q) => encode_patch(q, at),
    }
}

/// The wire form of the entry at `at`.
pub open spec fn encode_entry(e: EntryView, at: Seq<char>) -> Result<ValueView, Seq<char>>
    decreases e,
{
    match encode_payload(e.payload, at) {
        Ok(payload) => Ok(
            ValueView::List(
                match e.expected {
                    None => seq![encode_action(e.action), payload],
                    Some(x) => seq![encode_action(e.action), ValueView::Int(x as int), payload],
                },
            ),
        ),
        Err(bad) => Err(bad),
    }
}

/// The wire form of the first `n` entries: each under its field name, in
/// order, the `Null` actions left out.
pub open spec fn encode_entries(entries: Seq<EntryView>, n: nat, path: Seq<char>) -> Result<
    Seq<(Seq<char>, ValueView)>,
    Seq<char>,
>
    decreases entries, n,
{
    if n == 0 || n > entries.len() {
        Ok(Seq::empty())
    } else {
        match encode_entries(entries, (n - 1) as nat, path) {
            Ok(rest) => if entries[n - 1].action is Null {
                Ok(rest)
            } else {
                match encode_entry(entries[n - 1], dotted(path, entries[n - 1].key())) {
                    Ok(v) => Ok(rest.push((entries[n - 1].key(), v))),
                    Err(bad) => Err(bad),
                }
            },
            Err(bad) => Err(bad),
        }
    }
}

/// The wire form of an optional string.
pub open spec fn encode_version(v: Option<Seq<char>>) -> ValueView {
    match v {
        Some(s) => ValueView::Text(s),
        None => ValueView::Null,
    }
}

/// The wire form of optional options.
pub open spec fn encode_options(o: Option<bool>) -> ValueView {
    match o {
        Some(b) => single("allow_upsert"@, ValueView::Bool(b)),
        None => ValueView::Null,
    }
}

/// The wire form of the patch at `path`, or the path of the first entry
/// with a list position that cannot be written.
pub open spec fn encode_patch(p: PatchView, path: Seq<char>) -> Result<ValueView, Seq<char>>
    decreases p,
{
    match encode_entries(p.actions, p.actions.len(), path) {
        Ok(actions) => Ok(
            ValueView::Dict(
                seq![
                    ("name"@, ValueView::Text(p.name)),
                    ("version"@, encode_version(p.version)),
                    ("options"@, encode_options(p.options)),
                    ("actions"@, ValueView::Dict(actions)),
                ],
            ),
        ),
        Err(bad) => Err(bad),
    }
}

/// The string `s` as a value.
fn text(s: &str) -> (r: FieldValue)
    ensures
        r@ == ValueView::Text(s@),
{
    FieldValue::Text(String::from_str(s))
}

/// The dictionary with the one entry `key: v`.
fn one(key: &str, v: FieldValue) -> (r: FieldValue)
    ensures
        r@ == single(key@, v@),
{
    let mut entries: Vec<(String, FieldValue)> = Vec::new();
    entries.push((String::from_str(key), v));
    assert(dict_view(entries@) =~= seq![(key@, v@)]);
    FieldValue::Dict(entries)
}

/// A position as a number.
fn index(i: usize) -> (r: FieldValue)
    ensures
        r@ == number(i),
{
    write_fingerprint(i as u64)
}

/// The list of two values.
fn pair(a: FieldValue, b: FieldValue) -> (r: FieldValue)
    ensures
        r@ == ValueView::List(seq![a@, b@]),
{
    let mut items: Vec<FieldValue> = Vec::new();
    items.push(a);
    items.push(b);
    assert(list_view(items@) =~= seq![a@, b@]);
    FieldValue::List(items)
}

/// The list of three values.
fn triple(a: FieldValue, b: FieldValue, c: FieldValue) -> (r: FieldValue)
    ensures
        r@ == ValueView::List(seq![a@, b@, c@]),
{
    let mut items: Vec<FieldValue> = Vec::new();
    items.push(a);
    items.push(b);
    items.push(c);
    assert(list_view(items@) =~= seq![a@, b@, c@]);
    FieldValue::List(items)
}

/// The tag of an action.
fn write_action(a: &Action) -> (r: FieldValue)
    ensures
        r@ == encode_action(a@),
{
    match a {
        Action::Null => text("Null"),
        Action::Reset => text("Reset"),
        Action::Clear => text("Clear"),
        Action::Replace => text("Set"),
        Action::List(step) => match step {
            ListAction::Swap(i, j) => one("List", one("Swap", pair(index(*i), index(*j)))),
            ListAction::Remove(i) => one("List", one("Remove", index(*i))),
            ListAction::Insert(i) => one("List", one("Insert", index(*i))),
            ListAction::Append() => {
                let none = FieldValue::List(Vec::new());
                assert(none@ =~= ValueView::List(Seq::empty())) by {
                    assert(list_view(Seq::<FieldValue>::empty()) =~= Seq::<ValueView>::empty());
                }
                one("List", one("Append", none))
            },
        },
        Action::Keyed(step) => match step {
            MapAction::Insert(k) => one("Map", one("Insert", FieldValue::Text(k.clone()))),
            MapAction::Update(k) => one("Map", one("Update", FieldValue::Text(k.clone()))),
            MapAction::Delete(k) => one("Map", one("Delete", FieldValue::Text(k.clone()))),
        },
    }
}

/// An unsigned number as a value: as an `Int` where it fits one.
fn write_fingerprint(x: u64) -> (r: FieldValue)
    ensures
        r@ == ValueView::Int(x as int),
{
    if x <= 0x7fff_ffff_ffff_ffff {
        FieldValue::Int(x as i64)
    } else {
        FieldValue::Unsigned(x)
    }
}

/// Writes one entry.
fn write_entry(e: &PatchAction, at: &str) -> (r: Result<FieldValue, Failure>)
    ensures
        match encode_entry(e@, at@) {
            Ok(v) => r matches Ok(x) && x@ == v,
            Err(bad) => r matches Err(f) && f.kind is SerializationError && f.field@ == bad,
        },
    decreases e@,
{
    let tag = write_action(e.action());
    let payload = match e.payload() {
        PatchValue::Value(f) => match &f.lost {
            Some(why) => {
                return Err(
                    Failure {
                        kind: ProteanError::SerializationError(why.clone()),
                        field: String::from_str(at),
                    },
                );
            },
            None => f.value.copy(),
        },
        PatchValue::Patch(q) => match encode_at(q, at) {
            Ok(v) => v,
            Err(f) => {
                return Err(f);
            },
        },
    };
    match e.expected() {
        None => Ok(pair(tag, payload)),
        Some(x) => Ok(triple(tag, write_fingerprint(x), payload)),
    }
}

/// Writes the patch that stands at `path`.
fn encode_at(patch: &Patch, path: &str) -> (r: Result<FieldValue, Failure>)
    ensures
        match encode_patch(patch@, path@) {
            Ok(v) => r matches Ok(x) && x@ == v,
            Err(bad) => r matches Err(f) && f.kind is SerializationError && f.field@ == bad,
        },
    decreases patch@,
{
    let mut actions: Vec<(String, FieldValue)> = Vec::new();
    let mut n: usize = 0;
    assert(dict_view(actions@) =~= Seq::<(Seq<char>, ValueView)>::empty());
    while n < patch.len()
        invariant
            n <= patch@.actions.len(),
            encode_entries(patch@.actions, n as nat, path@) == Ok::<
                Seq<(Seq<char>, ValueView)>,
                Seq<char>,
            >(dict_view(actions@)),
        decreases patch@.actions.len() - n,
    {
        let ghost before = dict_view(actions@);
        let e = patch.entry(n);
        assert(decreases_to!(patch@ => e@));
        let skip = match e.action() {
            Action::Null => true,
            _ => false,
        };
        if !skip {
            let key = e.get_name();
            let at = join_path(path, key.as_str());
            match write_entry(e, at.as_str()) {
                Ok(v) => {
                    actions.push((key, v));
                    assert(dict_view(actions@) =~= before.push((e@.key(), v@)));
                },
                Err(f) => {
                    proof {
                        lemma_unwritable_stays(
                            patch@.actions,
                            (n + 1) as nat,
                            patch@.actions.len(),
                            path@,
                        );
                    }
                    return Err(f);
                },
            }
        }
        n += 1;
    }
    let version = match patch.get_version() {
        Some(v) => FieldValue::Text(v),
        None => FieldValue::Null,
    };
    let options = match patch.get_options() {
        Some(o) => one("allow_upsert", FieldValue::Bool(o.allow_upsert())),
        None => FieldValue::Null,
    };
    let mut entries: Vec<(String, FieldValue)> = Vec::new();
    entries.push((String::from_str("name"), FieldValue::Text(patch.get_name())));
    entries.push((String::from_str("version"), version));
    entries.push((String::from_str("options"), options));
    entries.push((String::from_str("actions"), FieldValue::Dict(actions)));
    assert(dict_view(entries@) =~= seq![
        ("name"@, ValueView::Text(patch@.name)),
        ("version"@, encode_version(patch@.version)),
        ("options"@, encode_options(patch@.options)),
        ("actions"@, ValueView::Dict(dict_view(actions@))),
    ]);
    Ok(FieldValue::Dict(entries))
}

/// Writes a patch in its wire form.
///
/// Fails with `SerializationError` where an action that is written, here
/// or in a nested patch, carries a field whose projection failed; the
/// failure names the entry.
pub fn encode(patch: &Patch) -> (r: Result<FieldValue, Failure>)
    ensures
        match encode_patch(patch@, Seq::empty()) {
            Ok(v) => r matches Ok(x) && x@ == v,
            Err(bad) => r matches Err(f) && f.kind is SerializationError && f.field@ == bad,
        },
{
    proof {
        reveal_strlit("");
        assert(""@ =~= Seq::<char>::empty());
    }
    encode_at(patch, "")
}

/// An entry that cannot be written among the first `n` is the result for
/// every longer prefix.
pub proof fn lemma_unwritable_stays(entries: Seq<EntryView>, n: nat, m: nat, path: Seq<char>)
    requires
        n <= m <= entries.len(),
        encode_entries(entries, n, path) is Err,
    ensures
        encode_entries(entries, m, path) == encode_entries(entries, n, path),
    decreases m,
{
    if n < m {
        lemma_unwritable_stays(entries, n, (m - 1) as nat, path);
    }
}

/// The position that a number stands for, where it is one.
pub open spec fn decode_index(v: ValueView) -> Option<usize> {
    match v {
        ValueView::Int(i) => if 0 <= i <= usize::MAX {
            Some(i as usize)
        } else {
            None
        },
        _ => None,
    }
}

/// The list step that `{ kind: arguments }` stands for.
pub open spec fn decode_list_step(v: ValueView) -> Option<ListAction> {
    match v {
        ValueView::Dict(es) => if es.len() != 1 {
            None
        } else if es[0].0 == "Swap"@ {
            match es[0].1 {
                ValueView::List(xs) => if xs.len() == 2 {
                    match (decode_index(xs[0]), decode_index(xs[1])) {
                        (Some(i), Some(j)) => Some(ListAction::Swap(i, j)),
                        _ => None,
                    }
                } else {
                    None
                },
                _ => None,
            }
        } else if es[0].0 == "Remove"@ {
            match decode_index(es[0].1) {
                Some(i) => Some(ListAction::Remove(i)),
                None => None,
            }
        } else if es[0].0 == "Insert"@ {
            match decode_index(es[0].1) {
                Some(i) => Some(ListAction::Insert(i)),
                None => None,
            }
        } else if es[0].0 == "Append"@ {
            match es[0].1 {
                ValueView::List(xs) => if xs.len() == 0 {
                    Some(ListAction::Append())
                } else {
                    None
                },
                _ => None,
            }
        } else {
            None
        },
        _ => None,
    }
}

/// The dictionary step that `{ kind: key }` stands for.
pub open spec fn decode_map_step(v: ValueView) -> Option<MapActionView> {
    match v {
        ValueView::Dict(es) => if es.len() != 1 {
            None
        } else {
            match es[0].1 {
                ValueView::Text(k) => if es[0].0 == "Insert"@ {
                    Some(MapActionView::Insert(k))
                } else if es[0].0 == "Update"@ {
                    Some(MapActionView::Update(k))
                } else if es[0].0 == "Delete"@ {
                    Some(MapActionView::Delete(k))
                } else {
                    None
                },
                _ => None,
            }
        },
        _ => None,
    }
}

/// The action that a tag stands for. There is no tag for `Null`.
pub open spec fn decode_action(v: ValueView) -> Option<ActionView> {
    match v {
        ValueView::Text(s) => if s == "Reset"@ {
            Some(ActionView::Reset)
        } else if s == "Clear"@ {
            Some(ActionView::Clear)
        } else if s == "Set"@ {
            Some(ActionView::Replace)
        } else {
            None
        },
        ValueView::Dict(es) => if es.len() != 1 {
            None
        } else if es[0].0 == "List"@ {
            match decode_list_step(es[0].1) {
                Some(step) => Some(ActionView::List(step)),
                None => None,
            }
        } else if es[0].0 == "Map"@ {
            match decode_map_step(es[0].1) {
                Some(step) => Some(ActionView::Keyed(step)),
                None => None,
            }
        } else {
            None
        },
        _ => None,
    }
}

/// Whether a value has the shape of a patch: a dictionary of four entries
/// that has the keys `name`, `version`, `options` and `actions`.
pub open spec fn patch_shaped(v: ValueView) -> bool {
    v matches ValueView::Dict(es) && es.len() == 4 && lookup(es, "name"@) is Some && lookup(
        es,
        "version"@,
    ) is Some && lookup(es, "options"@) is Some && lookup(es, "actions"@) is Some
}

/// What the last part of an entry stands for under the field `key` at
/// `at`, or the path of what is malformed.
///
/// A value that has the shape of a patch is read as the nested patch, which
/// must carry the name of its field; any other value is the leaf value
/// itself. So a leaf value of that shape cannot be sent as it is.
pub open spec fn decode_payload(key: Seq<char>, v: ValueView, at: Seq<char>) -> Result<
    PayloadView,
    Seq<char>,
>
    decreases v, 1nat,
{
    if patch_shaped(v) {
        match decode_patch(v, at) {
            Ok(p) => if p.name == key {
                Ok(PayloadView::Patch(p))
            } else {
                Err(at)
            },
            Err(bad) => Err(bad),
        }
    } else {
        Ok(PayloadView::Value(FieldView { name: key, value: v, lost: None }))
    }
}

/// The expected fingerprint that a number stands for.
pub open spec fn decode_expected(v: ValueView) -> Option<u64> {
    match v {
        ValueView::Int(i) => if 0 <= i <= u64::MAX {
            Some(i as u64)
        } else {
            None
        },
        _ => None,
    }
}

/// The entry that `[tag, payload]` or `[tag, expected, payload]` stands for
/// under the field `key` at `at`, or the path of what is malformed: `at`
/// for the entry itself, a longer path for something in its nested patch.
pub open spec fn decode_entry(key: Seq<char>, v: ValueView, at: Seq<char>) -> Result<
    EntryView,
    Seq<char>,
>
    decreases v, 0nat,
{
    match v {
        ValueView::List(xs) => if xs.len() == 2 {
            match decode_action(xs[0]) {
                Some(action) => match decode_payload(key, xs[1], at) {
                    Ok(payload) => Ok(EntryView { action, payload, expected: None }),
                    Err(bad) => Err(bad),
                },
                None => Err(at),
            }
        } else if xs.len() == 3 {
            match (decode_action(xs[0]), decode_expected(xs[1])) {
                (Some(action), Some(x)) => match decode_payload(key, xs[2], at) {
                    Ok(payload) => Ok(EntryView { action, payload, expected: Some(x) }),
                    Err(bad) => Err(bad),
                },
                _ => Err(at),
            }
        } else {
            Err(at)
        },
        _ => Err(at),
    }
}

/// The entries that the first `n` entries of the `actions` dictionary of
/// the patch at `path` stand for, or the path of the first that is
/// malformed. A field name that comes twice is malformed.
pub open spec fn decode_entries(es: Seq<(Seq<char>, ValueView)>, n: nat, path: Seq<char>) -> Result<
    Seq<EntryView>,
    Seq<char>,
>
    decreases es, n,
{
    if n == 0 || n > es.len() {
        Ok(Seq::empty())
    } else {
        match decode_entries(es, (n - 1) as nat, path) {
            Ok(rest) => if position(keys_of(rest), es[n - 1].0) is Some {
                Err(dotted(path, es[n - 1].0))
            } else {
                match decode_entry(es[n - 1].0, es[n - 1].1, dotted(path, es[n - 1].0)) {
                    Ok(e) => Ok(rest.push(e)),
                    Err(bad) => Err(bad),
                }
            },
            Err(bad) => Err(bad),
        }
    }
}

/// The optional string that a text or `null` stands for.
pub open spec fn decode_version(v: ValueView) -> Option<Option<Seq<char>>> {
    match v {
        ValueView::Null => Some(None),
        ValueView::Text(s) => Some(Some(s)),
        _ => None,
    }
}

/// The optional options that `{ allow_upsert: .. }` or `null` stands for.
pub open spec fn decode_options(v: ValueView) -> Option<Option<bool>> {
    match v {
        ValueView::Null => Some(None),
        ValueView::Dict(es) => if es.len() == 1 && es[0].0 == "allow_upsert"@ {
            match es[0].1 {
                ValueView::Bool(b) => Some(Some(b)),
                _ => None,
            }
        } else {
            None
        },
        _ => None,
    }
}

/// The value under `key` in a dictionary with its position, where the key
/// occurs.
pub open spec fn lookup(es: Seq<(Seq<char>, ValueView)>, key: Seq<char>) -> Option<int> {
    match position(dict_keys(es), key) {
        Some(i) => if 0 <= i < es.len() {
            Some(i)
        } else {
            None
        },
        None => None,
    }
}

/// The patch at `path` that a wire form stands for, or the path of what is
/// malformed: `path` where the value is not a dictionary of `name`,
/// `version`, `options` and `actions` (in any order, each of the right
/// shape), the path of an entry otherwise.
pub open spec fn decode_patch(v: ValueView, path: Seq<char>) -> Result<PatchView, Seq<char>>
    decreases v, 0nat,
{
    match v {
        ValueView::Dict(es) => if es.len() != 4 {
            Err(path)
        } else {
            match (
                lookup(es, "name"@),
                lookup(es, "version"@),
                lookup(es, "options"@),
                lookup(es, "actions"@),
            ) {
                (Some(n), Some(v), Some(o), Some(a)) => match (
                    es[n].1,
                    decode_version(es[v].1),
                    decode_options(es[o].1),
                    es[a].1,
                ) {
                    (
                        ValueView::Text(name),
                        Some(version),
                        Some(options),
                        ValueView::Dict(acts),
                    ) => match decode_entries(acts, acts.len(), path) {
                        Ok(actions) => Ok(PatchView { name, version, options, actions }),
                        Err(bad) => Err(bad),
                    },
                    _ => Err(path),
                },
                _ => Err(path),
            }
        },
        _ => Err(path),
    }
}

/// The failure for something malformed at `field`.
fn malformed(field: &str, detail: &str) -> (r: Failure)
    ensures
        r.kind is SerializationError,
        r.field@ == field@,
{
    Failure {
        kind: ProteanError::SerializationError(String::from_str(detail)),
        field: String::from_str(field),
    }
}

/// Reads a position.
fn read_index(v: &FieldValue) -> (r: Option<usize>)
    ensures
        r == decode_index(v@),
{
    match v {
        FieldValue::Int(i) => {
            if *i >= 0 {
                let wide: u64 = *i as u64;
                if wide <= usize::MAX as u64 {
                    Some(wide as usize)
                } else {
                    None
                }
            } else {
                None
            }
        },
        FieldValue::Unsigned(u) => {
            if *u <= usize::MAX as u64 {
                Some(*u as usize)
            } else {
                None
            }
        },
        _ => None,
    }
}

/// Reads a list step.
fn read_list_step(v: &FieldValue) -> (r: Option<ListAction>)
    ensures
        r == decode_list_step(v@),
{
    match v {
        FieldValue::Dict(es) => {
            assert(v@ == ValueView::Dict(dict_view(es@)));
            assert(dict_view(es@).len() == es@.len());
            if es.len() != 1 {
                return None;
            }
            let kind = es[0].0.as_str();
            let arg = &es[0].1;
            assert(dict_view(es@)[0] == (kind@, arg@));
            if same_str(kind, "Swap") {
                match arg {
                    FieldValue::List(xs) => {
                        if xs.len() == 2 {
                            assert(list_view(xs@)[0] == xs@[0]@);
                            assert(list_view(xs@)[1] == xs@[1]@);
                            match read_index(&xs[0]) {
                                Some(i) => match read_index(&xs[1]) {
                                    Some(j) => Some(ListAction::Swap(i, j)),
                                    None => None,
                                },
                                None => None,
                            }
                        } else {
                            None
                        }
                    },
                    _ => None,
                }
            } else if same_str(kind, "Remove") {
                match read_index(arg) {
                    Some(i) => Some(ListAction::Remove(i)),
                    None => None,
                }
            } else if same_str(kind, "Insert") {
                match read_index(arg) {
                    Some(i) => Some(ListAction::Insert(i)),
                    None => None,
                }
            } else if same_str(kind, "Append") {
                match arg {
                    FieldValue::List(xs) => {
                        if xs.len() == 0 {
                            Some(ListAction::Append())
                        } else {
                            None
                        }
                    },
                    _ => None,
                }
            } else {
                None
            }
        },
        _ => None,
    }
}

/// The view of an optional dictionary step.
pub open spec fn map_step_option_view(s: Option<MapAction>) -> Option<MapActionView> {
    match s {
        Some(x) => Some(x@),
        None => None,
    }
}

/// The view of an optional action.
pub open spec fn action_option_view(a: Option<Action>) -> Option<ActionView> {
    match a {
        Some(x) => Some(x@),
        None => None,
    }
}

/// Reads a dictionary step.
fn read_map_step(v: &FieldValue) -> (r: Option<MapAction>)
    ensures
        map_step_option_view(r) == decode_map_step(v@),
{
    match v {
        FieldValue::Dict(es) => {
            assert(v@ == ValueView::Dict(dict_view(es@)));
            assert(dict_view(es@).len() == es@.len());
            if es.len() != 1 {
                return None;
            }
            let kind = es[0].0.as_str();
            let arg = &es[0].1;
            assert(dict_view(es@)[0] == (kind@, arg@));
            match arg {
                FieldValue::Text(k) => {
                    if same_str(kind, "Insert") {
                        Some(MapAction::Insert(k.clone()))
                    } else if same_str(kind, "Update") {
                        Some(MapAction::Update(k.clone()))
                    } else if same_str(kind, "Delete") {
                        Some(MapAction::Delete(k.clone()))
                    } else {
                        None
                    }
                },
                _ => None,
            }
        },
        _ => None,
    }
}

/// Reads the tag of an action.
fn read_action(v: &FieldValue) -> (r: Option<Action>)
    ensures
        action_option_view(r) == decode_action(v@),
{
    match v {
        FieldValue::Text(s) => {
            if same_str(s.as_str(), "Reset") {
                Some(Action::Reset)
            } else if same_str(s.as_str(), "Clear") {
                Some(Action::Clear)
            } else if same_str(s.as_str(), "Set") {
                Some(Action::Replace)
            } else {
                None
            }
        },
        FieldValue::Dict(es) => {
            assert(v@ == ValueView::Dict(dict_view(es@)));
            assert(dict_view(es@).len() == es@.len());
            if es.len() != 1 {
                return None;
            }
            let kind = es[0].0.as_str();
            let arg = &es[0].1;
            assert(dict_view(es@)[0] == (kind@, arg@));
            if same_str(kind, "List") {
                match read_list_step(arg) {
                    Some(step) => Some(Action::List(step)),
                    None => None,
                }
            } else if same_str(kind, "Map") {
                match read_map_step(arg) {
                    Some(step) => Some(Action::Keyed(step)),
                    None => None,
                }
            } else {
                None
            }
        },
        _ => None,
    }
}

/// Reads an expected fingerprint.
fn read_expected(v: &FieldValue) -> (r: Option<u64>)
    ensures
        r == decode_expected(v@),
{
    match v {
        FieldValue::Int(i) => {
            if *i >= 0 {
                Some(*i as u64)
            } else {
                None
            }
        },
        FieldValue::Unsigned(u) => Some(*u),
        _ => None,
    }
}

/// Whether a value has the shape of a patch.
fn shaped_like_patch(v: &FieldValue) -> (r: bool)
    ensures
        r == patch_shaped(v@),
{
    match v {
        FieldValue::Dict(es) => {
            assert(v@ == ValueView::Dict(dict_view(es@)));
            assert(dict_view(es@).len() == es@.len());
            proof {
                lemma_position(dict_keys(dict_view(es@)), "name"@);
                lemma_position(dict_keys(dict_view(es@)), "version"@);
                lemma_position(dict_keys(dict_view(es@)), "options"@);
                lemma_position(dict_keys(dict_view(es@)), "actions"@);
            }
            es.len() == 4 && dict_find(es, "name").is_some() && dict_find(es, "version").is_some()
                && dict_find(es, "options").is_some() && dict_find(es, "actions").is_some()
        },
        _ => false,
    }
}

/// Reads what an action carries.
fn read_payload(key: &str, v: &FieldValue, at: &str) -> (r: Result<PatchValue, Failure>)
    ensures
        match decode_payload(key@, v@, at@) {
            Ok(p) => r matches Ok(x) && x@ == p && (p matches PayloadView::Patch(q) ==> q.wf()),
            Err(bad) => r matches Err(f) && f.kind is SerializationError && f.field@ == bad,
        },
    decreases v@, 3nat,
{
    if shaped_like_patch(v) {
        match decode_at(v, at) {
            Ok(p) => {
                if same_str(p.get_name().as_str(), key) {
                    Ok(PatchValue::Patch(p))
                } else {
                    Err(malformed(at, "a nested patch carries the name of its field"))
                }
            },
            Err(f) => Err(f),
        }
    } else {
        Ok(PatchValue::Value(Field::new(String::from_str(key), v.copy())))
    }
}

/// Reads one entry.
fn read_entry(key: &str, v: &FieldValue, at: &str) -> (r: Result<PatchAction, Failure>)
    ensures
        match decode_entry(key@, v@, at@) {
            Ok(e) => r matches Ok(x) && x@ == e && e.key() == key@ && (e.payload matches PayloadView::Patch(
                q,
            ) ==> q.wf()),
            Err(bad) => r matches Err(f) && f.kind is SerializationError && f.field@ == bad,
        },
    decreases v@, 1nat,
{
    match v {
        FieldValue::List(xs) => {
            if xs.len() == 2 {
                assert(list_view(xs@)[0] == xs@[0]@);
                assert(list_view(xs@)[1] == xs@[1]@);
                assert(decreases_to!(v@ => xs@[1]@)) by {
                    assert(decreases_to!(list_view(xs@) => list_view(xs@)[1]));
                }
                let action = match read_action(&xs[0]) {
                    Some(a) => a,
                    None => {
                        return Err(malformed(at, "the tag of an action is not known"));
                    },
                };
                match read_payload(key, &xs[1], at) {
                    Ok(payload) => Ok(entry_of(action, payload, None)),
                    Err(f) => Err(f),
                }
            } else if xs.len() == 3 {
                assert(list_view(xs@)[0] == xs@[0]@);
                assert(list_view(xs@)[1] == xs@[1]@);
                assert(list_view(xs@)[2] == xs@[2]@);
                assert(decreases_to!(v@ => xs@[2]@)) by {
                    assert(decreases_to!(list_view(xs@) => list_view(xs@)[2]));
                }
                let action = match read_action(&xs[0]) {
                    Some(a) => a,
                    None => {
                        return Err(malformed(at, "the tag of an action is not known"));
                    },
                };
                let expected = match read_expected(&xs[1]) {
                    Some(x) => x,
                    None => {
                        return Err(malformed(at, "an expected fingerprint is a number"));
                    },
                };
                match read_payload(key, &xs[2], at) {
                    Ok(payload) => Ok(entry_of(action, payload, Some(expected))),
                    Err(f) => Err(f),
                }
            } else {
                Err(malformed(at, "an action has two or three parts"))
            }
        },
        _ => Err(malformed(at, "an action is a list")),
    }
}

/// The entry of an action, a payload and an expectation.
fn entry_of(action: Action, payload: PatchValue, expected: Option<u64>) -> (r: PatchAction)
    ensures
        r@ == (EntryView { action: action@, payload: payload@, expected }),
{
    match payload {
        PatchValue::Value(f) => PatchAction::new(action, f, expected),
        PatchValue::Patch(p) => PatchAction::nested(action, p, expected),
    }
}

/// Reads an optional version.
fn read_version(v: &FieldValue) -> (r: Option<Option<String>>)
    ensures
        match decode_version(v@) {
            Some(x) => r matches Some(y) && crate::patch::text_option_view(y) == x,
            None => r is None,
        },
{
    match v {
        FieldValue::Null => Some(None),
        FieldValue::Text(s) => Some(Some(s.clone())),
        _ => None,
    }
}

/// Reads optional options.
fn read_options(v: &FieldValue) -> (r: Option<Option<PatchOptions>>)
    ensures
        match decode_options(v@) {
            Some(x) => r matches Some(y) && crate::patch::options_view(y) == x,
            None => r is None,
        },
{
    match v {
        FieldValue::Null => Some(None),
        FieldValue::Dict(es) => {
            assert(v@ == ValueView::Dict(dict_view(es@)));
            assert(dict_view(es@).len() == es@.len());
            if es.len() != 1 {
                return None;
            }
            let kind = es[0].0.as_str();
            let arg = &es[0].1;
            assert(dict_view(es@)[0] == (kind@, arg@));
            if same_str(kind, "allow_upsert") {
                match arg {
                    FieldValue::Bool(b) => Some(Some(PatchOptions::new(*b))),
                    _ => None,
                }
            } else {
                None
            }
        },
        _ => None,
    }
}

/// Reads the patch that stands at `path`.
fn decode_at(v: &FieldValue, path: &str) -> (r: Result<Patch, Failure>)
    ensures
        match decode_patch(v@, path@) {
            Ok(p) => r matches Ok(x) && x@ == p && p.wf(),
            Err(bad) => r matches Err(f) && f.kind is SerializationError && f.field@ == bad,
        },
    decreases v@, 2nat,
{
    let es = match v {
        FieldValue::Dict(es) => es,
        _ => {
            return Err(malformed(path, "a patch is a dictionary"));
        },
    };
    assert(v@ == ValueView::Dict(dict_view(es@)));
    assert(dict_view(es@).len() == es@.len());
    if es.len() != 4 {
        return Err(malformed(path, "a patch has name, version, options and actions"));
    }
    let ghost entries = dict_view(es@);
    let n = match dict_find(es, "name") {
        Some(i) => i,
        None => {
            return Err(malformed(path, "a patch has a name"));
        },
    };
    let w = match dict_find(es, "version") {
        Some(i) => i,
        None => {
            return Err(malformed(path, "a patch has a version"));
        },
    };
    let o = match dict_find(es, "options") {
        Some(i) => i,
        None => {
            return Err(malformed(path, "a patch has options"));
        },
    };
    let a = match dict_find(es, "actions") {
        Some(i) => i,
        None => {
            return Err(malformed(path, "a patch has actions"));
        },
    };
    proof {
        lemma_position(dict_keys(entries), "name"@);
        lemma_position(dict_keys(entries), "version"@);
        lemma_position(dict_keys(entries), "options"@);
        lemma_position(dict_keys(entries), "actions"@);
    }
    assert(entries[n as int].1 == es@[n as int].1@);
    assert(entries[w as int].1 == es@[w as int].1@);
    assert(entries[o as int].1 == es@[o as int].1@);
    assert(entries[a as int].1 == es@[a as int].1@);
    let name = match &es[n].1 {
        FieldValue::Text(s) => s.clone(),
        _ => {
            return Err(malformed(path, "the name of a patch is a string"));
        },
    };
    let version = match read_version(&es[w].1) {
        Some(x) => x,
        None => {
            return Err(malformed(path, "the version of a patch is a string or null"));
        },
    };
    let options = match read_options(&es[o].1) {
        Some(x) => x,
        None => {
            return Err(malformed(path, "the options of a patch hold allow_upsert"));
        },
    };
    let acts = match &es[a].1 {
        FieldValue::Dict(acts) => acts,
        _ => {
            return Err(malformed(path, "the actions of a patch are a dictionary"));
        },
    };
    let ghost items = dict_view(acts@);
    assert(decreases_to!(v@ => items)) by {
        assert(decreases_to!(entries => entries[a as int]));
        assert(entries[a as int].1 == ValueView::Dict(items));
    }
    let mut patch = Patch::new(name);
    patch.set_version(version);
    patch.set_options(options);
    read_entries(acts, patch, path)
}

/// Reads the entries of a patch into `shell`.
fn read_entries(acts: &Vec<(String, FieldValue)>, shell: Patch, path: &str) -> (r: Result<
    Patch,
    Failure,
>)
    requires
        shell@.actions.len() == 0,
    ensures
        match decode_entries(dict_view(acts@), acts@.len() as nat, path@) {
            Ok(actions) => r matches Ok(x) && x@ == (PatchView { actions, ..shell@ }) && x@.wf(),
            Err(bad) => r matches Err(f) && f.kind is SerializationError && f.field@ == bad,
        },
    decreases dict_view(acts@), 3nat,
{
    let ghost items = dict_view(acts@);
    let mut patch = shell;
    assert(patch@.actions =~= Seq::<EntryView>::empty());
    assert(patch@.wf());
    let mut k: usize = 0;
    while k < acts.len()
        invariant
            k <= acts@.len(),
            items == dict_view(acts@),
            patch@.wf(),
            patch@ == (PatchView { actions: patch@.actions, ..shell@ }),
            decode_entries(items, k as nat, path@) == Ok::<Seq<EntryView>, Seq<char>>(patch@.actions),
        decreases acts@.len() - k,
    {
        let ghost before = patch@;
        let key = acts[k].0.as_str();
        let item = &acts[k].1;
        assert(items[k as int] == (key@, item@));
        assert(decreases_to!(items => item@)) by {
            assert(decreases_to!(items => items[k as int]));
        }
        let at = join_path(path, key);
        assert(decode_entries(items, (k + 1) as nat, path@) == if position(
            keys_of(before.actions),
            key@,
        ) is Some {
            Err::<Seq<EntryView>, Seq<char>>(at@)
        } else {
            match decode_entry(key@, item@, at@) {
                Ok(e) => Ok(before.actions.push(e)),
                Err(bad) => Err(bad),
            }
        });
        let step = if patch.find(key).is_some() {
            Err(malformed(at.as_str(), "a field has two actions"))
        } else {
            read_entry(key, item, at.as_str())
        };
        match step {
            Ok(e) => {
                let added = patch.add_entry(e);
                assert(added is Ok);
            },
            Err(f) => {
                proof {
                    lemma_undecodable_stays(items, (k + 1) as nat, items.len(), path@);
                }
                return Err(f);
            },
        }
        k += 1;
    }
    Ok(patch)
}

/// An entry that cannot be read among the first `n` is the result for
/// every longer prefix.
pub proof fn lemma_undecodable_stays(
    es: Seq<(Seq<char>, ValueView)>,
    n: nat,
    m: nat,
    path: Seq<char>,
)
    requires
        n <= m <= es.len(),
        decode_entries(es, n, path) is Err,
    ensures
        decode_entries(es, m, path) == decode_entries(es, n, path),
    decreases m,
{
    if n < m {
        lemma_undecodable_stays(es, n, (m - 1) as nat, path);
    }
}

/// Reads a patch from its wire form.
///
/// Fails with `SerializationError` where the value is not the wire form of
/// a patch; the failure names what is malformed.
pub fn decode(v: &FieldValue) -> (r: Result<Patch, Failure>)
    ensures
        match decode_patch(v@, Seq::empty()) {
            Ok(p) => r matches Ok(x) && x@ == p && p.wf(),
            Err(bad) => r matches Err(f) && f.kind is SerializationError && f.field@ == bad,
        },
{
    proof {
        reveal_strlit("");
        assert(""@ =~= Seq::<char>::empty());
    }
    decode_at(v, "")
}

/// An entry with the `Null` actions taken out of its nested patch.
pub open spec fn without_null_entry(e: EntryView) -> EntryView
    decreases e,
{
    EntryView {
        payload: match e.payload {
            PayloadView::Value(f) => PayloadView::Value(f),
            PayloadView::Patch(q) => PayloadView::Patch(without_null(q)),
        },
        ..e
    }
}

/// The first `n` entries without the `Null` actions, here and below.
pub open spec fn without_null_entries(entries: Seq<EntryView>, n: nat) -> Seq<EntryView>
    decreases entries, n,
{
    if n == 0 || n > entries.len() {
        Seq::empty()
    } else {
        let rest = without_null_entries(entries, (n - 1) as nat);
        if entries[n - 1].action is Null {
            rest
        } else {
            rest.push(without_null_entry(entries[n - 1]))
        }
    }
}

/// The patch without its `Null` actions, here and in every nested patch:
/// what of a patch goes over the wire.
pub open spec fn without_null(p: PatchView) -> PatchView
    decreases p,
{
    PatchView { actions: without_null_entries(p.actions, p.actions.len()), ..p }
}

/// Whether an entry is written so that it can be read back: its action is
/// `Null` and it is not written at all, or its leaf value does not have the
/// shape of a patch, or its nested patch is written so.
pub open spec fn plain_entry(e: EntryView) -> bool
    decreases e,
{
    e.action is Null || match e.payload {
        PayloadView::Value(f) => !patch_shaped(f.value),
        PayloadView::Patch(q) => plain(q),
    }
}

/// Whether no leaf value that the patch sends has the shape of a patch,
/// here and in every nested patch.
pub open spec fn plain(p: PatchView) -> bool
    decreases p,
{
    forall|i: int| 0 <= i < p.actions.len() ==> plain_entry(#[trigger] p.actions[i])
}

} // verus!

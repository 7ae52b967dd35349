//! Computing the patch that turns one record into another.

use crate::action::{Action, ActionView, ListAction, MapAction};
use crate::apply::{entry_option_view, replay, replay_steps};
use crate::error::{dotted, join_path, Failure, Fault, ProteanError};
use crate::patch::{
    keys_of, EntryView, Field, FieldView, Patch, PatchAction, PatchView, PayloadView,
};
use crate::record::{names_of, Content, ContentView, Record, RecordView, SlotView};
use crate::script::{
    decimal, dict_additions, dict_changes, dict_script, digit, from_end, lcs,
    lemma_decimal_injective, lemma_trim_symmetric, list_script, list_script_fits, middle,
    prefix_len, script_entry, script_run, suffix_len, swap_fits,
};
use crate::step::dict_find;
use crate::text::{distinct, lemma_position, lemma_position_absent, same_text};
use crate::value::{dict_view, fingerprint, list_view, FieldValue, ValueView};
use vstd::string::StringExecFns;
use vstd::prelude::*;

verus! {

/// The entry that replaces the field `name` by `value`.
pub open spec fn replacement(name: Seq<char>, value: ValueView, expected: Option<u64>) -> EntryView {
    EntryView {
        action: ActionView::Replace,
        payload: PayloadView::Value(FieldView { name, value, lost: None }),
        expected,
    }
}

/// The entry that replays `actions` on what the field `name` holds.
pub open spec fn descent(name: Seq<char>, actions: Seq<EntryView>, expected: Option<u64>) -> EntryView {
    EntryView {
        action: ActionView::Replace,
        payload: PayloadView::Patch(
            PatchView { name, version: None, options: Some(true), actions },
        ),
        expected,
    }
}

/// Whether the script `steps` can stand for the change from `a` to `b`: no
/// two steps share a key, and replayed on `a` they give `b`.
pub open spec fn script_fits(a: ValueView, b: ValueView, steps: Seq<EntryView>) -> bool {
    &&& distinct(keys_of(steps))
    &&& replay(a, steps, steps.len(), true, Seq::empty()) == Ok::<ValueView, Fault>(b)
}

/// The entry for a field whose value changes from `a` to `b`, or `None`
/// where it does not change.
///
/// A changed value is replaced as a whole, and the entry expects the
/// fingerprint of `a`. Two lists are told apart by an edit script where that
/// fits (see [`list_script_fits`]): above all, where it takes no more steps
/// than `b` has items. Two dictionaries are told apart by a script of keyed
/// steps where those steps reproduce `b`, order included.
pub open spec fn diff_value(name: Seq<char>, a: ValueView, b: ValueView) -> Option<EntryView> {
    if a == b {
        None
    } else {
        let expected = Some(fingerprint(a));
        match (a, b) {
            (ValueView::List(x), ValueView::List(y)) => if list_script_fits(x, y) {
                Some(descent(name, list_script(x, y), expected))
            } else {
                Some(replacement(name, b, expected))
            },
            (ValueView::Dict(x), ValueView::Dict(y)) => if script_fits(a, b, dict_script(x, y)) {
                Some(descent(name, dict_script(x, y), expected))
            } else {
                Some(replacement(name, b, expected))
            },
            _ => Some(replacement(name, b, expected)),
        }
    }
}

/// The entry for a field whose content changes from `a` to `b`, `None`
/// where it does not change, or the refusal of two contents that are not of
/// one type.
pub open spec fn diff_content(name: Seq<char>, a: ContentView, b: ContentView, at: Seq<char>) -> Result<
    Option<EntryView>,
    Fault,
>
    decreases a, 1nat,
{
    match (a, b) {
        (ContentView::Value(x), ContentView::Value(y)) => if x.accepts(y) {
            Ok(diff_value(name, x, y))
        } else {
            Err(Fault { kind: ProteanError::ConversionError, field: at })
        },
        (ContentView::Object(r), ContentView::Object(q)) => match diff_record(r, q, at) {
            Ok(actions) => if actions.len() == 0 {
                Ok(None)
            } else {
                Ok(Some(descent(name, actions, None)))
            },
            Err(f) => Err(f),
        },
        _ => Err(Fault { kind: ProteanError::ConversionError, field: at }),
    }
}

/// The entries for the first `n` fields, in the order of the fields: one
/// for each field that changes.
pub open spec fn diff_fields(a: Seq<SlotView>, b: Seq<SlotView>, n: nat, path: Seq<char>) -> Result<
    Seq<EntryView>,
    Fault,
>
    decreases a, n,
{
    if n == 0 || n > a.len() || n > b.len() {
        Ok(Seq::empty())
    } else {
        match diff_fields(a, b, (n - 1) as nat, path) {
            Ok(entries) => {
                let name = a[n - 1].name;
                let at = dotted(path, name);
                if b[n - 1].name != name || b[n - 1].initial != a[n - 1].initial {
                    Err(Fault { kind: ProteanError::InvalidPatchType, field: at })
                } else {
                    match diff_content(name, a[n - 1].content, b[n - 1].content, at) {
                        Ok(Some(e)) => Ok(entries.push(e)),
                        Ok(None) => Ok(entries),
                        Err(f) => Err(f),
                    }
                }
            },
            Err(f) => Err(f),
        }
    }
}

/// The entries that turn the record `a` into the record `b`, or the refusal
/// of two records that are not of one type: they differ in name, version or
/// number of fields, or a field differs in name, default or genre.
pub open spec fn diff_record(a: RecordView, b: RecordView, path: Seq<char>) -> Result<
    Seq<EntryView>,
    Fault,
>
    decreases a, 0nat,
{
    if a.name != b.name || a.version != b.version || a.fields.len() != b.fields.len() {
        Err(Fault { kind: ProteanError::InvalidPatchType, field: path })
    } else {
        diff_fields(a.fields, b.fields, a.fields.len(), path)
    }
}

impl RecordView {
    /// The patch that turns this record into `other`.
    pub open spec fn diff(self, other: RecordView) -> Result<PatchView, Fault> {
        match diff_record(self, other, Seq::empty()) {
            Ok(actions) => Ok(
                PatchView { name: self.name, version: self.version, options: Some(true), actions },
            ),
            Err(f) => Err(f),
        }
    }
}

/// The character of a decimal digit, as a string.
fn digit_text(d: usize) -> (r: &'static str)
    requires
        d < 10,
    ensures
        r@ == seq![digit(d as nat)],
{
    proof {
        reveal_strlit("0");
        reveal_strlit("1");
        reveal_strlit("2");
        reveal_strlit("3");
        reveal_strlit("4");
        reveal_strlit("5");
        reveal_strlit("6");
        reveal_strlit("7");
        reveal_strlit("8");
        reveal_strlit("9");
    }
    let r = if d == 0 {
        "0"
    } else if d == 1 {
        "1"
    } else if d == 2 {
        "2"
    } else if d == 3 {
        "3"
    } else if d == 4 {
        "4"
    } else if d == 5 {
        "5"
    } else if d == 6 {
        "6"
    } else if d == 7 {
        "7"
    } else if d == 8 {
        "8"
    } else {
        "9"
    };
    assert(r@ =~= seq![digit(d as nat)]);
    r
}

/// Writes a number in decimal.
pub fn decimal_text(n: usize) -> (r: String)
    ensures
        r@ == decimal(n as nat),
    decreases n,
{
    if n < 10 {
        String::from_str(digit_text(n))
    } else {
        let mut s = decimal_text(n / 10);
        s.append(digit_text(n % 10));
        assert(s@ =~= decimal((n / 10) as nat).push(digit((n % 10) as nat)));
        s
    }
}

/// How many items two lists have in common at their start.
fn common_head(x: &Vec<FieldValue>, y: &Vec<FieldValue>) -> (p: usize)
    ensures
        p == prefix_len(list_view(x@), list_view(y@), 0),
        p <= x@.len(),
        p <= y@.len(),
{
    let mut i: usize = 0;
    while i < x.len() && i < y.len() && x[i].same(&y[i])
        invariant
            i <= x@.len(),
            i <= y@.len(),
            prefix_len(list_view(x@), list_view(y@), 0) == prefix_len(
                list_view(x@),
                list_view(y@),
                i as nat,
            ),
        decreases x@.len() - i,
    {
        i += 1;
    }
    i
}

/// How many items two lists have in common at their end, behind their
/// first `p` items.
fn common_tail(x: &Vec<FieldValue>, y: &Vec<FieldValue>, p: usize) -> (s: usize)
    requires
        p <= x@.len(),
        p <= y@.len(),
    ensures
        s == suffix_len(list_view(x@), list_view(y@), p as nat, 0),
        p + s <= x@.len(),
        p + s <= y@.len(),
{
    let mut s: usize = 0;
    while s < x.len() - p && s < y.len() - p && x[x.len() - 1 - s].same(&y[y.len() - 1 - s])
        invariant
            p + s <= x@.len(),
            p + s <= y@.len(),
            suffix_len(list_view(x@), list_view(y@), p as nat, 0) == suffix_len(
                list_view(x@),
                list_view(y@),
                p as nat,
                s as nat,
            ),
        decreases x@.len() - s,
    {
        assert(from_end(list_view(x@), s as int) == from_end(list_view(y@), s as int));
        s += 1;
    }
    s
}

/// The views of the entries of a vector, in order.
pub open spec fn entry_views(v: Seq<PatchAction>) -> Seq<EntryView> {
    Seq::new(v.len(), |i: int| v[i]@)
}

/// Whether the first `upto` cells of row `i` of the table hold the lengths
/// of the longest common subsequences.
pub open spec fn row_ok(row: Seq<usize>, a: Seq<ValueView>, b: Seq<ValueView>, i: nat, upto: nat) -> bool {
    &&& row.len() == upto
    &&& forall|j: int| 0 <= j < upto ==> row[j] == lcs(a, b, i, j as nat)
}

/// Whether the first `upto` rows of the table are filled, each with `width`
/// cells.
pub open spec fn rows_ok(
    rows: Seq<Vec<usize>>,
    a: Seq<ValueView>,
    b: Seq<ValueView>,
    upto: nat,
    width: nat,
) -> bool {
    &&& rows.len() == upto
    &&& forall|i: int| 0 <= i < upto ==> row_ok((#[trigger] rows[i])@, a, b, i as nat, width)
}

/// A longest common subsequence is no longer than either list.
pub proof fn lemma_lcs_bound(a: Seq<ValueView>, b: Seq<ValueView>, i: nat, j: nat)
    ensures
        lcs(a, b, i, j) <= i,
        lcs(a, b, i, j) <= j,
    decreases i + j,
{
    if i == 0 || j == 0 || i > a.len() || j > b.len() {
    } else if a[i - 1] == b[j - 1] {
        lemma_lcs_bound(a, b, (i - 1) as nat, (j - 1) as nat);
    } else {
        lemma_lcs_bound(a, b, (i - 1) as nat, j);
        lemma_lcs_bound(a, b, i, (j - 1) as nat);
    }
}

/// The table of the lengths of the longest common subsequences of the
/// prefixes of the two middles: `m` items of `x` and `n` items of `y`, both
/// from position `p` on.
fn lcs_rows(x: &Vec<FieldValue>, y: &Vec<FieldValue>, p: usize, m: usize, n: usize) -> (rows: Vec<
    Vec<usize>,
>)
    requires
        p + m <= x@.len() <= usize::MAX,
        p + n <= y@.len() <= usize::MAX,
        m < usize::MAX,
        n < usize::MAX,
    ensures
        rows_ok(
            rows@,
            list_view(x@).subrange(p as int, p + m),
            list_view(y@).subrange(p as int, p + n),
            (m + 1) as nat,
            (n + 1) as nat,
        ),
{
    let ghost a = list_view(x@).subrange(p as int, p + m);
    let ghost b = list_view(y@).subrange(p as int, p + n);
    let mut rows: Vec<Vec<usize>> = Vec::new();
    let mut i: usize = 0;
    while i <= m
        invariant
            i <= m + 1,
            m < usize::MAX,
            n < usize::MAX,
            p + m <= x@.len() <= usize::MAX,
            p + n <= y@.len() <= usize::MAX,
            a == list_view(x@).subrange(p as int, p + m),
            b == list_view(y@).subrange(p as int, p + n),
            rows_ok(rows@, a, b, i as nat, (n + 1) as nat),
        decreases m + 1 - i,
    {
        let mut row: Vec<usize> = Vec::new();
        let mut j: usize = 0;
        while j <= n
            invariant
                j <= n + 1,
                i <= m,
                m < usize::MAX,
                n < usize::MAX,
                p + m <= x@.len() <= usize::MAX,
                p + n <= y@.len() <= usize::MAX,
                a == list_view(x@).subrange(p as int, p + m),
                b == list_view(y@).subrange(p as int, p + n),
                rows_ok(rows@, a, b, i as nat, (n + 1) as nat),
                row_ok(row@, a, b, i as nat, j as nat),
            decreases n + 1 - j,
        {
            let cell = if i == 0 || j == 0 {
                0
            } else {
                assert(row_ok(rows@[i - 1]@, a, b, (i - 1) as nat, (n + 1) as nat));
                assert(a[i - 1] == x@[p + i - 1]@);
                assert(b[j - 1] == y@[p + j - 1]@);
                if x[p + i - 1].same(&y[p + j - 1]) {
                    proof {
                        lemma_lcs_bound(a, b, (i - 1) as nat, (j - 1) as nat);
                    }
                    rows[i - 1][j - 1] + 1
                } else {
                    let up = rows[i - 1][j];
                    let left = row[j - 1];
                    if up >= left {
                        up
                    } else {
                        left
                    }
                }
            };
            let ghost before = row@;
            row.push(cell);
            assert(row_ok(row@, a, b, i as nat, (j + 1) as nat)) by {
                assert forall|k: int| 0 <= k < j + 1 implies row@[k] == lcs(a, b, i as nat, k as nat) by {
                    if k < j {
                        assert(row@[k] == before[k]);
                    }
                }
            }
            j += 1;
        }
        let ghost earlier = rows@;
        rows.push(row);
        assert(rows_ok(rows@, a, b, (i + 1) as nat, (n + 1) as nat)) by {
            assert forall|k: int| 0 <= k < i + 1 implies row_ok(
                (#[trigger] rows@[k])@,
                a,
                b,
                k as nat,
                (n + 1) as nat,
            ) by {
                if k < i {
                    assert(rows@[k] == earlier[k]);
                }
            }
        }
        i += 1;
    }
    rows
}

/// Whether the middle of `y` is the middle of `x` with its ends exchanged.
fn ends_exchanged(x: &Vec<FieldValue>, y: &Vec<FieldValue>, p: usize, m: usize, n: usize) -> (r: bool)
    requires
        p + m <= x@.len() <= usize::MAX,
        p + n <= y@.len() <= usize::MAX,
    ensures
        r == swap_fits(
            list_view(x@).subrange(p as int, p + m),
            list_view(y@).subrange(p as int, p + n),
        ),
{
    let ghost a = list_view(x@).subrange(p as int, p + m);
    let ghost b = list_view(y@).subrange(p as int, p + n);
    if m != n || m < 2 {
        return false;
    }
    assert(a[0] == x@[p as int]@);
    assert(b[b.len() - 1] == y@[p + n - 1]@);
    assert(a[a.len() - 1] == x@[p + m - 1]@);
    assert(b[0] == y@[p as int]@);
    if !x[p].same(&y[p + n - 1]) || !x[p + m - 1].same(&y[p]) {
        return false;
    }
    let mut i: usize = 1;
    while i < m - 1
        invariant
            1 <= i <= m - 1,
            m == n,
            p + m <= x@.len() <= usize::MAX,
            p + n <= y@.len() <= usize::MAX,
            a == list_view(x@).subrange(p as int, p + m),
            b == list_view(y@).subrange(p as int, p + n),
            forall|k: int| 0 < k < i ==> a[k] == b[k],
        decreases m - i,
    {
        assert(a[i as int] == x@[p + i]@);
        assert(b[i as int] == y@[p + i]@);
        if !x[p + i].same(&y[p + i]) {
            return false;
        }
        i += 1;
    }
    true
}

/// A patch whose entries are numbered in decimal as they come.
pub open spec fn numbered(p: PatchView) -> bool {
    forall|k: int| 0 <= k < p.actions.len() ==> (#[trigger] p.actions[k]).key() == decimal(k as nat)
}

/// Adds a step to a script, under the next number.
fn add_step(patch: &mut Patch, action: Action, value: FieldValue)
    requires
        old(patch)@.wf(),
        numbered(old(patch)@),
    ensures
        final(patch)@.wf(),
        numbered(final(patch)@),
        final(patch)@ == (PatchView {
            actions: old(patch)@.actions.push(
                script_entry(decimal(old(patch)@.actions.len()), action@, value@),
            ),
            ..old(patch)@
        }),
{
    let entry = PatchAction::new(action, Field::new(decimal_text(patch.len()), value), None);
    proof {
        assert forall|i: int| 0 <= i < keys_of(patch@.actions).len() implies keys_of(patch@.actions)[i]
            != entry@.key() by {
            assert(patch@.actions[i].key() == decimal(i as nat));
            if decimal(i as nat) == decimal(patch@.actions.len()) {
                lemma_decimal_injective(i as nat, patch@.actions.len());
            }
        }
        lemma_position_absent(keys_of(patch@.actions), entry@.key());
    }
    let added = patch.add_entry(entry);
    assert(added is Ok);
}

/// The script from the list `x` to the list `y`, where it fits.
fn list_steps(name: &str, x: &Vec<FieldValue>, y: &Vec<FieldValue>) -> (r: Option<Patch>)
    ensures
        match r {
            Some(p) => list_script_fits(list_view(x@), list_view(y@)) && p@ == (PatchView {
                name: name@,
                version: None,
                options: Some(true),
                actions: list_script(list_view(x@), list_view(y@)),
            }) && p@.wf(),
            None => !list_script_fits(list_view(x@), list_view(y@)),
        },
{
    let ghost xv = list_view(x@);
    let ghost yv = list_view(y@);
    if x.len() == usize::MAX || y.len() == usize::MAX {
        return None;
    }
    let p = common_head(x, y);
    let s = common_tail(x, y, p);
    let m = x.len() - p - s;
    let n = y.len() - p - s;
    let ghost a = middle(xv, yv);
    let ghost b = middle(yv, xv);
    proof {
        lemma_trim_symmetric(xv, yv);
        assert(a =~= xv.subrange(p as int, p + m));
        assert(b =~= yv.subrange(p as int, p + n));
    }
    let mut patch = Patch::new(String::from_str(name));
    if ends_exchanged(x, y, p, m, n) {
        add_step(&mut patch, Action::List(ListAction::Swap(p, p + m - 1)), FieldValue::Null);
        assert(patch@.actions =~= list_script(xv, yv));
        return Some(patch);
    }
    if m > n && m - n > y.len() {
        proof {
            crate::script::lemma_script_run_len(a, b, a.len(), b.len(), p as nat, Seq::empty());
            lemma_lcs_bound(a, b, a.len(), b.len());
        }
        return None;
    }
    let rows = lcs_rows(x, y, p, m, n);
    let mut i: usize = m;
    let mut j: usize = n;
    while i > 0 || j > 0
        invariant
            i <= m,
            j <= n,
            p + m <= x@.len() <= usize::MAX,
            p + n <= y@.len() <= usize::MAX,
            a == list_view(x@).subrange(p as int, p + m),
            b == list_view(y@).subrange(p as int, p + n),
            rows_ok(rows@, a, b, (m + 1) as nat, (n + 1) as nat),
            patch@.wf(),
            numbered(patch@),
            patch@.name == name@,
            patch@.version is None,
            patch@.options == Some(true),
            patch@.actions.len() + i + j <= m + n,
            script_run(a, b, m as nat, n as nat, p as nat, Seq::empty()) == script_run(
                a,
                b,
                i as nat,
                j as nat,
                p as nat,
                patch@.actions,
            ),
        decreases i + j,
    {
        let keep = if i > 0 && j > 0 {
            assert(a[i - 1] == x@[p + i - 1]@);
            assert(b[j - 1] == y@[p + j - 1]@);
            x[p + i - 1].same(&y[p + j - 1])
        } else {
            false
        };
        if keep {
            i -= 1;
            j -= 1;
        } else {
            let insert = if j == 0 {
                false
            } else if i == 0 {
                true
            } else {
                assert(row_ok(rows@[i as int]@, a, b, i as nat, (n + 1) as nat));
                assert(row_ok(rows@[i - 1]@, a, b, (i - 1) as nat, (n + 1) as nat));
                rows[i][j - 1] >= rows[i - 1][j]
            };
            if insert {
                assert(b[j - 1] == y@[p + j - 1]@);
                add_step(
                    &mut patch,
                    Action::List(ListAction::Insert(p + i)),
                    y[p + j - 1].copy(),
                );
                j -= 1;
            } else {
                add_step(&mut patch, Action::List(ListAction::Remove(p + i - 1)), FieldValue::Null);
                i -= 1;
            }
        }
    }
    if patch.len() > y.len() {
        None
    } else {
        Some(patch)
    }
}

/// The keyed steps from the dictionary `x` to the dictionary `y`.
fn dict_step_list(x: &Vec<(String, FieldValue)>, y: &Vec<(String, FieldValue)>) -> (r: Vec<PatchAction>)
    ensures
        entry_views(r@) == dict_script(dict_view(x@), dict_view(y@)),
        forall|i: int| 0 <= i < r@.len() ==> (#[trigger] r@[i]@).payload is Value,
{
    let ghost a = dict_view(x@);
    let ghost b = dict_view(y@);
    let mut out: Vec<PatchAction> = Vec::new();
    let mut n: usize = 0;
    while n < x.len()
        invariant
            n <= x@.len(),
            a == dict_view(x@),
            b == dict_view(y@),
            entry_views(out@) == dict_changes(a, b, n as nat),
            forall|i: int| 0 <= i < out@.len() ==> (#[trigger] out@[i]@).payload is Value,
        decreases x@.len() - n,
    {
        let ghost before = out@;
        let key = &x[n].0;
        match dict_find(y, key.as_str()) {
            None => {
                let e = PatchAction::new(
                    Action::Keyed(MapAction::Delete(key.clone())),
                    Field::new(key.clone(), FieldValue::Null),
                    None,
                );
                out.push(e);
                assert(entry_views(out@) =~= entry_views(before).push(e@));
            },
            Some(i) => {
                if !y[i].1.same(&x[n].1) {
                    let e = PatchAction::new(
                        Action::Keyed(MapAction::Update(key.clone())),
                        Field::new(key.clone(), y[i].1.copy()),
                        None,
                    );
                    out.push(e);
                    assert(entry_views(out@) =~= entry_views(before).push(e@));
                }
            },
        }
        n += 1;
    }
    let ghost changes = entry_views(out@);
    let mut m: usize = 0;
    while m < y.len()
        invariant
            m <= y@.len(),
            a == dict_view(x@),
            b == dict_view(y@),
            entry_views(out@) == changes + dict_additions(a, b, m as nat),
            forall|i: int| 0 <= i < out@.len() ==> (#[trigger] out@[i]@).payload is Value,
        decreases y@.len() - m,
    {
        let ghost before = out@;
        let key = &y[m].0;
        match dict_find(x, key.as_str()) {
            None => {
                let e = PatchAction::new(
                    Action::Keyed(MapAction::Insert(key.clone())),
                    Field::new(key.clone(), y[m].1.copy()),
                    None,
                );
                out.push(e);
                assert(entry_views(out@) =~= entry_views(before).push(e@));
                assert(entry_views(out@) =~= changes + dict_additions(a, b, (m + 1) as nat));
            },
            Some(_) => {},
        }
        m += 1;
    }
    out
}

/// The script from the dictionary `a` to the dictionary `b`, where it fits.
fn dict_steps(name: &str, a: &FieldValue, b: &FieldValue, x: &Vec<(String, FieldValue)>, y: &Vec<
    (String, FieldValue),
>) -> (r: Option<Patch>)
    requires
        a@ == ValueView::Dict(dict_view(x@)),
        b@ == ValueView::Dict(dict_view(y@)),
    ensures
        match r {
            Some(p) => script_fits(a@, b@, dict_script(dict_view(x@), dict_view(y@))) && p@ == (
            PatchView {
                name: name@,
                version: None,
                options: Some(true),
                actions: dict_script(dict_view(x@), dict_view(y@)),
            }) && p@.wf(),
            None => !script_fits(a@, b@, dict_script(dict_view(x@), dict_view(y@))),
        },
{
    let steps = dict_step_list(x, y);
    let ghost script = dict_script(dict_view(x@), dict_view(y@));
    let mut patch = Patch::new(String::from_str(name));
    let mut k: usize = 0;
    while k < steps.len()
        invariant
            k <= steps@.len(),
            entry_views(steps@) == script,
            script == dict_script(dict_view(x@), dict_view(y@)),
            forall|i: int| 0 <= i < steps@.len() ==> (#[trigger] steps@[i]@).payload is Value,
            patch@.wf(),
            patch@.name == name@,
            patch@.version is None,
            patch@.options == Some(true),
            patch@.actions == script.subrange(0, k as int),
        decreases steps@.len() - k,
    {
        let ghost before = patch@;
        let e = steps[k].copy();
        assert(e@ == script[k as int]);
        match patch.add_entry(e) {
            Ok(_) => {
                assert(patch@.actions =~= script.subrange(0, k + 1));
            },
            Err(_) => {
                proof {
                    lemma_position(keys_of(before.actions), script[k as int].key());
                    let i = before.find(script[k as int].key())->Some_0;
                    assert(0 <= i < k);
                    assert(keys_of(before.actions)[i] == keys_of(script)[i]);
                    assert(keys_of(script)[i] == keys_of(script)[k as int]);
                    assert(!distinct(keys_of(script)));
                }
                return None;
            },
        }
        k += 1;
    }
    assert(patch@.actions =~= script);
    proof {
        reveal_strlit("");
        assert(""@ =~= Seq::<char>::empty());
    }
    match replay_steps(a, &patch, true, "") {
        Ok(v) => {
            if v.same(b) {
                Some(patch)
            } else {
                None
            }
        },
        Err(_) => None,
    }
}

/// The entry for a field whose value changes from `a` to `b`.
fn diff_values(name: &str, a: &FieldValue, b: &FieldValue) -> (r: Option<PatchAction>)
    ensures
        entry_option_view(r) == diff_value(name@, a@, b@),
        r matches Some(e) ==> e@.key() == name@ && (e@.payload matches PayloadView::Patch(p)
            ==> p.wf()),
{
    if a.same(b) {
        return None;
    }
    let expected = Some(a.fingerprint());
    let script = match a {
        FieldValue::List(x) => match b {
            FieldValue::List(y) => list_steps(name, x, y),
            _ => None,
        },
        FieldValue::Dict(x) => match b {
            FieldValue::Dict(y) => dict_steps(name, a, b, x, y),
            _ => None,
        },
        _ => None,
    };
    match script {
        Some(p) => {
            let e = PatchAction::nested(Action::Replace, p, expected);
            assert(e@ == descent(name@, p@.actions, expected));
            Some(e)
        },
        None => {
            let e = PatchAction::new(
                Action::Replace,
                Field::new(String::from_str(name), b.copy()),
                expected,
            );
            assert(e@ == replacement(name@, b@, expected));
            Some(e)
        },
    }
}

/// The entry for a field whose content changes from `a` to `b`.
fn diff_contents(name: &str, a: &Content, b: &Content, at: &str) -> (r: Result<
    Option<PatchAction>,
    Failure,
>)
    requires
        a@.wf(),
    ensures
        match diff_content(name@, a@, b@, at@) {
            Ok(e) => r matches Ok(x) && entry_option_view(x) == e && (x matches Some(y) ==> y@.key()
                == name@ && (y@.payload matches PayloadView::Patch(p) ==> p.wf())),
            Err(f) => r matches Err(x) && x@ == f,
        },
    decreases a@, 1nat,
{
    match a {
        Content::Value(x) => match b {
            Content::Value(y) => {
                if x.accepts(y) {
                    Ok(diff_values(name, x, y))
                } else {
                    Err(Failure { kind: ProteanError::ConversionError, field: String::from_str(at) })
                }
            },
            Content::Object(_) => Err(
                Failure { kind: ProteanError::ConversionError, field: String::from_str(at) },
            ),
        },
        Content::Object(r) => match b {
            Content::Object(q) => match diff_records(r, q, String::from_str(name), at) {
                Ok(p) => {
                    if p.is_empty() {
                        Ok(None)
                    } else {
                        Ok(Some(PatchAction::nested(Action::Replace, p, None)))
                    }
                },
                Err(f) => Err(f),
            },
            Content::Value(_) => Err(
                Failure { kind: ProteanError::ConversionError, field: String::from_str(at) },
            ),
        },
    }
}

/// Whether two optional versions are the same.
fn same_version(a: &Option<String>, b: &Option<String>) -> (r: bool)
    ensures
        r == (crate::patch::text_option_view(*a) == crate::patch::text_option_view(*b)),
{
    match a {
        Some(x) => match b {
            Some(y) => same_text(x, y),
            None => false,
        },
        None => b.is_none(),
    }
}

/// The patch named `name` that turns the record `a` into the record `b`.
fn diff_records(a: &Record, b: &Record, name: String, path: &str) -> (r: Result<Patch, Failure>)
    requires
        a@.wf(),
    ensures
        match diff_record(a@, b@, path@) {
            Ok(actions) => r matches Ok(p) && p@ == (PatchView {
                name: name@,
                version: None,
                options: Some(true),
                actions,
            }) && p@.wf(),
            Err(f) => r matches Err(x) && x@ == f,
        },
    decreases a@, 0nat,
{
    if !same_text(a.name(), b.name()) || !same_version(a.version(), b.version()) || a.len()
        != b.len() {
        return Err(Failure { kind: ProteanError::InvalidPatchType, field: String::from_str(path) });
    }
    let mut patch = Patch::new(name);
    let mut n: usize = 0;
    while n < a.len()
        invariant
            n <= a@.fields.len(),
            a@.fields.len() == b@.fields.len(),
            a@.name == b@.name,
            a@.version == b@.version,
            a@.wf(),
            patch@.wf(),
            patch@.name == name@,
            patch@.version is None,
            patch@.options == Some(true),
            forall|j: int, m: int|
                0 <= j < patch@.actions.len() && n <= m < a@.fields.len() ==> keys_of(
                    patch@.actions,
                )[j] != names_of(a@.fields)[m],
            diff_fields(a@.fields, b@.fields, n as nat, path@) == Ok::<Seq<EntryView>, Fault>(
                patch@.actions,
            ),
        decreases a@.fields.len() - n,
    {
        let ghost before = patch@;
        let slot = a.slot(n);
        let other = b.slot(n);
        let at = join_path(path, slot.name.as_str());
        assert(decreases_to!(a@ => a@.fields[n as int].content));
        assert(a@.fields[n as int].content.wf()) by {
            assert(match (#[trigger] a@.fields[n as int]).content {
                ContentView::Value(_) => true,
                ContentView::Object(sub) => sub.wf(),
            });
        }
        assert(diff_fields(a@.fields, b@.fields, (n + 1) as nat, path@) == if other@.name
            != slot@.name || other@.initial != slot@.initial {
            Err::<Seq<EntryView>, Fault>(Fault { kind: ProteanError::InvalidPatchType, field: at@ })
        } else {
            match diff_content(slot@.name, slot@.content, other@.content, at@) {
                Ok(Some(e)) => Ok(before.actions.push(e)),
                Ok(None) => Ok(before.actions),
                Err(f) => Err(f),
            }
        });
        let step = if !same_text(&slot.name, &other.name) || !slot.same_default(other) {
            Err(Failure { kind: ProteanError::InvalidPatchType, field: at })
        } else {
            diff_contents(slot.name.as_str(), &slot.content, &other.content, at.as_str())
        };
        match step {
            Ok(found) => {
                match found {
                    Some(e) => {
                        proof {
                            assert forall|j: int| 0 <= j < keys_of(before.actions).len() implies keys_of(
                                before.actions,
                            )[j] != e@.key() by {
                                assert(names_of(a@.fields)[n as int] == e@.key());
                            }
                            lemma_position_absent(keys_of(before.actions), e@.key());
                        }
                        let added = patch.add_entry(e);
                        assert(added is Ok);
                        proof {
                            assert forall|j: int, m: int|
                                0 <= j < patch@.actions.len() && n + 1 <= m
                                    < a@.fields.len() implies keys_of(patch@.actions)[j] != names_of(
                                a@.fields,
                            )[m] by {
                                if j < before.actions.len() {
                                    assert(keys_of(patch@.actions)[j] == keys_of(before.actions)[j]);
                                } else {
                                    assert(keys_of(patch@.actions)[j] == names_of(a@.fields)[n as int]);
                                }
                            }
                        }
                    },
                    None => {},
                }
            },
            Err(f) => {
                proof {
                    lemma_diff_refusal_stays(
                        a@.fields,
                        b@.fields,
                        (n + 1) as nat,
                        a@.fields.len(),
                        path@,
                    );
                }
                return Err(f);
            },
        }
        n += 1;
    }
    Ok(patch)
}

/// A refusal among the first `n` fields is the result for every longer
/// prefix.
pub proof fn lemma_diff_refusal_stays(
    a: Seq<SlotView>,
    b: Seq<SlotView>,
    n: nat,
    m: nat,
    path: Seq<char>,
)
    requires
        n <= m <= a.len(),
        m <= b.len(),
        diff_fields(a, b, n, path) is Err,
    ensures
        diff_fields(a, b, m, path) == diff_fields(a, b, n, path),
    decreases m,
{
    if n < m {
        lemma_diff_refusal_stays(a, b, n, (m - 1) as nat, path);
    }
}

impl Record {
    /// Computes the patch that turns this record into `other`.
    ///
    /// The patch has one action for each field that differs, in the order
    /// of the fields; a leaf action expects the fingerprint of this record's
    /// value. Two records that are not of one type are refused: with
    /// `InvalidPatchType` where names, versions, field names or defaults
    /// differ, with `ConversionError` where a field differs in genre.
    pub fn diff(&self, other: &Record) -> (r: Result<Patch, Failure>)
        requires
            self@.wf(),
        ensures
            match self@.diff(other@) {
                Ok(p) => r matches Ok(x) && x@ == p && p.wf(),
                Err(f) => r matches Err(x) && x@ == f,
            },
    {
        proof {
            reveal_strlit("");
            assert(""@ =~= Seq::<char>::empty());
        }
        match diff_records(self, other, self.name().clone(), "") {
            Ok(mut patch) => {
                patch.set_version(
                    match self.version() {
                        Some(v) => Some(v.clone()),
                        None => None,
                    },
                );
                proof {
                    crate::patch::lemma_wf_shell(patch@);
                    crate::patch::lemma_wf_shell(PatchView { version: None, ..patch@ });
                }
                Ok(patch)
            },
            Err(f) => Err(f),
        }
    }
}

} // verus!

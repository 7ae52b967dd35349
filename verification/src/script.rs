//! Edit scripts: the steps that turn one container into another.

use crate::action::{ActionView, ListAction, MapActionView};
use crate::apply::{replay, replay_one, stale};
use crate::error::Fault;
use crate::patch::{EntryView, FieldView, PayloadView};
use crate::record::ContentView;
use crate::step::{dict_keys, list_step};
use crate::text::position;
use crate::value::ValueView;
use vstd::prelude::*;

verus! {

/// The character of a decimal digit.
pub open spec fn digit(d: nat) -> char {
    if d == 0 {
        '0'
    } else if d == 1 {
        '1'
    } else if d == 2 {
        '2'
    } else if d == 3 {
        '3'
    } else if d == 4 {
        '4'
    } else if d == 5 {
        '5'
    } else if d == 6 {
        '6'
    } else if d == 7 {
        '7'
    } else if d == 8 {
        '8'
    } else {
        '9'
    }
}

/// A number in decimal, without leading zeros.
pub open spec fn decimal(n: nat) -> Seq<char>
    decreases n,
{
    if n < 10 {
        seq![digit(n)]
    } else {
        decimal(n / 10).push(digit(n % 10))
    }
}

/// Different numbers are written differently.
pub proof fn lemma_decimal_injective(n: nat, m: nat)
    requires
        decimal(n) == decimal(m),
    ensures
        n == m,
    decreases n,
{
    if n < 10 {
        if m >= 10 {
            assert(decimal(m / 10).len() >= 1) by {
                lemma_decimal_nonempty(m / 10);
            }
            assert(decimal(m).len() >= 2);
            assert(decimal(n).len() == 1);
        } else {
            assert(decimal(n)[0] == digit(n));
            assert(decimal(m)[0] == digit(m));
            lemma_digit_injective(n, m);
        }
    } else {
        if m < 10 {
            lemma_decimal_nonempty(n / 10);
            assert(decimal(n).len() >= 2);
            assert(decimal(m).len() == 1);
        } else {
            let a = decimal(n / 10);
            let b = decimal(m / 10);
            assert(decimal(n).last() == digit(n % 10));
            assert(decimal(m).last() == digit(m % 10));
            assert(decimal(n).drop_last() =~= a);
            assert(decimal(m).drop_last() =~= b);
            lemma_decimal_injective(n / 10, m / 10);
            lemma_digit_injective(n % 10, m % 10);
            assert(n == 10 * (n / 10) + n % 10);
            assert(m == 10 * (m / 10) + m % 10);
        }
    }
}

/// Different digits have different characters.
pub proof fn lemma_digit_injective(x: nat, y: nat)
    requires
        x < 10,
        y < 10,
        digit(x) == digit(y),
    ensures
        x == y,
{
}

/// A number is written with at least one digit.
pub proof fn lemma_decimal_nonempty(n: nat)
    ensures
        decimal(n).len() >= 1,
    decreases n,
{
    if n >= 10 {
        lemma_decimal_nonempty(n / 10);
    }
}

/// How many items the two lists have in common at their start, from `i` on.
pub open spec fn prefix_len(a: Seq<ValueView>, b: Seq<ValueView>, i: nat) -> nat
    decreases a.len() - i,
{
    if i < a.len() && i < b.len() && a[i as int] == b[i as int] {
        prefix_len(a, b, i + 1)
    } else {
        i
    }
}

/// The item `j` places before the last one.
pub open spec fn from_end(s: Seq<ValueView>, j: int) -> ValueView {
    s[s.len() - 1 - j]
}

/// How many items the two lists have in common at their end, behind their
/// first `p` items, from `s` on.
pub open spec fn suffix_len(a: Seq<ValueView>, b: Seq<ValueView>, p: nat, s: nat) -> nat
    decreases a.len() - s,
{
    if p + s < a.len() && p + s < b.len() && from_end(a, s as int) == from_end(b, s as int) {
        suffix_len(a, b, p, s + 1)
    } else {
        s
    }
}

/// The part of two lists that a script leaves alone: `head` items at the
/// start and `tail` items at the end.
pub struct Trim {
    pub head: nat,
    pub tail: nat,
}

/// The longest common start of two lists, and the longest common end of
/// what is behind it.
pub open spec fn trim(a: Seq<ValueView>, b: Seq<ValueView>) -> Trim {
    let head = prefix_len(a, b, 0);
    Trim { head, tail: suffix_len(a, b, head, 0) }
}

/// A step of a script: the action under the key `key`, carrying `value`.
pub open spec fn script_entry(key: Seq<char>, action: ActionView, value: ValueView) -> EntryView {
    EntryView {
        action,
        payload: PayloadView::Value(FieldView { name: key, value, lost: None }),
        expected: None,
    }
}

/// The length of the longest common subsequence of the first `i` items of
/// `a` and the first `j` items of `b`.
pub open spec fn lcs(a: Seq<ValueView>, b: Seq<ValueView>, i: nat, j: nat) -> nat
    decreases i + j,
{
    if i == 0 || j == 0 || i > a.len() || j > b.len() {
        0
    } else if a[i - 1] == b[j - 1] {
        lcs(a, b, (i - 1) as nat, (j - 1) as nat) + 1
    } else {
        let up = lcs(a, b, (i - 1) as nat, j);
        let left = lcs(a, b, i, (j - 1) as nat);
        if up >= left {
            up
        } else {
            left
        }
    }
}

/// The steps `acc`, followed by the steps that turn the first `i` items of
/// `a` into the first `j` items of `b`, where `a` starts at position `base`
/// of its list.
///
/// The steps work from the end of the list to its start, so that no step
/// moves what a later step works on. Items that belong to a longest common
/// subsequence stay; an item of `b` that does not is inserted, an item of
/// `a` that does not is removed. The steps are numbered in decimal as they
/// come.
pub open spec fn script_run(
    a: Seq<ValueView>,
    b: Seq<ValueView>,
    i: nat,
    j: nat,
    base: nat,
    acc: Seq<EntryView>,
) -> Seq<EntryView>
    decreases i + j,
{
    if i > a.len() || j > b.len() || (i == 0 && j == 0) {
        acc
    } else if i > 0 && j > 0 && a[i - 1] == b[j - 1] {
        script_run(a, b, (i - 1) as nat, (j - 1) as nat, base, acc)
    } else if j > 0 && (i == 0 || lcs(a, b, i, (j - 1) as nat) >= lcs(a, b, (i - 1) as nat, j)) {
        script_run(
            a,
            b,
            i,
            (j - 1) as nat,
            base,
            acc.push(
                script_entry(
                    decimal(acc.len()),
                    ActionView::List(ListAction::Insert((base + i) as usize)),
                    b[j - 1],
                ),
            ),
        )
    } else {
        script_run(
            a,
            b,
            (i - 1) as nat,
            j,
            base,
            acc.push(
                script_entry(
                    decimal(acc.len()),
                    ActionView::List(ListAction::Remove((base + i - 1) as usize)),
                    ValueView::Null,
                ),
            ),
        )
    }
}

/// Whether `b` is `a` with its first and last item exchanged.
pub open spec fn swap_fits(a: Seq<ValueView>, b: Seq<ValueView>) -> bool {
    &&& a.len() == b.len()
    &&& a.len() >= 2
    &&& a[0] == b[b.len() - 1]
    &&& a[a.len() - 1] == b[0]
    &&& forall|i: int| 0 < i < a.len() - 1 ==> a[i] == b[i]
}

/// What of `x` lies between the common start and the common end of `x` and
/// `y`.
pub open spec fn middle(x: Seq<ValueView>, y: Seq<ValueView>) -> Seq<ValueView> {
    let t = trim(x, y);
    x.subrange(t.head as int, x.len() - t.tail)
}

/// The script that turns the list `x` into the list `y`.
///
/// The common start and end of the two lists are left alone. Where the rest
/// of `y` is the rest of `x` with its ends exchanged, the script is that one
/// swap; otherwise it is the removals and insertions that keep a longest
/// common subsequence.
pub open spec fn list_script(x: Seq<ValueView>, y: Seq<ValueView>) -> Seq<EntryView> {
    let t = trim(x, y);
    let a = middle(x, y);
    let b = middle(y, x);
    if swap_fits(a, b) {
        seq![
            script_entry(
                decimal(0),
                ActionView::List(
                    ListAction::Swap(t.head as usize, (t.head + a.len() - 1) as usize),
                ),
                ValueView::Null,
            ),
        ]
    } else {
        script_run(a, b, a.len(), b.len(), t.head, Seq::empty())
    }
}

/// Whether the script from `x` to `y` is used: it has no more steps than
/// `y` has items, and the lists are short enough for their positions, and
/// the table behind the script, to fit the machine.
pub open spec fn list_script_fits(x: Seq<ValueView>, y: Seq<ValueView>) -> bool {
    &&& x.len() < usize::MAX
    &&& y.len() < usize::MAX
    &&& list_script(x, y).len() <= y.len()
}

/// What `prefix_len` finds is a common start, and it is the longest.
pub proof fn lemma_prefix_len(a: Seq<ValueView>, b: Seq<ValueView>, i: nat)
    requires
        i <= a.len(),
        i <= b.len(),
        forall|j: int| 0 <= j < i ==> a[j] == b[j],
    ensures
        i <= prefix_len(a, b, i) <= a.len(),
        prefix_len(a, b, i) <= b.len(),
        forall|j: int| 0 <= j < prefix_len(a, b, i) ==> a[j] == b[j],
        prefix_len(a, b, i) < a.len() && prefix_len(a, b, i) < b.len() ==> a[prefix_len(a, b, i) as int]
            != b[prefix_len(a, b, i) as int],
    decreases a.len() - i,
{
    if i < a.len() && i < b.len() && a[i as int] == b[i as int] {
        lemma_prefix_len(a, b, i + 1);
    }
}

/// What `suffix_len` finds is a common end behind the first `p` items.
pub proof fn lemma_suffix_len(a: Seq<ValueView>, b: Seq<ValueView>, p: nat, s: nat)
    requires
        p + s <= a.len(),
        p + s <= b.len(),
        forall|j: int| 0 <= j < s ==> #[trigger] from_end(a, j) == from_end(b, j),
    ensures
        s <= suffix_len(a, b, p, s),
        p + suffix_len(a, b, p, s) <= a.len(),
        p + suffix_len(a, b, p, s) <= b.len(),
        forall|j: int| 0 <= j < suffix_len(a, b, p, s) ==> #[trigger] from_end(a, j) == from_end(b, j),
    decreases a.len() - s,
{
    if p + s < a.len() && p + s < b.len() && from_end(a, s as int) == from_end(b, s as int) {
        lemma_suffix_len(a, b, p, s + 1);
    }
}

/// The two lists have the same common end, whichever comes first.
pub proof fn lemma_trim_symmetric(x: Seq<ValueView>, y: Seq<ValueView>)
    ensures
        trim(x, y) == trim(y, x),
        trim(x, y).head + trim(x, y).tail <= x.len(),
        trim(x, y).head + trim(x, y).tail <= y.len(),
        forall|i: int| 0 <= i < trim(x, y).head ==> x[i] == y[i],
        forall|i: int| 0 <= i < trim(x, y).tail ==> #[trigger] from_end(x, i) == from_end(y, i),
{
    lemma_prefix_len(x, y, 0);
    lemma_prefix_len(y, x, 0);
    let p = prefix_len(x, y, 0);
    let q = prefix_len(y, x, 0);
    if p < q {
        assert(y[p as int] == x[p as int]);
    }
    if q < p {
        assert(x[q as int] == y[q as int]);
    }
    lemma_suffix_len(x, y, p, 0);
    lemma_suffix_len(y, x, p, 0);
    lemma_suffix_longest(x, y, p, 0);
    lemma_suffix_longest(y, x, p, 0);
    let s = suffix_len(x, y, p, 0);
    let r = suffix_len(y, x, p, 0);
    if s < r {
        assert(from_end(y, s as int) == from_end(x, s as int));
    }
    if r < s {
        assert(from_end(x, r as int) == from_end(y, r as int));
    }
}

/// What `suffix_len` finds is the longest common end behind the first `p`
/// items.
pub proof fn lemma_suffix_longest(a: Seq<ValueView>, b: Seq<ValueView>, p: nat, s: nat)
    requires
        p + s <= a.len(),
        p + s <= b.len(),
    ensures
        ({
            let r = suffix_len(a, b, p, s);
            p + r < a.len() && p + r < b.len() ==> from_end(a, r as int) != from_end(b, r as int)
        }),
    decreases a.len() - s,
{
    if p + s < a.len() && p + s < b.len() && from_end(a, s as int) == from_end(b, s as int) {
        lemma_suffix_longest(a, b, p, s + 1);
    }
}

/// What the first `n` steps of a script do depends on those steps alone.
pub proof fn lemma_replay_prefix(
    cur: ValueView,
    s: Seq<EntryView>,
    t: Seq<EntryView>,
    n: nat,
    upsert: bool,
    path: Seq<char>,
)
    requires
        n <= s.len(),
        n <= t.len(),
        forall|i: int| 0 <= i < n ==> s[i] == t[i],
    ensures
        replay(cur, s, n, upsert, path) == replay(cur, t, n, upsert, path),
    decreases n,
{
    if n > 0 {
        lemma_replay_prefix(cur, s, t, (n - 1) as nat, upsert, path);
    }
}

/// A run has one step for each item that is not in the longest common
/// subsequence: `i + j` less twice its length. No script of removals and
/// insertions alone can keep more items than a longest common subsequence
/// has.
pub proof fn lemma_script_run_len(
    a: Seq<ValueView>,
    b: Seq<ValueView>,
    i: nat,
    j: nat,
    base: nat,
    acc: Seq<EntryView>,
)
    requires
        i <= a.len(),
        j <= b.len(),
    ensures
        script_run(a, b, i, j, base, acc).len() == acc.len() + i + j - 2 * lcs(a, b, i, j),
    decreases i + j,
{
    if i == 0 && j == 0 {
    } else if i > 0 && j > 0 && a[i - 1] == b[j - 1] {
        lemma_script_run_len(a, b, (i - 1) as nat, (j - 1) as nat, base, acc);
    } else if j > 0 && (i == 0 || lcs(a, b, i, (j - 1) as nat) >= lcs(a, b, (i - 1) as nat, j)) {
        let e = script_entry(
            decimal(acc.len()),
            ActionView::List(ListAction::Insert((base + i) as usize)),
            b[j - 1],
        );
        lemma_script_run_len(a, b, i, (j - 1) as nat, base, acc.push(e));
    } else {
        let e = script_entry(
            decimal(acc.len()),
            ActionView::List(ListAction::Remove((base + i - 1) as usize)),
            ValueView::Null,
        );
        lemma_script_run_len(a, b, (i - 1) as nat, j, base, acc.push(e));
    }
}

/// The list while a run of steps is under way: the start, the first `i`
/// items of `a`, the items of `b` from `j` on, the end.
pub open spec fn list_midway(
    head: Seq<ValueView>,
    tail: Seq<ValueView>,
    a: Seq<ValueView>,
    b: Seq<ValueView>,
    i: nat,
    j: nat,
) -> Seq<ValueView> {
    head + a.subrange(0, i as int) + b.subrange(j as int, b.len() as int) + tail
}

/// Where the steps so far have brought the list midway, the whole run
/// brings it to the target.
pub proof fn lemma_script_run(
    start: ValueView,
    head: Seq<ValueView>,
    tail: Seq<ValueView>,
    a: Seq<ValueView>,
    b: Seq<ValueView>,
    i: nat,
    j: nat,
    acc: Seq<EntryView>,
    upsert: bool,
    path: Seq<char>,
)
    requires
        i <= a.len(),
        j <= b.len(),
        head.len() + a.len() <= usize::MAX,
        replay(start, acc, acc.len(), upsert, path) == Ok::<ValueView, Fault>(
            ValueView::List(list_midway(head, tail, a, b, i, j)),
        ),
    ensures
        ({
            let steps = script_run(a, b, i, j, head.len(), acc);
            replay(start, steps, steps.len(), upsert, path) == Ok::<ValueView, Fault>(
                ValueView::List(head + b + tail),
            )
        }),
    decreases i + j,
{
    let base = head.len();
    let now = list_midway(head, tail, a, b, i, j);
    if i == 0 && j == 0 {
        assert(now =~= head + b + tail);
    } else if i > 0 && j > 0 && a[i - 1] == b[j - 1] {
        assert(list_midway(head, tail, a, b, (i - 1) as nat, (j - 1) as nat) =~= now);
        lemma_script_run(start, head, tail, a, b, (i - 1) as nat, (j - 1) as nat, acc, upsert, path);
    } else if j > 0 && (i == 0 || lcs(a, b, i, (j - 1) as nat) >= lcs(a, b, (i - 1) as nat, j)) {
        let e = script_entry(
            decimal(acc.len()),
            ActionView::List(ListAction::Insert((base + i) as usize)),
            b[j - 1],
        );
        let next = acc.push(e);
        let then = list_midway(head, tail, a, b, i, (j - 1) as nat);
        lemma_replay_prefix(start, next, acc, acc.len(), upsert, path);
        assert(now.insert((base + i) as int, b[j - 1]) =~= then);
        assert(list_step(now, ListAction::Insert((base + i) as usize), b[j - 1]) == Some(then));
        assert(!stale(e.expected, ContentView::Value(ValueView::List(now))));
        assert(replay_one(ValueView::List(now), e, upsert, path) == Ok::<ValueView, Fault>(
            ValueView::List(then),
        ));
        assert(replay(start, next, next.len(), upsert, path) == replay_one(
            ValueView::List(now),
            e,
            upsert,
            path,
        ));
        lemma_script_run(start, head, tail, a, b, i, (j - 1) as nat, next, upsert, path);
    } else {
        let e = script_entry(
            decimal(acc.len()),
            ActionView::List(ListAction::Remove((base + i - 1) as usize)),
            ValueView::Null,
        );
        let next = acc.push(e);
        let then = list_midway(head, tail, a, b, (i - 1) as nat, j);
        lemma_replay_prefix(start, next, acc, acc.len(), upsert, path);
        assert(now.remove(base + i - 1) =~= then);
        assert(list_step(now, ListAction::Remove((base + i - 1) as usize), ValueView::Null) == Some(
            then,
        ));
        assert(!stale(e.expected, ContentView::Value(ValueView::List(now))));
        assert(replay_one(ValueView::List(now), e, upsert, path) == Ok::<ValueView, Fault>(
            ValueView::List(then),
        ));
        assert(replay(start, next, next.len(), upsert, path) == replay_one(
            ValueView::List(now),
            e,
            upsert,
            path,
        ));
        lemma_script_run(start, head, tail, a, b, (i - 1) as nat, j, next, upsert, path);
    }
}

/// A list is its common start with another, its middle, and its common end.
pub proof fn lemma_three_parts(x: Seq<ValueView>, y: Seq<ValueView>)
    ensures
        x == x.subrange(0, trim(x, y).head as int) + middle(x, y) + x.subrange(
            x.len() - trim(x, y).tail,
            x.len() as int,
        ),
        y == x.subrange(0, trim(x, y).head as int) + middle(y, x) + x.subrange(
            x.len() - trim(x, y).tail,
            x.len() as int,
        ),
        middle(x, y).len() == x.len() - trim(x, y).head - trim(x, y).tail,
        middle(y, x).len() == y.len() - trim(x, y).head - trim(x, y).tail,
{
    lemma_trim_symmetric(x, y);
    let t = trim(x, y);
    let head = x.subrange(0, t.head as int);
    let tail = x.subrange(x.len() - t.tail, x.len() as int);
    assert(x =~= head + middle(x, y) + tail);
    let whole = head + middle(y, x) + tail;
    assert(whole.len() == y.len());
    assert forall|i: int| 0 <= i < y.len() implies whole[i] == y[i] by {
        if i >= y.len() - t.tail {
            let k = y.len() - 1 - i;
            assert(from_end(x, k) == from_end(y, k));
        }
    }
    assert(whole =~= y);
}

/// Replaying the script from `x` to `y` on `x` gives `y`.
pub proof fn lemma_list_script(x: Seq<ValueView>, y: Seq<ValueView>, upsert: bool, path: Seq<char>)
    requires
        x.len() <= usize::MAX,
        y.len() <= usize::MAX,
    ensures
        replay(
            ValueView::List(x),
            list_script(x, y),
            list_script(x, y).len(),
            upsert,
            path,
        ) == Ok::<ValueView, Fault>(ValueView::List(y)),
{
    lemma_three_parts(x, y);
    lemma_trim_symmetric(x, y);
    let t = trim(x, y);
    let head = x.subrange(0, t.head as int);
    let tail = x.subrange(x.len() - t.tail, x.len() as int);
    let a = middle(x, y);
    let b = middle(y, x);
    let start = ValueView::List(x);
    if swap_fits(a, b) {
        let first = t.head as int;
        let last = t.head + a.len() - 1;
        let e = list_script(x, y)[0];
        let swapped = x.update(first, x[last]).update(last, x[first]);
        assert(swapped.len() == y.len());
        assert forall|i: int| 0 <= i < y.len() implies swapped[i] == y[i] by {
            let whole = head + b + tail;
            assert(whole[i] == y[i]);
            let same = head + a + tail;
            assert(same[i] == x[i]);
            if first < i < last {
                assert(a[i - first] == b[i - first]);
            }
        }
        assert(swapped =~= y);
        assert(list_step(x, ListAction::Swap(first as usize, last as usize), ValueView::Null) == Some(
            y,
        ));
        assert(!stale(e.expected, ContentView::Value(start)));
        assert(replay(start, list_script(x, y), 0, upsert, path) == Ok::<ValueView, Fault>(start));
        assert(replay_one(start, e, upsert, path) == Ok::<ValueView, Fault>(ValueView::List(y)));
    } else {
        let none = Seq::<EntryView>::empty();
        assert(list_midway(head, tail, a, b, a.len(), b.len()) =~= x) by {
            assert(a.subrange(0, a.len() as int) =~= a);
            assert(b.subrange(b.len() as int, b.len() as int) =~= Seq::<ValueView>::empty());
        }
        lemma_script_run(start, head, tail, a, b, a.len(), b.len(), none, upsert, path);
    }
}

/// The steps for the first `n` entries of the dictionary `a` on the way to
/// `b`: a delete for a key that `b` does not have, an update for one whose
/// value differs in `b`.
pub open spec fn dict_changes(
    a: Seq<(Seq<char>, ValueView)>,
    b: Seq<(Seq<char>, ValueView)>,
    n: nat,
) -> Seq<EntryView>
    decreases n,
{
    if n == 0 || n > a.len() {
        Seq::empty()
    } else {
        let rest = dict_changes(a, b, (n - 1) as nat);
        let k = a[n - 1].0;
        match position(dict_keys(b), k) {
            None => rest.push(
                script_entry(k, ActionView::Keyed(MapActionView::Delete(k)), ValueView::Null),
            ),
            Some(i) => if b[i].1 == a[n - 1].1 {
                rest
            } else {
                rest.push(script_entry(k, ActionView::Keyed(MapActionView::Update(k)), b[i].1))
            },
        }
    }
}

/// The steps for the first `n` entries of the dictionary `b` on the way
/// from `a`: an insert for a key that `a` does not have.
pub open spec fn dict_additions(
    a: Seq<(Seq<char>, ValueView)>,
    b: Seq<(Seq<char>, ValueView)>,
    n: nat,
) -> Seq<EntryView>
    decreases n,
{
    if n == 0 || n > b.len() {
        Seq::empty()
    } else {
        let rest = dict_additions(a, b, (n - 1) as nat);
        let k = b[n - 1].0;
        match position(dict_keys(a), k) {
            None => rest.push(
                script_entry(k, ActionView::Keyed(MapActionView::Insert(k)), b[n - 1].1),
            ),
            Some(_) => rest,
        }
    }
}

/// The script that turns the dictionary `a` into the dictionary `b`, key by
/// key: deletes and updates in the order of `a`, then inserts in the order
/// of `b`.
pub open spec fn dict_script(a: Seq<(Seq<char>, ValueView)>, b: Seq<(Seq<char>, ValueView)>) -> Seq<
    EntryView,
> {
    dict_changes(a, b, a.len()) + dict_additions(a, b, b.len())
}

} // verus!

//! Why the script between two lists is as short as a script of removals
//! and insertions can be.

use crate::action::{ActionView, ListAction};
use crate::apply::{replay, replay_one};
use crate::error::Fault;
use crate::patch::EntryView;
use crate::script::{
    from_end, lcs, lemma_prefix_len, lemma_script_run_len, lemma_trim_symmetric, list_script,
    middle, swap_fits, trim,
};
use crate::step::list_step;
use crate::value::ValueView;
use vstd::prelude::*;

verus! {

/// Whether every step of a script removes an item from a list or inserts
/// one.
pub open spec fn removes_and_inserts(steps: Seq<EntryView>) -> bool {
    forall|k: int|
        0 <= k < steps.len() ==> (#[trigger] steps[k]).payload is Value && (steps[k].action
            matches ActionView::List(step) && (step is Remove || step is Insert))
}

/// How far a list is from another: the items of either that are not in a
/// longest common subsequence.
pub open spec fn distance(x: Seq<ValueView>, y: Seq<ValueView>) -> int {
    x.len() + y.len() - 2 * lcs(x, y, x.len(), y.len())
}

/// The longest common subsequence of two prefixes depends on the prefixes
/// alone.
pub proof fn lemma_lcs_same(
    a: Seq<ValueView>,
    b: Seq<ValueView>,
    c: Seq<ValueView>,
    d: Seq<ValueView>,
    i: nat,
    j: nat,
)
    requires
        i <= a.len(),
        i <= c.len(),
        j <= b.len(),
        j <= d.len(),
        forall|k: int| 0 <= k < i ==> a[k] == c[k],
        forall|k: int| 0 <= k < j ==> b[k] == d[k],
    ensures
        lcs(a, b, i, j) == lcs(c, d, i, j),
    decreases i + j,
{
    if i == 0 || j == 0 {
    } else if a[i - 1] == b[j - 1] {
        lemma_lcs_same(a, b, c, d, (i - 1) as nat, (j - 1) as nat);
    } else {
        lemma_lcs_same(a, b, c, d, (i - 1) as nat, j);
        lemma_lcs_same(a, b, c, d, i, (j - 1) as nat);
    }
}

/// One more item on either side makes the longest common subsequence no
/// shorter, and longer by one at most.
pub proof fn lemma_lcs_steady(a: Seq<ValueView>, b: Seq<ValueView>, i: nat, j: nat)
    requires
        i <= a.len(),
        j <= b.len(),
    ensures
        i < a.len() ==> lcs(a, b, i, j) <= lcs(a, b, i + 1, j) <= lcs(a, b, i, j) + 1,
        j < b.len() ==> lcs(a, b, i, j) <= lcs(a, b, i, j + 1) <= lcs(a, b, i, j) + 1,
    decreases i + j,
{
    if i < a.len() {
        if j == 0 {
        } else {
            lemma_lcs_steady(a, b, i, (j - 1) as nat);
            if a[i as int] == b[j - 1] {
                assert(lcs(a, b, i + 1, j) == lcs(a, b, i, (j - 1) as nat) + 1);
            } else {
                assert(lcs(a, b, i + 1, j) == if lcs(a, b, i, j) >= lcs(a, b, i + 1, (j - 1) as nat) {
                    lcs(a, b, i, j)
                } else {
                    lcs(a, b, i + 1, (j - 1) as nat)
                });
            }
        }
    }
    if j < b.len() {
        if i == 0 {
        } else {
            lemma_lcs_steady(a, b, (i - 1) as nat, j);
            if a[i - 1] == b[j as int] {
                assert(lcs(a, b, i, j + 1) == lcs(a, b, (i - 1) as nat, j) + 1);
            } else {
                assert(lcs(a, b, i, j + 1) == if lcs(a, b, (i - 1) as nat, j + 1) >= lcs(a, b, i, j) {
                    lcs(a, b, (i - 1) as nat, j + 1)
                } else {
                    lcs(a, b, i, j)
                });
            }
        }
    }
}

/// Taking one item out of a list makes its longest common subsequence with
/// another no longer, and shorter by one at most.
pub proof fn lemma_lcs_remove(s: Seq<ValueView>, y: Seq<ValueView>, at: int, n: nat, j: nat)
    requires
        0 <= at < n <= s.len(),
        j <= y.len(),
    ensures
        lcs(s.remove(at), y, (n - 1) as nat, j) <= lcs(s, y, n, j) <= lcs(
            s.remove(at),
            y,
            (n - 1) as nat,
            j,
        ) + 1,
    decreases n + j,
{
    let r = s.remove(at);
    if at == n - 1 {
        lemma_lcs_same(r, y, s, y, (n - 1) as nat, j);
        lemma_lcs_steady(s, y, (n - 1) as nat, j);
    } else if j == 0 {
    } else {
        assert(r[n - 2] == s[n - 1]);
        if s[n - 1] == y[j - 1] {
            lemma_lcs_remove(s, y, at, (n - 1) as nat, (j - 1) as nat);
            assert(lcs(s, y, n, j) == lcs(s, y, (n - 1) as nat, (j - 1) as nat) + 1);
            assert(lcs(r, y, (n - 1) as nat, j) == lcs(r, y, (n - 2) as nat, (j - 1) as nat) + 1);
        } else {
            lemma_lcs_remove(s, y, at, (n - 1) as nat, j);
            lemma_lcs_remove(s, y, at, n, (j - 1) as nat);
            assert(lcs(s, y, n, j) == if lcs(s, y, (n - 1) as nat, j) >= lcs(s, y, n, (j - 1) as nat) {
                lcs(s, y, (n - 1) as nat, j)
            } else {
                lcs(s, y, n, (j - 1) as nat)
            });
            assert(lcs(r, y, (n - 1) as nat, j) == if lcs(r, y, (n - 2) as nat, j) >= lcs(
                r,
                y,
                (n - 1) as nat,
                (j - 1) as nat,
            ) {
                lcs(r, y, (n - 2) as nat, j)
            } else {
                lcs(r, y, (n - 1) as nat, (j - 1) as nat)
            });
        }
    }
}

/// A list is its own longest common subsequence.
pub proof fn lemma_lcs_self(y: Seq<ValueView>, n: nat)
    requires
        n <= y.len(),
    ensures
        lcs(y, y, n, n) == n,
    decreases n,
{
    if n > 0 {
        lemma_lcs_self(y, (n - 1) as nat);
    }
}

/// A common first item belongs to a longest common subsequence.
pub proof fn lemma_lcs_front(x: Seq<ValueView>, y: Seq<ValueView>, i: nat, j: nat)
    requires
        1 <= i <= x.len(),
        1 <= j <= y.len(),
        x[0] == y[0],
    ensures
        lcs(x, y, i, j) == 1 + lcs(x.drop_first(), y.drop_first(), (i - 1) as nat, (j - 1) as nat),
    decreases i + j,
{
    let p = x.drop_first();
    let q = y.drop_first();
    if i == 1 && j == 1 {
        assert(lcs(x, y, 1, 1) == lcs(x, y, 0, 0) + 1);
    } else if x[i - 1] == y[j - 1] {
        assert(lcs(x, y, i, j) == lcs(x, y, (i - 1) as nat, (j - 1) as nat) + 1);
        if i >= 2 && j >= 2 {
            lemma_lcs_front(x, y, (i - 1) as nat, (j - 1) as nat);
            assert(p[i - 2] == x[i - 1] && q[j - 2] == y[j - 1]);
            assert(lcs(p, q, (i - 1) as nat, (j - 1) as nat) == lcs(
                p,
                q,
                (i - 2) as nat,
                (j - 2) as nat,
            ) + 1);
        }
    } else {
        let up = lcs(x, y, (i - 1) as nat, j);
        let left = lcs(x, y, i, (j - 1) as nat);
        assert(lcs(x, y, i, j) == if up >= left {
            up
        } else {
            left
        });
        if i >= 2 && j >= 2 {
            lemma_lcs_front(x, y, (i - 1) as nat, j);
            lemma_lcs_front(x, y, i, (j - 1) as nat);
            assert(p[i - 2] == x[i - 1] && q[j - 2] == y[j - 1]);
            let above = lcs(p, q, (i - 2) as nat, (j - 1) as nat);
            let beside = lcs(p, q, (i - 1) as nat, (j - 2) as nat);
            assert(lcs(p, q, (i - 1) as nat, (j - 1) as nat) == if above >= beside {
                above
            } else {
                beside
            });
        } else if i == 1 {
            lemma_lcs_front(x, y, i, (j - 1) as nat);
            assert(up == 0);
            assert(lcs(p, q, 0, (j - 2) as nat) == 0);
            assert(lcs(p, q, 0, (j - 1) as nat) == 0);
        } else {
            lemma_lcs_front(x, y, (i - 1) as nat, j);
            assert(left == 0);
            assert(lcs(p, q, (i - 2) as nat, 0) == 0);
            assert(lcs(p, q, (i - 1) as nat, 0) == 0);
        }
    }
}

/// A common start belongs to a longest common subsequence.
pub proof fn lemma_lcs_head(x: Seq<ValueView>, y: Seq<ValueView>, k: nat, i: nat, j: nat)
    requires
        k <= i <= x.len(),
        k <= j <= y.len(),
        forall|q: int| 0 <= q < k ==> x[q] == y[q],
    ensures
        lcs(x, y, i, j) == k + lcs(
            x.subrange(k as int, x.len() as int),
            y.subrange(k as int, y.len() as int),
            (i - k) as nat,
            (j - k) as nat,
        ),
    decreases k,
{
    if k == 0 {
        assert(x.subrange(0, x.len() as int) =~= x);
        assert(y.subrange(0, y.len() as int) =~= y);
    } else {
        lemma_lcs_front(x, y, i, j);
        let p = x.drop_first();
        let q = y.drop_first();
        assert forall|m: int| 0 <= m < k - 1 implies p[m] == q[m] by {
            assert(x[m + 1] == y[m + 1]);
        }
        lemma_lcs_head(p, q, (k - 1) as nat, (i - 1) as nat, (j - 1) as nat);
        assert(p.subrange(k - 1, p.len() as int) =~= x.subrange(k as int, x.len() as int));
        assert(q.subrange(k - 1, q.len() as int) =~= y.subrange(k as int, y.len() as int));
    }
}

/// A common end belongs to a longest common subsequence.
pub proof fn lemma_lcs_tail(x: Seq<ValueView>, y: Seq<ValueView>, t: nat)
    requires
        t <= x.len(),
        t <= y.len(),
        forall|q: int| 0 <= q < t ==> #[trigger] from_end(x, q) == from_end(y, q),
    ensures
        lcs(x, y, x.len(), y.len()) == t + lcs(x, y, (x.len() - t) as nat, (y.len() - t) as nat),
    decreases t,
{
    if t > 0 {
        lemma_lcs_tail(x, y, (t - 1) as nat);
        let i = (x.len() - (t - 1)) as nat;
        let j = (y.len() - (t - 1)) as nat;
        assert(from_end(x, t - 1) == from_end(y, t - 1));
        assert(x[i - 1] == y[j - 1]);
        assert(lcs(x, y, i, j) == lcs(x, y, (i - 1) as nat, (j - 1) as nat) + 1);
    }
}

/// The longest common subsequence of two lists is their common start and
/// end with that of what is between.
pub proof fn lemma_lcs_trim(x: Seq<ValueView>, y: Seq<ValueView>)
    ensures
        lcs(x, y, x.len(), y.len()) == trim(x, y).head + trim(x, y).tail + lcs(
            middle(x, y),
            middle(y, x),
            middle(x, y).len(),
            middle(y, x).len(),
        ),
{
    lemma_trim_symmetric(x, y);
    let t = trim(x, y);
    let a = middle(x, y);
    let b = middle(y, x);
    let m = (x.len() - t.head - t.tail) as nat;
    let n = (y.len() - t.head - t.tail) as nat;
    lemma_lcs_tail(x, y, t.tail);
    lemma_lcs_head(x, y, t.head, (x.len() - t.tail) as nat, (y.len() - t.tail) as nat);
    let p = x.subrange(t.head as int, x.len() as int);
    let q = y.subrange(t.head as int, y.len() as int);
    lemma_lcs_same(p, q, a, b, m, n);
}

/// While a script of removals and insertions is replayed, each step brings
/// the list closer to any other list by one at most.
pub proof fn lemma_steps_needed(
    x: Seq<ValueView>,
    y: Seq<ValueView>,
    steps: Seq<EntryView>,
    k: nat,
    upsert: bool,
    path: Seq<char>,
)
    requires
        removes_and_inserts(steps),
        k <= steps.len(),
        replay(ValueView::List(x), steps, k, upsert, path) is Ok,
    ensures
        replay(ValueView::List(x), steps, k, upsert, path)->Ok_0 is List,
        distance(replay(ValueView::List(x), steps, k, upsert, path)->Ok_0->List_0, y) + k
            >= distance(x, y),
    decreases k,
{
    if k > 0 {
        let start = ValueView::List(x);
        assert(replay(start, steps, (k - 1) as nat, upsert, path) is Ok);
        lemma_steps_needed(x, y, steps, (k - 1) as nat, upsert, path);
        let before = replay(start, steps, (k - 1) as nat, upsert, path)->Ok_0;
        let z = before->List_0;
        let e = steps[k - 1];
        assert(replay(start, steps, k, upsert, path) == replay_one(before, e, upsert, path));
        let step = e.action->List_0;
        let v = e.payload->Value_0.value;
        let after = list_step(z, step, v)->Some_0;
        assert(replay(start, steps, k, upsert, path)->Ok_0 == ValueView::List(after));
        match step {
            ListAction::Remove(i) => {
                lemma_lcs_remove(z, y, i as int, z.len(), y.len());
            },
            ListAction::Insert(i) => {
                assert(after.remove(i as int) =~= z);
                lemma_lcs_remove(after, y, i as int, after.len(), y.len());
            },
            _ => {},
        }
    }
}

/// No script of removals and insertions that turns `x` into `y` has fewer
/// steps than the script that the diff of the two lists gives.
pub proof fn lemma_script_is_shortest(
    x: Seq<ValueView>,
    y: Seq<ValueView>,
    other: Seq<EntryView>,
    upsert: bool,
    path: Seq<char>,
)
    requires
        removes_and_inserts(other),
        replay(ValueView::List(x), other, other.len(), upsert, path) == Ok::<ValueView, Fault>(
            ValueView::List(y),
        ),
    ensures
        list_script(x, y).len() <= other.len(),
{
    lemma_steps_needed(x, y, other, other.len(), upsert, path);
    lemma_lcs_self(y, y.len());
    assert(distance(y, y) == 0);
    lemma_trim_symmetric(x, y);
    let t = trim(x, y);
    let a = middle(x, y);
    let b = middle(y, x);
    if swap_fits(a, b) {
        lemma_prefix_len(x, y, 0);
        assert(a[0] == x[t.head as int]);
        assert(b[0] == y[t.head as int]);
        if other.len() == 0 {
            assert(x == y);
        }
    } else {
        lemma_script_run_len(a, b, a.len(), b.len(), t.head, Seq::empty());
        lemma_lcs_trim(x, y);
    }
}

} // verus!

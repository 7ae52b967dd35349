//! Counting what a patch asks for, before it is applied.

use crate::action::{Action, ActionView};
use crate::error::ProteanError;
use crate::patch::{EntryView, Patch, PatchAction, PatchValue, PayloadView};
use vstd::prelude::*;
use vstd::string::StringExecFns;

verus! {

/// A counter for the actions on one target.
#[derive(Debug)]
pub struct PatchStat {
    /// The field that is acted on; for the patch itself, its name.
    target: String,
    /// The word for the action; `Patch` where a patch is replayed.
    action: String,
    /// How many actions that change something stand here and below.
    count: usize,
    /// The counters of the entries of a nested patch, in order.
    children: Vec<PatchStat>,
}

/// The counters of a patch, and the errors met while it was applied.
#[derive(Debug)]
pub struct PatchResult {
    /// The counters, from the patch down.
    stats: PatchStat,
    /// The errors by the path of their field; none before the patch is
    /// applied.
    errors: Vec<(String, Vec<ProteanError>)>,
}

/// The word for an action.
pub open spec fn action_word(a: ActionView) -> Seq<char> {
    match a {
        ActionView::Null => "Null"@,
        ActionView::Reset => "Reset"@,
        ActionView::Clear => "Clear"@,
        ActionView::Replace => "Set"@,
        ActionView::List(_) => "List"@,
        ActionView::Keyed(_) => "Map"@,
    }
}

/// How many actions that change something an entry stands for: none for
/// `Null`, one for a leaf action, those of the nested patch otherwise.
pub open spec fn count_entry(e: EntryView) -> nat
    decreases e,
{
    if e.action is Null {
        0
    } else {
        match e.payload {
            PayloadView::Value(_) => 1,
            PayloadView::Patch(p) => count_entries(p.actions, p.actions.len()),
        }
    }
}

/// How many actions that change something the first `n` entries stand for.
pub open spec fn count_entries(entries: Seq<EntryView>, n: nat) -> nat
    decreases entries, n,
{
    if n == 0 || n > entries.len() {
        0
    } else {
        count_entries(entries, (n - 1) as nat) + count_entry(entries[n - 1])
    }
}

/// A count as a machine word can hold it: itself, or the largest word.
pub open spec fn capped(n: nat) -> usize {
    if n <= usize::MAX {
        n as usize
    } else {
        usize::MAX
    }
}

/// The sum of two counts, or the largest word where it does not fit.
fn add_capped(a: usize, b: usize) -> (r: usize)
    ensures
        r == capped((a + b) as nat),
{
    if a > usize::MAX - b {
        usize::MAX
    } else {
        a + b
    }
}

/// The word for an action.
fn word(a: &Action) -> (r: String)
    ensures
        r@ == action_word(a@),
{
    match a {
        Action::Null => String::from_str("Null"),
        Action::Reset => String::from_str("Reset"),
        Action::Clear => String::from_str("Clear"),
        Action::Replace => String::from_str("Set"),
        Action::List(_) => String::from_str("List"),
        Action::Keyed(_) => String::from_str("Map"),
    }
}

impl PatchStat {
    /// The field that is acted on.
    pub fn target(&self) -> (r: &String)
        ensures
            r@ == self.aim(),
    {
        &self.target
    }

    /// The target, as a specification.
    pub closed spec fn aim(&self) -> Seq<char> {
        self.target@
    }

    /// The word for the action.
    pub fn action(&self) -> (r: &String)
        ensures
            r@ == self.word(),
    {
        &self.action
    }

    /// The word for the action, as a specification.
    pub closed spec fn word(&self) -> Seq<char> {
        self.action@
    }

    /// How many counters stand below this one, as a specification.
    pub closed spec fn fanout(&self) -> nat {
        self.children@.len()
    }

    /// How many actions that change something stand here and below.
    pub fn count(&self) -> (r: usize)
        ensures
            r == self.total(),
    {
        self.count
    }

    /// The count, as a specification.
    pub closed spec fn total(&self) -> usize {
        self.count
    }

    /// The counters of the entries below, in order.
    pub fn children(&self) -> (r: &Vec<PatchStat>)
        ensures
            r@.len() == self.fanout(),
    {
        &self.children
    }

    /// The counter of one entry.
    pub fn of_entry(e: &PatchAction) -> (r: PatchStat)
        ensures
            r.total() == capped(count_entry(e@)),
            r.aim() == e@.key(),
            r.word() == action_word(e@.action),
            r.fanout() == match e@.payload {
                PayloadView::Value(_) => 0,
                PayloadView::Patch(p) => p.actions.len(),
            },
        decreases e@,
    {
        let skipped = match e.action() {
            Action::Null => true,
            _ => false,
        };
        match e.payload() {
            PatchValue::Value(_) => PatchStat {
                target: e.get_name(),
                action: word(e.action()),
                count: if skipped {
                    0
                } else {
                    1
                },
                children: Vec::new(),
            },
            PatchValue::Patch(p) => {
                assert(e@.payload == PayloadView::Patch(p@));
                assert(decreases_to!(e@ => e@.payload->Patch_0));
                let below = PatchStat::of_patch(p);
                PatchStat {
                    target: e.get_name(),
                    action: word(e.action()),
                    count: if skipped {
                        0
                    } else {
                        below.count
                    },
                    children: below.children,
                }
            },
        }
    }

    /// The counter of a patch, with one child for each of its entries.
    pub fn of_patch(patch: &Patch) -> (r: PatchStat)
        ensures
            r.total() == capped(count_entries(patch@.actions, patch@.actions.len())),
            r.aim() == patch@.name,
            r.word() == "Patch"@,
            r.fanout() == patch@.actions.len(),
        decreases patch@,
    {
        let mut children: Vec<PatchStat> = Vec::new();
        let mut count: usize = 0;
        let mut n: usize = 0;
        while n < patch.len()
            invariant
                n <= patch@.actions.len(),
                children@.len() == n,
                count == capped(count_entries(patch@.actions, n as nat)),
            decreases patch@.actions.len() - n,
        {
            let e = patch.entry(n);
            assert(decreases_to!(patch@ => e@));
            let child = PatchStat::of_entry(e);
            count = add_capped(count, child.count);
            children.push(child);
            n += 1;
        }
        PatchStat { target: patch.get_name(), action: String::from_str("Patch"), count, children }
    }
}

impl PatchResult {
    /// Counts what a patch asks for, before it is applied: the number of
    /// actions that change something, here and in every nested patch.
    pub fn from_patch(patch: &Patch) -> (r: PatchResult)
        ensures
            r.count() == capped(count_entries(patch@.actions, patch@.actions.len())),
            r.failures() == 0,
    {
        PatchResult { stats: PatchStat::of_patch(patch), errors: Vec::new() }
    }

    /// The count of the patch, as a specification.
    pub closed spec fn count(&self) -> usize {
        self.stats.total()
    }

    /// How many fields have errors, as a specification.
    pub closed spec fn failures(&self) -> nat {
        self.errors@.len()
    }

    /// The counters, from the patch down.
    pub fn stats(&self) -> (r: &PatchStat)
        ensures
            r.total() == self.count(),
    {
        &self.stats
    }

    /// The errors by the path of their field.
    pub fn errors(&self) -> (r: &Vec<(String, Vec<ProteanError>)>)
        ensures
            r@.len() == self.failures(),
    {
        &self.errors
    }
}

} // verus!

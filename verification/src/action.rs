//! The kinds of mutation a patch can ask for.

use vstd::prelude::*;

verus! {

/// What a patch does to one field.
#[derive(Debug, Clone)]
pub enum Action {
    /// Nothing: the field is left as it is. Never written to the wire.
    Null,
    /// Restore the default of the field's type.
    Reset,
    /// Empty the field in the manner of its genre: a number becomes `0`, a
    /// string `""`, a nested record has every field cleared.
    Clear,
    /// Put the carried value in the field's place, as a whole.
    Replace,
    /// One step on an ordered sequence.
    List(ListAction),
    /// One step on a dictionary.
    Keyed(MapAction),
}

/// One step on an ordered sequence.
#[derive(Debug, Clone, Copy, PartialEq, Eq, Structural)]
pub enum ListAction {
    /// Exchange the items at the two positions.
    Swap(usize, usize),
    /// Take out the item at the position; later items move left.
    Remove(usize),
    /// Put the carried value before the position; later items move right.
    Insert(usize),
    /// Put the carried value after the last item.
    Append(),
}

/// One step on a dictionary.
#[derive(Debug, Clone)]
pub enum MapAction {
    /// Add the carried value under the key.
    Insert(String),
    /// Change the value under the key to the carried one.
    Update(String),
    /// Take the key out.
    Delete(String),
}

/// The mathematical content of a [`MapAction`].
pub enum MapActionView {
    Insert(Seq<char>),
    Update(Seq<char>),
    Delete(Seq<char>),
}

impl MapActionView {
    /// The key that the step works on.
    pub open spec fn key(self) -> Seq<char> {
        match self {
            MapActionView::Insert(k) => k,
            MapActionView::Update(k) => k,
            MapActionView::Delete(k) => k,
        }
    }
}

impl View for MapAction {
    type V = MapActionView;

    open spec fn view(&self) -> MapActionView {
        match self {
            MapAction::Insert(k) => MapActionView::Insert(k@),
            MapAction::Update(k) => MapActionView::Update(k@),
            MapAction::Delete(k) => MapActionView::Delete(k@),
        }
    }
}

impl MapAction {
    /// The key that the step works on.
    pub fn key(&self) -> (k: &String)
        ensures
            k@ == self@.key(),
    {
        match self {
            MapAction::Insert(k) => k,
            MapAction::Update(k) => k,
            MapAction::Delete(k) => k,
        }
    }

    /// A copy of this step.
    pub fn copy(&self) -> (r: MapAction)
        ensures
            r@ == self@,
    {
        match self {
            MapAction::Insert(k) => MapAction::Insert(k.clone()),
            MapAction::Update(k) => MapAction::Update(k.clone()),
            MapAction::Delete(k) => MapAction::Delete(k.clone()),
        }
    }
}

/// The mathematical content of an [`Action`].
pub enum ActionView {
    Null,
    Reset,
    Clear,
    Replace,
    List(ListAction),
    Keyed(MapActionView),
}

impl View for Action {
    type V = ActionView;

    open spec fn view(&self) -> ActionView {
        match self {
            Action::Null => ActionView::Null,
            Action::Reset => ActionView::Reset,
            Action::Clear => ActionView::Clear,
            Action::Replace => ActionView::Replace,
            Action::List(step) => ActionView::List(*step),
            Action::Keyed(step) => ActionView::Keyed(step@),
        }
    }
}

impl Action {
    /// A copy of this action.
    pub fn copy(&self) -> (r: Action)
        ensures
            r@ == self@,
    {
        match self {
            Action::Null => Action::Null,
            Action::Reset => Action::Reset,
            Action::Clear => Action::Clear,
            Action::Replace => Action::Replace,
            Action::List(step) => Action::List(*step),
            Action::Keyed(step) => Action::Keyed(step.copy()),
        }
    }

    /// Whether two actions are the same, keys and positions included.
    pub fn same(&self, other: &Action) -> (r: bool)
        ensures
            r == (self@ == other@),
    {
        match self {
            Action::Null => matches!(other, Action::Null),
            Action::Reset => matches!(other, Action::Reset),
            Action::Clear => matches!(other, Action::Clear),
            Action::Replace => matches!(other, Action::Replace),
            Action::List(a) => match other {
                Action::List(b) => *a == *b,
                _ => false,
            },
            Action::Keyed(a) => match other {
                Action::Keyed(b) => match a {
                    MapAction::Insert(x) => match b {
                        MapAction::Insert(y) => crate::text::same_text(x, y),
                        _ => false,
                    },
                    MapAction::Update(x) => match b {
                        MapAction::Update(y) => crate::text::same_text(x, y),
                        _ => false,
                    },
                    MapAction::Delete(x) => match b {
                        MapAction::Delete(y) => crate::text::same_text(x, y),
                        _ => false,
                    },
                },
                _ => false,
            },
        }
    }
}

/// How a patch is to be applied.
#[derive(Debug, Clone, Copy, PartialEq, Eq, Structural)]
pub struct PatchOptions {
    /// Whether an insert under a key that is present, or an update under one
    /// that is absent, is carried out all the same.
    allow_upsert: bool,
}

impl PatchOptions {
    /// Options with the given setting.
    pub fn new(allow_upsert: bool) -> (r: PatchOptions)
        ensures
            r.upserts() == allow_upsert,
    {
        PatchOptions { allow_upsert }
    }

    /// Whether upserts are allowed, as a specification.
    pub closed spec fn upserts(self) -> bool {
        self.allow_upsert
    }

    /// Whether upserts are allowed.
    pub fn allow_upsert(&self) -> (r: bool)
        ensures
            r == self.upserts(),
    {
        self.allow_upsert
    }
}

impl Default for PatchOptions {
    /// Upserts are allowed unless they are switched off.
    fn default() -> (r: PatchOptions)
        ensures
            r.upserts(),
    {
        PatchOptions { allow_upsert: true }
    }
}

} // verus!

//! A transferable set of mutations that turns one record into another.

use crate::action::{Action, ActionView, PatchOptions};
use crate::error::{dotted, Failure, Fault, ProteanError};
use crate::text::{
    distinct, lemma_position_absent, lemma_position_found, position, same_str, same_text,
};
use crate::error::join_path;
use crate::value::{fingerprint, FieldValue, ValueView};
use vstd::prelude::*;

verus! {

/// A value under the name of the field it belongs to.
#[derive(Debug)]
pub struct Field {
    /// The field's name.
    pub name: String,
    /// What the field holds.
    pub value: FieldValue,
    /// Why the field has no projection, where it has none; `value` is then
    /// of no account. Such a field can be added to a patch, but the patch
    /// can neither be written nor applied.
    pub lost: Option<String>,
}

/// The mathematical content of a [`Field`].
pub struct FieldView {
    pub name: Seq<char>,
    pub value: ValueView,
    pub lost: Option<Seq<char>>,
}

impl View for Field {
    type V = FieldView;

    open spec fn view(&self) -> FieldView {
        FieldView { name: self.name@, value: self.value@, lost: text_option_view(self.lost) }
    }
}

impl Field {
    /// The value `value` under the name `name`.
    pub fn new(name: String, value: FieldValue) -> (r: Field)
        ensures
            r@ == (FieldView { name: name@, value: value@, lost: None }),
    {
        Field { name, value, lost: None }
    }

    /// The field `name` whose projection failed with the message `why`.
    pub fn unprojected(name: String, why: String) -> (r: Field)
        ensures
            r@ == (FieldView { name: name@, value: ValueView::Null, lost: Some(why@) }),
    {
        Field { name, value: FieldValue::Null, lost: Some(why) }
    }

    /// A deep copy.
    pub fn copy(&self) -> (r: Field)
        ensures
            r@ == self@,
    {
        Field {
            name: self.name.clone(),
            value: self.value.copy(),
            lost: match &self.lost {
                Some(why) => Some(why.clone()),
                None => None,
            },
        }
    }
}

/// What an action carries: the value for a leaf field, or the patch for the
/// record or container below it.
#[derive(Debug)]
pub enum PatchValue {
    Value(Field),
    Patch(Patch),
}

/// One field's mutation.
#[derive(Debug)]
pub struct PatchAction {
    action: Action,
    /// The value to use when the action is carried out.
    value: PatchValue,
    /// The fingerprint that the field's value must have before the action.
    expected: Option<u64>,
}

/// The actions of a patch, in the order in which they were added, no two
/// under the same field name.
#[derive(Debug)]
pub struct PatchActions(Vec<PatchAction>);

/// A named, versioned set of field mutations.
#[derive(Debug)]
pub struct Patch {
    /// The type this patch is for; for a patch below a field, that field's
    /// name.
    name: String,
    /// The version of the type, where it has one.
    version: Option<String>,
    /// How the patch is applied; a nested patch without options goes by its
    /// parent's.
    options: Option<PatchOptions>,
    actions: PatchActions,
}

/// The mathematical content of a [`PatchValue`].
pub enum PayloadView {
    Value(FieldView),
    Patch(PatchView),
}

/// The mathematical content of a [`PatchAction`].
pub struct EntryView {
    pub action: ActionView,
    pub payload: PayloadView,
    pub expected: Option<u64>,
}

/// The mathematical content of a [`Patch`].
pub struct PatchView {
    pub name: Seq<char>,
    pub version: Option<Seq<char>>,
    pub options: Option<bool>,
    pub actions: Seq<EntryView>,
}

impl PayloadView {
    /// The field name that a payload stands under.
    pub open spec fn key(self) -> Seq<char> {
        match self {
            PayloadView::Value(f) => f.name,
            PayloadView::Patch(p) => p.name,
        }
    }
}

impl EntryView {
    /// The field name that the action is for.
    pub open spec fn key(self) -> Seq<char> {
        self.payload.key()
    }
}

/// The field names of the entries, in order.
pub open spec fn keys_of(entries: Seq<EntryView>) -> Seq<Seq<char>> {
    Seq::new(entries.len(), |i: int| entries[i].key())
}

impl PatchView {
    /// Whether the patch is well formed: no two actions are for the same
    /// field, here and in every nested patch.
    pub open spec fn wf(self) -> bool
        decreases self,
    {
        &&& distinct(keys_of(self.actions))
        &&& forall|i: int|
            0 <= i < self.actions.len() ==> match (#[trigger] self.actions[i]).payload {
                PayloadView::Value(_) => true,
                PayloadView::Patch(p) => p.wf(),
            }
    }

    /// The position of the action for the field `key`, if there is one.
    pub open spec fn find(self, key: Seq<char>) -> Option<int> {
        position(keys_of(self.actions), key)
    }

    /// The patch with the entry `e` added at the end, or the refusal of a
    /// second action for a field.
    pub open spec fn add(self, e: EntryView) -> Result<PatchView, Fault> {
        if self.find(e.key()) is Some {
            Err(Fault { kind: ProteanError::DuplicateKey, field: e.key() })
        } else {
            Ok(PatchView { actions: self.actions.push(e), ..self })
        }
    }
}

/// The view of an optional string.
pub open spec fn text_option_view(s: Option<String>) -> Option<Seq<char>> {
    match s {
        Some(t) => Some(t@),
        None => None,
    }
}

/// The view of optional options: whether upserts are allowed.
pub open spec fn options_view(o: Option<PatchOptions>) -> Option<bool> {
    match o {
        Some(x) => Some(x.upserts()),
        None => None,
    }
}

/// The content of a payload.
pub open spec fn payload_view(v: PatchValue) -> PayloadView
    decreases v,
{
    match v {
        PatchValue::Value(f) => PayloadView::Value(f@),
        PatchValue::Patch(p) => PayloadView::Patch(patch_view(p)),
    }
}

/// The content of an entry.
pub closed spec fn entry_view(a: PatchAction) -> EntryView
    decreases a,
{
    EntryView { action: a.action@, payload: payload_view(a.value), expected: a.expected }
}

/// The contents of entries, in order.
pub closed spec fn entries_view(s: Seq<PatchAction>) -> Seq<EntryView>
    decreases s,
{
    Seq::new(
        s.len(),
        |i: int| if 0 <= i < s.len() {
            entry_view(s[i])
        } else {
            arbitrary()
        },
    )
}

/// The content of a patch.
pub closed spec fn patch_view(p: Patch) -> PatchView
    decreases p,
{
    PatchView {
        name: p.name@,
        version: text_option_view(p.version),
        options: options_view(p.options),
        actions: entries_view(p.actions.0@),
    }
}

impl View for PatchValue {
    type V = PayloadView;

    open spec fn view(&self) -> PayloadView {
        payload_view(*self)
    }
}

impl View for PatchAction {
    type V = EntryView;

    open spec fn view(&self) -> EntryView {
        entry_view(*self)
    }
}

impl View for PatchActions {
    type V = Seq<EntryView>;

    closed spec fn view(&self) -> Seq<EntryView> {
        entries_view(self.0@)
    }
}

impl View for Patch {
    type V = PatchView;

    open spec fn view(&self) -> PatchView {
        patch_view(*self)
    }
}

impl PatchValue {
    /// The field name that this payload stands under.
    pub fn get_field_name(&self) -> (r: String)
        ensures
            r@ == self@.key(),
    {
        match self {
            PatchValue::Value(val) => val.name.clone(),
            PatchValue::Patch(patch) => patch.get_name(),
        }
    }

    /// A deep copy.
    pub fn copy(&self) -> (r: PatchValue)
        ensures
            r@ == self@,
        decreases self,
    {
        match self {
            PatchValue::Value(val) => PatchValue::Value(val.copy()),
            PatchValue::Patch(patch) => PatchValue::Patch(patch.copy()),
        }
    }
}

impl PatchAction {
    /// The action `action` on a leaf field, carrying `value`.
    pub fn new(action: Action, value: Field, expected: Option<u64>) -> (r: PatchAction)
        ensures
            r@ == (EntryView { action: action@, payload: PayloadView::Value(value@), expected }),
    {
        PatchAction { action, value: PatchValue::Value(value), expected }
    }

    /// The action `action` on a record or container, carrying the patch for
    /// what is below it.
    pub fn nested(action: Action, patch: Patch, expected: Option<u64>) -> (r: PatchAction)
        ensures
            r@ == (EntryView { action: action@, payload: PayloadView::Patch(patch@), expected }),
    {
        PatchAction { action, value: PatchValue::Patch(patch), expected }
    }

    /// The name of the field that the action is for.
    pub fn get_name(&self) -> (r: String)
        ensures
            r@ == self@.key(),
    {
        self.value.get_field_name()
    }

    /// What is done to the field.
    pub fn action(&self) -> (r: &Action)
        ensures
            r@ == self@.action,
    {
        &self.action
    }

    /// What the action carries.
    pub fn payload(&self) -> (r: &PatchValue)
        ensures
            r@ == self@.payload,
    {
        &self.value
    }

    /// The fingerprint that the field must have before the action.
    pub fn expected(&self) -> (r: Option<u64>)
        ensures
            r == self@.expected,
    {
        self.expected
    }

    /// A deep copy.
    pub fn copy(&self) -> (r: PatchAction)
        ensures
            r@ == self@,
        decreases self,
    {
        PatchAction { action: self.action.copy(), value: self.value.copy(), expected: self.expected }
    }
}

impl PatchActions {
    /// No actions.
    pub fn new() -> (r: PatchActions)
        ensures
            r@ == Seq::<EntryView>::empty(),
    {
        let r = PatchActions(Vec::new());
        assert(r@ =~= Seq::<EntryView>::empty());
        r
    }

    /// How many actions there are.
    pub fn len(&self) -> (n: usize)
        ensures
            n == self@.len(),
    {
        self.0.len()
    }

    /// The action at position `i`.
    pub fn get(&self, i: usize) -> (r: &PatchAction)
        requires
            i < self@.len(),
        ensures
            r@ == self@[i as int],
    {
        &self.0[i]
    }

    /// The position of the action for the field `key`, if there is one.
    pub fn find(&self, key: &str) -> (r: Option<usize>)
        ensures
            match r {
                Some(i) => position(keys_of(self@), key@) == Some(i as int),
                None => position(keys_of(self@), key@) is None,
            },
    {
        let mut i: usize = 0;
        while i < self.0.len()
            invariant
                i <= self.0.len(),
                forall|j: int| 0 <= j < i ==> keys_of(self@)[j] != key@,
            decreases self.0.len() - i,
        {
            let name = self.0[i].get_name();
            if same_str(name.as_str(), key) {
                proof {
                    lemma_position_found(keys_of(self@), key@, i as int);
                }
                return Some(i);
            }
            i += 1;
        }
        proof {
            lemma_position_absent(keys_of(self@), key@);
        }
        None
    }

    /// Adds an action, unless there is one for the same field already.
    pub fn add(&mut self, action: PatchAction) -> (r: Result<(), ProteanError>)
        ensures
            match r {
                Ok(_) => position(keys_of(old(self)@), action@.key()) is None && final(self)@
                    == old(self)@.push(action@),
                Err(e) => position(keys_of(old(self)@), action@.key()) is Some && e
                    == ProteanError::DuplicateKey && final(self)@ == old(self)@,
            },
    {
        let name = action.get_name();
        match self.find(name.as_str()) {
            Some(_) => Err(ProteanError::DuplicateKey),
            None => {
                self.0.push(action);
                assert(self@ =~= old(self)@.push(action@));
                Ok(())
            },
        }
    }

    /// A deep copy.
    pub fn copy(&self) -> (r: PatchActions)
        ensures
            r@ == self@,
        decreases self,
    {
        let mut out: Vec<PatchAction> = Vec::new();
        let mut i: usize = 0;
        while i < self.0.len()
            invariant
                i <= self.0.len(),
                out@.len() == i,
                decreases_to!(self => self.0),
                forall|j: int| 0 <= j < i ==> out@[j]@ == self.0@[j]@,
            decreases self.0.len() - i,
        {
            assert(decreases_to!(self.0 => self.0[i as int]));
            out.push(self.0[i].copy());
            i += 1;
        }
        let r = PatchActions(out);
        assert(r@ =~= self@);
        r
    }
}

impl Patch {
    /// An empty patch for the type `name`, with upserts allowed.
    pub fn new(name: String) -> (r: Patch)
        ensures
            r@ == (PatchView {
                name: name@,
                version: None,
                options: Some(true),
                actions: Seq::empty(),
            }),
            r@.wf(),
    {
        Patch {
            name,
            version: None,
            options: Some(PatchOptions::default()),
            actions: PatchActions::new(),
        }
    }

    /// The type the patch is for.
    pub fn get_name(&self) -> (r: String)
        ensures
            r@ == self@.name,
    {
        self.name.clone()
    }

    /// The version of the type, where the patch states one.
    pub fn get_version(&self) -> (r: Option<String>)
        ensures
            text_option_view(r) == self@.version,
    {
        match &self.version {
            Some(v) => Some(v.clone()),
            None => None,
        }
    }

    /// States the version of the type.
    pub fn set_version(&mut self, version: Option<String>)
        ensures
            final(self)@ == (PatchView { version: text_option_view(version), ..old(self)@ }),
    {
        self.version = version;
    }

    /// The options of this patch, where it has its own.
    pub fn get_options(&self) -> (r: Option<PatchOptions>)
        ensures
            options_view(r) == self@.options,
    {
        self.options
    }

    /// Sets or removes the options of this patch.
    pub fn set_options(&mut self, options: Option<PatchOptions>)
        ensures
            final(self)@ == (PatchView { options: options_view(options), ..old(self)@ }),
    {
        self.options = options;
    }

    /// Whether the patch holds no action.
    pub fn is_empty(&self) -> (r: bool)
        ensures
            r == (self@.actions.len() == 0),
    {
        self.actions.len() == 0
    }

    /// How many actions the patch holds.
    pub fn len(&self) -> (n: usize)
        ensures
            n == self@.actions.len(),
    {
        self.actions.len()
    }

    /// The action at position `i`.
    pub fn entry(&self, i: usize) -> (r: &PatchAction)
        requires
            i < self@.actions.len(),
        ensures
            r@ == self@.actions[i as int],
    {
        self.actions.get(i)
    }

    /// The position of the action for the field `key`, if there is one.
    pub fn find(&self, key: &str) -> (r: Option<usize>)
        ensures
            match r {
                Some(i) => self@.find(key@) == Some(i as int),
                None => self@.find(key@) is None,
            },
    {
        self.actions.find(key)
    }

    /// A deep copy.
    pub fn copy(&self) -> (r: Patch)
        ensures
            r@ == self@,
        decreases self,
    {
        Patch {
            name: self.name.clone(),
            version: match &self.version {
                Some(v) => Some(v.clone()),
                None => None,
            },
            options: self.options,
            actions: self.actions.copy(),
        }
    }
}

/// Adding an entry under a fresh key keeps a patch well formed.
pub proof fn lemma_push_wf(p: PatchView, e: EntryView)
    requires
        p.wf(),
        p.find(e.key()) is None,
        e.payload matches PayloadView::Patch(q) ==> q.wf(),
    ensures
        (PatchView { actions: p.actions.push(e), ..p }).wf(),
{
    let q = PatchView { actions: p.actions.push(e), ..p };
    crate::text::lemma_position(keys_of(p.actions), e.key());
    assert forall|i: int, j: int| 0 <= i < j < q.actions.len() implies keys_of(q.actions)[i]
        != keys_of(q.actions)[j] by {
        if j < p.actions.len() {
            assert(keys_of(p.actions)[i] != keys_of(p.actions)[j]);
        } else {
            assert(keys_of(p.actions)[i] != e.key());
        }
    }
    assert forall|i: int| 0 <= i < q.actions.len() implies match (#[trigger] q.actions[i]).payload {
        PayloadView::Value(_) => true,
        PayloadView::Patch(n) => n.wf(),
    } by {
        if i < p.actions.len() {
            assert(q.actions[i] == p.actions[i]);
        }
    }
}

/// Putting an entry in the place of one with the same key keeps a patch
/// well formed.
pub proof fn lemma_update_wf(p: PatchView, i: int, e: EntryView)
    requires
        p.wf(),
        0 <= i < p.actions.len(),
        e.key() == p.actions[i].key(),
        e.payload matches PayloadView::Patch(q) ==> q.wf(),
    ensures
        (PatchView { actions: p.actions.update(i, e), ..p }).wf(),
        keys_of(p.actions.update(i, e)) == keys_of(p.actions),
{
    let q = PatchView { actions: p.actions.update(i, e), ..p };
    assert(keys_of(q.actions) =~= keys_of(p.actions));
    assert forall|j: int| 0 <= j < q.actions.len() implies match (#[trigger] q.actions[j]).payload {
        PayloadView::Value(_) => true,
        PayloadView::Patch(n) => n.wf(),
    } by {
        if j != i {
            assert(q.actions[j] == p.actions[j]);
        }
    }
}

/// The result of merging the entry `theirs` into the entry `mine` for the
/// same field, at `path`.
///
/// Two nested patches are merged entry by entry. Two leaf actions agree if
/// they are the same action with the same value (or the same failed
/// projection); they chain if `mine` replaces the value and `theirs` expects
/// just that value, and then the later action stands under the earlier
/// expectation. Anything else is a conflict.
pub open spec fn reconcile(mine: EntryView, theirs: EntryView, path: Seq<char>) -> Result<
    EntryView,
    Fault,
>
    decreases theirs, 0nat,
{
    match (mine.payload, theirs.payload) {
        (PayloadView::Patch(p), PayloadView::Patch(q)) => match merge_entries(
            p.actions,
            q.actions,
            q.actions.len(),
            path,
        ) {
            Ok(actions) => Ok(
                EntryView {
                    action: mine.action,
                    payload: PayloadView::Patch(PatchView { actions, ..p }),
                    expected: mine.expected,
                },
            ),
            Err(f) => Err(f),
        },
        (PayloadView::Value(a), PayloadView::Value(b)) => if mine.action == theirs.action
            && a.value == b.value && a.lost == b.lost {
            Ok(mine)
        } else if mine.action is Replace && a.lost is None && theirs.expected == Some(
            fingerprint(a.value),
        ) {
            Ok(EntryView { action: theirs.action, payload: theirs.payload, expected: mine.expected })
        } else {
            Err(Fault { kind: ProteanError::DuplicateKey, field: path })
        },
        _ => Err(Fault { kind: ProteanError::DuplicateKey, field: path }),
    }
}

/// The result of merging one entry into the entries `cur`: it is added where
/// its field has no entry yet, and reconciled with the one that is there
/// otherwise.
pub open spec fn merge_one(cur: Seq<EntryView>, e: EntryView, path: Seq<char>) -> Result<
    Seq<EntryView>,
    Fault,
>
    decreases e, 1nat,
{
    match position(keys_of(cur), e.key()) {
        None => Ok(cur.push(e)),
        Some(i) => match reconcile(cur[i], e, dotted(path, e.key())) {
            Ok(m) => Ok(cur.update(i, m)),
            Err(f) => Err(f),
        },
    }
}

/// The result of merging the first `n` of the entries `incoming` into
/// `mine`, one after the other; the first conflict is the result.
pub open spec fn merge_entries(
    mine: Seq<EntryView>,
    incoming: Seq<EntryView>,
    n: nat,
    path: Seq<char>,
) -> Result<Seq<EntryView>, Fault>
    decreases incoming, n,
{
    if n == 0 || n > incoming.len() {
        Ok(mine)
    } else {
        match merge_entries(mine, incoming, (n - 1) as nat, path) {
            Ok(cur) => merge_one(cur, incoming[n - 1], path),
            Err(f) => Err(f),
        }
    }
}

impl PatchView {
    /// The result of merging the patch `other` into this one: this patch
    /// with the actions of both, or the first conflict.
    pub open spec fn merge(self, other: PatchView) -> Result<PatchView, Fault> {
        match merge_entries(self.actions, other.actions, other.actions.len(), Seq::empty()) {
            Ok(actions) => Ok(PatchView { actions, ..self }),
            Err(f) => Err(f),
        }
    }
}

/// A conflict among the first `n` entries is the result for every longer
/// prefix.
pub proof fn lemma_merge_conflict_stays(
    mine: Seq<EntryView>,
    incoming: Seq<EntryView>,
    n: nat,
    m: nat,
    path: Seq<char>,
)
    requires
        n <= m <= incoming.len(),
        merge_entries(mine, incoming, n, path) is Err,
    ensures
        merge_entries(mine, incoming, m, path) == merge_entries(mine, incoming, n, path),
    decreases m,
{
    if n < m {
        lemma_merge_conflict_stays(mine, incoming, n, (m - 1) as nat, path);
    }
}

/// Merges two entries for the same field.
fn reconcile_entries(mine: &PatchAction, theirs: &PatchAction, path: &str) -> (r: Result<
    PatchAction,
    Failure,
>)
    requires
        mine@.key() == theirs@.key(),
        mine@.payload matches PayloadView::Patch(p) ==> p.wf(),
        theirs@.payload matches PayloadView::Patch(p) ==> p.wf(),
    ensures
        match reconcile(mine@, theirs@, path@) {
            Ok(m) => r matches Ok(x) && x@ == m && m.key() == mine@.key() && (m.payload matches PayloadView::Patch(
                p,
            ) ==> p.wf()),
            Err(f) => r matches Err(x) && x@ == f,
        },
    decreases theirs, 0nat,
{
    match &mine.value {
        PatchValue::Patch(p) => match &theirs.value {
            PatchValue::Patch(q) => {
                match merge_actions(&p.actions, &q.actions, path) {
                    Ok(actions) => {
                        let merged = Patch {
                            name: p.name.clone(),
                            version: match &p.version {
                                Some(v) => Some(v.clone()),
                                None => None,
                            },
                            options: p.options,
                            actions,
                        };
                        Ok(
                            PatchAction {
                                action: mine.action.copy(),
                                value: PatchValue::Patch(merged),
                                expected: mine.expected,
                            },
                        )
                    },
                    Err(f) => Err(f),
                }
            },
            PatchValue::Value(_) => Err(
                Failure { kind: ProteanError::DuplicateKey, field: String::from_str(path) },
            ),
        },
        PatchValue::Value(a) => match &theirs.value {
            PatchValue::Value(b) => {
                assert(a@.name == b@.name);
                if mine.action.same(&theirs.action) && a.same(b) {
                    Ok(mine.copy())
                } else {
                    let chains = match &mine.action {
                        Action::Replace => match theirs.expected {
                            Some(x) => a.lost.is_none() && x == a.value.fingerprint(),
                            None => false,
                        },
                        _ => false,
                    };
                    if chains {
                        Ok(
                            PatchAction {
                                action: theirs.action.copy(),
                                value: theirs.value.copy(),
                                expected: mine.expected,
                            },
                        )
                    } else {
                        Err(Failure { kind: ProteanError::DuplicateKey, field: String::from_str(path) })
                    }
                }
            },
            PatchValue::Patch(_) => Err(
                Failure { kind: ProteanError::DuplicateKey, field: String::from_str(path) },
            ),
        },
    }
}

/// Merges the actions `theirs` into a copy of `mine`.
fn merge_actions(mine: &PatchActions, theirs: &PatchActions, path: &str) -> (r: Result<
    PatchActions,
    Failure,
>)
    requires
        (PatchView { name: Seq::empty(), version: None, options: None, actions: mine@ }).wf(),
        (PatchView { name: Seq::empty(), version: None, options: None, actions: theirs@ }).wf(),
    ensures
        match merge_entries(mine@, theirs@, theirs@.len(), path@) {
            Ok(m) => r matches Ok(x) && x@ == m && (PatchView {
                name: Seq::empty(),
                version: None,
                options: None,
                actions: m,
            }).wf(),
            Err(f) => r matches Err(x) && x@ == f,
        },
    decreases theirs, 1nat,
{
    let mut acc = mine.copy();
    let mut n: usize = 0;
    while n < theirs.0.len()
        invariant
            n <= theirs.0.len(),
            decreases_to!(theirs => theirs.0),
            theirs@.len() == theirs.0.len(),
            (PatchView { name: Seq::empty(), version: None, options: None, actions: theirs@ }).wf(),
            (PatchView { name: Seq::empty(), version: None, options: None, actions: acc@ }).wf(),
            merge_entries(mine@, theirs@, n as nat, path@) == Ok::<Seq<EntryView>, Fault>(acc@),
        decreases theirs.0.len() - n,
    {
        let ghost before = acc@;
        let ghost shell = PatchView { name: Seq::empty(), version: None, options: None, actions: before };
        let e = &theirs.0[n];
        assert(e@ == theirs@[n as int]);
        assert(decreases_to!(theirs.0 => theirs.0[n as int]));
        let key = e.get_name();
        assert(merge_entries(mine@, theirs@, (n + 1) as nat, path@) == merge_one(
            before,
            e@,
            path@,
        ));
        match acc.find(key.as_str()) {
            None => {
                let c = e.copy();
                acc.0.push(c);
                proof {
                    assert(acc@ =~= before.push(e@));
                    lemma_push_wf(shell, e@);
                }
            },
            Some(i) => {
                proof {
                    crate::text::lemma_position(keys_of(before), e@.key());
                    assert(keys_of(before)[i as int] == before[i as int].key());
                }
                let here = join_path(path, key.as_str());
                match reconcile_entries(&acc.0[i], e, here.as_str()) {
                    Ok(m) => {
                        acc.0.set(i, m);
                        proof {
                            assert(acc@ =~= before.update(i as int, m@));
                            lemma_update_wf(shell, i as int, m@);
                        }
                    },
                    Err(f) => {
                        proof {
                            lemma_merge_conflict_stays(
                                mine@,
                                theirs@,
                                (n + 1) as nat,
                                theirs@.len(),
                                path@,
                            );
                        }
                        return Err(f);
                    },
                }
            },
        }
        n += 1;
    }
    Ok(acc)
}

impl Patch {
    /// Adds an action, unless the patch has one for the same field already.
    pub fn add_entry(&mut self, entry: PatchAction) -> (r: Result<(), Failure>)
        requires
            old(self)@.wf(),
            entry@.payload matches PayloadView::Patch(p) ==> p.wf(),
        ensures
            final(self)@.wf(),
            match old(self)@.add(entry@) {
                Ok(p) => r is Ok && final(self)@ == p,
                Err(f) => r matches Err(x) && x@ == f && final(self)@ == old(self)@,
            },
    {
        let key = entry.get_name();
        match self.actions.find(key.as_str()) {
            Some(_) => Err(Failure { kind: ProteanError::DuplicateKey, field: key }),
            None => {
                proof {
                    lemma_push_wf(self@, entry@);
                }
                self.actions.0.push(entry);
                assert(self@.actions =~= old(self)@.actions.push(entry@));
                Ok(())
            },
        }
    }

    /// Adds the action `action` for the leaf field `field`.
    ///
    /// Fails with `DuplicateKey` when the patch has an action for a field of
    /// that name already; the patch is then left as it was.
    pub fn add_field(&mut self, action: Action, field: Field, expected: Option<u64>) -> (r: Result<
        (),
        Failure,
    >)
        requires
            old(self)@.wf(),
        ensures
            final(self)@.wf(),
            match old(self)@.add(
                EntryView { action: action@, payload: PayloadView::Value(field@), expected },
            ) {
                Ok(p) => r is Ok && final(self)@ == p,
                Err(f) => r matches Err(x) && x@ == f && final(self)@ == old(self)@,
            },
    {
        let act = PatchAction::new(action, field, expected);
        self.add_entry(act)
    }

    /// Combines the patch `other` into this one, if the two do not conflict.
    ///
    /// An action of `other` for a field that this patch does not touch is
    /// added as it is. Where both patches touch a field, two nested patches
    /// are merged in the same way, and two leaf actions must agree or chain
    /// (see [`reconcile`]). On a conflict the result is `DuplicateKey` with
    /// the path of the field, and this patch is left as it was. The name,
    /// version and options of this patch stay.
    pub fn merge(&mut self, other: Patch) -> (r: Result<(), Failure>)
        requires
            old(self)@.wf(),
            other@.wf(),
        ensures
            final(self)@.wf(),
            match old(self)@.merge(other@) {
                Ok(m) => r is Ok && final(self)@ == m,
                Err(f) => r matches Err(x) && x@ == f && final(self)@ == old(self)@,
            },
    {
        proof {
            lemma_wf_shell(self@);
            lemma_wf_shell(other@);
        }
        match merge_actions(&self.actions, &other.actions, "") {
            Ok(actions) => {
                proof {
                    reveal_strlit("");
                    assert(""@ =~= Seq::<char>::empty());
                    lemma_wf_shell(PatchView { actions: actions@, ..self@ });
                }
                self.actions = actions;
                Ok(())
            },
            Err(f) => {
                proof {
                    reveal_strlit("");
                    assert(""@ =~= Seq::<char>::empty());
                }
                Err(f)
            },
        }
    }
}

/// Whether a patch is well formed depends on its actions alone.
pub proof fn lemma_wf_shell(p: PatchView)
    ensures
        p.wf() == (PatchView { name: Seq::empty(), version: None, options: None, actions: p.actions }).wf(),
{
}

impl Field {
    /// Whether two named values are the same.
    pub fn same(&self, other: &Field) -> (r: bool)
        ensures
            r == (self@ == other@),
    {
        let lost = match &self.lost {
            Some(a) => match &other.lost {
                Some(b) => same_text(a, b),
                None => false,
            },
            None => other.lost.is_none(),
        };
        lost && same_text(&self.name, &other.name) && self.value.same(&other.value)
    }
}

impl PatchValue {
    /// Whether two payloads are the same.
    pub fn same(&self, other: &PatchValue) -> (r: bool)
        ensures
            r == (self@ == other@),
        decreases self,
    {
        match self {
            PatchValue::Value(a) => match other {
                PatchValue::Value(b) => a.same(b),
                PatchValue::Patch(_) => false,
            },
            PatchValue::Patch(a) => match other {
                PatchValue::Value(_) => false,
                PatchValue::Patch(b) => a.same(b),
            },
        }
    }
}

impl PatchAction {
    /// Whether two entries are the same: action, payload and expectation.
    pub fn same(&self, other: &PatchAction) -> (r: bool)
        ensures
            r == (self@ == other@),
        decreases self,
    {
        let expectations = match self.expected {
            Some(x) => match other.expected {
                Some(y) => x == y,
                None => false,
            },
            None => other.expected.is_none(),
        };
        expectations && self.action.same(&other.action) && self.value.same(&other.value)
    }
}

impl Patch {
    /// Whether two patches are the same: name, version, options and every
    /// action, in order.
    pub fn same(&self, other: &Patch) -> (r: bool)
        ensures
            r == (self@ == other@),
        decreases self,
    {
        if !same_text(&self.name, &other.name) {
            return false;
        }
        let versions = match &self.version {
            Some(a) => match &other.version {
                Some(b) => same_text(a, b),
                None => false,
            },
            None => other.version.is_none(),
        };
        let options = match self.options {
            Some(a) => match other.options {
                Some(b) => a.allow_upsert() == b.allow_upsert(),
                None => false,
            },
            None => other.options.is_none(),
        };
        if !versions || !options {
            return false;
        }
        if self.actions.0.len() != other.actions.0.len() {
            assert(self@.actions.len() != other@.actions.len());
            return false;
        }
        let mut i: usize = 0;
        while i < self.actions.0.len()
            invariant
                i <= self.actions.0.len(),
                self.actions.0.len() == other.actions.0.len(),
                decreases_to!(self => self.actions.0),
                forall|j: int| 0 <= j < i ==> self@.actions[j] == other@.actions[j],
            decreases self.actions.0.len() - i,
        {
            assert(decreases_to!(self.actions.0 => self.actions.0[i as int]));
            if !self.actions.0[i].same(&other.actions.0[i]) {
                assert(self@.actions[i as int] != other@.actions[i as int]);
                return false;
            }
            i += 1;
        }
        assert(self@.actions =~= other@.actions);
        true
    }
}

} // verus!

//! The value model: what a field of a record can hold.

use crate::text::same_text;
use vstd::prelude::*;

verus! {

/// A value as it is stored in a field and carried by a patch.
///
/// This is the canonical projection of any field: scalars, ordered
/// sequences, and dictionaries whose entries keep the order in which they
/// were inserted.
#[derive(Debug)]
pub enum FieldValue {
    /// The absent value.
    Null,
    /// A truth value.
    Bool(bool),
    /// A whole number.
    Int(i64),
    /// A whole number that may lie above the signed range, as fingerprints
    /// do. It is the same value as an `Int` of the same number.
    Unsigned(u64),
    /// A string.
    Text(String),
    /// An ordered sequence of values.
    List(Vec<FieldValue>),
    /// Key/value pairs, looked up by their first match.
    Dict(Vec<(String, FieldValue)>),
}

/// The mathematical content of a [`FieldValue`].
pub enum ValueView {
    Null,
    Bool(bool),
    Int(int),
    Text(Seq<char>),
    List(Seq<ValueView>),
    Dict(Seq<(Seq<char>, ValueView)>),
}

/// The views of the items of a list, in order.
pub open spec fn list_view(items: Seq<FieldValue>) -> Seq<ValueView>
    decreases items,
{
    Seq::new(items.len(), |i: int| if 0 <= i < items.len() { items[i].view() } else { ValueView::Null })
}

/// The views of the entries of a dictionary, in order.
pub open spec fn dict_view(entries: Seq<(String, FieldValue)>) -> Seq<(Seq<char>, ValueView)>
    decreases entries,
{
    Seq::new(
        entries.len(),
        |i: int| if 0 <= i < entries.len() {
            (entries[i].0@, entries[i].1.view())
        } else {
            (Seq::empty(), ValueView::Null)
        },
    )
}

impl View for FieldValue {
    type V = ValueView;

    open spec fn view(&self) -> ValueView
        decreases self,
    {
        match self {
            FieldValue::Null => ValueView::Null,
            FieldValue::Bool(b) => ValueView::Bool(*b),
            FieldValue::Int(i) => ValueView::Int(*i as int),
            FieldValue::Unsigned(u) => ValueView::Int(*u as int),
            FieldValue::Text(s) => ValueView::Text(s@),
            FieldValue::List(items) => ValueView::List(list_view(items@)),
            FieldValue::Dict(entries) => ValueView::Dict(dict_view(entries@)),
        }
    }
}

/// The genre of a value: what may replace it and what its empty form is.
#[derive(Debug, Clone, Copy, PartialEq, Eq, Structural)]
pub enum Kind {
    Null,
    Bool,
    Int,
    Text,
    List,
    Dict,
}

impl ValueView {
    /// The genre of this value.
    pub open spec fn kind(self) -> Kind {
        match self {
            ValueView::Null => Kind::Null,
            ValueView::Bool(_) => Kind::Bool,
            ValueView::Int(_) => Kind::Int,
            ValueView::Text(_) => Kind::Text,
            ValueView::List(_) => Kind::List,
            ValueView::Dict(_) => Kind::Dict,
        }
    }

    /// The empty value of the same genre: `0`, `""`, `false`, no items, no
    /// entries.
    pub open spec fn blank(self) -> ValueView {
        match self {
            ValueView::Null => ValueView::Null,
            ValueView::Bool(_) => ValueView::Bool(false),
            ValueView::Int(_) => ValueView::Int(0),
            ValueView::Text(_) => ValueView::Text(Seq::empty()),
            ValueView::List(_) => ValueView::List(Seq::empty()),
            ValueView::Dict(_) => ValueView::Dict(Seq::empty()),
        }
    }

    /// Whether a field that holds `self` may take `new` in its place: the
    /// genres agree, or one of the two is the absent value.
    pub open spec fn accepts(self, new: ValueView) -> bool {
        self.kind() == new.kind() || self is Null || new is Null
    }
}

/// The multiplier of the fingerprint's mixing step.
pub const FINGERPRINT_PRIME: u64 = 0x0000_0100_0000_01b3;

/// The state a fingerprint starts from.
pub const FINGERPRINT_SEED: u64 = 0xcbf2_9ce4_8422_2325;

/// One step of the fingerprint: fold the word `w` into the state `h`.
pub open spec fn mix(h: u64, w: u64) -> u64 {
    vstd::wrapping::u64_specs::wrapping_mul(h ^ w, FINGERPRINT_PRIME)
}

/// The state after the first `n` bytes were folded into `h`, one by one.
pub open spec fn fold_bytes(h: u64, bytes: Seq<u8>, n: nat) -> u64
    decreases n,
{
    if n == 0 || n > bytes.len() {
        h
    } else {
        mix(fold_bytes(h, bytes, (n - 1) as nat), bytes[n - 1] as u64)
    }
}

/// The fingerprint of a string: its UTF-8 bytes folded into the seed.
pub open spec fn text_fingerprint(s: Seq<char>) -> u64 {
    let bytes = vstd::utf8::encode_utf8(s);
    fold_bytes(FINGERPRINT_SEED, bytes, bytes.len())
}

/// The state after the fingerprints of the first `n` items were folded into
/// `h`.
pub open spec fn fold_items(h: u64, items: Seq<ValueView>, n: nat) -> u64
    decreases items, n,
{
    if n == 0 || n > items.len() {
        h
    } else {
        mix(fold_items(h, items, (n - 1) as nat), fingerprint(items[n - 1]))
    }
}

/// The state after the first `n` entries, key then value, were folded into
/// `h`.
pub open spec fn fold_entries(h: u64, entries: Seq<(Seq<char>, ValueView)>, n: nat) -> u64
    decreases entries, n,
{
    if n == 0 || n > entries.len() {
        h
    } else {
        mix(
            mix(fold_entries(h, entries, (n - 1) as nat), text_fingerprint(entries[n - 1].0)),
            fingerprint(entries[n - 1].1),
        )
    }
}

/// The fingerprint of a value: a 64-bit structural hash in the manner of
/// FNV-1a. It is a function of the value alone, so it is the same in every
/// process; a genre tag is mixed in first, then the content: the sign and
/// magnitude of a number, the UTF-8 bytes of a string, the fingerprints of
/// the items of a list in order, the key and value fingerprints of the
/// entries of a dictionary in order.
pub open spec fn fingerprint(v: ValueView) -> u64
    decreases v,
{
    match v {
        ValueView::Null => mix(FINGERPRINT_SEED, 0),
        ValueView::Bool(b) => mix(mix(FINGERPRINT_SEED, 1), if b { 1 } else { 0 }),
        ValueView::Int(i) => if i >= 0 {
            mix(mix(FINGERPRINT_SEED, 2), i as u64)
        } else {
            mix(mix(FINGERPRINT_SEED, 3), (-(i + 1)) as u64)
        },
        ValueView::Text(s) => mix(mix(FINGERPRINT_SEED, 4), text_fingerprint(s)),
        ValueView::List(items) => fold_items(mix(FINGERPRINT_SEED, 5), items, items.len()),
        ValueView::Dict(entries) => fold_entries(mix(FINGERPRINT_SEED, 6), entries, entries.len()),
    }
}

/// One step of the fingerprint.
fn mix_word(h: u64, w: u64) -> (r: u64)
    ensures
        r == mix(h, w),
{
    (h ^ w).wrapping_mul(FINGERPRINT_PRIME)
}

/// Computes the fingerprint of a string.
pub fn fingerprint_text(s: &str) -> (r: u64)
    ensures
        r == text_fingerprint(s@),
{
    let bytes = s.as_bytes();
    let mut h: u64 = FINGERPRINT_SEED;
    let mut i: usize = 0;
    while i < bytes.len()
        invariant
            i <= bytes.len(),
            bytes@ == vstd::utf8::encode_utf8(s@),
            h == fold_bytes(FINGERPRINT_SEED, bytes@, i as nat),
        decreases bytes.len() - i,
    {
        h = mix_word(h, bytes[i] as u64);
        i += 1;
    }
    h
}

impl FieldValue {
    /// The genre of this value.
    pub fn kind(&self) -> (k: Kind)
        ensures
            k == self@.kind(),
    {
        match self {
            FieldValue::Null => Kind::Null,
            FieldValue::Bool(_) => Kind::Bool,
            FieldValue::Int(_) => Kind::Int,
            FieldValue::Unsigned(_) => Kind::Int,
            FieldValue::Text(_) => Kind::Text,
            FieldValue::List(_) => Kind::List,
            FieldValue::Dict(_) => Kind::Dict,
        }
    }

    /// The empty value of the same genre.
    pub fn blank(&self) -> (r: FieldValue)
        ensures
            r@ == self@.blank(),
    {
        match self {
            FieldValue::Null => FieldValue::Null,
            FieldValue::Bool(_) => FieldValue::Bool(false),
            FieldValue::Int(_) => FieldValue::Int(0),
            FieldValue::Unsigned(_) => FieldValue::Int(0),
            FieldValue::Text(_) => FieldValue::Text(String::new()),
            FieldValue::List(_) => {
                let r = FieldValue::List(Vec::new());
                assert(r@->List_0 =~= Seq::empty());
                r
            },
            FieldValue::Dict(_) => {
                let r = FieldValue::Dict(Vec::new());
                assert(r@->Dict_0 =~= Seq::empty());
                r
            },
        }
    }

    /// Whether a field that holds `self` may take `new` in its place.
    pub fn accepts(&self, new: &FieldValue) -> (r: bool)
        ensures
            r == self@.accepts(new@),
    {
        let a = self.kind();
        let b = new.kind();
        a == b || a == Kind::Null || b == Kind::Null
    }

    /// Whether two values have the same content.
    pub fn same(&self, other: &FieldValue) -> (r: bool)
        ensures
            r == (self@ == other@),
        decreases self,
    {
        match self {
            FieldValue::Null => match other {
                FieldValue::Null => true,
                _ => false,
            },
            FieldValue::Bool(x) => match other {
                FieldValue::Bool(y) => *x == *y,
                _ => false,
            },
            FieldValue::Int(x) => match other {
                FieldValue::Int(y) => *x == *y,
                FieldValue::Unsigned(y) => *x >= 0 && *x as u64 == *y,
                _ => false,
            },
            FieldValue::Unsigned(x) => match other {
                FieldValue::Int(y) => *y >= 0 && *y as u64 == *x,
                FieldValue::Unsigned(y) => *x == *y,
                _ => false,
            },
            FieldValue::Text(x) => match other {
                FieldValue::Text(y) => same_text(x, y),
                _ => false,
            },
            FieldValue::List(x) => match other {
                FieldValue::List(y) => {
                    if x.len() != y.len() {
                        assert(list_view(x@).len() != list_view(y@).len());
                        return false;
                    }
                    let mut i: usize = 0;
                    while i < x.len()
                        invariant
                            i <= x.len(),
                            x.len() == y.len(),
                            *self == FieldValue::List(*x),
                            decreases_to!(self => x),
                            *other == FieldValue::List(*y),
                            forall|j: int| 0 <= j < i ==> x@[j]@ == y@[j]@,
                        decreases x.len() - i,
                    {
                        assert(decreases_to!(x => x[i as int]));
                        if !x[i].same(&y[i]) {
                            assert(list_view(x@)[i as int] != list_view(y@)[i as int]);
                            return false;
                        }
                        i += 1;
                    }
                    assert(list_view(x@) =~= list_view(y@));
                    assert(self@ == other@);
                    true
                },
                _ => false,
            },
            FieldValue::Dict(x) => match other {
                FieldValue::Dict(y) => {
                    if x.len() != y.len() {
                        assert(dict_view(x@).len() != dict_view(y@).len());
                        return false;
                    }
                    let mut i: usize = 0;
                    while i < x.len()
                        invariant
                            i <= x.len(),
                            x.len() == y.len(),
                            *self == FieldValue::Dict(*x),
                            decreases_to!(self => x),
                            *other == FieldValue::Dict(*y),
                            forall|j: int| 0 <= j < i ==> dict_view(x@)[j] == dict_view(y@)[j],
                        decreases x.len() - i,
                    {
                        assert(decreases_to!(x => x[i as int]));
                        if !same_text(&x[i].0, &y[i].0) || !x[i].1.same(&y[i].1) {
                            assert(dict_view(x@)[i as int] != dict_view(y@)[i as int]);
                            return false;
                        }
                        i += 1;
                    }
                    assert(dict_view(x@) =~= dict_view(y@));
                    assert(self@ == other@);
                    true
                },
                _ => false,
            },
        }
    }

    /// A deep copy of this value.
    pub fn copy(&self) -> (r: FieldValue)
        ensures
            r@ == self@,
        decreases self,
    {
        match self {
            FieldValue::Null => FieldValue::Null,
            FieldValue::Bool(b) => FieldValue::Bool(*b),
            FieldValue::Int(i) => FieldValue::Int(*i),
            FieldValue::Unsigned(u) => FieldValue::Unsigned(*u),
            FieldValue::Text(s) => FieldValue::Text(s.clone()),
            FieldValue::List(items) => {
                let mut out: Vec<FieldValue> = Vec::new();
                let mut i: usize = 0;
                while i < items.len()
                    invariant
                        i <= items.len(),
                        out@.len() == i,
                        *self == FieldValue::List(*items),
                        decreases_to!(self => items),
                        forall|j: int| 0 <= j < i ==> out@[j]@ == items@[j]@,
                    decreases items.len() - i,
                {
                    assert(decreases_to!(items => items[i as int]));
                    out.push(items[i].copy());
                    i += 1;
                }
                assert(list_view(out@) =~= list_view(items@));
                FieldValue::List(out)
            },
            FieldValue::Dict(entries) => {
                let mut out: Vec<(String, FieldValue)> = Vec::new();
                let mut i: usize = 0;
                while i < entries.len()
                    invariant
                        i <= entries.len(),
                        out@.len() == i,
                        *self == FieldValue::Dict(*entries),
                        decreases_to!(self => entries),
                        forall|j: int| 0 <= j < i ==> dict_view(out@)[j] == dict_view(entries@)[j],
                    decreases entries.len() - i,
                {
                    assert(decreases_to!(entries => entries[i as int]));
                    out.push((entries[i].0.clone(), entries[i].1.copy()));
                    i += 1;
                }
                assert(dict_view(out@) =~= dict_view(entries@));
                FieldValue::Dict(out)
            },
        }
    }

    /// The fingerprint of this value.
    pub fn fingerprint(&self) -> (r: u64)
        ensures
            r == fingerprint(self@),
        decreases self,
    {
        match self {
            FieldValue::Null => mix_word(FINGERPRINT_SEED, 0),
            FieldValue::Bool(b) => mix_word(mix_word(FINGERPRINT_SEED, 1), if *b { 1 } else { 0 }),
            FieldValue::Int(i) => {
                if *i >= 0 {
                    mix_word(mix_word(FINGERPRINT_SEED, 2), *i as u64)
                } else {
                    mix_word(mix_word(FINGERPRINT_SEED, 3), (-(*i + 1)) as u64)
                }
            },
            FieldValue::Unsigned(u) => mix_word(mix_word(FINGERPRINT_SEED, 2), *u),
            FieldValue::Text(s) => mix_word(mix_word(FINGERPRINT_SEED, 4), fingerprint_text(s.as_str())),
            FieldValue::List(items) => {
                let mut h: u64 = mix_word(FINGERPRINT_SEED, 5);
                let mut i: usize = 0;
                while i < items.len()
                    invariant
                        i <= items.len(),
                        *self == FieldValue::List(*items),
                        decreases_to!(self => items),
                        h == fold_items(mix(FINGERPRINT_SEED, 5), list_view(items@), i as nat),
                    decreases items.len() - i,
                {
                    assert(decreases_to!(items => items[i as int]));
                    h = mix_word(h, items[i].fingerprint());
                    i += 1;
                }
                h
            },
            FieldValue::Dict(entries) => {
                let mut h: u64 = mix_word(FINGERPRINT_SEED, 6);
                let mut i: usize = 0;
                while i < entries.len()
                    invariant
                        i <= entries.len(),
                        *self == FieldValue::Dict(*entries),
                        decreases_to!(self => entries),
                        h == fold_entries(mix(FINGERPRINT_SEED, 6), dict_view(entries@), i as nat),
                    decreases entries.len() - i,
                {
                    assert(decreases_to!(entries => entries[i as int]));
                    let k: u64 = fingerprint_text(entries[i].0.as_str());
                    h = mix_word(mix_word(h, k), entries[i].1.fingerprint());
                    i += 1;
                }
                h
            },
        }
    }
}

} // verus!

//! The rules by which a store takes in what it replicates.

use crate::apply::inherit;
use crate::error::{Failure, ProteanError};
use crate::laws::{lemma_diff_reflexive, lemma_names_stable, lemma_record_kept};
use crate::patch::Patch;
use crate::record::{names_of, Record, RecordView, Slot};
use crate::text::lemma_position_absent;
use crate::traits::Patchwork;
use vstd::prelude::*;
use vstd::string::StringExecFns;

verus! {

/// Why a store refused something.
#[derive(Debug, Clone, Copy, PartialEq, Eq, Structural)]
pub enum ReplicantError {
    /// Something without a key was offered as a root of the store.
    UnkeyedReplicantError,
}

/// How an item can be told from others of its type.
#[derive(Debug, Clone, Copy, PartialEq, Eq, Structural, Hash)]
pub enum KeyType {
    /// The item has no key at all.
    Unkeyed,
    /// The item has a key that is its own only within the place it is used
    /// in.
    Local,
    /// The item has a key that is its own everywhere.
    Global,
}

impl Default for KeyType {
    /// An item has no key unless it says so.
    fn default() -> (r: KeyType)
        ensures
            r == KeyType::Unkeyed,
    {
        KeyType::Unkeyed
    }
}

impl KeyType {
    /// Whether an item with such a key can be a root of a store: it can
    /// unless it has no key.
    pub fn check_root(self) -> (r: Result<(), ReplicantError>)
        ensures
            match self {
                KeyType::Unkeyed => r == Err::<(), ReplicantError>(
                    ReplicantError::UnkeyedReplicantError,
                ),
                KeyType::Local => r is Ok,
                KeyType::Global => r is Ok,
            },
    {
        match self {
            KeyType::Unkeyed => Err(ReplicantError::UnkeyedReplicantError),
            KeyType::Local => Ok(()),
            KeyType::Global => Ok(()),
        }
    }
}

/// The options with which something is registered at a store.
#[derive(Copy, Clone, Eq, PartialEq, Ord, PartialOrd, Hash, Debug, Default)]
pub struct Registrar {}

impl Registrar {
    /// The default options. This never fails.
    pub fn new() -> (r: Result<Registrar, ReplicantError>)
        ensures
            r == Ok::<Registrar, ReplicantError>(Registrar {  }),
    {
        Ok(Registrar {  })
    }
}

/// The record that describes any registrar: one of the type `Registrar`
/// without fields.
pub open spec fn registrar_model() -> RecordView {
    RecordView { name: "Registrar"@, version: None, fields: Seq::empty() }
}

impl Patchwork for Registrar {
    type Field = Slot;

    open spec fn model(&self) -> RecordView {
        registrar_model()
    }

    fn get_name(&self) -> (r: String) {
        String::from_str("Registrar")
    }

    fn get_field(&self, name: &str) -> (r: Result<Slot, ProteanError>) {
        proof {
            lemma_position_absent(names_of(registrar_model().fields), name@);
        }
        Err(ProteanError::FieldNotFound)
    }

    fn get_version(&self) -> (r: Option<String>) {
        None
    }

    /// A registrar has no fields: only a patch without actions is accepted,
    /// and it changes nothing.
    fn apply(&mut self, patch: Patch) -> (r: Result<Patch, Failure>) {
        let mut bare = Record::new(String::from_str("Registrar"));
        proof {
            let model = registrar_model();
            if model.apply(patch@) is Ok {
                let n = patch@.actions.len();
                let upsert = inherit(patch@.options, true);
                lemma_names_stable(model, patch@.actions, n, upsert, Seq::empty());
                lemma_record_kept(model, patch@.actions, n, upsert, Seq::empty());
                assert(model.apply(patch@)->Ok_0.0.fields =~= model.fields);
            }
        }
        bare.apply(patch)
    }

    /// Two registrars never differ: the patch between them is empty.
    fn diff(&self, other: &Registrar) -> (r: Result<Patch, Failure>) {
        proof {
            lemma_diff_reflexive(registrar_model());
        }
        Ok(Patch::new(String::from_str("Registrar")))
    }

    fn as_patch(&self) -> (r: Patch) {
        Patch::new(String::from_str("Registrar"))
    }

    fn values(&self) -> (r: Vec<Slot>) {
        Vec::new()
    }
}

/// Which changes a subscriber is told of.
#[derive(Clone, Eq, PartialEq, Debug)]
pub enum FilterType {
    /// No filter: every change.
    Off,
    /// The changes of the named fields.
    Fields(Vec<String>),
}

/// The conditions under which a subscriber is told of a change.
#[derive(Clone, Eq, PartialEq, Ord, PartialOrd, Hash, Debug, Default)]
pub struct Filter {}

/// The options of a subscription.
#[derive(Clone, Eq, PartialEq, Ord, PartialOrd, Hash, Debug, Default)]
pub struct Subscription {}

} // verus!

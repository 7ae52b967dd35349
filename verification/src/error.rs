//! The failure kinds shared by every operation of the crate.

use vstd::prelude::*;
use vstd::std_specs::convert::FromSpecImpl;
use vstd::string::StringExecFns;

verus! {

/// Why an operation on a patch was refused.
#[derive(Debug, Clone)]
pub enum ProteanError {
    /// The patch was made for another type than the one it is applied to.
    InvalidPatchType,
    /// A keyed action came without its key.
    NoKeySet,
    /// A second action was offered for a field that already has one.
    DuplicateKey,
    /// The patch names a field that the target does not have.
    FieldNotFound,
    /// The wire form of a patch could not be read or written.
    SerializationError(String),
    /// A value does not fit the field it is meant for.
    ConversionError,
    /// The target changed since the patch was computed.
    StaleFingerprint,
}

/// What a failure says of itself.
pub open spec fn message_of(e: ProteanError) -> Seq<char> {
    match e {
        ProteanError::InvalidPatchType =>
            "The given patch doesn't match the type of struct it is being applied to"@,
        ProteanError::NoKeySet => "The patch did not set a key"@,
        ProteanError::DuplicateKey => "Tried to add the second of the same key to a set"@,
        ProteanError::FieldNotFound => "Could not find the field with the given name"@,
        ProteanError::SerializationError(detail) => "Error (de)serializing the patch: "@ + detail@,
        ProteanError::ConversionError =>
            "There was an error attempting to convert from one type to another"@,
        ProteanError::StaleFingerprint => "The field changed since the patch was computed"@,
    }
}

impl ProteanError {
    /// What the failure says of itself.
    pub fn message(&self) -> (r: String)
        ensures
            r@ == message_of(*self),
    {
        match self {
            ProteanError::InvalidPatchType => String::from_str(
                "The given patch doesn't match the type of struct it is being applied to",
            ),
            ProteanError::NoKeySet => String::from_str("The patch did not set a key"),
            ProteanError::DuplicateKey => String::from_str(
                "Tried to add the second of the same key to a set",
            ),
            ProteanError::FieldNotFound => String::from_str(
                "Could not find the field with the given name",
            ),
            ProteanError::SerializationError(detail) => {
                let mut s = String::from_str("Error (de)serializing the patch: ");
                s.append(detail.as_str());
                s
            },
            ProteanError::ConversionError => String::from_str(
                "There was an error attempting to convert from one type to another",
            ),
            ProteanError::StaleFingerprint => String::from_str(
                "The field changed since the patch was computed",
            ),
        }
    }
}

/// The error that `serde_json` reports when it cannot read or write a text.
#[verifier::external_type_specification]
#[verifier::external_body]
pub struct ExJsonError(serde_json::Error);

/// The message of a `serde_json` error, as its `Display` writes it through
/// `to_string`. Nothing is claimed of the text.
#[verifier::external_body]
fn json_error_text(err: &serde_json::Error) -> (r: String) {
    err.to_string()
}

impl From<serde_json::Error> for ProteanError {
    /// A failure of `serde_json` is a `SerializationError` with its message.
    fn from(err: serde_json::Error) -> (r: ProteanError)
        ensures
            r is SerializationError,
    {
        ProteanError::SerializationError(json_error_text(&err))
    }
}

impl FromSpecImpl<serde_json::Error> for ProteanError {
    open spec fn obeys_from_spec() -> bool {
        false
    }

    open spec fn from_spec(v: serde_json::Error) -> ProteanError {
        ProteanError::SerializationError(arbitrary())
    }
}

/// A refusal together with the field it is about.
#[derive(Debug, Clone)]
pub struct Failure {
    /// Why the operation was refused.
    pub kind: ProteanError,
    /// The offending field: its name, or for a field of a nested record the
    /// names on the way to it, joined by dots.
    pub field: String,
}

/// The mathematical content of a [`Failure`].
pub struct Fault {
    pub kind: ProteanError,
    pub field: Seq<char>,
}

impl View for Failure {
    type V = Fault;

    open spec fn view(&self) -> Fault {
        Fault { kind: self.kind, field: self.field@ }
    }
}

/// The path of the field `key` below `prefix`: the two joined by a dot, or
/// `key` alone at the root.
pub open spec fn dotted(prefix: Seq<char>, key: Seq<char>) -> Seq<char> {
    if prefix.len() == 0 {
        key
    } else {
        prefix + seq!['.'] + key
    }
}

/// Builds the path of the field `key` below `prefix`.
pub fn join_path(prefix: &str, key: &str) -> (r: String)
    ensures
        r@ == dotted(prefix@, key@),
{
    if prefix.is_empty() {
        String::from_str(key)
    } else {
        let mut s = String::from_str(prefix);
        s.append(".");
        s.append(key);
        proof {
            reveal_strlit(".");
            assert("."@ =~= seq!['.']);
        }
        s
    }
}

impl Failure {
    /// The refusal `kind` about the field `key` below `prefix`.
    pub fn at(kind: ProteanError, prefix: &str, key: &str) -> (r: Failure)
        ensures
            r@ == (Fault { kind, field: dotted(prefix@, key@) }),
    {
        Failure { kind, field: join_path(prefix, key) }
    }
}

} // verus!

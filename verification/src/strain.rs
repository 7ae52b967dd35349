//! Tracking the mutations of a value.

use vstd::prelude::*;

verus! {

/// Why a mutation could not be tracked.
#[derive(Debug, Clone)]
pub enum StrainError {
    /// A value could not be converted from one type to another.
    ConversionError,
}

/// Marks a type that keeps a record of its own mutations.
pub trait Historic {

}

} // verus!

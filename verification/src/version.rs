//! Matching the version of a model to a patch.

use vstd::prelude::*;

verus! {

/// The version of a model. Patches carry the version of the type they were
/// made for as a plain tag; this marker stands for the model's side of it.
#[derive(Hash, Debug, Clone)]
pub struct ModelVersion {}

} // verus!

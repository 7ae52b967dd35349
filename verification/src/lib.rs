//! Structural diff and patch for hierarchical records.
//!
//! A [`patch::Patch`] describes how to turn one [`record::Record`] into
//! another. [`record::Record::diff`] computes it,
//! [`record::Record::apply`] replays it and hands back the inverse patch,
//! [`patch::Patch::merge`] combines two patches that do not conflict, and
//! [`wire`] writes a patch as a tree of plain values and reads it back.
//! [`laws`] states what holds of all of them, and [`shortest`] why the
//! script between two lists is as short as it can be.

pub mod action;
pub mod apply;
pub mod diff;
pub mod error;
pub mod laws;
pub mod patch;
pub mod prelude;
pub mod record;
pub mod replicant;
pub mod script;
pub mod shortest;
pub mod stats;
pub mod step;
pub mod strain;
pub mod text;
pub mod traits;
pub mod value;
pub mod version;
pub mod wire;

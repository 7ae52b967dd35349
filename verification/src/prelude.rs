//! The items that most users of the crate need.

pub use crate::action::{Action, ListAction, MapAction, PatchOptions};
pub use crate::error::{Failure, ProteanError};
pub use crate::patch::{Field, Patch, PatchAction, PatchValue};
pub use crate::record::{Content, Record, Slot};
pub use crate::traits::{Patchwork, Patchworthy};
pub use crate::value::FieldValue;

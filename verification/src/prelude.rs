//! Everything the crate provides, for a glob import.
pub use crate::building::StringBuilding;
pub use crate::cases::{CaseConversions, Segmentation};
pub use crate::type_coercion::TypeCoercion;

//! Extension methods for strings.
//!
//! The case conversions start from a word segmentation of the input rather than looking for
//! one separator each, so a name written in any convention converts to any other; the
//! lending form writes the same answer into storage the caller lends. String building puts
//! strings together, and type coercion holds a slice in the shapes a caller wants.
pub mod building;
pub mod cases;
pub mod lending;
pub mod prelude;
pub mod resolver;
pub mod text;
pub mod type_coercion;

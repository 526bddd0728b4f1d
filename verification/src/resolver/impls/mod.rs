//! The `fancy_regex` resolver's boundary pattern.
pub mod fancy_regex;

pub use crate::resolver::impls::fancy_regex::FancyRegex;

//! Word segmentation rules, and how the `fancy_regex` resolver compiles them.
//!
//! Resolving words is the `word_bounds` crate's work; the rules it follows, and the pattern
//! its `fancy_regex` resolver compiles them into, stand here.
pub mod impls;
pub mod rules;

use vstd::prelude::*;

verus! {

/// What a resolver compiles its rules into.
pub enum CompiledRules {
    Regex(String),
    Str(String),
    NotApplicable,
}

} // verus!

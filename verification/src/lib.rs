//! Discovery and naming of paired test-fixture files.
//!
//! The crate locates `(input, gold)` fixture file pairs under a directory
//! tree and assigns each pair a unique, syntactically safe test identifier.
//! The directory walk is driven as a state machine fed with file-system
//! events, so that every decision it takes is verified; the naming step is a
//! pure, fully specified function of the discovered paths.

pub mod assign;
pub mod chars;
pub mod disambiguate;
pub mod groups;
pub mod keys;
pub mod pairs;
pub mod paths;
pub mod sanitize;
pub mod totality;
pub mod walker;

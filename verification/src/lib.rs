//! Character statistics for Japanese text.
//!
//! Every Unicode scalar value belongs to one of four [`CharKind`]s, and an
//! [`Analyzer`] keeps, for each kind, how often each character has been seen.

pub mod analyzer;
pub mod bag;
pub mod kind;
pub mod laws;
pub mod report;
pub mod sort;

pub use analyzer::Analyzer;
pub use kind::CharKind;

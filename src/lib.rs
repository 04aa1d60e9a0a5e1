//! Regrouping and parsing of compiler-style diagnostics.
//!
//! Input lines are grouped into raw diagnostic blocks by a two-state
//! scanner, each block is parsed into an [`diagnostic::Error`] record, and a display
//! plan says which records a terminal view shows and where its separator
//! lines stand.
pub mod diagnostic;
pub mod report;
pub mod scanner;
pub mod text;

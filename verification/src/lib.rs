//! Semantic symbol extraction.
//!
//! A source unit is parsed into a tolerant syntax tree, reduced to a flat list of
//! candidate entities, linked into a containment forest with implementation and
//! method edges, given stable identifiers, and frozen into a read-only symbol table.
//! Every stage is a pure function of its input, and every stage's contract pins its
//! output to a mathematical model of that input.

pub mod span;
pub mod text;
pub mod entity;
pub mod diagnostics;
pub mod identity;
pub mod linker;
pub mod syntax;
pub mod reducer;
pub mod table;
pub mod pipeline;
pub mod samples;
pub mod declarations;

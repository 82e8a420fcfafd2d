//! A small reactive spreadsheet evaluation engine: a grid store of formula
//! text and computed values, a dependency graph between cells kept symmetric
//! on every edit, and a formula evaluator with flat first-operator-split
//! semantics (no precedence, no parentheses).
//!
//! Numeric payloads are opaque 64-bit words chosen by the caller (the
//! intended encoding is the IEEE-754 double bit pattern). The engine never
//! computes with them: whenever it needs a literal parsed or an arithmetic
//! operation applied, it hands the caller an explicit request and continues
//! from the caller's answer. Everything else - address parsing, dependency
//! extraction, edge bookkeeping, evaluation order, error propagation and
//! change propagation - is verified here.

pub mod addr;
pub mod deps;
pub mod engine;
pub mod eval;
pub mod laws;
pub mod text;
pub mod value;

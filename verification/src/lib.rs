//! A verified core for a small HTTP-service description language: a
//! line-oriented, indentation-sensitive parser that turns document text
//! into sections of keys, nested series and records, and a per-request
//! interpreter that evaluates ordered step lists against a mutable
//! variable environment, with assignment, exact arithmetic, conditionals,
//! loose cross-type equality, and a builtin dispatch that can short-circuit
//! execution with a response.
//!
//! Text is handled as bytes throughout, and numbers as exact ratios of
//! machine integers, so every contract speaks of plain mathematical
//! values: byte sequences, integers, and the `Val` model tree.

pub mod bytes;
pub mod ctx;
pub mod doc;
pub mod interp;
pub mod json;
pub mod jsontext;
pub mod num;
pub mod parse;
pub mod util;
pub mod value;

//! An interpreter for a small Lisp dialect: a reader from text to values, a
//! printer back to text, scopes kept in an arena, and an evaluator whose tail
//! positions run in a loop rather than on the host stack.

pub mod builtins;
pub mod env;
pub mod eval;
pub mod hash;
pub mod printer;
pub mod reader;
pub mod roundtrip;
pub mod types;

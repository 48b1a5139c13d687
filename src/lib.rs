//! A cursor over an indexed character sequence, primitive token scanners
//! (symbols, numbers, quoted strings, literal keywords) that skip whitespace
//! and nested block comments first, and backtracking combinators built on them.

pub mod chars;
pub mod model;
pub mod input;

pub use input::{Input, PSym, ParseError, RestorePoint};

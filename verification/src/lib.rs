//! A minimal interpreter for a semicolon-delimited stack-machine language.
//!
//! Source text is split on `;` into instruction blocks. Each block holds one
//! or two whitespace-separated words, resolved to a fixed instruction set
//! (`push`, `inc`, `dec`, `sqr`, `add`, `sub`, `dump`, `out`) or to base-10
//! signed integer literals, and executed left to right against a single
//! mutable stack of `i32` values. Arithmetic wraps on overflow.

pub mod machine;
pub mod text;
pub mod token;

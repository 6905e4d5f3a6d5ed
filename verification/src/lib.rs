//! A verified word-splitter for single-line argument strings.
//!
//! The library turns one raw string into an ordered sequence of argument
//! tokens, honouring single quotes, double quotes and backslash escapes in
//! the manner of a simplified POSIX shell. The mathematical model lives in
//! [`model`], the executable tokenizer in [`tokenizer`], and the proved
//! general properties in [`laws`].

pub mod laws;
pub mod model;
pub mod tokenizer;

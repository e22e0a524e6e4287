//! A summing parser for delimiter-separated lists of non-negative integers.
//!
//! The input is a string of Unicode characters holding numbers separated by
//! a delimiter: by default the comma, or one declared at the front of the
//! input between a `//` marker and a newline.  The newline always acts as a
//! second separator.  [`add`](parser::add) computes the sum of the numbers
//! with checked 64-bit arithmetic, and its whole behaviour is pinned down by
//! the specification function [`sum_spec`](model::sum_spec).

pub mod laws;
pub mod model;
pub mod parser;

pub use model::Error;
pub use model::ParseIntErrorKind;
pub use parser::add;

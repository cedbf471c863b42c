//! A minimal pattern-matching engine: a restricted pattern syntax (literal
//! codepoints, the `.` wildcard, and the greedy quantifier suffixes `*`, `+`
//! and `?`) is compiled into an instruction sequence, which a scanning
//! matcher runs against a text to find the leftmost matching substring and,
//! on request, replace it.

pub mod matcher;
pub mod pattern;

pub use pattern::Op;
pub use pattern::RegExpr;
pub use pattern::compile;

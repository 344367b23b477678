//! Exhaustive search for the shortest arithmetic expression reaching each
//! small integer target, where expressions are built from a fixed vocabulary
//! of repunit-style operand constants and the four basic binary operators.
//!
//! The crate enumerates every structurally valid postfix expression up to a
//! bounded odd length, evaluates each one under exact integer arithmetic,
//! renders it as a minimally parenthesized infix string, and keeps, for every
//! result in `0 ..= MAX_RES`, the shortest rendering found.

pub mod eval;
pub mod render;
pub mod search;
pub mod terms;

pub use eval::EvalError;
pub use render::post2in;
pub use search::get_seq;
pub use search::sel;
pub use terms::default_terms;
pub use terms::get_op_prece;
pub use terms::Op;
pub use terms::Term;

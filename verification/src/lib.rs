//! Makes a rewrite rule of a change: given a source file before and after an expression in it was
//! changed, finds the expression, what of it stayed the same, and the rule that makes the same
//! change elsewhere.
//!
//! A search starts with [`session::Session::start`]. It asks for one version of the code after the
//! other to be compiled, and takes what the compiler knows of each through
//! [`analysis::after_analysis`].
pub mod analysis;
pub mod candidate;
pub mod change;
pub mod codemap;
pub mod error;
pub mod hir;
pub mod laws;
pub mod matcher;
pub mod order;
pub mod paths;
pub mod rule;
pub mod rule_finder;
pub mod session;
pub mod span;
pub mod text;
pub mod token;

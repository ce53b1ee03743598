//! A verified interpreter for parsing-expression grammars.
//!
//! A grammar is a set of named rules, each with an expression tree for a body. The
//! interpreter matches an input against one of the rules and gives the tokens of the
//! rules that matched, or the furthest offset at which something failed to match.
//!
//! What the interpreter computes is stated by the functions of [`semantics`], and every
//! function that runs is proved to compute exactly that.

pub mod attempt;
pub mod captures;
pub mod chars;
pub mod context;
pub mod cursor;
pub mod depth;
pub mod expr;
pub mod grammar;
pub mod laws;
pub mod literal;
pub mod repetition;
pub mod rule;
pub mod semantics;
pub mod separators;
pub mod text;
pub mod vm;

pub use crate::grammar::{Atomicity, Expr, Rule, RuleKind, Token};
pub use crate::literal::unescape;
pub use crate::semantics::FatalError;
pub use crate::vm::{ParseError, Vm};

//! Parser for a small expression language over Gaussian integers.
//!
//! The grammar is a recursive-descent parser with precedence levels
//! (equality, additive, multiplicative), a postfix conjugate fold, and
//! atoms: identifiers, conditionals, numeric literals, modulus, negation
//! and parenthesised sub-expressions. Every parsing function is proved
//! to compute exactly the spec functions of `grammar`.
//!
//! Grouping underscores in a digit run (`1_000`) are skipped when the
//! literal is converted. A postfix `^` wraps its operand in a
//! `UnOp::Conjugate` node, distinct from `UnOp::Negate`.
pub mod ast;
pub mod grammar;
pub mod laws;
pub mod lexer;
pub mod padding;

pub use ast::{Ast, BinOp, ComplexInt, Expr, UnOp};
pub use grammar::expression;
pub use lexer::identifier;

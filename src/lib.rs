//! An interpreter core for the untyped lambda calculus: an arena of nameless
//! terms, the shift and substitution transforms, a normal-order reducer, the
//! binary lambda calculus codec, a pretty-printer, a parser and the binder
//! that turns source names into de Bruijn indices.
pub mod term;
pub mod expr;
pub mod transform;
pub mod evaluator;
pub mod codec;
pub mod messages;
pub mod symbol_table;
pub mod parser;
pub mod printer;
pub mod executor;
pub mod numerals;
pub mod repl;

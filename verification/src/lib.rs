//! A parser generator for grammars in a small EBNF-like notation.
//!
//! A grammar text is read by a hand-assembled parser of the notation and lowered to
//! a [`Parser`]; a parser applied to an input yields a concrete syntax tree or the
//! diagnostic of the failure that got furthest.

pub mod bootstrap;
pub mod engine;
pub mod error;
pub mod eval;
pub mod expr;
pub mod highlight;
pub mod laws;
pub mod lower;
pub mod outcome;
pub mod parser;
pub mod semantics;
pub mod shape;
pub mod text;
pub mod totality;
pub mod tree;

pub use crate::error::ParseError;
pub use crate::expr::{AtomicExpr, ParseExpr};
pub use crate::lower::{build_from_grammar, grammar_into_parser, try_build_from_grammar};
pub use crate::outcome::Fallible;
pub use crate::parser::Parser;
pub use crate::tree::{ParseGrouping, ParseOut};

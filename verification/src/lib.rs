//! The Hank scripting language: lexer, parser, interpreter and error reporting.
use vstd::prelude::*;

pub mod ast;
pub mod error_registry;
pub mod eval;
pub mod eval_spec;
pub mod interp;
pub mod json;
pub mod lexer;
pub mod natives;
pub mod parse_expr;
pub mod parse_lit;
pub mod parse_stmt;
pub mod parser;
pub mod parser_spec;
pub mod platform;
pub mod runner;
pub mod runtime;
pub mod scope;
pub mod stdlib;
pub mod text;
pub mod types;

verus! {

} // verus!

//! A small regular-expression engine.
//!
//! A pattern is compiled by a recursive-descent parser into an
//! [`ast::Expression`], an ordered sequence of [`ast::Token`]s, and the
//! matcher then walks that expression and a subject line in lockstep,
//! without backtracking.  The behaviour of every executable function is
//! stated against a mathematical model: a spec-level parser
//! ([`parser::spec_parse`]) and a spec-level evaluator
//! ([`matcher::eval`] and [`matcher::spec_search`]).

pub mod ast;
pub mod parser;
pub mod matcher;
pub mod laws;

pub use ast::Expression;
pub use ast::Token;
pub use matcher::Matcher;
pub use matcher::match_pattern;
pub use parser::ParseError;
pub use parser::Parser;
pub use parser::chars_of;

//! Front end of a small imperative language: a lexer that turns source text
//! into a flat token stream, and a recursive-descent parser that turns the
//! token stream into a concrete parse tree.
pub mod token;
pub mod source;
pub mod unicode;
pub mod lex;
pub mod parse;
pub mod report;
pub mod leaves;

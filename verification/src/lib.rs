//! Arithmetic expressions over text: a rule-driven lexer, a recursive-descent
//! parser and an evaluator that lowers an expression tree to a postfix program.

pub mod text;
pub mod lexer;
pub mod number;
pub mod parser;
pub mod evaluator;
pub mod grammar;

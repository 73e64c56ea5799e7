//! Front end of a small programming language: a scanner that turns raw
//! source text into a stream of classified tokens, and a recursive-descent
//! parser that assembles those tokens into a program of binding statements.

pub mod ast;
pub mod lexer;
pub mod parser;

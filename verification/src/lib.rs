//! A small interpreted language with knitting-flavoured keywords: a lexer, a
//! recursive-descent parser and a tree-walking evaluator, each with a
//! mathematical model that its implementation is proved against.

pub mod chars;
pub mod text;
pub mod model;
pub mod number;
pub mod token;
pub mod lexer;
pub mod rendering;
pub mod ast;
pub mod error;
pub mod grammar;
pub mod spelling;
pub mod parser;
pub mod env;
pub mod semantics;
pub mod interp;
pub mod run;

//! A small expression language: a lexer and a parser, a compiler to the
//! instructions of a stack machine, the machine itself, and an evaluator
//! that walks the tree. What each part computes is stated in its contracts
//! and proved; the modules `flow`, `jumps`, `scopes` and `agreement` hold
//! what is proved of the parts together.

pub mod agreement;
pub mod ast;
pub mod code;
pub mod compiler;
pub mod evaluator;
pub mod flow;
pub mod jumps;
pub mod lexer;
pub mod machine;
pub mod object;
pub mod parser;
pub mod scopes;
pub mod text;
pub mod token;
pub mod vm;

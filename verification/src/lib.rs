//! Front end and evaluator for a small Pascal-like language: a lexer, a
//! recursive-descent parser, a scoped semantic analyzer and a tree-walking
//! interpreter, each with its meaning stated as a mathematical function and
//! its code proved to compute that function.
pub mod var_type;
pub mod names;
pub mod strings;
pub mod rounding;
pub mod reals;
pub mod decimal;
pub mod quotients;
pub mod token;
pub mod errors;
pub mod ast;
pub mod lexer;
pub mod grammar;
pub mod parser;
pub mod locality;
pub mod symbols;
pub mod semantic;
pub mod interpreter;
pub mod render;
pub mod pipeline;

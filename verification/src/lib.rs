//! A transpiler for a small imperative toy language.
//!
//! The pipeline has three stages: lexical analysis ([`lexer`]), recursive-descent
//! parsing into an abstract syntax tree ([`parser`] producing the types of
//! [`ast`]), and tree-to-text code generation ([`codegen`]).  Each stage is a
//! pure transformation: text to tokens, tokens to tree, tree to text.

pub mod ast;
pub mod codegen;
pub mod lexer;
pub mod numeral;
pub mod parser;
pub mod text;

//! A small scripting language: source registry, lexer and a
//! token-walking interpreter, with their behaviour stated and proved.

pub mod compiler;
pub mod text;
pub mod tokenize;
pub mod semantics;
pub mod interpret;
pub mod laws;

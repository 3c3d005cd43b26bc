pub mod ast;
pub mod builtin;
pub mod env;
pub mod eval;
pub mod lexer;
pub mod object;
pub mod parser;
pub mod text;
pub mod token;

pub mod laws;
pub mod lexer;
pub mod parser;
pub mod syntax;
pub mod tree;

pub mod code_generation;
pub mod driver;
pub mod lexer;
pub mod parser;

//! A Kaleidoscope front end: lexer, precedence-climbing parser and the
//! decisions of code generation, each specified and verified.
pub mod frontend;

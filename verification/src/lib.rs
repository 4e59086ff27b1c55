//! Front end of a small interpreted-language toolchain: a byte-level lexer
//! that turns source text into a token stream, and a recursive-descent parser
//! that builds an abstract syntax tree with a canonical textual rendering.

pub mod ascii;
pub mod ast;
pub mod laws;
pub mod lexer;
pub mod parser;

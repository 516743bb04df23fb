pub mod lexer;

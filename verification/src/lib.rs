//! A small interactive shell: a lexer for command lines with quoting,
//! variable expansion and output redirections, a parser that turns the
//! tokens into a simple command, a line editor with tab completion and the
//! decision logic of the builtins. Everything that touches the terminal,
//! the file system or the process environment lives outside this crate;
//! the library receives the results of those reads as plain values.

pub mod token;
pub mod text;
pub mod variables;
pub mod grammar;
pub mod lexer;
pub mod tokenizer;
pub mod ast;
pub mod number;
pub mod parser;
pub mod order;
pub mod path;
pub mod line_editor;
pub mod evaluator;
pub mod shell;
pub mod agreement;

//! The core of zf, a concatenative stack-based language: its tokens, the
//! environment that holds the dictionary of words and the stacks, the reader
//! that turns source text into tokens, the reader that turns a parse tree into
//! tokens, and the decisions of the inner interpreter.

pub mod token;
pub mod env;
pub mod text;
pub mod number;
pub mod lexer;
pub mod machine;
pub mod parser;
pub mod invariants;
pub mod reader_laws;

pub use env::{ZfEnv, ZfProc};
pub use lexer::Lexed;
pub use machine::Step;
pub use token::{GuardItem, ZfNumber, ZfToken};

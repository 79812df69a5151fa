//! A small TypeScript-to-JavaScript transpiler that works on a token stream.

pub mod token;
pub mod tokenizer;
pub mod transpile;
pub mod interfaces;
pub mod generics;
pub mod classes;
pub mod expressions;
pub mod enums;

pub use token::{CollectingSink, Token, TokenSink};
pub use tokenizer::{tokenize, Tokenizer};
pub use transpile::{strip_type_annotations, transpile};

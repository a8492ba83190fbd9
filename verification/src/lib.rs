//! A two-stage JSON front end: a tokenizer from text to tokens, and a
//! recursive-descent tree builder from tokens to a tree value.

pub mod chars;
pub mod lexer;
pub mod padding;
pub mod parser;
pub mod pipeline;
pub mod render;
pub mod spelling;
pub mod token;
pub mod tree;

pub use lexer::{tokenize, LexError, Lexer};
pub use parser::{build, ParseError, Parser};
pub use pipeline::{parse_json_complete, JsonError};
pub use token::{Token, TokenType};
pub use tree::TreeValue;

//! A JSON text decoder: a pull-based tokenizer and a recursive-descent parser
//! whose behaviour is stated over the input's characters and proved by Verus.

pub mod lexer;
pub mod number;
pub mod parser;
pub mod scan;
mod text;
pub mod token;
pub mod unicode;
pub mod value;

pub use lexer::{LexError, Lexer};
pub use parser::{parse_json, ParseError, Parser, MAX_DEPTH};
pub use token::{Lexeme, Token, TokenType};
pub use value::{JsonView, Value};

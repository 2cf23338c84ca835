//! A small parser for nested textual data: objects, arrays, strings,
//! unsigned numbers and `null`.
//!
//! Text is first cut into tokens by the [`scanner`], and the tokens are then
//! assembled into a [`JsonValue`] tree by the recursive-descent [`parser`].
//! Every function carries a contract over the mathematical models
//! [`token::Token`] and [`value::Value`]. The modules [`grammar`], [`laws`]
//! and [`spelling`] state and prove what holds of the two on every input.

pub mod grammar;
pub mod laws;
pub mod parser;
pub mod scanner;
pub mod spelling;
pub mod token;
pub mod value;

pub use parser::{parse, parse_tokens, ParseError, ParseState, Parser};
pub use scanner::{ScanError, Scanner};
pub use token::JsonToken;
pub use value::JsonValue;

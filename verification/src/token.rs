//! The lexical units of the grammar.

use vstd::prelude::*;
use vstd::std_specs::cmp::PartialEqSpecImpl;

verus! {

/// One indivisible lexical unit, as the scanner produces it.
#[derive(Debug)]
pub enum JsonToken {
    /// `{`
    LeftBrace,
    /// `}`
    RightBrace,
    /// `[`
    LeftSquareBracket,
    /// `]`
    RightSquareBracket,
    /// `:`
    Colon,
    /// `,`
    Comma,
    /// A run of decimal digits, by its value.
    Number(u64),
    /// The text between two double quotes, escapes left as they were written.
    String(String),
    /// The keyword `null`.
    Null,
    /// The end marker that closes every token sequence.
    Eof,
}

/// The mathematical value of a [`JsonToken`]: the same variants, with the text
/// of a string token as a sequence of characters.
pub enum Token {
    LeftBrace,
    RightBrace,
    LeftSquareBracket,
    RightSquareBracket,
    Colon,
    Comma,
    Number(u64),
    String(Seq<char>),
    Null,
    Eof,
}

impl View for JsonToken {
    type V = Token;

    open spec fn view(&self) -> Token {
        match self {
            JsonToken::LeftBrace => Token::LeftBrace,
            JsonToken::RightBrace => Token::RightBrace,
            JsonToken::LeftSquareBracket => Token::LeftSquareBracket,
            JsonToken::RightSquareBracket => Token::RightSquareBracket,
            JsonToken::Colon => Token::Colon,
            JsonToken::Comma => Token::Comma,
            JsonToken::Number(n) => Token::Number(*n),
            JsonToken::String(s) => Token::String(s@),
            JsonToken::Null => Token::Null,
            JsonToken::Eof => Token::Eof,
        }
    }
}

/// The mathematical values of a run of tokens, in the same order.
pub open spec fn tokens_view(tokens: Seq<JsonToken>) -> Seq<Token> {
    Seq::new(tokens.len(), |i: int| tokens[i]@)
}

impl Clone for JsonToken {
    fn clone(&self) -> (copy: Self)
        ensures
            copy@ == self@,
    {
        match self {
            JsonToken::LeftBrace => JsonToken::LeftBrace,
            JsonToken::RightBrace => JsonToken::RightBrace,
            JsonToken::LeftSquareBracket => JsonToken::LeftSquareBracket,
            JsonToken::RightSquareBracket => JsonToken::RightSquareBracket,
            JsonToken::Colon => JsonToken::Colon,
            JsonToken::Comma => JsonToken::Comma,
            JsonToken::Number(n) => JsonToken::Number(*n),
            JsonToken::String(s) => JsonToken::String(s.clone()),
            JsonToken::Null => JsonToken::Null,
            JsonToken::Eof => JsonToken::Eof,
        }
    }
}

impl PartialEq for JsonToken {
    fn eq(&self, other: &Self) -> (same: bool) {
        match self {
            JsonToken::LeftBrace => matches!(other, JsonToken::LeftBrace),
            JsonToken::RightBrace => matches!(other, JsonToken::RightBrace),
            JsonToken::LeftSquareBracket => matches!(other, JsonToken::LeftSquareBracket),
            JsonToken::RightSquareBracket => matches!(other, JsonToken::RightSquareBracket),
            JsonToken::Colon => matches!(other, JsonToken::Colon),
            JsonToken::Comma => matches!(other, JsonToken::Comma),
            JsonToken::Number(a) => match other {
                JsonToken::Number(b) => *a == *b,
                _ => false,
            },
            JsonToken::String(a) => match other {
                JsonToken::String(b) => a.eq(b),
                _ => false,
            },
            JsonToken::Null => matches!(other, JsonToken::Null),
            JsonToken::Eof => matches!(other, JsonToken::Eof),
        }
    }
}

impl PartialEqSpecImpl for JsonToken {
    open spec fn obeys_eq_spec() -> bool {
        true
    }

    open spec fn eq_spec(&self, other: &Self) -> bool {
        self@ == other@
    }
}

impl Eq for JsonToken {

}

} // verus!

//! The parser: recursive descent over a token sequence, one procedure for
//! each production of the grammar.

use vstd::prelude::*;
use vstd::utf8::encode_utf8;
use crate::scanner::{scan_spec, ScanError, Scanner};
use crate::token::{tokens_view, JsonToken, Token};
pub use crate::value::JsonValue;
use crate::value::{
    entries_map,
    keys_distinct,
    lemma_array_view,
    lemma_object_view,
    members_view,
    put_member,
    values_view,
    Value,
};

verus! {

/// Why a parse stopped.
#[derive(Debug)]
pub enum ParseError {
    /// The scanner failed.
    ScanError(ScanError),
    /// A token that starts no value, where a value must stand.
    UnexpectedToken(JsonToken),
    /// A wrong separator or terminator, or an object key that is no string.
    SyntaxError,
    /// No token but the end marker.
    EmptyInput,
    /// Tokens after the top-level value.
    TrailingContent,
}

/// The mathematical value of a [`ParseError`].
pub enum Failure {
    ScanError(ScanError),
    UnexpectedToken(Token),
    SyntaxError,
    EmptyInput,
    TrailingContent,
}

impl View for ParseError {
    type V = Failure;

    open spec fn view(&self) -> Failure {
        match self {
            ParseError::ScanError(e) => Failure::ScanError(*e),
            ParseError::UnexpectedToken(t) => Failure::UnexpectedToken(t@),
            ParseError::SyntaxError => Failure::SyntaxError,
            ParseError::EmptyInput => Failure::EmptyInput,
            ParseError::TrailingContent => Failure::TrailingContent,
        }
    }
}

/// The token at `pos`; past the last token, the end marker.
pub open spec fn token_at(toks: Seq<Token>, pos: int) -> Token {
    if 0 <= pos < toks.len() {
        toks[pos]
    } else {
        Token::Eof
    }
}

/// The value that starts at `pos`, and the position after its last token.
/// The end marker in place of a value is `EmptyInput` at the very start, and an
/// unexpected token anywhere else.
pub open spec fn parse_value(toks: Seq<Token>, pos: int) -> Result<(Value, int), Failure>
    decreases toks.len() - pos, 0int,
{
    match token_at(toks, pos) {
        Token::Null => Ok((Value::Null, pos + 1)),
        Token::Number(n) => Ok((Value::Number(n), pos + 1)),
        Token::String(s) => Ok((Value::String(s), pos + 1)),
        Token::LeftSquareBracket => match parse_array(toks, pos + 1) {
            Ok((items, next)) => Ok((Value::Array(items), next)),
            Err(e) => Err(e),
        },
        Token::LeftBrace => match parse_object(toks, pos + 1) {
            Ok((members, next)) => Ok((Value::Object(members), next)),
            Err(e) => Err(e),
        },
        Token::Eof => if pos <= 0 {
            Err(Failure::EmptyInput)
        } else {
            Err(Failure::UnexpectedToken(Token::Eof))
        },
        other => Err(Failure::UnexpectedToken(other)),
    }
}

/// The items of the array whose opening bracket stands just before `pos`,
/// and the position after its closing bracket.
pub open spec fn parse_array(toks: Seq<Token>, pos: int) -> Result<(Seq<Value>, int), Failure>
    decreases toks.len() - pos, 2int,
{
    if token_at(toks, pos) == Token::RightSquareBracket {
        Ok((Seq::empty(), pos + 1))
    } else {
        parse_elements(toks, pos, Seq::empty())
    }
}

/// The items of an array from the item at `pos` on, after the items `done`.
/// Each item is followed by a comma and another item, or by the closing
/// bracket. A value always ends after the position at which it starts, so the
/// test of that never fails.
pub open spec fn parse_elements(toks: Seq<Token>, pos: int, done: Seq<Value>) -> Result<
    (Seq<Value>, int),
    Failure,
>
    decreases toks.len() - pos, 1int,
{
    match parse_value(toks, pos) {
        Err(e) => Err(e),
        Ok((item, next)) => if next <= pos {
            Err(Failure::SyntaxError)
        } else {
            match token_at(toks, next) {
                Token::Comma => parse_elements(toks, next + 1, done.push(item)),
                Token::RightSquareBracket => Ok((done.push(item), next + 1)),
                _ => Err(Failure::SyntaxError),
            }
        },
    }
}

/// The members of the object whose opening brace stands just before `pos`,
/// and the position after its closing brace.
pub open spec fn parse_object(toks: Seq<Token>, pos: int) -> Result<
    (Map<Seq<char>, Value>, int),
    Failure,
>
    decreases toks.len() - pos, 2int,
{
    if token_at(toks, pos) == Token::RightBrace {
        Ok((Map::empty(), pos + 1))
    } else {
        parse_members(toks, pos, Map::empty())
    }
}

/// The members of an object from the key at `pos` on, after the members
/// `done`. A member is a string, a colon and a value; it is followed by a
/// comma and another member, or by the closing brace. A key that occurs again
/// gets the later value.
pub open spec fn parse_members(toks: Seq<Token>, pos: int, done: Map<Seq<char>, Value>) -> Result<
    (Map<Seq<char>, Value>, int),
    Failure,
>
    decreases toks.len() - pos, 1int,
{
    match token_at(toks, pos) {
        Token::String(key) => if token_at(toks, pos + 1) != Token::Colon {
            Err(Failure::SyntaxError)
        } else {
            match parse_value(toks, pos + 2) {
                Err(e) => Err(e),
                Ok((value, next)) => if next <= pos {
                    Err(Failure::SyntaxError)
                } else {
                    match token_at(toks, next) {
                        Token::Comma => parse_members(toks, next + 1, done.insert(key, value)),
                        Token::RightBrace => Ok((done.insert(key, value), next + 1)),
                        _ => Err(Failure::SyntaxError),
                    }
                },
            }
        },
        _ => Err(Failure::SyntaxError),
    }
}

/// The value that a whole token sequence denotes: one value, then the end
/// marker or the sequence's end.
pub open spec fn parse_tokens_spec(toks: Seq<Token>) -> Result<Value, Failure> {
    match parse_value(toks, 0) {
        Err(e) => Err(e),
        Ok((value, next)) => if token_at(toks, next) == Token::Eof {
            Ok(value)
        } else {
            Err(Failure::TrailingContent)
        },
    }
}

/// The value that an input denotes: its tokens, parsed.
pub open spec fn parse_spec(src: Seq<u8>) -> Result<Value, Failure> {
    match scan_spec(src) {
        Err(e) => Err(Failure::ScanError(e)),
        Ok(toks) => parse_tokens_spec(toks),
    }
}

/// What it means for a returned result to be the expected one: on success a
/// well-formed tree with the expected value, on failure the expected error.
pub open spec fn denotes(parsed: Result<JsonValue, ParseError>, expected: Result<Value, Failure>) -> bool {
    match expected {
        Ok(value) => parsed matches Ok(tree) && tree@ == value && tree.wf(),
        Err(e) => parsed matches Err(found) && found@ == e,
    }
}

/// The parser's cursor: the index of the next token.
#[derive(Debug, Default)]
pub struct ParseState {
    current: usize,
}

/// A token sequence and a cursor into it.
#[derive(Debug)]
pub struct Parser {
    tokens: Vec<JsonToken>,
    state: ParseState,
}

impl Parser {
    /// The tokens being parsed.
    pub closed spec fn tokens(&self) -> Seq<Token> {
        tokens_view(self.tokens@)
    }

    /// The index of the next token.
    pub closed spec fn position(&self) -> int {
        self.state.current as int
    }

    /// The cursor's invariant: it is not past the end of the tokens.
    pub closed spec fn wf(&self) -> bool {
        self.state.current <= self.tokens.len()
    }

    /// A parser at the first of `tokens`.
    pub fn new(tokens: Vec<JsonToken>) -> (parser: Self)
        ensures
            parser.wf(),
            parser.tokens() == tokens_view(tokens@),
            parser.position() == 0,
    {
        Parser { tokens, state: ParseState { current: 0 } }
    }

    /// Parses the value that starts at the cursor and leaves the cursor after
    /// its last token.
    pub fn expression(&mut self) -> (parsed: Result<JsonValue, ParseError>)
        requires
            old(self).wf(),
        ensures
            final(self).wf(),
            final(self).tokens() == old(self).tokens(),
            final(self).position() >= old(self).position(),
            match parse_value(old(self).tokens(), old(self).position()) {
                Ok((value, next)) => {
                    &&& parsed matches Ok(tree)
                    &&& tree@ == value
                    &&& tree.wf()
                    &&& final(self).position() == next
                    &&& next > old(self).position()
                },
                Err(e) => parsed matches Err(found) && found@ == e,
            },
        decreases old(self).tokens().len() - old(self).position(), 0int,
    {
        let at = self.state.current;
        match self.advance() {
            JsonToken::Null => Ok(JsonValue::Null),
            JsonToken::Number(n) => Ok(JsonValue::Number(n)),
            JsonToken::String(s) => Ok(JsonValue::String(s)),
            JsonToken::LeftSquareBracket => match self.array() {
                Ok(items) => {
                    proof {
                        lemma_array_view(items);
                    }
                    Ok(JsonValue::Array(items))
                },
                Err(e) => Err(e),
            },
            JsonToken::LeftBrace => match self.object() {
                Ok(members) => {
                    proof {
                        lemma_object_view(members);
                    }
                    Ok(JsonValue::Object(members))
                },
                Err(e) => Err(e),
            },
            JsonToken::Eof => if at == 0 {
                Err(ParseError::EmptyInput)
            } else {
                Err(ParseError::UnexpectedToken(JsonToken::Eof))
            },
            other => Err(ParseError::UnexpectedToken(other)),
        }
    }

    /// The token at the cursor.
    fn current_token(&self) -> (token: JsonToken)
        requires
            self.wf(),
            self.position() < self.tokens().len(),
        ensures
            token@ == self.tokens()[self.position()],
    {
        let cur = self.state.current;
        self.tokens[cur].clone()
    }

    /// Returns the token at the cursor and moves the cursor past it; past the
    /// last token returns the end marker and moves nothing.
    fn advance(&mut self) -> (token: JsonToken)
        requires
            old(self).wf(),
        ensures
            final(self).wf(),
            final(self).tokens() == old(self).tokens(),
            token@ == token_at(old(self).tokens(), old(self).position()),
            final(self).position() == if old(self).position() < old(self).tokens().len() {
                old(self).position() + 1
            } else {
                old(self).position()
            },
    {
        let cur = self.state.current;
        if cur < self.tokens.len() {
            let tok = self.tokens[cur].clone();
            self.state.current += 1;
            tok
        } else {
            JsonToken::Eof
        }
    }

    /// Where the token at the cursor is one of `one_of`, returns it and moves
    /// the cursor past it; else returns `None` and moves nothing.
    fn matches(&mut self, one_of: Vec<JsonToken>) -> (found: Option<JsonToken>)
        requires
            old(self).wf(),
        ensures
            final(self).wf(),
            final(self).tokens() == old(self).tokens(),
            match found {
                Some(token) => {
                    &&& old(self).position() < old(self).tokens().len()
                    &&& token@ == old(self).tokens()[old(self).position()]
                    &&& exists|i: int| 0 <= i < one_of.len() && (#[trigger] one_of[i])@ == token@
                    &&& final(self).position() == old(self).position() + 1
                },
                None => {
                    &&& final(self).position() == old(self).position()
                    &&& forall|i: int|
                        0 <= i < one_of.len() ==> (#[trigger] one_of[i])@ != token_at(
                            old(self).tokens(),
                            old(self).position(),
                        ) || old(self).position() >= old(self).tokens().len()
                },
            },
    {
        let cur = self.state.current;
        if cur >= self.tokens.len() {
            return None;
        }
        let peek = self.current_token();
        let mut i: usize = 0;
        while i < one_of.len()
            invariant
                0 <= i <= one_of.len(),
                self.wf(),
                *self == *old(self),
                self.position() < self.tokens().len(),
                peek@ == self.tokens()[self.position()],
                forall|j: int| 0 <= j < i ==> (#[trigger] one_of[j])@ != peek@,
            decreases one_of.len() - i,
        {
            if peek == one_of[i] {
                self.advance();
                return Some(peek);
            }
            i += 1;
        }
        None
    }

    /// Parses the items of an array whose opening bracket was just consumed,
    /// up to and including its closing bracket.
    fn array(&mut self) -> (parsed: Result<Vec<JsonValue>, ParseError>)
        requires
            old(self).wf(),
        ensures
            final(self).wf(),
            final(self).tokens() == old(self).tokens(),
            final(self).position() >= old(self).position(),
            match parse_array(old(self).tokens(), old(self).position()) {
                Ok((items, next)) => {
                    &&& parsed matches Ok(found)
                    &&& values_view(found@) == items
                    &&& forall|i: int| 0 <= i < found@.len() ==> (#[trigger] found@[i]).wf()
                    &&& final(self).position() == next
                    &&& next > old(self).position()
                },
                Err(e) => parsed matches Err(found) && found@ == e,
            },
        decreases old(self).tokens().len() - old(self).position(), 2int,
    {
        let ghost toks = self.tokens();
        let ghost start = self.position();
        let mut items: Vec<JsonValue> = Vec::new();
        let closing = vec![JsonToken::RightSquareBracket];
        assert(closing@[0]@ == Token::RightSquareBracket);
        match self.matches(closing) {
            Some(_) => {
                assert(values_view(items@) =~= Seq::<Value>::empty());
                return Ok(items);
            },
            None => {},
        }
        assert(values_view(items@) =~= Seq::<Value>::empty());
        loop
            invariant
                self.wf(),
                self.tokens() == toks,
                toks == old(self).tokens(),
                start == old(self).position(),
                start <= self.position(),
                forall|i: int| 0 <= i < items@.len() ==> (#[trigger] items@[i]).wf(),
                parse_elements(toks, self.position(), values_view(items@)) == parse_array(
                    toks,
                    start,
                ),
            decreases toks.len() - self.position(),
        {
            let ghost done = items@;
            match self.expression() {
                Err(e) => {
                    return Err(e);
                },
                Ok(item) => {
                    items.push(item);
                    assert(values_view(items@) =~= values_view(done).push(item@));
                    let separators = vec![JsonToken::Comma, JsonToken::RightSquareBracket];
                    assert(separators@[0]@ == Token::Comma);
                    assert(separators@[1]@ == Token::RightSquareBracket);
                    match self.matches(separators) {
                        Some(JsonToken::Comma) => {},
                        Some(_) => {
                            return Ok(items);
                        },
                        None => {
                            return Err(ParseError::SyntaxError);
                        },
                    }
                },
            }
        }
    }

    /// Parses the members of an object whose opening brace was just consumed,
    /// up to and including its closing brace.
    fn object(&mut self) -> (parsed: Result<Vec<(String, JsonValue)>, ParseError>)
        requires
            old(self).wf(),
        ensures
            final(self).wf(),
            final(self).tokens() == old(self).tokens(),
            final(self).position() >= old(self).position(),
            match parse_object(old(self).tokens(), old(self).position()) {
                Ok((members, next)) => {
                    &&& parsed matches Ok(found)
                    &&& entries_map(members_view(found@)) == members
                    &&& keys_distinct(members_view(found@))
                    &&& forall|i: int| 0 <= i < found@.len() ==> (#[trigger] found@[i]).1.wf()
                    &&& final(self).position() == next
                    &&& next > old(self).position()
                },
                Err(e) => parsed matches Err(found) && found@ == e,
            },
        decreases old(self).tokens().len() - old(self).position(), 2int,
    {
        let ghost toks = self.tokens();
        let ghost start = self.position();
        let mut members: Vec<(String, JsonValue)> = Vec::new();
        let closing = vec![JsonToken::RightBrace];
        assert(closing@[0]@ == Token::RightBrace);
        assert(members_view(members@) =~= Seq::<(Seq<char>, Value)>::empty());
        match self.matches(closing) {
            Some(_) => {
                return Ok(members);
            },
            None => {},
        }
        loop
            invariant
                self.wf(),
                self.tokens() == toks,
                toks == old(self).tokens(),
                start == old(self).position(),
                start <= self.position(),
                keys_distinct(members_view(members@)),
                forall|i: int| 0 <= i < members@.len() ==> (#[trigger] members@[i]).1.wf(),
                parse_members(toks, self.position(), entries_map(members_view(members@)))
                    == parse_object(toks, start),
            decreases toks.len() - self.position(),
        {
            let key = match self.advance() {
                JsonToken::String(s) => s,
                _ => {
                    return Err(ParseError::SyntaxError);
                },
            };
            let colon = vec![JsonToken::Colon];
            assert(colon@[0]@ == Token::Colon);
            match self.matches(colon) {
                Some(_) => {},
                None => {
                    return Err(ParseError::SyntaxError);
                },
            }
            match self.expression() {
                Err(e) => {
                    return Err(e);
                },
                Ok(value) => {
                    put_member(&mut members, key, value);
                    let separators = vec![JsonToken::Comma, JsonToken::RightBrace];
                    assert(separators@[0]@ == Token::Comma);
                    assert(separators@[1]@ == Token::RightBrace);
                    match self.matches(separators) {
                        Some(JsonToken::Comma) => {},
                        Some(_) => {
                            return Ok(members);
                        },
                        None => {
                            return Err(ParseError::SyntaxError);
                        },
                    }
                },
            }
        }
    }
}

/// Parses a whole token sequence: one value, and nothing after it but the end
/// marker.
pub fn parse_tokens(tokens: Vec<JsonToken>) -> (parsed: Result<JsonValue, ParseError>)
    ensures
        denotes(parsed, parse_tokens_spec(tokens_view(tokens@))),
{
    let mut parser = Parser::new(tokens);
    match parser.expression() {
        Err(e) => Err(e),
        Ok(tree) => match parser.advance() {
            JsonToken::Eof => Ok(tree),
            _ => Err(ParseError::TrailingContent),
        },
    }
}

/// Parses a text: scans it into tokens and parses those.
pub fn parse(src: &str) -> (parsed: Result<JsonValue, ParseError>)
    ensures
        denotes(parsed, parse_spec(encode_utf8(src@))),
{
    let scanner = Scanner::new(src.to_owned());
    let ghost units = encode_utf8(src@);
    match scanner.scan_tokens() {
        Err(e) => Err(ParseError::ScanError(e)),
        Ok(tokens) => {
            proof {
                if let Ok(all) = scan_spec(units) {
                    assert(Seq::<Token>::empty() + all =~= all);
                }
            }
            parse_tokens(tokens)
        },
    }
}

} // verus!

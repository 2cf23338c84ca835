//! The scanner: one pass over the input's bytes that cuts them into tokens.

use vstd::prelude::*;
use vstd::slice::{slice_subrange, slice_to_vec};
use vstd::string::StrSliceExecFns;
use vstd::utf8::{decode_utf8, encode_utf8, valid_utf8};
pub use crate::token::JsonToken;
use crate::token::{tokens_view, Token};

verus! {

/// Why a scan stopped.
#[derive(Debug, Clone, Copy, PartialEq, Eq, Structural)]
pub enum ScanError {
    /// A unit that starts no token, with its position in the input.
    SyntaxError { unit: u8, position: usize },
    /// The input ended inside a string literal.
    UnexpectedEof,
    /// A number literal that is not a run of digits or does not fit in 64 bits.
    Number,
    /// Bytes that are not UTF-8 text.
    InvalidEncoding,
}

pub const LEFT_BRACE: u8 = 0x7b;

pub const RIGHT_BRACE: u8 = 0x7d;

pub const LEFT_BRACKET: u8 = 0x5b;

pub const RIGHT_BRACKET: u8 = 0x5d;

pub const COLON: u8 = 0x3a;

pub const COMMA: u8 = 0x2c;

pub const QUOTE: u8 = 0x22;

pub const BACKSLASH: u8 = 0x5c;

/// An ASCII decimal digit.
pub open spec fn is_digit(unit: u8) -> bool {
    0x30 <= unit <= 0x39
}

/// Space, tab, line feed or carriage return.
pub open spec fn is_blank(unit: u8) -> bool {
    unit == 0x20 || unit == 0x09 || unit == 0x0a || unit == 0x0d
}

/// The units `u`, `l`, `l` stand at `pos`, `pos + 1` and `pos + 2`.
pub open spec fn null_tail_at(src: Seq<u8>, pos: int) -> bool {
    0 <= pos && pos + 3 <= src.len() && src[pos] == 0x75 && src[pos + 1] == 0x6c && src[pos + 2]
        == 0x6c
}

/// Where the run of digits that starts at `pos` ends: the first position from
/// `pos` on that holds no digit.
pub open spec fn digits_end(src: Seq<u8>, pos: int) -> int
    decreases src.len() - pos,
{
    if 0 <= pos < src.len() && is_digit(src[pos]) {
        digits_end(src, pos + 1)
    } else {
        pos
    }
}

/// Every unit of `text` is a digit.
pub open spec fn all_digits(text: Seq<u8>) -> bool {
    forall|i: int| 0 <= i < text.len() ==> is_digit(#[trigger] text[i])
}

/// The number that a run of digits denotes in base ten.
pub open spec fn digits_value(text: Seq<u8>) -> nat
    decreases text.len(),
{
    if text.len() == 0 {
        0
    } else {
        digits_value(text.drop_last()) * 10 + (text.last() - 0x30) as nat
    }
}

/// `text` is a number literal whose value a `u64` can hold.
pub open spec fn number_fits(text: Seq<u8>) -> bool {
    text.len() > 0 && all_digits(text) && digits_value(text) <= u64::MAX
}

/// Where the string literal whose text starts at `pos` is closed: the position
/// of the first double quote from `pos` on that no backslash escapes, or the
/// input's length where there is none. A backslash escapes the unit after it,
/// whatever that unit is.
pub open spec fn string_end(src: Seq<u8>, pos: int) -> int
    decreases src.len() - pos,
{
    if pos < 0 || pos >= src.len() {
        src.len() as int
    } else if src[pos] == QUOTE {
        pos
    } else if src[pos] == BACKSLASH && pos + 1 == src.len() {
        src.len() as int
    } else if src[pos] == BACKSLASH {
        string_end(src, pos + 2)
    } else {
        string_end(src, pos + 1)
    }
}

/// What one scanning step yields: a token, or none for a blank, and the
/// position at which the next step starts.
pub struct Lexed {
    pub token: Option<Token>,
    pub next: int,
}

/// The string literal whose opening quote stands at `start`, read from `from`
/// on. Its text is what stands between the quotes, undecoded.
pub open spec fn lex_string(src: Seq<u8>, start: int, from: int) -> Result<Lexed, ScanError> {
    let close = string_end(src, from);
    let text = src.subrange(start + 1, close);
    if close >= src.len() {
        Err(ScanError::UnexpectedEof)
    } else if !valid_utf8(text) {
        Err(ScanError::InvalidEncoding)
    } else {
        Ok(Lexed { token: Some(Token::String(decode_utf8(text))), next: close + 1 })
    }
}

/// The number literal that starts at `start` and whose digits are read from
/// `from` on.
pub open spec fn lex_number(src: Seq<u8>, start: int, from: int) -> Result<Lexed, ScanError> {
    let end = digits_end(src, from);
    let text = src.subrange(start, end);
    if number_fits(text) {
        Ok(Lexed { token: Some(Token::Number(digits_value(text) as u64)), next: end })
    } else {
        Err(ScanError::Number)
    }
}

/// The scanning step at `pos`, a position inside the input.
pub open spec fn lex_at(src: Seq<u8>, pos: int) -> Result<Lexed, ScanError>
    recommends
        0 <= pos < src.len(),
{
    let unit = src[pos];
    if unit == QUOTE {
        lex_string(src, pos, pos + 1)
    } else if unit == LEFT_BRACE {
        Ok(Lexed { token: Some(Token::LeftBrace), next: pos + 1 })
    } else if unit == RIGHT_BRACE {
        Ok(Lexed { token: Some(Token::RightBrace), next: pos + 1 })
    } else if unit == LEFT_BRACKET {
        Ok(Lexed { token: Some(Token::LeftSquareBracket), next: pos + 1 })
    } else if unit == RIGHT_BRACKET {
        Ok(Lexed { token: Some(Token::RightSquareBracket), next: pos + 1 })
    } else if unit == COLON {
        Ok(Lexed { token: Some(Token::Colon), next: pos + 1 })
    } else if unit == COMMA {
        Ok(Lexed { token: Some(Token::Comma), next: pos + 1 })
    } else if is_digit(unit) {
        lex_number(src, pos, pos + 1)
    } else if is_blank(unit) {
        Ok(Lexed { token: None, next: pos + 1 })
    } else if unit == 0x6e && null_tail_at(src, pos + 1) {
        Ok(Lexed { token: Some(Token::Null), next: pos + 4 })
    } else {
        Err(ScanError::SyntaxError { unit, position: pos as usize })
    }
}

/// The tokens of the input from `pos` on, closed by the end marker, or the
/// first error on the way.
pub open spec fn scan_from(src: Seq<u8>, pos: int) -> Result<Seq<Token>, ScanError>
    decreases src.len() - pos,
    via scan_from_decreases
{
    if pos < 0 || pos >= src.len() {
        Ok(seq![Token::Eof])
    } else {
        match lex_at(src, pos) {
            Err(e) => Err(e),
            Ok(step) => match scan_from(src, step.next) {
                Err(e) => Err(e),
                Ok(rest) => Ok(
                    match step.token {
                        Some(t) => seq![t] + rest,
                        None => rest,
                    },
                ),
            },
        }
    }
}

#[via_fn]
proof fn scan_from_decreases(src: Seq<u8>, pos: int) {
    if 0 <= pos < src.len() {
        lemma_lex_advances(src, pos);
    }
}

/// The tokens of a whole input.
pub open spec fn scan_spec(src: Seq<u8>) -> Result<Seq<Token>, ScanError> {
    scan_from(src, 0)
}

/// A run of digits ends inside the input, at or after its start, and holds
/// digits only.
pub proof fn lemma_digits_end(src: Seq<u8>, pos: int)
    requires
        0 <= pos <= src.len(),
    ensures
        pos <= digits_end(src, pos) <= src.len(),
        forall|i: int| pos <= i < digits_end(src, pos) ==> is_digit(#[trigger] src[i]),
        digits_end(src, pos) < src.len() ==> !is_digit(src[digits_end(src, pos)]),
    decreases src.len() - pos,
{
    if pos < src.len() && is_digit(src[pos]) {
        lemma_digits_end(src, pos + 1);
    }
}

/// A string literal is closed at or after the place from which it is read,
/// and not beyond the input's end.
pub proof fn lemma_string_end(src: Seq<u8>, pos: int)
    requires
        0 <= pos,
    ensures
        pos <= src.len() ==> pos <= string_end(src, pos),
        string_end(src, pos) <= src.len(),
        string_end(src, pos) < src.len() ==> src[string_end(src, pos)] == QUOTE,
    decreases src.len() - pos,
{
    if pos < src.len() && src[pos] != QUOTE {
        if src[pos] == BACKSLASH {
            if pos + 1 < src.len() {
                lemma_string_end(src, pos + 2);
            }
        } else {
            lemma_string_end(src, pos + 1);
        }
    }
}

/// Every scanning step that succeeds moves forward and stays inside the input.
pub proof fn lemma_lex_advances(src: Seq<u8>, pos: int)
    requires
        0 <= pos < src.len(),
    ensures
        lex_at(src, pos) matches Ok(step) ==> pos < step.next <= src.len(),
{
    lemma_string_end(src, pos + 1);
    lemma_digits_end(src, pos + 1);
}

/// The value of a run of digits is at least that of each of its prefixes.
pub proof fn lemma_digits_value_grows(text: Seq<u8>, k: int)
    requires
        0 <= k <= text.len(),
    ensures
        digits_value(text.subrange(0, k)) <= digits_value(text),
    decreases text.len() - k,
{
    if k == text.len() {
        assert(text.subrange(0, k) =~= text);
    } else {
        lemma_digits_value_grows(text, k + 1);
        assert(text.subrange(0, k + 1).drop_last() =~= text.subrange(0, k));
    }
}

/// Calls `String::from_utf8`: the text that the bytes encode, or `None` where
/// they are not UTF-8.
#[verifier::external_body]
fn decode_text(units: Vec<u8>) -> (text: Option<String>)
    ensures
        text.is_some() == valid_utf8(units@),
        text matches Some(s) ==> s@ == decode_utf8(units@),
{
    match String::from_utf8(units) {
        Ok(s) => Some(s),
        Err(_) => None,
    }
}

/// The value of a number literal, or `None` where `text` is no run of digits
/// or its value does not fit.
pub fn decimal_value(text: &[u8]) -> (value: Option<u64>)
    ensures
        value.is_some() == number_fits(text@),
        value matches Some(n) ==> n == digits_value(text@),
{
    if text.len() == 0 {
        return None;
    }
    let mut acc: u64 = 0;
    let mut i: usize = 0;
    while i < text.len()
        invariant
            0 <= i <= text.len(),
            all_digits(text@.subrange(0, i as int)),
            acc == digits_value(text@.subrange(0, i as int)),
        decreases text.len() - i,
    {
        let unit: u8 = text[i];
        proof {
            assert(text@.subrange(0, i + 1).drop_last() =~= text@.subrange(0, i as int));
            assert(text@.subrange(0, i + 1).last() == unit);
        }
        if unit < 0x30 || unit > 0x39 {
            return None;
        }
        let digit: u64 = (unit - 0x30) as u64;
        let next = match acc.checked_mul(10) {
            Some(tenfold) => tenfold.checked_add(digit),
            None => None,
        };
        match next {
            Some(n) => {
                acc = n;
            },
            None => {
                proof {
                    lemma_digits_value_grows(text@, i + 1);
                }
                return None;
            },
        }
        i += 1;
    }
    proof {
        assert(text@.subrange(0, i as int) =~= text@);
    }
    Some(acc)
}

/// What a scanning step with the given outcome does to a scanner: on success
/// the token, if there is one, is appended and the cursor stands where the
/// step ends; on failure the error is returned and no token is added. The
/// cursor never moves back.
pub open spec fn step_effect(
    before: Scanner,
    after: Scanner,
    outcome: Result<Lexed, ScanError>,
    returned: Result<(), ScanError>,
) -> bool {
    &&& after.wf()
    &&& after.source() == before.source()
    &&& after.position() >= before.position()
    &&& match outcome {
        Ok(step) => {
            &&& returned.is_ok()
            &&& after.position() == step.next
            &&& after.emitted() == match step.token {
                Some(t) => before.emitted().push(t),
                None => before.emitted(),
            }
        },
        Err(e) => returned == Err::<(), ScanError>(e) && after.emitted() == before.emitted(),
    }
}

/// The tokens `done`, followed by what `rest` holds.
pub open spec fn prepend(done: Seq<Token>, rest: Result<Seq<Token>, ScanError>) -> Result<
    Seq<Token>,
    ScanError,
> {
    match rest {
        Ok(more) => Ok(done + more),
        Err(e) => Err(e),
    }
}

/// A cursor over an input's bytes, and the tokens found so far.
#[derive(Debug)]
pub struct Scanner {
    tokens: Vec<JsonToken>,
    bytes: Vec<u8>,
    start: usize,
    current: usize,
}

impl Scanner {
    /// The input's bytes.
    pub closed spec fn source(&self) -> Seq<u8> {
        self.bytes@
    }

    /// The position of the next unit to examine.
    pub closed spec fn position(&self) -> int {
        self.current as int
    }

    /// The position of the first unit of the token being scanned.
    pub closed spec fn token_start(&self) -> int {
        self.start as int
    }

    /// The tokens found so far.
    pub closed spec fn emitted(&self) -> Seq<Token> {
        tokens_view(self.tokens@)
    }

    /// The cursor's invariant: the token's start is not after the next unit,
    /// which is not after the input's end.
    pub closed spec fn wf(&self) -> bool {
        self.start <= self.current <= self.bytes.len()
    }

    /// A scanner at the start of `source`, with no token found yet.
    pub fn new(source: String) -> (scanner: Self)
        ensures
            scanner.wf(),
            scanner.source() == encode_utf8(source@),
            scanner.position() == 0,
            scanner.token_start() == 0,
            scanner.emitted() == Seq::<Token>::empty(),
    {
        let bytes = source.as_str().as_bytes_vec();
        let scanner = Scanner { tokens: Vec::new(), bytes, start: 0, current: 0 };
        assert(scanner.emitted() =~= Seq::<Token>::empty());
        scanner
    }

    /// A scanner at the start of `bytes`, which must be UTF-8 text.
    pub fn from_bytes(bytes: Vec<u8>) -> (made: Result<Self, ScanError>)
        ensures
            match made {
                Ok(scanner) => {
                    &&& valid_utf8(bytes@)
                    &&& scanner.wf()
                    &&& scanner.source() == bytes@
                    &&& scanner.position() == 0
                    &&& scanner.token_start() == 0
                    &&& scanner.emitted() == Seq::<Token>::empty()
                },
                Err(e) => e == ScanError::InvalidEncoding && !valid_utf8(bytes@),
            },
    {
        match decode_text(bytes) {
            Some(text) => {
                proof {
                    vstd::utf8::decode_utf8_encode_utf8(bytes@);
                }
                Ok(Scanner::new(text))
            },
            None => Err(ScanError::InvalidEncoding),
        }
    }

    /// Scans what is left of the input and returns every token found, closed
    /// by the end marker.
    pub fn scan_tokens(self) -> (scanned: Result<Vec<JsonToken>, ScanError>)
        requires
            self.wf(),
        ensures
            match prepend(self.emitted(), scan_from(self.source(), self.position())) {
                Ok(all) => scanned matches Ok(tokens) && tokens_view(tokens@) == all,
                Err(e) => scanned matches Err(found) && found == e,
            },
    {
        let mut scanner = self;
        let ghost src = self.source();
        let ghost goal = prepend(self.emitted(), scan_from(src, self.position()));
        while !scanner.is_at_end()
            invariant
                scanner.wf(),
                scanner.source() == src,
                src == self.source(),
                goal == prepend(self.emitted(), scan_from(src, self.position())),
                prepend(scanner.emitted(), scan_from(src, scanner.position())) == goal,
            decreases src.len() - scanner.position(),
        {
            let ghost before = scanner;
            let step = scanner.scan_token();
            proof {
                lemma_lex_advances(src, before.position());
                if let Ok(lexed) = lex_at(src, before.position()) {
                    if let Ok(rest) = scan_from(src, lexed.next) {
                        match lexed.token {
                            Some(t) => {
                                assert(before.emitted().push(t) + rest =~= before.emitted() + (
                                seq![t] + rest));
                            },
                            None => {},
                        }
                    }
                }
            }
            match step {
                Err(e) => {
                    return Err(e);
                },
                Ok(()) => {},
            }
        }
        let ghost found = scanner.tokens@;
        scanner.tokens.push(JsonToken::Eof);
        proof {
            assert(tokens_view(scanner.tokens@) =~= tokens_view(found) + seq![Token::Eof]);
        }
        Ok(scanner.tokens)
    }

    /// One scanning step at the cursor: nothing at the input's end, else the
    /// token that starts there, or none for a blank.
    pub fn scan_token(&mut self) -> (step: Result<(), ScanError>)
        requires
            old(self).wf(),
        ensures
            old(self).position() < old(self).source().len() ==> step_effect(
                *old(self),
                *final(self),
                lex_at(old(self).source(), old(self).position()),
                step,
            ),
            old(self).position() >= old(self).source().len() ==> {
                &&& step.is_ok()
                &&& final(self).wf()
                &&& final(self).source() == old(self).source()
                &&& final(self).position() == old(self).position()
                &&& final(self).emitted() == old(self).emitted()
            },
            final(self).token_start() == old(self).position(),
    {
        self.start = self.current;
        match self.advance() {
            None => Ok(()),
            Some(unit) => {
                if unit == QUOTE {
                    proof {
                        lemma_string_end(self.source(), self.position());
                    }
                    self.string()
                } else if unit == LEFT_BRACE {
                    self.emit(JsonToken::LeftBrace);
                    Ok(())
                } else if unit == RIGHT_BRACE {
                    self.emit(JsonToken::RightBrace);
                    Ok(())
                } else if unit == LEFT_BRACKET {
                    self.emit(JsonToken::LeftSquareBracket);
                    Ok(())
                } else if unit == RIGHT_BRACKET {
                    self.emit(JsonToken::RightSquareBracket);
                    Ok(())
                } else if unit == COLON {
                    self.emit(JsonToken::Colon);
                    Ok(())
                } else if unit == COMMA {
                    self.emit(JsonToken::Comma);
                    Ok(())
                } else if is_digit_unit(unit) {
                    self.number()
                } else if is_blank_unit(unit) {
                    Ok(())
                } else if unit == 0x6e && self.at_null_tail() {
                    self.advance();
                    self.advance();
                    self.advance();
                    self.emit(JsonToken::Null);
                    Ok(())
                } else {
                    Err(ScanError::SyntaxError { unit, position: self.start })
                }
            },
        }
    }

    /// Appends one token to those found so far.
    fn emit(&mut self, token: JsonToken)
        requires
            old(self).wf(),
        ensures
            final(self).wf(),
            final(self).source() == old(self).source(),
            final(self).position() == old(self).position(),
            final(self).token_start() == old(self).token_start(),
            final(self).emitted() == old(self).emitted().push(token@),
    {
        let ghost found = self.tokens@;
        self.tokens.push(token);
        assert(tokens_view(self.tokens@) =~= tokens_view(found).push(token@));
    }

    /// Whether `ull` stands at the cursor.
    fn at_null_tail(&self) -> (yes: bool)
        requires
            self.wf(),
        ensures
            yes == null_tail_at(self.source(), self.position()),
    {
        match self.peekn(3) {
            Some(units) => units[0] == 0x75 && units[1] == 0x6c && units[2] == 0x6c,
            None => false,
        }
    }

    /// The unit at the cursor, or `None` at the input's end.
    pub fn peek(&self) -> (unit: Option<u8>)
        requires
            self.wf(),
        ensures
            unit == if self.position() < self.source().len() {
                Some(self.source()[self.position()])
            } else {
                None
            },
    {
        if self.is_at_end() {
            None
        } else {
            let cur = self.current;
            Some(self.bytes[cur])
        }
    }

    /// The `n` units from the cursor on, or `None` where fewer are left.
    pub fn peekn(&self, n: usize) -> (units: Option<&[u8]>)
        requires
            self.wf(),
        ensures
            match units {
                Some(found) => self.position() + n <= self.source().len() && found@
                    == self.source().subrange(self.position(), self.position() + n),
                None => self.position() + n > self.source().len(),
            },
    {
        let cur = self.current;
        let len = self.bytes.len();
        if n <= len - cur {
            Some(slice_subrange(self.bytes.as_slice(), cur, cur + n))
        } else {
            None
        }
    }

    /// Returns the unit at the cursor and moves the cursor past it; at the
    /// input's end returns `None` and moves nothing.
    pub fn advance(&mut self) -> (unit: Option<u8>)
        requires
            old(self).wf(),
        ensures
            final(self).wf(),
            final(self).source() == old(self).source(),
            final(self).token_start() == old(self).token_start(),
            final(self).emitted() == old(self).emitted(),
            unit == if old(self).position() < old(self).source().len() {
                Some(old(self).source()[old(self).position()])
            } else {
                None
            },
            final(self).position() == if old(self).position() < old(self).source().len() {
                old(self).position() + 1
            } else {
                old(self).position()
            },
    {
        if self.is_at_end() {
            None
        } else {
            let cur = self.current;
            self.current += 1;
            Some(self.bytes[cur])
        }
    }

    /// Whether the cursor stands at the input's end.
    pub fn is_at_end(&self) -> (at_end: bool)
        ensures
            at_end == (self.position() >= self.source().len()),
    {
        self.current >= self.bytes.len()
    }

    /// Scans the rest of a string literal whose opening quote stands at the
    /// token's start, and appends its token. The closing quote, where there
    /// is one, must stand after the token's start.
    pub fn string(&mut self) -> (step: Result<(), ScanError>)
        requires
            old(self).wf(),
            string_end(old(self).source(), old(self).position()) < old(self).source().len()
                ==> old(self).token_start() < string_end(
                old(self).source(),
                old(self).position(),
            ),
        ensures
            step_effect(
                *old(self),
                *final(self),
                lex_string(old(self).source(), old(self).token_start(), old(self).position()),
                step,
            ),
            final(self).token_start() == old(self).token_start(),
    {
        let ghost src = self.source();
        let ghost from = self.position();
        let mut close: Option<usize> = None;
        let mut done: bool = false;
        while !done
            invariant
                self.wf(),
                self.source() == src,
                self.emitted() == old(self).emitted(),
                self.token_start() == old(self).token_start(),
                from <= self.position(),
                string_end(src, from) < src.len() ==> self.token_start() < string_end(src, from),
                !done ==> close.is_none() && string_end(src, self.position()) == string_end(
                    src,
                    from,
                ),
                done ==> match close {
                    Some(at) => at == string_end(src, from) && from <= at < src.len()
                        && self.position() == at + 1,
                    None => string_end(src, from) >= src.len(),
                },
            decreases src.len() - self.position() + if done { 0int } else { 1int },
        {
            match self.advance() {
                None => {
                    done = true;
                },
                Some(unit) => {
                    if unit == QUOTE {
                        close = Some(self.current - 1);
                        done = true;
                    } else if unit == BACKSLASH {
                        self.advance();
                    }
                },
            }
        }
        match close {
            None => Err(ScanError::UnexpectedEof),
            Some(at) => {
                let text = slice_to_vec(slice_subrange(self.bytes.as_slice(), self.start + 1, at));
                match decode_text(text) {
                    Some(s) => {
                        self.emit(JsonToken::String(s));
                        Ok(())
                    },
                    None => Err(ScanError::InvalidEncoding),
                }
            },
        }
    }

    /// Scans the rest of a number literal that starts at the token's start,
    /// and appends its token.
    pub fn number(&mut self) -> (step: Result<(), ScanError>)
        requires
            old(self).wf(),
        ensures
            step_effect(
                *old(self),
                *final(self),
                lex_number(old(self).source(), old(self).token_start(), old(self).position()),
                step,
            ),
            final(self).token_start() == old(self).token_start(),
    {
        let ghost src = self.source();
        let ghost from = self.position();
        let mut more: bool = true;
        while more
            invariant
                self.wf(),
                self.source() == src,
                self.emitted() == old(self).emitted(),
                self.token_start() == old(self).token_start(),
                from <= self.position(),
                digits_end(src, self.position()) == digits_end(src, from),
                !more ==> self.position() == digits_end(src, from),
            decreases src.len() - self.position() + if more { 1int } else { 0int },
        {
            match self.peek() {
                Some(unit) => {
                    if is_digit_unit(unit) {
                        self.advance();
                    } else {
                        more = false;
                    }
                },
                None => {
                    more = false;
                },
            }
        }
        let text = slice_subrange(self.bytes.as_slice(), self.start, self.current);
        match decimal_value(text) {
            Some(n) => {
                self.emit(JsonToken::Number(n));
                Ok(())
            },
            None => Err(ScanError::Number),
        }
    }
}

/// Whether `unit` is an ASCII decimal digit.
fn is_digit_unit(unit: u8) -> (yes: bool)
    ensures
        yes == is_digit(unit),
{
    0x30 <= unit && unit <= 0x39
}

/// Whether `unit` is a space, a tab, a line feed or a carriage return.
fn is_blank_unit(unit: u8) -> (yes: bool)
    ensures
        yes == is_blank(unit),
{
    unit == 0x20 || unit == 0x09 || unit == 0x0a || unit == 0x0d
}

} // verus!

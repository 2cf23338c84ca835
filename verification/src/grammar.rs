//! The grammar, stated from the side of the writer: a document as it is
//! written, the tokens that spell it, and the value that it denotes.

use vstd::prelude::*;
use vstd::utf8::encode_utf8;
use crate::scanner::{
    is_blank,
    string_end,
    COLON,
    COMMA,
    LEFT_BRACE,
    LEFT_BRACKET,
    QUOTE,
    RIGHT_BRACE,
    RIGHT_BRACKET,
};
use crate::token::Token;
use crate::value::{entries_map, Value};

verus! {

/// A document as it is written: the items of an array and the members of an
/// object in their written order, a key as often as it was written.
pub enum Doc {
    Null,
    Number(u64),
    String(Seq<char>),
    Array(Seq<Doc>),
    Object(Seq<(Seq<char>, Doc)>),
}

/// The tokens that spell a document.
pub open spec fn doc_tokens(doc: Doc) -> Seq<Token>
    decreases doc, 0int,
{
    match doc {
        Doc::Null => seq![Token::Null],
        Doc::Number(n) => seq![Token::Number(n)],
        Doc::String(s) => seq![Token::String(s)],
        Doc::Array(items) => seq![Token::LeftSquareBracket] + items_tokens(items, 0),
        Doc::Object(members) => seq![Token::LeftBrace] + members_tokens(members, 0),
    }
}

/// The tokens that spell the items of an array from the item `from` on, with
/// a comma between two items, and the closing bracket.
pub open spec fn items_tokens(items: Seq<Doc>, from: nat) -> Seq<Token>
    decreases items, items.len() - from,
{
    if from >= items.len() {
        seq![Token::RightSquareBracket]
    } else if from + 1 == items.len() {
        doc_tokens(items[from as int]) + seq![Token::RightSquareBracket]
    } else {
        doc_tokens(items[from as int]) + (seq![Token::Comma] + items_tokens(items, from + 1))
    }
}

/// The tokens that spell the members of an object from the member `from` on:
/// each a key, a colon and a value, with a comma between two members, and the
/// closing brace.
pub open spec fn members_tokens(members: Seq<(Seq<char>, Doc)>, from: nat) -> Seq<Token>
    decreases members, members.len() - from,
{
    if from >= members.len() {
        seq![Token::RightBrace]
    } else if from + 1 == members.len() {
        seq![Token::String(members[from as int].0), Token::Colon] + (doc_tokens(
            members[from as int].1,
        ) + seq![Token::RightBrace])
    } else {
        seq![Token::String(members[from as int].0), Token::Colon] + (doc_tokens(
            members[from as int].1,
        ) + (seq![Token::Comma] + members_tokens(members, from + 1)))
    }
}

/// The value that a document denotes: the items of an array in their order,
/// and of the members of an object with one key the last.
pub open spec fn doc_value(doc: Doc) -> Value
    decreases doc, 1int,
{
    match doc {
        Doc::Null => Value::Null,
        Doc::Number(n) => Value::Number(n),
        Doc::String(s) => Value::String(s),
        Doc::Array(items) => Value::Array(docs_values(items)),
        Doc::Object(members) => Value::Object(entries_map(docs_entries(members))),
    }
}

/// The values that the items of an array denote, in their order.
pub open spec fn docs_values(items: Seq<Doc>) -> Seq<Value>
    decreases items, 0int,
{
    Seq::new(
        items.len(),
        |i: int|
            if 0 <= i < items.len() {
                doc_value(items[i])
            } else {
                Value::Null
            },
    )
}

/// The keys of an object's members with the values that they denote, in
/// their order.
pub open spec fn docs_entries(members: Seq<(Seq<char>, Doc)>) -> Seq<(Seq<char>, Value)>
    decreases members, 0int,
{
    Seq::new(
        members.len(),
        |i: int|
            if 0 <= i < members.len() {
                (members[i].0, doc_value(members[i].1))
            } else {
                (Seq::empty(), Value::Null)
            },
    )
}

/// The tokens `part` stand in `toks` from `pos` on.
pub open spec fn has_at(toks: Seq<Token>, pos: int, part: Seq<Token>) -> bool {
    &&& 0 <= pos
    &&& pos + part.len() <= toks.len()
    &&& forall|i: int| 0 <= i < part.len() ==> toks[pos + i] == #[trigger] part[i]
}

/// The digits of `n` in base ten, without leading zeros.
pub open spec fn decimal_digits(n: nat) -> Seq<u8>
    decreases n,
{
    if n < 10 {
        seq![(0x30 + n) as u8]
    } else {
        decimal_digits(n / 10).push((0x30 + n % 10) as u8)
    }
}

/// The text that spells one token, with no blank around it. The text of a
/// string token stands between its quotes as it is.
pub open spec fn token_text(token: Token) -> Seq<u8> {
    match token {
        Token::LeftBrace => seq![LEFT_BRACE],
        Token::RightBrace => seq![RIGHT_BRACE],
        Token::LeftSquareBracket => seq![LEFT_BRACKET],
        Token::RightSquareBracket => seq![RIGHT_BRACKET],
        Token::Colon => seq![COLON],
        Token::Comma => seq![COMMA],
        Token::Number(n) => decimal_digits(n as nat),
        Token::String(s) => seq![QUOTE] + encode_utf8(s).push(QUOTE),
        Token::Null => seq![0x6eu8, 0x75u8, 0x6cu8, 0x6cu8],
        Token::Eof => Seq::empty(),
    }
}

/// Every unit of `gap` is a blank.
pub open spec fn all_blank(gap: Seq<u8>) -> bool {
    forall|i: int| 0 <= i < gap.len() ==> is_blank(#[trigger] gap[i])
}

/// The text that spells a run of tokens with a gap before each of them and
/// one after the last: `gaps` holds one gap more than there are tokens.
pub open spec fn spaced_text(toks: Seq<Token>, gaps: Seq<Seq<u8>>) -> Seq<u8>
    recommends
        gaps.len() == toks.len() + 1,
    decreases toks.len(),
{
    if toks.len() == 0 {
        gaps[0]
    } else {
        gaps[0] + (token_text(toks[0]) + spaced_text(toks.drop_first(), gaps.drop_first()))
    }
}

/// Gaps of no length, one more than `count`.
pub open spec fn no_gaps(count: nat) -> Seq<Seq<u8>> {
    Seq::new(count + 1, |i: int| Seq::<u8>::empty())
}

/// The text that spells a document without any blank.
pub open spec fn doc_text(doc: Doc) -> Seq<u8> {
    spaced_text(doc_tokens(doc), no_gaps(doc_tokens(doc).len()))
}

/// A text that can stand between quotes as it is: with a quote after it, the
/// first quote that no backslash escapes is that one.
pub open spec fn fits_in_quotes(text: Seq<char>) -> bool {
    string_end(encode_utf8(text).push(QUOTE), 0) == encode_utf8(text).len()
}

/// A token that a text can spell: not the end marker, and a string only with
/// a text that fits in quotes.
pub open spec fn token_spellable(token: Token) -> bool {
    match token {
        Token::Eof => false,
        Token::String(s) => fits_in_quotes(s),
        _ => true,
    }
}

/// Every token of the run can be spelled, and no number follows a number
/// directly.
pub open spec fn spellable(toks: Seq<Token>) -> bool {
    &&& forall|i: int| 0 <= i < toks.len() ==> token_spellable(#[trigger] toks[i])
    &&& forall|i: int|
        0 <= i < toks.len() - 1 ==> !((#[trigger] toks[i]) is Number && toks[i + 1] is Number)
}

/// `gaps` can stand around the tokens: there is one gap more than tokens,
/// every gap holds blanks only, every token can be spelled, and between two
/// numbers the gap is not empty.
pub open spec fn spaced(toks: Seq<Token>, gaps: Seq<Seq<u8>>) -> bool {
    &&& gaps.len() == toks.len() + 1
    &&& forall|i: int| 0 <= i < gaps.len() ==> all_blank(#[trigger] gaps[i])
    &&& forall|i: int| 0 <= i < toks.len() ==> token_spellable(#[trigger] toks[i])
    &&& forall|i: int|
        0 <= i < toks.len() - 1 && (#[trigger] toks[i]) is Number && toks[i + 1] is Number
            ==> gaps[i + 1].len() > 0
}

/// Every string of the document, keys included, fits in quotes.
pub open spec fn doc_spellable(doc: Doc) -> bool
    decreases doc,
{
    match doc {
        Doc::String(s) => fits_in_quotes(s),
        Doc::Array(items) => forall|i: int|
            0 <= i < items.len() ==> doc_spellable(#[trigger] items[i]),
        Doc::Object(members) => forall|i: int|
            0 <= i < members.len() ==> fits_in_quotes((#[trigger] members[i]).0)
                && doc_spellable(members[i].1),
        _ => true,
    }
}

} // verus!

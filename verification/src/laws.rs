//! What holds of the scanner and the parser on every input.

use vstd::prelude::*;
use vstd::utf8::{
    encode_utf8,
    encode_utf8_valid_utf8,
    is_char_boundary_iff_not_is_continuation_byte,
    pop_first_scalar,
    valid_utf8,
    valid_utf8_split,
};
use crate::parser::{
    denotes,
    parse_elements,
    parse_members,
    parse_spec,
    parse_tokens_spec,
    parse_value,
    token_at,
    Failure,
    ParseError,
};
use crate::grammar::{
    doc_tokens,
    doc_value,
    docs_entries,
    docs_values,
    has_at,
    items_tokens,
    members_tokens,
    Doc,
};
use crate::scanner::{
    lemma_lex_advances,
    lemma_string_end,
    lex_at,
    scan_from,
    scan_spec,
    string_end,
    ScanError,
    QUOTE,
};
use crate::token::Token;
use crate::value::{entries_map, JsonValue, Value};

verus! {

/// Every token sequence that a scan produces ends with the end marker, and
/// holds it nowhere else.
pub proof fn law_scan_ends_with_one_end_marker(src: Seq<u8>, pos: int)
    ensures
        scan_from(src, pos) matches Ok(toks) ==> {
            &&& toks.len() >= 1
            &&& toks.last() == Token::Eof
            &&& forall|i: int| 0 <= i < toks.len() - 1 ==> toks[i] != Token::Eof
        },
    decreases src.len() - pos,
{
    if 0 <= pos < src.len() {
        lemma_lex_advances(src, pos);
        if let Ok(step) = lex_at(src, pos) {
            law_scan_ends_with_one_end_marker(src, step.next);
        }
    }
}

/// In an input that is UTF-8 text, what stands between a quote and the quote
/// that closes it is UTF-8 text.
pub proof fn lemma_quoted_text_is_valid(src: Seq<u8>, open: int)
    requires
        valid_utf8(src),
        0 <= open < src.len(),
        src[open] == QUOTE,
        string_end(src, open + 1) < src.len(),
    ensures
        valid_utf8(src.subrange(open + 1, string_end(src, open + 1))),
{
    let close = string_end(src, open + 1);
    lemma_string_end(src, open + 1);
    is_char_boundary_iff_not_is_continuation_byte(src, open);
    valid_utf8_split(src, open);
    let suffix = src.subrange(open, src.len() as int);
    assert(suffix[0] == QUOTE);
    let rest = pop_first_scalar(suffix);
    assert(rest =~= src.subrange(open + 1, src.len() as int));
    assert(valid_utf8(rest));
    let index = close - (open + 1);
    assert(rest[index] == QUOTE);
    is_char_boundary_iff_not_is_continuation_byte(rest, index);
    valid_utf8_split(rest, index);
    assert(rest.subrange(0, index) =~= src.subrange(open + 1, close));
}

/// Scanning an input that is UTF-8 text never fails for its encoding.
pub proof fn law_text_scans_without_encoding_error(src: Seq<u8>, pos: int)
    requires
        valid_utf8(src),
    ensures
        scan_from(src, pos) != Err::<Seq<Token>, ScanError>(ScanError::InvalidEncoding),
    decreases src.len() - pos,
{
    if 0 <= pos < src.len() {
        lemma_lex_advances(src, pos);
        if src[pos] == QUOTE && string_end(src, pos + 1) < src.len() {
            lemma_quoted_text_is_valid(src, pos);
        }
        if let Ok(step) = lex_at(src, pos) {
            law_text_scans_without_encoding_error(src, step.next);
        }
    }
}

/// Parsing tokens never fails with a scanner's error.
pub proof fn lemma_value_failure(toks: Seq<Token>, pos: int)
    requires
        0 <= pos,
    ensures
        parse_value(toks, pos) matches Err(e) ==> !(e is ScanError),
    decreases toks.len() - pos, 0int,
{
    match token_at(toks, pos) {
        Token::LeftSquareBracket => {
            if token_at(toks, pos + 1) != Token::RightSquareBracket {
                lemma_elements_failure(toks, pos + 1, Seq::empty());
            }
        },
        Token::LeftBrace => {
            if token_at(toks, pos + 1) != Token::RightBrace {
                lemma_members_failure(toks, pos + 1, Map::empty());
            }
        },
        _ => {},
    }
}

/// Parsing the items of an array never fails with a scanner's error.
pub proof fn lemma_elements_failure(toks: Seq<Token>, pos: int, done: Seq<Value>)
    requires
        0 <= pos,
    ensures
        parse_elements(toks, pos, done) matches Err(e) ==> !(e is ScanError),
    decreases toks.len() - pos, 1int,
{
    lemma_value_failure(toks, pos);
    if let Ok((item, next)) = parse_value(toks, pos) {
        if next > pos && token_at(toks, next) == Token::Comma {
            lemma_elements_failure(toks, next + 1, done.push(item));
        }
    }
}

/// Parsing the members of an object never fails with a scanner's error.
pub proof fn lemma_members_failure(toks: Seq<Token>, pos: int, done: Map<Seq<char>, Value>)
    requires
        0 <= pos,
    ensures
        parse_members(toks, pos, done) matches Err(e) ==> !(e is ScanError),
    decreases toks.len() - pos, 1int,
{
    if let Token::String(key) = token_at(toks, pos) {
        if token_at(toks, pos + 1) == Token::Colon {
            lemma_value_failure(toks, pos + 2);
            if let Ok((value, next)) = parse_value(toks, pos + 2) {
                if next > pos && token_at(toks, next) == Token::Comma {
                    lemma_members_failure(toks, next + 1, done.insert(key, value));
                }
            }
        }
    }
}

/// Parsing a text never fails for its encoding.
pub proof fn law_text_parses_without_encoding_error(text: Seq<char>)
    ensures
        parse_spec(encode_utf8(text)) != Err::<Value, Failure>(
            Failure::ScanError(ScanError::InvalidEncoding),
        ),
{
    let src = encode_utf8(text);
    encode_utf8_valid_utf8(text);
    law_text_scans_without_encoding_error(src, 0);
    if let Ok(toks) = scan_spec(src) {
        lemma_value_failure(toks, 0);
    }
}

/// Two results of parsing one text agree: both are trees with the same
/// value, or both are the same error.
pub proof fn law_parse_is_a_function(
    src: Seq<u8>,
    first: Result<JsonValue, ParseError>,
    second: Result<JsonValue, ParseError>,
)
    requires
        denotes(first, parse_spec(src)),
        denotes(second, parse_spec(src)),
    ensures
        match first {
            Ok(tree) => second matches Ok(other) && other@ == tree@,
            Err(e) => second matches Err(other) && other@ == e@,
        },
{
}

/// A value that is parsed ends after the position at which it starts, and
/// not past the end of the tokens.
pub proof fn law_value_advances(toks: Seq<Token>, pos: int)
    requires
        0 <= pos,
    ensures
        parse_value(toks, pos) matches Ok((_, next)) ==> pos < next <= toks.len(),
    decreases toks.len() - pos, 0int,
{
    match token_at(toks, pos) {
        Token::LeftSquareBracket => {
            if token_at(toks, pos + 1) != Token::RightSquareBracket {
                lemma_elements_advance(toks, pos + 1, Seq::empty());
            }
        },
        Token::LeftBrace => {
            if token_at(toks, pos + 1) != Token::RightBrace {
                lemma_members_advance(toks, pos + 1, Map::empty());
            }
        },
        _ => {},
    }
}

/// The items of an array end after the position at which they start.
pub proof fn lemma_elements_advance(toks: Seq<Token>, pos: int, done: Seq<Value>)
    requires
        0 <= pos,
    ensures
        parse_elements(toks, pos, done) matches Ok((_, next)) ==> pos < next <= toks.len(),
    decreases toks.len() - pos, 1int,
{
    law_value_advances(toks, pos);
    if let Ok((item, next)) = parse_value(toks, pos) {
        if next > pos && token_at(toks, next) == Token::Comma {
            lemma_elements_advance(toks, next + 1, done.push(item));
        }
    }
}

/// The members of an object end after the position at which they start.
pub proof fn lemma_members_advance(toks: Seq<Token>, pos: int, done: Map<Seq<char>, Value>)
    requires
        0 <= pos,
    ensures
        parse_members(toks, pos, done) matches Ok((_, next)) ==> pos < next <= toks.len(),
    decreases toks.len() - pos, 1int,
{
    if let Token::String(key) = token_at(toks, pos) {
        if token_at(toks, pos + 1) == Token::Colon {
            law_value_advances(toks, pos + 2);
            if let Ok((value, next)) = parse_value(toks, pos + 2) {
                if next > pos && token_at(toks, next) == Token::Comma {
                    lemma_members_advance(toks, next + 1, done.insert(key, value));
                }
            }
        }
    }
}

/// Where two runs of tokens stand one after the other, each of them stands
/// at its place.
pub proof fn lemma_has_at_split(toks: Seq<Token>, pos: int, head: Seq<Token>, rest: Seq<Token>)
    requires
        has_at(toks, pos, head + rest),
    ensures
        has_at(toks, pos, head),
        has_at(toks, pos + head.len(), rest),
{
    let whole = head + rest;
    assert forall|i: int| 0 <= i < head.len() implies toks[pos + i] == #[trigger] head[i] by {
        assert(whole[i] == head[i]);
    }
    assert forall|i: int| 0 <= i < rest.len() implies toks[pos + head.len() + i]
        == #[trigger] rest[i] by {
        assert(whole[head.len() + i] == rest[i]);
    }
}

/// The first of a run of tokens that stands at `pos` is the token at `pos`.
pub proof fn lemma_has_at_first(toks: Seq<Token>, pos: int, part: Seq<Token>)
    requires
        has_at(toks, pos, part),
        part.len() > 0,
    ensures
        token_at(toks, pos) == part[0],
{
    assert(toks[pos + 0] == part[0]);
}

/// The tokens of a document start with a token that starts a value.
pub proof fn lemma_doc_tokens_first(doc: Doc)
    ensures
        doc_tokens(doc).len() >= 1,
        doc_tokens(doc)[0] == match doc {
            Doc::Null => Token::Null,
            Doc::Number(n) => Token::Number(n),
            Doc::String(s) => Token::String(s),
            Doc::Array(_) => Token::LeftSquareBracket,
            Doc::Object(_) => Token::LeftBrace,
        },
{
}

/// Where the tokens of a document stand in a token sequence, parsing at that
/// place succeeds, gives the value that the document denotes, with the items
/// of every array in their written order, and ends after the document's last
/// token.
pub proof fn law_written_document_parses(toks: Seq<Token>, pos: int, doc: Doc)
    requires
        has_at(toks, pos, doc_tokens(doc)),
    ensures
        parse_value(toks, pos) == Ok::<(Value, int), Failure>(
            (doc_value(doc), pos + doc_tokens(doc).len()),
        ),
    decreases doc, 0int,
{
    lemma_doc_tokens_first(doc);
    lemma_has_at_first(toks, pos, doc_tokens(doc));
    match doc {
        Doc::Array(items) => {
            let inner = items_tokens(items, 0);
            lemma_has_at_split(toks, pos, seq![Token::LeftSquareBracket], inner);
            if items.len() == 0 {
                lemma_has_at_first(toks, pos + 1, inner);
                assert(docs_values(items) =~= Seq::<Value>::empty());
            } else {
                lemma_doc_tokens_first(items[0]);
                lemma_has_at_first(toks, pos + 1, inner);
                assert(docs_values(items).take(0) =~= Seq::<Value>::empty());
                lemma_items_parse(toks, pos + 1, items, 0);
            }
        },
        Doc::Object(members) => {
            let inner = members_tokens(members, 0);
            lemma_has_at_split(toks, pos, seq![Token::LeftBrace], inner);
            lemma_has_at_first(toks, pos + 1, inner);
            if members.len() == 0 {
                assert(docs_entries(members) =~= Seq::<(Seq<char>, Value)>::empty());
            } else {
                assert(docs_entries(members).take(0) =~= Seq::<(Seq<char>, Value)>::empty());
                lemma_members_parse(toks, pos + 1, members, 0);
            }
        },
        _ => {},
    }
}

/// Where the items of an array from the item `from` on stand at `pos`, up to
/// the closing bracket, parsing them after the earlier items gives all the
/// items' values, in order.
pub proof fn lemma_items_parse(toks: Seq<Token>, pos: int, items: Seq<Doc>, from: nat)
    requires
        from < items.len(),
        has_at(toks, pos, items_tokens(items, from)),
    ensures
        parse_elements(toks, pos, docs_values(items).take(from as int)) == Ok::<
            (Seq<Value>, int),
            Failure,
        >((docs_values(items), pos + items_tokens(items, from).len())),
    decreases items, items.len() - from,
{
    let item = items[from as int];
    let spelled = doc_tokens(item);
    let done = docs_values(items).take(from as int);
    lemma_doc_tokens_first(item);
    assert(done.push(doc_value(item)) =~= docs_values(items).take(from + 1 as int));
    if from + 1 == items.len() {
        lemma_has_at_split(toks, pos, spelled, seq![Token::RightSquareBracket]);
        law_written_document_parses(toks, pos, item);
        lemma_has_at_first(toks, pos + spelled.len(), seq![Token::RightSquareBracket]);
        assert(docs_values(items).take(from + 1 as int) =~= docs_values(items));
    } else {
        let later = items_tokens(items, (from + 1) as nat);
        lemma_has_at_split(toks, pos, spelled, seq![Token::Comma] + later);
        law_written_document_parses(toks, pos, item);
        lemma_has_at_first(toks, pos + spelled.len(), seq![Token::Comma] + later);
        lemma_has_at_split(toks, pos + spelled.len(), seq![Token::Comma], later);
        lemma_items_parse(toks, pos + spelled.len() + 1, items, (from + 1) as nat);
    }
}

/// Where the members of an object from the member `from` on stand at `pos`,
/// up to the closing brace, parsing them after the earlier members gives the
/// map of all members.
pub proof fn lemma_members_parse(
    toks: Seq<Token>,
    pos: int,
    members: Seq<(Seq<char>, Doc)>,
    from: nat,
)
    requires
        from < members.len(),
        has_at(toks, pos, members_tokens(members, from)),
    ensures
        parse_members(toks, pos, entries_map(docs_entries(members).take(from as int))) == Ok::<
            (Map<Seq<char>, Value>, int),
            Failure,
        >((entries_map(docs_entries(members)), pos + members_tokens(members, from).len())),
    decreases members, members.len() - from,
{
    let key = members[from as int].0;
    let written = members[from as int].1;
    let spelled = doc_tokens(written);
    let head = seq![Token::String(key), Token::Colon];
    let entries = docs_entries(members);
    lemma_doc_tokens_first(written);
    assert(entries.take(from + 1 as int).drop_last() =~= entries.take(from as int));
    assert(entries.take(from + 1 as int).last() == (key, doc_value(written)));
    assert(entries_map(entries.take(from + 1 as int)) == entries_map(entries.take(from as int)).insert(
        key,
        doc_value(written),
    ));
    if from + 1 == members.len() {
        let tail = spelled + seq![Token::RightBrace];
        lemma_has_at_split(toks, pos, head, tail);
        assert(toks[pos + 0] == head[0]);
        assert(toks[pos + 1] == head[1]);
        lemma_has_at_split(toks, pos + 2, spelled, seq![Token::RightBrace]);
        law_written_document_parses(toks, pos + 2, written);
        lemma_has_at_first(toks, pos + 2 + spelled.len(), seq![Token::RightBrace]);
        assert(entries.take(from + 1 as int) =~= entries);
    } else {
        let later = members_tokens(members, (from + 1) as nat);
        let tail = spelled + (seq![Token::Comma] + later);
        lemma_has_at_split(toks, pos, head, tail);
        assert(toks[pos + 0] == head[0]);
        assert(toks[pos + 1] == head[1]);
        lemma_has_at_split(toks, pos + 2, spelled, seq![Token::Comma] + later);
        law_written_document_parses(toks, pos + 2, written);
        lemma_has_at_first(toks, pos + 2 + spelled.len(), seq![Token::Comma] + later);
        lemma_has_at_split(toks, pos + 2 + spelled.len(), seq![Token::Comma], later);
        lemma_members_parse(toks, pos + 2 + spelled.len() + 1, members, (from + 1) as nat);
    }
}

/// Every token sequence that the grammar allows parses: the tokens of a
/// document, closed by the end marker, give the value that the document
/// denotes.
pub proof fn law_grammar_is_accepted(doc: Doc)
    ensures
        parse_tokens_spec(doc_tokens(doc) + seq![Token::Eof]) == Ok::<Value, Failure>(
            doc_value(doc),
        ),
{
    let toks = doc_tokens(doc) + seq![Token::Eof];
    assert forall|i: int| 0 <= i < doc_tokens(doc).len() implies toks[0 + i]
        == #[trigger] doc_tokens(doc)[i] by {}
    law_written_document_parses(toks, 0, doc);
    assert(toks[doc_tokens(doc).len() as int] == Token::Eof);
}

} // verus!

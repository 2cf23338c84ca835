//! From text to tokens: a text that spells a run of tokens scans into that
//! run, and a text that spells a document parses into the document's value.

use vstd::prelude::*;
use vstd::utf8::{encode_utf8, encode_utf8_decode_utf8, encode_utf8_valid_utf8};
use crate::grammar::{
    all_blank,
    decimal_digits,
    doc_spellable,
    doc_text,
    doc_tokens,
    doc_value,
    fits_in_quotes,
    items_tokens,
    members_tokens,
    no_gaps,
    spaced,
    spaced_text,
    spellable,
    token_spellable,
    token_text,
    Doc,
};
use crate::laws::law_grammar_is_accepted;
use crate::parser::{parse_spec, Failure};
use crate::scanner::{
    all_digits,
    digits_end,
    digits_value,
    is_blank,
    is_digit,
    lex_at,
    scan_from,
    scan_spec,
    string_end,
    Lexed,
    ScanError,
    BACKSLASH,
    QUOTE,
};
use crate::token::Token;
use crate::value::Value;

verus! {

/// The units `part` stand in `src` from `pos` on.
pub open spec fn text_at(src: Seq<u8>, pos: int, part: Seq<u8>) -> bool {
    &&& 0 <= pos
    &&& pos + part.len() <= src.len()
    &&& forall|i: int| 0 <= i < part.len() ==> src[pos + i] == #[trigger] part[i]
}

/// The digits of a number are at least one, are digits, and have the number
/// as their value.
pub proof fn lemma_decimal_digits(n: nat)
    ensures
        decimal_digits(n).len() >= 1,
        all_digits(decimal_digits(n)),
        digits_value(decimal_digits(n)) == n,
    decreases n,
{
    let digits = decimal_digits(n);
    if n < 10 {
        assert(digits.drop_last() =~= Seq::<u8>::empty());
        assert(digits_value(digits.drop_last()) == 0);
        assert(digits.last() == (0x30 + n) as u8);
    } else {
        lemma_decimal_digits(n / 10);
        assert(digits.drop_last() =~= decimal_digits(n / 10));
        assert(digits.last() == (0x30 + n % 10) as u8);
        assert forall|i: int| 0 <= i < digits.len() implies is_digit(#[trigger] digits[i]) by {
            if i < digits.len() - 1 {
                assert(digits[i] == decimal_digits(n / 10)[i]);
            }
        }
    }
}

/// A run of digits that is followed by no digit ends where it ends.
pub proof fn lemma_digits_run(src: Seq<u8>, from: int, to: int)
    requires
        0 <= from <= to <= src.len(),
        forall|i: int| from <= i < to ==> is_digit(#[trigger] src[i]),
        to == src.len() || !is_digit(src[to]),
    ensures
        digits_end(src, from) == to,
    decreases to - from,
{
    if from < to {
        lemma_digits_run(src, from + 1, to);
    }
}

/// Where a text stands in an input and is closed by a quote inside itself,
/// the input is closed at the same place.
pub proof fn lemma_string_end_inside(src: Seq<u8>, at: int, part: Seq<u8>, from: int)
    requires
        text_at(src, at, part),
        0 <= from <= part.len(),
        string_end(part, from) < part.len(),
    ensures
        string_end(src, at + from) == at + string_end(part, from),
    decreases part.len() - from,
{
    if from < part.len() {
        assert(src[at + from] == part[from]);
        if part[from] == QUOTE {
        } else if part[from] == BACKSLASH {
            if from + 1 < part.len() {
                lemma_string_end_inside(src, at, part, from + 2);
            }
        } else {
            lemma_string_end_inside(src, at, part, from + 1);
        }
    }
}

/// Scanning passes over a run of blanks.
pub proof fn lemma_blank_run(src: Seq<u8>, pos: int, gap: Seq<u8>)
    requires
        text_at(src, pos, gap),
        all_blank(gap),
    ensures
        scan_from(src, pos) == scan_from(src, pos + gap.len()),
    decreases gap.len(),
{
    if gap.len() > 0 {
        assert(src[pos + 0] == gap[0]);
        assert(is_blank(gap[0]));
        let rest = gap.drop_first();
        assert forall|i: int| 0 <= i < rest.len() implies src[pos + 1 + i] == #[trigger] rest[i]
            && is_blank(rest[i]) by {
            assert(rest[i] == gap[i + 1]);
            assert(src[pos + (i + 1)] == gap[i + 1]);
        }
        lemma_blank_run(src, pos + 1, rest);
    }
}

/// The text of a token that can be spelled is not empty, and starts with a
/// digit only where the token is a number.
pub proof fn lemma_token_text_first(token: Token)
    requires
        token_spellable(token),
    ensures
        token_text(token).len() >= 1,
        !(token is Number) ==> !is_digit(token_text(token)[0]),
{
    if let Token::Number(n) = token {
        lemma_decimal_digits(n as nat);
    }
}

/// Where the text of a token stands at `pos`, and no digit follows the text
/// of a number, the scanning step at `pos` yields that token and ends after
/// its text.
pub proof fn lemma_token_lexes(src: Seq<u8>, pos: int, token: Token)
    requires
        token_spellable(token),
        text_at(src, pos, token_text(token)),
        token is Number ==> pos + token_text(token).len() == src.len() || !is_digit(
            src[pos + token_text(token).len()],
        ),
    ensures
        lex_at(src, pos) == Ok::<Lexed, ScanError>(
            Lexed { token: Some(token), next: pos + token_text(token).len() },
        ),
{
    let text = token_text(token);
    lemma_token_text_first(token);
    assert(src[pos + 0] == text[0]);
    match token {
        Token::Number(n) => {
            lemma_decimal_digits(n as nat);
            let end = pos + text.len();
            assert forall|i: int| pos + 1 <= i < end implies is_digit(#[trigger] src[i]) by {
                assert(src[pos + (i - pos)] == text[i - pos]);
            }
            lemma_digits_run(src, pos + 1, end);
            assert(src.subrange(pos, end) =~= text);
        },
        Token::String(s) => {
            let inner = encode_utf8(s);
            let quoted = inner.push(QUOTE);
            let close = pos + 1 + inner.len();
            assert forall|i: int| 0 <= i < quoted.len() implies src[pos + 1 + i]
                == #[trigger] quoted[i] by {
                assert(src[pos + (i + 1)] == text[i + 1]);
            }
            lemma_string_end_inside(src, pos + 1, quoted, 0);
            assert(src.subrange(pos + 1, close) =~= inner) by {
                assert forall|i: int| 0 <= i < inner.len() implies src[pos + 1 + i]
                    == inner[i] by {
                    assert(quoted[i] == inner[i]);
                }
            }
            encode_utf8_valid_utf8(s);
            encode_utf8_decode_utf8(s);
        },
        Token::Null => {
            assert(src[pos + 1] == text[1]);
            assert(src[pos + 2] == text[2]);
            assert(src[pos + 3] == text[3]);
        },
        _ => {},
    }
}

/// Where the rest of an input from `pos` on is three texts one after the
/// other, each of them stands at its place.
pub proof fn lemma_three_parts(src: Seq<u8>, pos: int, a: Seq<u8>, b: Seq<u8>, c: Seq<u8>)
    requires
        0 <= pos <= src.len(),
        src.subrange(pos, src.len() as int) == a + (b + c),
    ensures
        text_at(src, pos, a),
        text_at(src, pos + a.len(), b),
        pos + a.len() + b.len() + c.len() == src.len(),
        src.subrange(pos + a.len() + b.len(), src.len() as int) == c,
        c.len() > 0 ==> src[pos + a.len() + b.len()] == c[0],
{
    let tail = src.subrange(pos, src.len() as int);
    assert(tail.len() == a.len() + b.len() + c.len());
    assert forall|i: int| 0 <= i < a.len() implies src[pos + i] == #[trigger] a[i] by {
        assert(tail[i] == a[i]);
    }
    assert forall|i: int| 0 <= i < b.len() implies src[pos + a.len() + i] == #[trigger] b[i] by {
        assert(tail[a.len() + i] == b[i]);
    }
    assert forall|i: int| 0 <= i < c.len() implies src[pos + a.len() + b.len() + i] == c[i] by {
        assert(tail[a.len() + b.len() + i] == c[i]);
    }
    assert(src.subrange(pos + a.len() + b.len(), src.len() as int) =~= c);
}

/// Gaps that can stand around a run of tokens can, without the first, stand
/// around the run without its first token.
pub proof fn lemma_spaced_rest(toks: Seq<Token>, gaps: Seq<Seq<u8>>)
    requires
        spaced(toks, gaps),
        toks.len() > 0,
    ensures
        spaced(toks.drop_first(), gaps.drop_first()),
{
    let rest = toks.drop_first();
    let later_gaps = gaps.drop_first();
    assert forall|i: int| 0 <= i < later_gaps.len() implies all_blank(#[trigger] later_gaps[i]) by {
        assert(later_gaps[i] == gaps[i + 1]);
    }
    assert forall|i: int| 0 <= i < rest.len() implies token_spellable(#[trigger] rest[i]) by {
        assert(rest[i] == toks[i + 1]);
    }
    assert forall|i: int|
        0 <= i < rest.len() - 1 && (#[trigger] rest[i]) is Number && rest[i + 1] is Number
        implies later_gaps[i + 1].len() > 0 by {
        assert(rest[i] == toks[i + 1]);
        assert(rest[i + 1] == toks[i + 2]);
        assert(later_gaps[i + 1] == gaps[i + 2]);
    }
}

/// What is written after a number does not start with a digit.
pub proof fn lemma_after_number(toks: Seq<Token>, gaps: Seq<Seq<u8>>)
    requires
        spaced(toks, gaps),
        toks.len() > 0,
        toks[0] is Number,
    ensures
        spaced_text(toks.drop_first(), gaps.drop_first()).len() > 0 ==> !is_digit(
            spaced_text(toks.drop_first(), gaps.drop_first())[0],
        ),
{
    let rest = toks.drop_first();
    let later_gaps = gaps.drop_first();
    let later = spaced_text(rest, later_gaps);
    let gap = later_gaps[0];
    assert(gap == gaps[1]);
    assert(all_blank(gap));
    if gap.len() > 0 {
        assert(is_blank(gap[0]));
        assert(later[0] == gap[0]);
    } else if rest.len() > 0 {
        assert(rest[0] == toks[1]);
        assert(!(toks[0int + 1] is Number));
        assert(token_spellable(toks[1]));
        lemma_token_text_first(rest[0]);
        assert(later[0] == token_text(rest[0])[0]);
    }
}

/// A text that spells a run of tokens, with blanks around them, scans into
/// that run, closed by the end marker.
pub proof fn law_spaced_tokens_scan(src: Seq<u8>, pos: int, toks: Seq<Token>, gaps: Seq<Seq<u8>>)
    requires
        spaced(toks, gaps),
        0 <= pos <= src.len(),
        src.subrange(pos, src.len() as int) == spaced_text(toks, gaps),
    ensures
        scan_from(src, pos) == Ok::<Seq<Token>, ScanError>(toks + seq![Token::Eof]),
    decreases toks.len(),
{
    let gap = gaps[0];
    assert(all_blank(gap));
    if toks.len() == 0 {
        assert(gap + (Seq::<u8>::empty() + Seq::<u8>::empty()) =~= gap);
        lemma_three_parts(src, pos, gap, Seq::empty(), Seq::empty());
        lemma_blank_run(src, pos, gap);
        assert(toks + seq![Token::Eof] =~= seq![Token::Eof]);
    } else {
        let first = toks[0];
        let rest = toks.drop_first();
        let later_gaps = gaps.drop_first();
        let text = token_text(first);
        let later = spaced_text(rest, later_gaps);
        let at = pos + gap.len();
        let next = at + text.len();
        lemma_three_parts(src, pos, gap, text, later);
        lemma_blank_run(src, pos, gap);
        assert(token_spellable(first));
        lemma_spaced_rest(toks, gaps);
        if first is Number {
            lemma_after_number(toks, gaps);
        }
        lemma_token_lexes(src, at, first);
        law_spaced_tokens_scan(src, next, rest, later_gaps);
        assert(seq![first] + (rest + seq![Token::Eof]) =~= toks + seq![Token::Eof]);
    }
}

/// Two runs of tokens that can be spelled can be spelled one after the other,
/// unless a number would meet a number.
pub proof fn lemma_spellable_concat(head: Seq<Token>, rest: Seq<Token>)
    requires
        spellable(head),
        spellable(rest),
        head.len() > 0 && rest.len() > 0 ==> !(head.last() is Number) || !(rest[0] is Number),
    ensures
        spellable(head + rest),
{
    let whole = head + rest;
    assert forall|i: int| 0 <= i < whole.len() implies token_spellable(#[trigger] whole[i]) by {
        if i < head.len() {
            assert(whole[i] == head[i]);
        } else {
            assert(whole[i] == rest[i - head.len()]);
        }
    }
    assert forall|i: int| 0 <= i < whole.len() - 1 implies !((#[trigger] whole[i]) is Number
        && whole[i + 1] is Number) by {
        if i + 1 < head.len() {
            assert(whole[i] == head[i]);
            assert(whole[i + 1] == head[i + 1]);
        } else if i < head.len() {
            assert(whole[i] == head.last());
            assert(whole[i + 1] == rest[0]);
        } else {
            assert(whole[i] == rest[i - head.len()]);
            assert(whole[i + 1] == rest[i - head.len() + 1]);
        }
    }
}

/// The tokens of a document whose strings fit in quotes can be spelled.
pub proof fn lemma_doc_tokens_spellable(doc: Doc)
    requires
        doc_spellable(doc),
    ensures
        spellable(doc_tokens(doc)),
    decreases doc, 0int,
{
    match doc {
        Doc::Array(items) => {
            lemma_items_spellable(items, 0);
            lemma_spellable_concat(seq![Token::LeftSquareBracket], items_tokens(items, 0));
        },
        Doc::Object(members) => {
            lemma_members_spellable(members, 0);
            lemma_spellable_concat(seq![Token::LeftBrace], members_tokens(members, 0));
        },
        _ => {},
    }
}

/// The tokens of an array's items can be spelled where the items' strings fit
/// in quotes.
pub proof fn lemma_items_spellable(items: Seq<Doc>, from: nat)
    requires
        forall|i: int| 0 <= i < items.len() ==> doc_spellable(#[trigger] items[i]),
    ensures
        spellable(items_tokens(items, from)),
    decreases items, items.len() - from,
{
    if from < items.len() {
        let spelled = doc_tokens(items[from as int]);
        lemma_doc_tokens_spellable(items[from as int]);
        if from + 1 == items.len() {
            lemma_spellable_concat(spelled, seq![Token::RightSquareBracket]);
        } else {
            let later = items_tokens(items, (from + 1) as nat);
            lemma_items_spellable(items, (from + 1) as nat);
            lemma_spellable_concat(seq![Token::Comma], later);
            lemma_spellable_concat(spelled, seq![Token::Comma] + later);
        }
    }
}

/// The tokens of an object's members can be spelled where their keys and
/// their values' strings fit in quotes.
pub proof fn lemma_members_spellable(members: Seq<(Seq<char>, Doc)>, from: nat)
    requires
        forall|i: int|
            0 <= i < members.len() ==> fits_in_quotes((#[trigger] members[i]).0)
                && doc_spellable(members[i].1),
    ensures
        spellable(members_tokens(members, from)),
    decreases members, members.len() - from,
{
    if from < members.len() {
        let head = seq![Token::String(members[from as int].0), Token::Colon];
        let spelled = doc_tokens(members[from as int].1);
        lemma_doc_tokens_spellable(members[from as int].1);
        if from + 1 == members.len() {
            lemma_spellable_concat(spelled, seq![Token::RightBrace]);
            lemma_spellable_concat(head, spelled + seq![Token::RightBrace]);
        } else {
            let later = members_tokens(members, (from + 1) as nat);
            lemma_members_spellable(members, (from + 1) as nat);
            lemma_spellable_concat(seq![Token::Comma], later);
            lemma_spellable_concat(spelled, seq![Token::Comma] + later);
            lemma_spellable_concat(head, spelled + (seq![Token::Comma] + later));
        }
    }
}

/// Every text that the grammar allows parses: the text that spells a document
/// whose strings fit in quotes, with any blanks around its tokens, scans into
/// the document's tokens and parses into the value that the document denotes.
pub proof fn law_written_text_parses(doc: Doc, gaps: Seq<Seq<u8>>)
    requires
        doc_spellable(doc),
        gaps.len() == doc_tokens(doc).len() + 1,
        forall|i: int| 0 <= i < gaps.len() ==> all_blank(#[trigger] gaps[i]),
    ensures
        scan_spec(spaced_text(doc_tokens(doc), gaps)) == Ok::<Seq<Token>, ScanError>(
            doc_tokens(doc) + seq![Token::Eof],
        ),
        parse_spec(spaced_text(doc_tokens(doc), gaps)) == Ok::<Value, Failure>(doc_value(doc)),
{
    let src = spaced_text(doc_tokens(doc), gaps);
    lemma_doc_tokens_spellable(doc);
    assert(src.subrange(0, src.len() as int) =~= src);
    law_spaced_tokens_scan(src, 0, doc_tokens(doc), gaps);
    law_grammar_is_accepted(doc);
}

/// Writing and reading back: the text that spells a document without blanks
/// parses into the value that the document denotes. Of the members of an
/// object with one key, the last is the one read back.
pub proof fn law_round_trip(doc: Doc)
    requires
        doc_spellable(doc),
    ensures
        parse_spec(doc_text(doc)) == Ok::<Value, Failure>(doc_value(doc)),
{
    law_written_text_parses(doc, no_gaps(doc_tokens(doc).len()));
}

} // verus!

use jsonparse::parser::{parse, parse_tokens, JsonValue, ParseError, Parser};
use jsonparse::scanner::{JsonToken, ScanError};
use jsonparse::value::put_member;

#[test]
fn test_parse_array() {
    let json = parse(r#"[42]"#).unwrap();
    assert!(matches!(json, JsonValue::Array(_)));
    match json {
        JsonValue::Array(arr) => match &arr[..] {
            &[JsonValue::Number(42)] => {}
            _ => unreachable!(),
        },
        _ => unreachable!(),
    }
}

fn same(a: &JsonValue, b: &JsonValue) -> bool {
    match (a, b) {
        (JsonValue::Null, JsonValue::Null) => true,
        (JsonValue::Number(x), JsonValue::Number(y)) => x == y,
        (JsonValue::String(x), JsonValue::String(y)) => x == y,
        (JsonValue::Array(x), JsonValue::Array(y)) => {
            x.len() == y.len() && x.iter().zip(y.iter()).all(|(p, q)| same(p, q))
        }
        (JsonValue::Object(x), JsonValue::Object(y)) => {
            x.len() == y.len()
                && x.iter()
                    .all(|(k, v)| y.iter().any(|(l, w)| k == l && same(v, w)))
        }
        _ => false,
    }
}

fn text(s: &str) -> JsonValue {
    JsonValue::String(String::from(s))
}

#[test]
fn parse_number() {
    assert!(same(&parse("42").unwrap(), &JsonValue::Number(42)));
}

#[test]
fn parse_null_and_string() {
    assert!(same(&parse("null").unwrap(), &JsonValue::Null));
    assert!(same(&parse("\"foo\"").unwrap(), &text("foo")));
    assert!(same(&parse(" \"\" ").unwrap(), &text("")));
}

#[test]
fn parse_mixed_array_keeps_order() {
    let parsed = parse(r#"[42,"foo",null]"#).unwrap();
    let expected = JsonValue::Array(vec![JsonValue::Number(42), text("foo"), JsonValue::Null]);
    assert!(same(&parsed, &expected));
    let reversed = JsonValue::Array(vec![JsonValue::Null, text("foo"), JsonValue::Number(42)]);
    assert!(!same(&parsed, &reversed));
}

#[test]
fn parse_trailing_comma_in_array_fails() {
    match parse("[42,]") {
        Err(ParseError::UnexpectedToken(JsonToken::RightSquareBracket)) => {}
        other => panic!("{:?}", other),
    }
}

#[test]
fn parse_unterminated_string_fails() {
    match parse("\"foo") {
        Err(ParseError::ScanError(ScanError::UnexpectedEof)) => {}
        other => panic!("{:?}", other),
    }
}

#[test]
fn parse_object_with_array() {
    let parsed = parse(r#"{"k":[1,2]}"#).unwrap();
    let expected = JsonValue::Object(vec![(
        String::from("k"),
        JsonValue::Array(vec![JsonValue::Number(1), JsonValue::Number(2)]),
    )]);
    assert!(same(&parsed, &expected));
}

#[test]
fn parse_empty_input_fails() {
    assert!(matches!(parse(""), Err(ParseError::EmptyInput)));
    assert!(matches!(parse(" \n\t "), Err(ParseError::EmptyInput)));
    assert!(matches!(parse_tokens(vec![]), Err(ParseError::EmptyInput)));
    assert!(matches!(
        parse_tokens(vec![JsonToken::Eof]),
        Err(ParseError::EmptyInput)
    ));
}

#[test]
fn parse_empty_array_and_object() {
    match parse("[]").unwrap() {
        JsonValue::Array(items) => assert!(items.is_empty()),
        other => panic!("{:?}", other),
    }
    match parse("{}").unwrap() {
        JsonValue::Object(members) => assert!(members.is_empty()),
        other => panic!("{:?}", other),
    }
    match parse(" [ ] ").unwrap() {
        JsonValue::Array(items) => assert!(items.is_empty()),
        other => panic!("{:?}", other),
    }
}

#[test]
fn parse_trailing_content_fails() {
    assert!(matches!(parse("42 43"), Err(ParseError::TrailingContent)));
    assert!(matches!(parse("[] []"), Err(ParseError::TrailingContent)));
    assert!(matches!(parse("null,"), Err(ParseError::TrailingContent)));
    assert!(matches!(parse("{}}"), Err(ParseError::TrailingContent)));
}

#[test]
fn parse_duplicate_key_last_write_wins() {
    match parse(r#"{"a":1,"a":2}"#).unwrap() {
        JsonValue::Object(members) => {
            assert_eq!(members.len(), 1);
            assert_eq!(members[0].0, "a");
            assert!(matches!(members[0].1, JsonValue::Number(2)));
        }
        other => panic!("{:?}", other),
    }
    match parse(r#"{"a":1,"b":2,"a":[3]}"#).unwrap() {
        JsonValue::Object(members) => {
            assert_eq!(members.len(), 2);
            assert_eq!(members[0].0, "a");
            assert!(same(&members[0].1, &JsonValue::Array(vec![JsonValue::Number(3)])));
            assert_eq!(members[1].0, "b");
            assert!(matches!(members[1].1, JsonValue::Number(2)));
        }
        other => panic!("{:?}", other),
    }
}

#[test]
fn parse_nested_structures() {
    let parsed = parse(r#" { "a" : [ { } , [ [ ] ] , { "b" : null } ] , "c" : "d" } "#).unwrap();
    let expected = JsonValue::Object(vec![
        (
            String::from("a"),
            JsonValue::Array(vec![
                JsonValue::Object(vec![]),
                JsonValue::Array(vec![JsonValue::Array(vec![])]),
                JsonValue::Object(vec![(String::from("b"), JsonValue::Null)]),
            ]),
        ),
        (String::from("c"), text("d")),
    ]);
    assert!(same(&parsed, &expected));
}

#[test]
fn parse_twice_gives_equal_trees() {
    let input = r#"{"k":[1,2,{"z":null}],"s":"t"}"#;
    assert!(same(&parse(input).unwrap(), &parse(input).unwrap()));
}

#[test]
fn parse_array_separator_errors() {
    assert!(matches!(parse("[1 2]"), Err(ParseError::SyntaxError)));
    assert!(matches!(parse("[1:2]"), Err(ParseError::SyntaxError)));
    assert!(matches!(parse("[1"), Err(ParseError::SyntaxError)));
    assert!(matches!(parse("[1}"), Err(ParseError::SyntaxError)));
    match parse("[,1]") {
        Err(ParseError::UnexpectedToken(JsonToken::Comma)) => {}
        other => panic!("{:?}", other),
    }
    match parse("[") {
        Err(ParseError::UnexpectedToken(JsonToken::Eof)) => {}
        other => panic!("{:?}", other),
    }
    match parse("[1,") {
        Err(ParseError::UnexpectedToken(JsonToken::Eof)) => {}
        other => panic!("{:?}", other),
    }
}

#[test]
fn parse_object_errors() {
    assert!(matches!(parse("{1:2}"), Err(ParseError::SyntaxError)));
    assert!(matches!(parse("{null:2}"), Err(ParseError::SyntaxError)));
    assert!(matches!(parse(r#"{"a" 1}"#), Err(ParseError::SyntaxError)));
    assert!(matches!(parse(r#"{"a":1,}"#), Err(ParseError::SyntaxError)));
    assert!(matches!(parse(r#"{"a":1 "b":2}"#), Err(ParseError::SyntaxError)));
    assert!(matches!(parse(r#"{"a":1]"#), Err(ParseError::SyntaxError)));
    assert!(matches!(parse("{"), Err(ParseError::SyntaxError)));
    assert!(matches!(parse(r#"{"a":1"#), Err(ParseError::SyntaxError)));
    match parse(r#"{"a":}"#) {
        Err(ParseError::UnexpectedToken(JsonToken::RightBrace)) => {}
        other => panic!("{:?}", other),
    }
    match parse(r#"{"a":"#) {
        Err(ParseError::UnexpectedToken(JsonToken::Eof)) => {}
        other => panic!("{:?}", other),
    }
}

#[test]
fn parse_unexpected_leading_token() {
    match parse("]") {
        Err(ParseError::UnexpectedToken(JsonToken::RightSquareBracket)) => {}
        other => panic!("{:?}", other),
    }
    match parse(":") {
        Err(ParseError::UnexpectedToken(JsonToken::Colon)) => {}
        other => panic!("{:?}", other),
    }
}

#[test]
fn parse_reports_scan_errors() {
    match parse("[1, ?]") {
        Err(ParseError::ScanError(ScanError::SyntaxError { unit: b'?', position: 4 })) => {}
        other => panic!("{:?}", other),
    }
    match parse("99999999999999999999") {
        Err(ParseError::ScanError(ScanError::Number)) => {}
        other => panic!("{:?}", other),
    }
}

#[test]
fn parse_tokens_without_end_marker() {
    let parsed = parse_tokens(vec![
        JsonToken::LeftSquareBracket,
        JsonToken::Number(5),
        JsonToken::RightSquareBracket,
    ])
    .unwrap();
    assert!(same(&parsed, &JsonValue::Array(vec![JsonValue::Number(5)])));
}

#[test]
fn parser_expression_leaves_cursor_after_value() {
    let mut parser = Parser::new(vec![
        JsonToken::Number(1),
        JsonToken::Null,
        JsonToken::Eof,
    ]);
    assert!(matches!(parser.expression(), Ok(JsonValue::Number(1))));
    assert!(matches!(parser.expression(), Ok(JsonValue::Null)));
    match parser.expression() {
        Err(ParseError::UnexpectedToken(JsonToken::Eof)) => {}
        other => panic!("{:?}", other),
    }
}

fn write(value: &JsonValue, out: &mut String) {
    match value {
        JsonValue::Null => out.push_str("null"),
        JsonValue::Number(n) => out.push_str(&format!("{}", n)),
        JsonValue::String(s) => {
            out.push('"');
            out.push_str(s);
            out.push('"');
        }
        JsonValue::Array(items) => {
            out.push('[');
            for (i, item) in items.iter().enumerate() {
                if i > 0 {
                    out.push(',');
                }
                write(item, out);
            }
            out.push(']');
        }
        JsonValue::Object(members) => {
            out.push('{');
            for (i, (key, item)) in members.iter().enumerate() {
                if i > 0 {
                    out.push(',');
                }
                out.push('"');
                out.push_str(key);
                out.push_str("\":");
                write(item, out);
            }
            out.push('}');
        }
    }
}

#[test]
fn written_value_reads_back() {
    let value = JsonValue::Object(vec![
        (String::from("id"), JsonValue::Number(0)),
        (
            String::from("tags"),
            JsonValue::Array(vec![text("a"), text(""), JsonValue::Null, JsonValue::Number(u64::MAX)]),
        ),
        (
            String::from("inner"),
            JsonValue::Object(vec![(String::from("e"), JsonValue::Array(vec![]))]),
        ),
        (String::from("escaped"), text(r#"say \"hi\" \\"#)),
    ]);
    let mut written = String::new();
    write(&value, &mut written);
    assert_eq!(
        written,
        r#"{"id":0,"tags":["a","",null,18446744073709551615],"inner":{"e":[]},"escaped":"say \"hi\" \\"}"#
    );
    assert!(same(&parse(&written).unwrap(), &value));
}

#[test]
fn blanks_between_tokens_change_nothing() {
    let tight = parse(r#"{"k":[1,2],"n":null}"#).unwrap();
    let loose = parse("\t{ \"k\" :\r\n[ 1 ,2 ]\n, \"n\":null }  ").unwrap();
    assert!(same(&tight, &loose));
}

#[test]
fn cloned_tree_is_equal() {
    let tree = parse(r#"{"k":[1,{"z":"w"}],"n":null}"#).unwrap();
    let copy = tree.clone();
    assert!(same(&tree, &copy));
}

#[test]
fn adjacent_numbers_need_a_blank() {
    assert!(same(&parse("12").unwrap(), &JsonValue::Number(12)));
    assert!(matches!(parse("1 2"), Err(ParseError::TrailingContent)));
}

#[test]
fn put_member_appends_or_replaces() {
    let mut members: Vec<(String, JsonValue)> = Vec::new();
    put_member(&mut members, String::from("a"), JsonValue::Number(1));
    put_member(&mut members, String::from("b"), JsonValue::Null);
    put_member(&mut members, String::from("a"), JsonValue::Number(2));
    assert_eq!(members.len(), 2);
    let a = members.iter().find(|(k, _)| k == "a").unwrap();
    assert!(matches!(a.1, JsonValue::Number(2)));
    let b = members.iter().find(|(k, _)| k == "b").unwrap();
    assert!(matches!(b.1, JsonValue::Null));
}

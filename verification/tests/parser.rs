use std::collections::HashMap;

use json_parser::error::JsonError;
use json_parser::number::Number;
use json_parser::parser::{parse, parse_array, parse_object, parse_value, TokenStream};
use json_parser::tokenizer::Token;
use json_parser::value::{find_member, insert_member, Value};

const COMPLETE_JSON: &str = r#"{
    "string": "This is a string",
    "number": 42,
    "float": 3.14,
    "exponential": 2.998e8,
    "negative": -17,
    "true": true,
    "false": false,
    "null": null,
    "array": [
        1,
        2,
        "three",
        4.5,
        true,
        null
    ],
    "object": {
        "key1": "value1",
        "key2": 100,
        "key3": {
            "nested": "object"
        }
    },
    "emptyArray": [],
    "emptyObject": {}
}"#;

/// A value with its numbers as machine numbers and its objects as maps.
#[derive(Debug, PartialEq, Clone)]
enum Tree {
    Null,
    Boolean(bool),
    Number(f64),
    String(String),
    Array(Vec<Tree>),
    Object(HashMap<String, Tree>),
}

fn tree(value: &Value) -> Tree {
    match value {
        Value::Null => Tree::Null,
        Value::Boolean(b) => Tree::Boolean(*b),
        Value::Number(number) => Tree::Number(number.as_str().parse().unwrap()),
        Value::String(text) => Tree::String(text.clone()),
        Value::Array(items) => Tree::Array(items.iter().map(tree).collect()),
        Value::Object(members) => {
            Tree::Object(members.iter().map(|(key, value)| (key.clone(), tree(value))).collect())
        }
    }
}

fn number(x: f64) -> Number {
    Number::from_text(x.to_string()).unwrap()
}

fn literal(text: &str) -> Value {
    Value::Number(Number::from_text(text.to_string()).unwrap())
}

fn stream<const N: usize>(tokens: [Token; N]) -> TokenStream {
    TokenStream::new(tokens.into())
}

fn concat_lines(lines: &[&str]) -> String {
    lines.join("\n")
}

fn string(text: &str) -> Token {
    Token::String(text.to_string())
}

#[test]
fn test_parse_no_tokens() {
    assert_eq!(parse("").unwrap_err(), JsonError::NoTokens);
}

#[test]
fn test_parse_unexpected_token() {
    for token in [
        Token::RightBrace,
        Token::RightBracket,
        Token::Comma,
        Token::Colon,
    ] {
        let input = token.to_string();
        assert_eq!(
            parse(&input).unwrap_err(),
            JsonError::UnexpectedToken(Some(token))
        );
    }
}

#[test]
fn test_parse_value() {
    assert_eq!(
        tree(&parse_value(&mut stream([Token::True])).unwrap()),
        Tree::Boolean(true)
    );
    assert_eq!(
        tree(&parse_value(&mut stream([Token::False])).unwrap()),
        Tree::Boolean(false)
    );
    assert_eq!(
        tree(&parse_value(&mut stream([Token::Null])).unwrap()),
        Tree::Null
    );
    assert_eq!(
        tree(&parse_value(&mut stream([Token::String("hello".to_string())])).unwrap()),
        Tree::String("hello".to_string())
    );
    assert_eq!(
        tree(&parse_value(&mut stream([Token::Number(number(-1.0))])).unwrap()),
        Tree::Number(-1.0)
    );
    assert_eq!(
        tree(&parse_value(&mut stream([Token::Number(number(1.1e3))])).unwrap()),
        Tree::Number(1100.0)
    );
}

#[test]
fn test_parse_array() {
    assert_eq!(
        tree(
            &parse_array(&mut stream([
                Token::LeftBracket,
                Token::True,
                Token::Comma,
                Token::Null,
                Token::RightBracket
            ]))
            .unwrap()
        ),
        Tree::Array(vec![Tree::Boolean(true), Tree::Null])
    );
    assert_eq!(
        tree(&parse_array(&mut stream([Token::LeftBracket, Token::RightBracket])).unwrap()),
        Tree::Array(vec![])
    );
}

#[test]
fn test_parse_object() {
    assert_eq!(
        tree(
            &parse_object(&mut stream([
                Token::LeftBrace,
                Token::String("key".to_string()),
                Token::Colon,
                Token::True,
                Token::Comma,
                Token::String("null".to_string()),
                Token::Colon,
                Token::Null,
                Token::RightBrace
            ]))
            .unwrap()
        ),
        Tree::Object(
            [
                ("key".to_string(), Tree::Boolean(true)),
                ("null".to_string(), Tree::Null)
            ]
            .into()
        )
    );

    assert_eq!(
        tree(&parse_object(&mut stream([Token::LeftBrace, Token::RightBrace])).unwrap()),
        Tree::Object([].into())
    );
}

#[test]
fn test_parse_complete() {
    assert_eq!(
        tree(&parse(COMPLETE_JSON).unwrap()),
        Tree::Object(
            [
                (
                    "string".to_string(),
                    Tree::String("This is a string".to_string())
                ),
                ("number".to_string(), Tree::Number(42.0)),
                ("float".to_string(), Tree::Number(3.14)),
                ("exponential".to_string(), Tree::Number(2.998e8)),
                ("negative".to_string(), Tree::Number(-17.0)),
                ("true".to_string(), Tree::Boolean(true)),
                ("false".to_string(), Tree::Boolean(false)),
                ("null".to_string(), Tree::Null),
                (
                    "array".to_string(),
                    Tree::Array(vec![
                        Tree::Number(1.0),
                        Tree::Number(2.0),
                        Tree::String("three".to_string()),
                        Tree::Number(4.5),
                        Tree::Boolean(true),
                        Tree::Null,
                    ])
                ),
                (
                    "object".to_string(),
                    Tree::Object(
                        [
                            ("key1".to_string(), Tree::String("value1".to_string())),
                            ("key2".to_string(), Tree::Number(100.0)),
                            (
                                "key3".to_string(),
                                Tree::Object(
                                    [(
                                        "nested".to_string(),
                                        Tree::String("object".to_string())
                                    )]
                                    .into()
                                )
                            )
                        ]
                        .into()
                    )
                ),
                ("emptyArray".to_string(), Tree::Array(Default::default())),
                ("emptyObject".to_string(), Tree::Object(Default::default()))
            ]
            .into()
        )
    );
}

fn keys(value: &Value) -> Vec<&str> {
    match value {
        Value::Object(members) => members.iter().map(|(key, _)| key.as_str()).collect(),
        _ => panic!("no object"),
    }
}

#[test]
fn parse_keeps_members_in_the_order_of_the_text() {
    let value = parse(r#"{"b": 1, "a": [2, "x"], "c": {"d": null}, "a": 0}"#).unwrap();
    assert_eq!(keys(&value), vec!["b", "a", "c"]);
    assert_eq!(
        value,
        Value::Object(vec![
            ("b".to_string(), literal("1")),
            ("a".to_string(), literal("0")),
            ("c".to_string(), Value::Object(vec![("d".to_string(), Value::Null)])),
        ])
    );
}

#[test]
fn values_are_equal_whatever_the_order_of_members() {
    let first = parse(r#"{"a": 1, "b": {"c": [true], "d": null}}"#).unwrap();
    let second = parse(r#"{"b": {"d": null, "c": [true]}, "a": 1}"#).unwrap();
    assert_eq!(first, second);
    assert_eq!(second, first);
    assert_eq!(tree(&first), tree(&second));
}

#[test]
fn values_differ() {
    let value = parse(r#"{"a": 1, "b": [1, 2]}"#).unwrap();
    for other in [
        r#"{"a": 1}"#,
        r#"{"a": 1, "b": [1, 2], "c": null}"#,
        r#"{"a": 2, "b": [1, 2]}"#,
        r#"{"a": 1, "b": [2, 1]}"#,
        r#"{"a": 1, "b": [1]}"#,
        r#"{"a": 1, "c": [1, 2]}"#,
        r#"{"a": 1.0, "b": [1, 2]}"#,
        r#"["a", 1, "b", 1, 2]"#,
        "null",
        "{}",
    ] {
        let other = parse(other).unwrap();
        assert_ne!(value, other);
        assert_ne!(other, value);
    }
    assert_ne!(Value::Null, Value::Boolean(false));
    assert_ne!(Value::String("1".to_string()), literal("1"));
    assert_ne!(Value::Array(vec![]), Value::Object(vec![]));
    assert_eq!(Value::Array(vec![]), Value::Array(vec![]));
    assert_eq!(Value::Boolean(true), Value::Boolean(true));
    assert_ne!(Value::Boolean(true), Value::Boolean(false));
    assert_ne!(Value::String("a".to_string()), Value::String("b".to_string()));
}

#[test]
fn values_with_a_key_twice_count_the_later_member() {
    let twice = Value::Object(vec![
        ("a".to_string(), Value::Null),
        ("b".to_string(), Value::Null),
        ("a".to_string(), Value::Boolean(true)),
    ]);
    let once = Value::Object(vec![
        ("b".to_string(), Value::Null),
        ("a".to_string(), Value::Boolean(true)),
    ]);
    let other = Value::Object(vec![
        ("a".to_string(), Value::Null),
        ("b".to_string(), Value::Null),
    ]);
    assert_eq!(twice, once);
    assert_eq!(once, twice);
    assert_ne!(twice, other);
    assert_ne!(other, twice);
}

#[test]
fn value_clone_is_equal() {
    for text in ["null", "[1, \"a\", true]", COMPLETE_JSON, "{}", "-1.5e3"] {
        let value = parse(text).unwrap();
        let copy = value.clone();
        assert_eq!(copy, value);
        assert_eq!(format!("{copy:?}"), format!("{value:?}"));
    }
}

#[test]
fn find_member_gives_the_last_place() {
    let members = vec![
        ("a".to_string(), Value::Null),
        ("b".to_string(), Value::Null),
        ("a".to_string(), Value::Null),
        ("c".to_string(), Value::Null),
    ];
    assert_eq!(find_member(&members, &"a".to_string()), Some(2));
    assert_eq!(find_member(&members, &"b".to_string()), Some(1));
    assert_eq!(find_member(&members, &"c".to_string()), Some(3));
    assert_eq!(find_member(&members, &"d".to_string()), None);
    assert_eq!(find_member(&Vec::new(), &"a".to_string()), None);
}

#[test]
fn parse_small_documents() {
    assert_eq!(
        parse("[true,null]").unwrap(),
        Value::Array(vec![Value::Boolean(true), Value::Null])
    );
    assert_eq!(parse("[]").unwrap(), Value::Array(vec![]));
    assert_eq!(parse("{}").unwrap(), Value::Object(vec![]));
    assert_eq!(
        parse(r#"{"key":true,"null":null}"#).unwrap(),
        Value::Object(vec![
            ("key".to_string(), Value::Boolean(true)),
            ("null".to_string(), Value::Null)
        ])
    );
    assert_eq!(parse(" \n 7 \n").unwrap(), literal("7"));
    assert_eq!(parse("\"text\"").unwrap(), Value::String("text".to_string()));
    assert_eq!(parse("false").unwrap(), Value::Boolean(false));
}

#[test]
fn parse_number_values() {
    for (text, expected) in [
        ("2.998e8", 299800000.0),
        ("-17", -17.0),
        ("3.14", 3.14),
        ("1E2", 100.0),
        ("-0", -0.0),
        ("1e-2", 0.01),
    ] {
        assert_eq!(tree(&parse(text).unwrap()), Tree::Number(expected));
    }
}

#[test]
fn parse_later_member_replaces_earlier_one() {
    assert_eq!(
        parse(r#"{"a": 1, "b": 2, "a": 3}"#).unwrap(),
        Value::Object(vec![("a".to_string(), literal("3")), ("b".to_string(), literal("2"))])
    );
}

#[test]
fn parse_ignores_what_follows_the_value() {
    assert_eq!(parse("null ] true").unwrap(), Value::Null);
    assert_eq!(parse("[1] [2]").unwrap(), Value::Array(vec![literal("1")]));
    assert_eq!(
        parse("null @").unwrap_err(),
        JsonError::UnexpectedCharacter { position: (0, 6), expected_token: None, got: Some('@') }
    );
}

#[test]
fn parse_hands_on_the_errors_of_the_tokenizer() {
    assert_eq!(
        parse("[1, 2e]").unwrap_err(),
        JsonError::ParsingNumber { position: (0, 6), message: "invalid float literal".to_string() }
    );
    assert_eq!(
        parse("{\"a\": nul}").unwrap_err(),
        JsonError::UnexpectedCharacter {
            position: (0, 10),
            expected_token: Some(Token::Null),
            got: Some('}')
        }
    );
}

#[test]
fn parse_blank_text_has_no_tokens() {
    assert_eq!(parse("  \n ").unwrap_err(), JsonError::NoTokens);
    assert_eq!(parse(" ").unwrap_err(), JsonError::NoTokens);
    assert_eq!(parse("\n\n").unwrap_err(), JsonError::NoTokens);
}

#[test]
fn parse_lone_mark_among_blanks() {
    for (text, token) in [
        (" }", Token::RightBrace),
        ("]\n", Token::RightBracket),
        ("\n , ", Token::Comma),
        ("  :  ", Token::Colon),
    ] {
        assert_eq!(parse(text).unwrap_err(), JsonError::UnexpectedToken(Some(token)));
    }
}

#[test]
fn parse_document_with_blanks_around_its_tokens() {
    let compact = r#"{"a":[1,"x",true,null],"b":{"c":-2.5e3,"d":{}},"e":[]}"#;
    let spaced = concat_lines(&[
        "",
        "{ \"a\" :",
        "[ 1 ,\"x\"",
        ",  true , null ]",
        ",",
        "\"b\": { \"c\" : -2.5e3 ,\"d\":{ } } , \"e\" : [",
        "] }",
        " ",
    ]);
    let spaced = spaced.as_str();
    let expected = Value::Object(vec![
        (
            "a".to_string(),
            Value::Array(vec![
                literal("1"),
                Value::String("x".to_string()),
                Value::Boolean(true),
                Value::Null,
            ]),
        ),
        (
            "b".to_string(),
            Value::Object(vec![
                ("c".to_string(), literal("-2.5e3")),
                ("d".to_string(), Value::Object(vec![])),
            ]),
        ),
        ("e".to_string(), Value::Array(vec![])),
    ]);
    assert_eq!(parse(compact).unwrap(), expected);
    assert_eq!(parse(spaced).unwrap(), expected);
}

#[test]
fn parse_array_passes_over_commas() {
    assert_eq!(
        parse("[,1,,2,]").unwrap(),
        Value::Array(vec![literal("1"), literal("2")])
    );
    assert_eq!(parse("[1 2]").unwrap(), Value::Array(vec![literal("1"), literal("2")]));
}

#[test]
fn parse_array_without_closing_bracket() {
    assert_eq!(parse("[1, 2").unwrap(), Value::Array(vec![literal("1"), literal("2")]));
    assert_eq!(parse("[").unwrap(), Value::Array(vec![]));
}

#[test]
fn parse_array_rejects_structure_among_its_items() {
    assert_eq!(parse("[[1]]").unwrap_err(), JsonError::UnexpectedToken(Some(Token::LeftBracket)));
    assert_eq!(parse("[{}]").unwrap_err(), JsonError::UnexpectedToken(Some(Token::LeftBrace)));
    assert_eq!(parse("[1}").unwrap_err(), JsonError::UnexpectedToken(Some(Token::RightBrace)));
    assert_eq!(parse("[1:2]").unwrap_err(), JsonError::UnexpectedToken(Some(Token::Colon)));
}

#[test]
fn parse_array_needs_its_opening_bracket() {
    assert_eq!(
        parse_array(&mut stream([Token::True])).unwrap_err(),
        JsonError::UnexpectedToken(Some(Token::True))
    );
    assert_eq!(parse_array(&mut stream([])).unwrap_err(), JsonError::UnexpectedToken(None));
}

#[test]
fn parse_object_needs_its_opening_brace() {
    assert_eq!(
        parse_object(&mut stream([Token::LeftBracket])).unwrap_err(),
        JsonError::UnexpectedToken(Some(Token::LeftBracket))
    );
    assert_eq!(parse_object(&mut stream([])).unwrap_err(), JsonError::UnexpectedToken(None));
}

#[test]
fn parse_object_passes_over_commas() {
    assert_eq!(
        parse(r#"{,"a":1,,"b":2,}"#).unwrap(),
        Value::Object(vec![("a".to_string(), literal("1")), ("b".to_string(), literal("2"))])
    );
    assert_eq!(
        parse(r#"{"a":1 "b":2}"#).unwrap(),
        Value::Object(vec![("a".to_string(), literal("1")), ("b".to_string(), literal("2"))])
    );
}

#[test]
fn parse_object_without_closing_brace() {
    assert_eq!(
        parse(r#"{"a": [1"#).unwrap(),
        Value::Object(vec![("a".to_string(), Value::Array(vec![literal("1")]))])
    );
    assert_eq!(parse("{").unwrap(), Value::Object(vec![]));
}

#[test]
fn parse_object_key_has_to_be_a_string() {
    assert_eq!(parse("{1: 2}").unwrap_err().to_owned_token(), Some("1".to_string()));
    assert_eq!(parse("{true: 2}").unwrap_err(), JsonError::UnexpectedToken(Some(Token::True)));
    assert_eq!(parse("{[").unwrap_err(), JsonError::UnexpectedToken(Some(Token::LeftBracket)));
    assert_eq!(parse("{:").unwrap_err(), JsonError::UnexpectedToken(Some(Token::Colon)));
    assert_eq!(parse("{{").unwrap_err(), JsonError::UnexpectedToken(Some(Token::LeftBrace)));
}

trait OwnedToken {
    fn to_owned_token(&self) -> Option<String>;
}

impl OwnedToken for JsonError {
    fn to_owned_token(&self) -> Option<String> {
        match self {
            JsonError::UnexpectedToken(Some(token)) => Some(token.to_string()),
            _ => None,
        }
    }
}

#[test]
fn parse_object_key_needs_its_colon() {
    assert_eq!(
        parse(r#"{"a" 1}"#).unwrap_err(),
        JsonError::UnexpectedToken(Some(Token::Number(number(1.0))))
    );
    assert_eq!(
        parse(r#"{"a", "b": 1}"#).unwrap_err(),
        JsonError::UnexpectedToken(Some(Token::Comma))
    );
    assert_eq!(parse(r#"{"a""#).unwrap_err(), JsonError::UnexpectedToken(None));
}

#[test]
fn parse_object_member_needs_its_value() {
    assert_eq!(parse(r#"{"a":"#).unwrap_err(), JsonError::NoTokens);
    assert_eq!(
        parse(r#"{"a":}"#).unwrap_err(),
        JsonError::UnexpectedToken(Some(Token::RightBrace))
    );
    assert_eq!(
        parse(r#"{"a": [[]}"#).unwrap_err(),
        JsonError::UnexpectedToken(Some(Token::LeftBracket))
    );
}

#[test]
fn parse_objects_within_objects() {
    assert_eq!(
        parse(r#"{"a": {"b": {"c": []}}, "d": {}}"#).unwrap(),
        Value::Object(vec![
            (
                "a".to_string(),
                Value::Object(vec![(
                    "b".to_string(),
                    Value::Object(vec![("c".to_string(), Value::Array(vec![]))])
                )])
            ),
            ("d".to_string(), Value::Object(vec![])),
        ])
    );
}

#[test]
fn result_is_a_value_or_an_error() {
    let value: json_parser::Result<Value> = parse("null");
    assert_eq!(value, Ok(Value::Null));
    let error: json_parser::Result<Value> = parse("");
    assert_eq!(error, Err(JsonError::NoTokens));
}

#[test]
fn parse_twice_gives_the_same() {
    assert_eq!(parse(COMPLETE_JSON), parse(COMPLETE_JSON));
    assert_eq!(parse("{\"a\": tru"), parse("{\"a\": tru"));
    assert_eq!(parse("[[1]]"), parse("[[1]]"));
}

#[test]
fn parse_value_takes_one_value_from_the_stream() {
    let mut tokens = stream([Token::True, Token::Comma, Token::Null]);
    assert_eq!(parse_value(&mut tokens).unwrap(), Value::Boolean(true));
    assert_eq!(tokens.peek(), Some(&Token::Comma));
    assert_eq!(
        parse_value(&mut tokens).unwrap_err(),
        JsonError::UnexpectedToken(Some(Token::Comma))
    );
    assert_eq!(parse_value(&mut tokens).unwrap(), Value::Null);
    assert_eq!(parse_value(&mut tokens).unwrap_err(), JsonError::NoTokens);
}

#[test]
fn parse_value_goes_into_arrays_and_objects() {
    let mut tokens = stream([
        Token::LeftBracket,
        string("x"),
        Token::RightBracket,
        Token::LeftBrace,
        string("k"),
        Token::Colon,
        Token::False,
        Token::RightBrace,
        Token::Null,
    ]);
    assert_eq!(
        parse_value(&mut tokens).unwrap(),
        Value::Array(vec![Value::String("x".to_string())])
    );
    assert_eq!(
        parse_value(&mut tokens).unwrap(),
        Value::Object(vec![("k".to_string(), Value::Boolean(false))])
    );
    assert_eq!(tokens.next(), Some(Token::Null));
    assert_eq!(tokens.next(), None);
}

#[test]
fn token_stream_hands_out_tokens_in_order() {
    let mut tokens = stream([Token::Colon, string("s"), Token::True]);
    assert_eq!(tokens.peek(), Some(&Token::Colon));
    assert_eq!(tokens.next(), Some(Token::Colon));
    assert_eq!(tokens.next(), Some(string("s")));
    assert_eq!(tokens.peek(), Some(&Token::True));
    assert_eq!(tokens.next(), Some(Token::True));
    assert_eq!(tokens.peek(), None);
    assert_eq!(tokens.next(), None);
}

#[test]
fn insert_member_adds_and_replaces() {
    let mut members = Vec::new();
    insert_member(&mut members, "a".to_string(), Value::Null);
    insert_member(&mut members, "b".to_string(), Value::Boolean(true));
    insert_member(&mut members, "a".to_string(), Value::Boolean(false));
    assert_eq!(format!("{members:?}"), r#"[("a", Boolean(false)), ("b", Boolean(true))]"#);
}

#[test]
fn insert_member_replaces_the_last_of_equal_keys() {
    let mut members = vec![
        ("a".to_string(), Value::Null),
        ("a".to_string(), Value::Null),
        ("b".to_string(), Value::Null),
    ];
    insert_member(&mut members, "a".to_string(), Value::Boolean(true));
    assert_eq!(
        format!("{members:?}"),
        r#"[("a", Null), ("a", Boolean(true)), ("b", Null)]"#
    );
}

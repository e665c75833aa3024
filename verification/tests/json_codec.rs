//! The canonical notation on its own: serialization, parsing, and the
//! round trips between them.

use umbra::json::{parse_text, to_text, Json};

fn chars(s: &str) -> Vec<char> {
    s.chars().collect()
}

fn text(v: &Json) -> String {
    to_text(v).into_iter().collect()
}

#[test]
fn serializes_scalars() {
    assert_eq!(text(&Json::Null), "null");
    assert_eq!(text(&Json::Bool(true)), "true");
    assert_eq!(text(&Json::Bool(false)), "false");
    assert_eq!(text(&Json::Num(chars("-3.5e7"))), "-3.5e7");
    assert_eq!(text(&Json::Str(chars("hi"))), "\"hi\"");
}

#[test]
fn escapes_quotes_and_backslashes() {
    assert_eq!(text(&Json::Str(chars("a\"b\\c"))), "\"a\\\"b\\\\c\"");
}

#[test]
fn serializes_sequences_and_mappings() {
    let v = Json::Arr(vec![
        Json::Num(chars("1")),
        Json::Obj(vec![(chars("k"), Json::Null)]),
    ]);
    assert_eq!(text(&v), "[1,{\"k\":null}]");
    assert_eq!(text(&Json::Arr(vec![])), "[]");
    assert_eq!(text(&Json::Obj(vec![])), "{}");
}

#[test]
fn parses_whitespace_and_nesting() {
    let v = parse_text(&chars(" { \"a\" : [ 1 , true , \"x\" ] } ")).unwrap();
    assert_eq!(
        v,
        Json::Obj(vec![(
            chars("a"),
            Json::Arr(vec![
                Json::Num(chars("1")),
                Json::Bool(true),
                Json::Str(chars("x")),
            ]),
        )])
    );
}

#[test]
fn parses_escapes() {
    let v = parse_text(&chars("\"a\\n\\t\\\\\\\"\"")).unwrap();
    assert_eq!(v, Json::Str("a\n\t\\\"".chars().collect()));
}

#[test]
fn rejects_malformed_text() {
    assert!(parse_text(&chars("")).is_err());
    assert!(parse_text(&chars("{")).is_err());
    assert!(parse_text(&chars("[1,]")).is_err());
    assert!(parse_text(&chars("01")).is_err());
    assert!(parse_text(&chars("truex")).is_err());
    assert!(parse_text(&chars("\"unterminated")).is_err());
    assert!(parse_text(&chars("{\"a\":1,}")).is_err());
    assert!(parse_text(&chars("1 2")).is_err());
}

#[test]
fn keeps_number_literals_exactly() {
    let v = parse_text(&chars("[0.5,5e-1,-0,1e999]")).unwrap();
    assert_eq!(
        v,
        Json::Arr(vec![
            Json::Num(chars("0.5")),
            Json::Num(chars("5e-1")),
            Json::Num(chars("-0")),
            Json::Num(chars("1e999")),
        ])
    );
}

#[test]
fn round_trips_through_the_notation() {
    let cases = [
        "null",
        "[{\"id\":\"a\"},{\"id\":\"b\"}]",
        "{\"a\":[1,2.5,-3e4],\"b\":{\"c\":false},\"d\":\"q\\\"w\\\\e\"}",
        "[[[]]]",
        "{\"x\":{}}",
    ];
    for c in cases {
        let v = parse_text(&chars(c)).unwrap();
        assert_eq!(text(&v), *c);
        let again = parse_text(&chars(&text(&v))).unwrap();
        assert_eq!(again, v);
    }
}

#[test]
fn hex_escapes_parse_and_serialize() {
    let v = parse_text(&chars("\"\\u0041\\u000a\"")).unwrap();
    assert_eq!(v, Json::Str("A\n".chars().collect()));
    assert_eq!(
        text(&Json::Str("a\u{1}b".chars().collect())),
        "\"a\\u0001b\""
    );
    let deep: Vec<char> = "a\u{1}\n\"\\b".chars().collect();
    let rt = parse_text(&chars(&text(&Json::Str(deep.clone())))).unwrap();
    assert_eq!(rt, Json::Str(deep));
    assert!(parse_text(&chars("\"\\ud800\"")).is_err());
    assert!(parse_text(&chars("\"\\u12\"")).is_err());
}

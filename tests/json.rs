use json_pretty::{parse_json_file, prettier_json, DecodeProblem, Expected, JSONParser, JsonError, JsonNumber, JsonValue};

fn parse(text: &str) -> JsonValue {
    JSONParser::parse(text).expect("valid document")
}

fn pretty(text: &str) -> String {
    prettier_json(&parse(text), 0)
}

fn err(text: &str) -> JsonError {
    JSONParser::parse(text).expect_err("invalid document")
}

fn syntax(position: usize, expected: Expected) -> JsonError {
    JsonError::Syntax { position, expected }
}

fn decode(position: usize, problem: DecodeProblem) -> JsonError {
    JsonError::Decode { position, problem }
}

fn num(negative: bool, digits: Vec<u8>, point: i64) -> JsonValue {
    JsonValue::Number(JsonNumber { negative, digits, point })
}

#[test]
fn order_preservation() {
    let v = parse(r#"{"b":1,"a":2}"#);
    let expected = JsonValue::Object(vec![
        ("b".to_string(), num(false, vec![1], 1)),
        ("a".to_string(), num(false, vec![2], 1)),
    ]);
    assert_eq!(v, expected);
}

#[test]
fn duplicate_keys_preserved() {
    let v = parse(r#"{"a":1,"a":2}"#);
    let expected = JsonValue::Object(vec![
        ("a".to_string(), num(false, vec![1], 1)),
        ("a".to_string(), num(false, vec![2], 1)),
    ]);
    assert_eq!(v, expected);
    assert_eq!(pretty(r#"{"a":1,"a":2}"#), "{\n  \"a\": 1,\n  \"a\": 2\n}");
}

#[test]
fn nesting_determinism() {
    let out = pretty(r#"{"a":[1,2,{"b":true}]}"#);
    let expected = "{\n  \"a\": [\n    1,\n    2,\n    {\n      \"b\": true\n    }\n  ]\n}";
    assert_eq!(out, expected);
}

#[test]
fn numeric_fidelity() {
    assert_eq!(parse("3.1400"), parse("3.14"));
    assert_eq!(parse("3.1400"), num(false, vec![3, 1, 4], 1));
    assert_eq!(pretty("3.1400"), "3.14");
}

#[test]
fn number_forms() {
    assert_eq!(pretty("1e2"), "100");
    assert_eq!(pretty("1E+2"), "100");
    assert_eq!(pretty("120"), "120");
    assert_eq!(pretty("-0"), "-0");
    assert_eq!(pretty("0.000"), "0");
    assert_eq!(pretty("1.5e-7"), "0.00000015");
    assert_eq!(pretty("-12.5"), "-12.5");
    assert_eq!(pretty("0.25"), "0.25");
    assert_eq!(pretty("2500e-2"), "25");
    assert_eq!(pretty("0e999999999999999999999999999999999999"), "0");
    assert_eq!(parse("1.5e-7"), num(false, vec![1, 5], -6));
}

#[test]
fn number_out_of_range() {
    assert_eq!(err("1e400"), decode(0, DecodeProblem::NumberOutOfRange));
    assert_eq!(pretty("[1e-400]"), "[\n  0\n]");
    assert_eq!(pretty("-1e-400"), "-0");
    assert_eq!(pretty("1e-99999999999999999999999999999999999"), "0");
    assert_eq!(
        err("1e99999999999999999999999999999999999"),
        decode(0, DecodeProblem::NumberOutOfRange)
    );
    assert_eq!(pretty("1e308").len(), 309);
}

#[test]
fn syntax_error_locality() {
    assert_eq!(err(r#"{"a": }"#), syntax(6, Expected::Value));
}

#[test]
fn empty_containers() {
    assert_eq!(pretty("{}"), "{}");
    assert_eq!(pretty("[]"), "[]");
    assert_eq!(pretty(" { } "), "{}");
    assert_eq!(pretty(r#"{"a":{},"b":[]}"#), "{\n  \"a\": {},\n  \"b\": []\n}");
    assert_eq!(parse("[ ]"), JsonValue::Array(vec![]));
}

#[test]
fn escape_decoding() {
    assert_eq!(parse(r#""a\nb""#), JsonValue::String("a\nb".to_string()));
    assert_eq!(
        parse(r#""\"\\\/\b\f\r\t""#),
        JsonValue::String("\"\\/\u{8}\u{c}\r\t".to_string())
    );
    assert_eq!(parse(r#""\u00e9""#), JsonValue::String("é".to_string()));
    assert_eq!(parse(r#""\u00E9x""#), JsonValue::String("éx".to_string()));
    assert_eq!(parse(r#""\ud83d\ude00""#), JsonValue::String("😀".to_string()));
    assert_eq!(parse(r#""é😀""#), JsonValue::String("é😀".to_string()));
}

#[test]
fn strings_render_as_text() {
    assert_eq!(pretty(r#""a\nb""#), "a\nb");
    assert_eq!(pretty(r#"["xy"]"#), "[\n  xy\n]");
    assert_eq!(pretty(r#"{"kA":"v"}"#), "{\n  \"kA\": v\n}");
}

#[test]
fn literals_and_whitespace() {
    assert_eq!(pretty(" \t\r\n null \n"), "null");
    assert_eq!(pretty("true"), "true");
    assert_eq!(pretty("false"), "false");
    assert_eq!(pretty("[true, false, null]"), "[\n  true,\n  false,\n  null\n]");
}

#[test]
fn indent_level_offsets_output() {
    let v = parse("[1,[2]]");
    assert_eq!(prettier_json(&v, 1), "[\n    1,\n    [\n      2\n    ]\n  ]");
}

#[test]
fn parse_json_file_matches_parser() {
    assert_eq!(parse_json_file("[1]"), JSONParser::parse("[1]"));
    assert_eq!(parse_json_file("[1"), Err(syntax(2, Expected::CommaOrBracket)));
}

#[test]
fn syntax_error_kinds() {
    assert_eq!(err(""), syntax(0, Expected::Value));
    assert_eq!(err("tru"), syntax(0, Expected::Value));
    assert_eq!(err("{1:2}"), syntax(1, Expected::Key));
    assert_eq!(err(r#"{"a" 1}"#), syntax(5, Expected::Colon));
    assert_eq!(err(r#"{"a":1 "b":2}"#), syntax(7, Expected::CommaOrBrace));
    assert_eq!(err("[1 2]"), syntax(3, Expected::CommaOrBracket));
    assert_eq!(err("[1,]"), syntax(3, Expected::Value));
    assert_eq!(err(r#""abc"#), syntax(4, Expected::ClosingQuote));
    assert_eq!(err(r#""\q""#), syntax(2, Expected::Escape));
    assert_eq!(err(r#""\u12G4""#), syntax(3, Expected::HexDigit));
    assert_eq!(err("-x"), syntax(1, Expected::Digit));
    assert_eq!(err("1."), syntax(2, Expected::Digit));
    assert_eq!(err("1e+"), syntax(3, Expected::Digit));
    assert_eq!(err("1 2"), syntax(2, Expected::EndOfInput));
    assert_eq!(err("01"), syntax(1, Expected::EndOfInput));
}

#[test]
fn decode_error_kinds() {
    assert_eq!(err("\"a\tb\""), decode(2, DecodeProblem::ControlCharacter));
    assert_eq!(err(r#""\ud800""#), decode(1, DecodeProblem::LoneSurrogate));
    assert_eq!(err(r#""x\udc00""#), decode(2, DecodeProblem::LoneSurrogate));
    assert_eq!(err(r#""\ud800A""#), decode(1, DecodeProblem::LoneSurrogate));
}

#[test]
fn round_trip_without_strings() {
    let text = r#"{"a":[1,-2.5,{"b":true,"c":null}],"d":[],"e":{}}"#;
    let once = parse(text);
    let printed = prettier_json(&once, 0);
    let again = parse(&printed);
    assert_eq!(once, again);
    assert_eq!(prettier_json(&again, 0), printed);
}

#[test]
fn syntax_errors_come_before_decode_errors() {
    assert_eq!(err("[\"\u{1}\" x"), syntax(5, Expected::CommaOrBracket));
    assert_eq!(err(r#"["\ud800" x"#), syntax(10, Expected::CommaOrBracket));
    assert_eq!(err("[1e400 x"), syntax(7, Expected::CommaOrBracket));
    assert_eq!(err("[1e-400,\"\u{1}\"]"), decode(9, DecodeProblem::ControlCharacter));
    assert_eq!(err("[1e400,\"\u{1}\"]"), decode(1, DecodeProblem::NumberOutOfRange));
}

#[test]
fn keys_are_escaped() {
    let text = r#"{"\"":null,"a\\b":1,"c\nd":[]}"#;
    let v = parse(text);
    let printed = prettier_json(&v, 0);
    assert_eq!(
        printed,
        "{\n  \"\\\"\": null,\n  \"a\\\\b\": 1,\n  \"c\\u000ad\": []\n}"
    );
    assert_eq!(parse(&printed), v);
    assert_eq!(pretty(r#"{"\u001F":true}"#), "{\n  \"\\u001f\": true\n}");
}

#[test]
fn compact_serialization_parses_back() {
    let v = parse(r#"{"k\"":["s\n\u001f",-1.5,true,null,{}],"k\"":0}"#);
    let expected = JsonValue::Object(vec![
        (
            "k\"".to_string(),
            JsonValue::Array(vec![
                JsonValue::String("s\n\u{1f}".to_string()),
                num(true, vec![1, 5], 1),
                JsonValue::Boolean(true),
                JsonValue::Null,
                JsonValue::Object(vec![]),
            ]),
        ),
        ("k\"".to_string(), num(false, vec![], 0)),
    ]);
    assert_eq!(v, expected);
}

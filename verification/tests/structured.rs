use csv_to_dynamo::json::JsonValue;
use csv_to_dynamo::util::str_chars;

fn parse(text: &str) -> Option<JsonValue> {
    let cs = str_chars(text);
    csv_to_dynamo::json::parse_json_chars(&cs)
}

#[test]
fn scalars_parse() {
    assert_eq!(parse("null"), Some(JsonValue::Null));
    assert_eq!(parse("true"), Some(JsonValue::Bool(true)));
    assert_eq!(parse("false"), Some(JsonValue::Bool(false)));
    assert_eq!(parse("0"), Some(JsonValue::Num("0".to_string())));
    assert_eq!(parse("-19"), Some(JsonValue::Num("-19".to_string())));
    assert_eq!(parse("3.14e2"), Some(JsonValue::Num("3.14e2".to_string())));
    assert_eq!(parse("\"hi\""), Some(JsonValue::Str("hi".to_string())));
    assert_eq!(parse("  42  "), Some(JsonValue::Num("42".to_string())));
}

#[test]
fn malformed_texts_do_not_parse() {
    for t in [
        "", "  ", "[1,]", "[1 2]", "{\"a\" 1}", "{\"a\":}", "tru", "nul", "TRUE", "01", "1.",
        ".5", "+1", "--2", "\"open", "[1", "{\"a\": 1", "1,2", "[]]", "1 2", "{'a': 1}",
        "\"a\\u0041b\"",
    ] {
        assert_eq!(parse(t), None, "text {:?} must not parse", t);
    }
}

#[test]
fn arrays_and_objects_parse_with_whitespace() {
    assert_eq!(parse("[]"), Some(JsonValue::Arr(vec![])));
    assert_eq!(parse(" [ ] "), Some(JsonValue::Arr(vec![])));
    assert_eq!(parse("{}"), Some(JsonValue::Obj(vec![])));
    assert_eq!(
        parse("[ 1 , \"a\" , null ]"),
        Some(JsonValue::Arr(vec![
            JsonValue::Num("1".to_string()),
            JsonValue::Str("a".to_string()),
            JsonValue::Null,
        ]))
    );
    assert_eq!(
        parse("{ \"k\" : [ true ] }"),
        Some(JsonValue::Obj(vec![(
            "k".to_string(),
            JsonValue::Arr(vec![JsonValue::Bool(true)])
        )]))
    );
}

#[test]
fn deep_nesting_parses() {
    let mut t = String::new();
    for _ in 0..50 {
        t.push('[');
    }
    t.push('1');
    for _ in 0..50 {
        t.push(']');
    }
    let mut expected = JsonValue::Num("1".to_string());
    for _ in 0..50 {
        expected = JsonValue::Arr(vec![expected]);
    }
    assert_eq!(parse(&t), Some(expected));
}

#[test]
fn string_escapes_parse() {
    assert_eq!(
        parse("\"a\\\"b\\\\c\\/d\\ne\\tf\\rg\\bh\\fi\""),
        Some(JsonValue::Str("a\"b\\c/d\ne\tf\rg\u{8}h\u{c}i".to_string()))
    );
    // a raw control character inside a string is not in the grammar
    assert_eq!(parse("\"a\nb\""), None);
}

#[test]
fn number_grammar_is_strict_inside_structures() {
    assert_eq!(parse("[01]"), None);
    assert_eq!(parse("[1.]"), None);
    assert_eq!(parse("[.5]"), None);
    assert_eq!(parse("[+1]"), None);
    assert_eq!(parse("[1e]"), None);
    assert_eq!(
        parse("[-0.5e+10]"),
        Some(JsonValue::Arr(vec![JsonValue::Num("-0.5e+10".to_string())]))
    );
}

#[test]
fn repeated_keys_keep_the_last_value_in_place() {
    assert_eq!(
        parse("{\"a\": 1, \"b\": 2, \"a\": 3}"),
        Some(JsonValue::Obj(vec![
            ("a".to_string(), JsonValue::Num("3".to_string())),
            ("b".to_string(), JsonValue::Num("2".to_string())),
        ]))
    );
}

use csv_to_dynamo::parser::Parser;
use csv_to_dynamo::value::AttrValue;

fn plain() -> Parser {
    Parser { allow_set: false, allow_null: false }
}

fn with_sets() -> Parser {
    Parser { allow_set: true, allow_null: false }
}

#[test]
fn decimal_cells_become_numbers_verbatim() {
    let p = plain();
    for t in ["0", "123.456", "-19", "+42", "1.", ".5", "00.100", "1e5", "-2.5E-3", "+.5e3"] {
        let r = p.parse_string_as_attr(t.to_string());
        assert_eq!(r, AttrValue::Number(t.to_string()));
    }
}

#[test]
fn non_decimal_cells_are_not_numbers() {
    let p = plain();
    for t in ["", ".", "+", "1e", "1.2.3", "inf", "nan", "12a", "e5"] {
        let r = p.parse_string_as_attr(t.to_string());
        assert!(!matches!(r, AttrValue::Number(_)), "cell {:?} must not be a number", t);
    }
}

#[test]
fn null_cell_and_bool_cells() {
    let p = plain();
    assert_eq!(p.parse_string_as_attr("null".to_string()), AttrValue::Null);
    assert_eq!(p.parse_string_as_attr("true".to_string()), AttrValue::Bool(true));
    assert_eq!(p.parse_string_as_attr("TRUE".to_string()), AttrValue::Bool(true));
    assert_eq!(p.parse_string_as_attr("FaLsE".to_string()), AttrValue::Bool(false));
    // `Null` with a capital letter is not the null literal
    assert_eq!(p.parse_string_as_attr("Null".to_string()), AttrValue::Text("Null".to_string()));
}

#[test]
fn plain_text_falls_back_to_string() {
    let p = plain();
    assert_eq!(p.parse_string_as_attr("ABC".to_string()), AttrValue::Text("ABC".to_string()));
    assert_eq!(p.parse_string_as_attr("{bad".to_string()), AttrValue::Text("{bad".to_string()));
    // a quoted scalar is not an array or object, so the cell stays verbatim
    assert_eq!(
        p.parse_string_as_attr("\"abc\"".to_string()),
        AttrValue::Text("\"abc\"".to_string())
    );
}

#[test]
fn duplicate_strings_disqualify_a_set() {
    // header ["id","age","tags"] row ["1","30","[\"a\",\"b\",\"a\"]"]: tags is a list
    let p = with_sets();
    let r = p.parse_string_as_attr("[\"a\",\"b\",\"a\"]".to_string());
    assert_eq!(
        r,
        AttrValue::List(vec![
            AttrValue::Text("a".to_string()),
            AttrValue::Text("b".to_string()),
            AttrValue::Text("a".to_string()),
        ])
    );
}

#[test]
fn distinct_strings_become_a_string_set() {
    let p = with_sets();
    let r = p.parse_string_as_attr("[\"x\",\"y\"]".to_string());
    assert_eq!(r, AttrValue::StrSet(vec!["x".to_string(), "y".to_string()]));
}

#[test]
fn distinct_numbers_become_a_number_set() {
    let p = with_sets();
    let r = p.parse_string_as_attr("[42.2, -19, 7.5, 3.14]".to_string());
    assert_eq!(
        r,
        AttrValue::NumSet(vec![
            "42.2".to_string(),
            "-19".to_string(),
            "7.5".to_string(),
            "3.14".to_string(),
        ])
    );
}

#[test]
fn numerically_equal_texts_disqualify_a_number_set() {
    // 1e2 and 100.0 denote the same number even though their texts differ
    let p = with_sets();
    let r = p.parse_string_as_attr("[1e2, 100.0]".to_string());
    assert_eq!(
        r,
        AttrValue::List(vec![
            AttrValue::Number("1e2".to_string()),
            AttrValue::Number("100.0".to_string()),
        ])
    );
}

#[test]
fn empty_and_mixed_arrays_stay_lists() {
    let p = with_sets();
    assert_eq!(p.parse_string_as_attr("[]".to_string()), AttrValue::List(vec![]));
    let mixed = p.parse_string_as_attr("[\"a\", 1]".to_string());
    assert_eq!(
        mixed,
        AttrValue::List(vec![
            AttrValue::Text("a".to_string()),
            AttrValue::Number("1".to_string()),
        ])
    );
}

#[test]
fn set_inference_disabled_keeps_lists() {
    let p = plain();
    let r = p.parse_string_as_attr("[\"x\",\"y\"]".to_string());
    assert_eq!(
        r,
        AttrValue::List(vec![AttrValue::Text("x".to_string()), AttrValue::Text("y".to_string())])
    );
}

#[test]
fn objects_decode_to_maps_in_source_order() {
    let p = plain();
    let r = p.parse_string_as_attr("{\"b\": [1, 2], \"a\": {\"c\": \"x\"}}".to_string());
    assert_eq!(
        r,
        AttrValue::MapVal(vec![
            (
                "b".to_string(),
                AttrValue::List(vec![
                    AttrValue::Number("1".to_string()),
                    AttrValue::Number("2".to_string()),
                ])
            ),
            (
                "a".to_string(),
                AttrValue::MapVal(vec![("c".to_string(), AttrValue::Text("x".to_string()))])
            ),
        ])
    );
}

#[test]
fn null_members_are_dropped_unless_kept() {
    let drop = Parser { allow_set: false, allow_null: false };
    let keep = Parser { allow_set: false, allow_null: true };
    let r1 = drop.parse_string_as_attr("{\"a\": null, \"b\": 1}".to_string());
    assert_eq!(
        r1,
        AttrValue::MapVal(vec![("b".to_string(), AttrValue::Number("1".to_string()))])
    );
    let r2 = keep.parse_string_as_attr("{\"a\": null, \"b\": 1}".to_string());
    assert_eq!(
        r2,
        AttrValue::MapVal(vec![
            ("a".to_string(), AttrValue::Null),
            ("b".to_string(), AttrValue::Number("1".to_string())),
        ])
    );
    let r3 = drop.parse_string_as_attr("[null, 1]".to_string());
    assert_eq!(r3, AttrValue::List(vec![AttrValue::Number("1".to_string())]));
}

#[test]
fn string_escapes_decode_inside_structures() {
    let p = plain();
    let r = p.parse_string_as_attr("[\"a\\nb\", \"q\\\"t\"]".to_string());
    assert_eq!(
        r,
        AttrValue::List(vec![
            AttrValue::Text("a\nb".to_string()),
            AttrValue::Text("q\"t".to_string()),
        ])
    );
}

#[test]
fn repeated_object_keys_collapse_to_the_last() {
    let p = plain();
    let r = p.parse_string_as_attr("{\"a\": 1, \"a\": 2}".to_string());
    assert_eq!(
        r,
        AttrValue::MapVal(vec![("a".to_string(), AttrValue::Number("2".to_string()))])
    );
}

#[test]
fn declared_key_types_override_inference() {
    let p = with_sets();
    let n = "N".to_string();
    let b = "B".to_string();
    let s = "S".to_string();
    let x = "X".to_string();
    assert_eq!(
        p.build_attr(Some(&n), "abc".to_string()),
        AttrValue::Number("abc".to_string())
    );
    assert_eq!(
        p.build_attr(Some(&b), "hi".to_string()),
        AttrValue::Binary(vec![104, 105])
    );
    assert_eq!(
        p.build_attr(Some(&s), "123".to_string()),
        AttrValue::Text("123".to_string())
    );
    // an unknown declared type falls back to the heuristic
    assert_eq!(
        p.build_attr(Some(&x), "123".to_string()),
        AttrValue::Number("123".to_string())
    );
    assert_eq!(
        p.build_attr(None, "123".to_string()),
        AttrValue::Number("123".to_string())
    );
}

#[test]
fn nested_arrays_never_form_sets_of_sets() {
    let p = with_sets();
    let r = p.parse_string_as_attr("[[\"x\"],[\"y\"]]".to_string());
    assert_eq!(
        r,
        AttrValue::List(vec![
            AttrValue::StrSet(vec!["x".to_string()]),
            AttrValue::StrSet(vec!["y".to_string()]),
        ])
    );
}

#[test]
fn null_or_nested_elements_disqualify_sets() {
    let p = Parser { allow_set: true, allow_null: false };
    assert_eq!(p.parse_string_as_attr("[null]".to_string()), AttrValue::List(vec![]));
    assert_eq!(
        p.parse_string_as_attr("[true, false]".to_string()),
        AttrValue::List(vec![AttrValue::Bool(true), AttrValue::Bool(false)])
    );
    assert_eq!(
        p.parse_string_as_attr("[1, 1]".to_string()),
        AttrValue::List(vec![
            AttrValue::Number("1".to_string()),
            AttrValue::Number("1".to_string()),
        ])
    );
}

#[test]
fn numeric_comparison_is_exact() {
    let p = Parser { allow_set: true, allow_null: false };
    // 0.5e1 and 5 denote the same number; -0 and 0 do too
    assert!(matches!(
        p.parse_string_as_attr("[0.5e1, 5]".to_string()),
        AttrValue::List(_)
    ));
    assert!(matches!(
        p.parse_string_as_attr("[-0, 0]".to_string()),
        AttrValue::List(_)
    ));
    // texts that merely look close denote different numbers
    assert_eq!(
        p.parse_string_as_attr("[1.0, 1.01]".to_string()),
        AttrValue::NumSet(vec!["1.0".to_string(), "1.01".to_string()])
    );
    // digits beyond any float's precision still compare exactly
    assert_eq!(
        p.parse_string_as_attr(
            "[10000000000000000000000000000000000001, 10000000000000000000000000000000000002]"
                .to_string()
        ),
        AttrValue::NumSet(vec![
            "10000000000000000000000000000000000001".to_string(),
            "10000000000000000000000000000000000002".to_string(),
        ])
    );
}

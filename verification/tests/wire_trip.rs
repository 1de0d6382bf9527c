use csv_to_dynamo::encode::WriteItem;
use csv_to_dynamo::json::JsonValue;
use csv_to_dynamo::render::{json_to_text, render_item, render_log_line};
use csv_to_dynamo::value::AttrValue;
use csv_to_dynamo::wire::{decode_attr_wire, encode_attr_wire};

fn round_trips(x: AttrValue) {
    let w = encode_attr_wire(&x);
    let back = decode_attr_wire(&w).expect("a wire form must read back");
    assert_eq!(back, x);
}

#[test]
fn scalars_round_trip() {
    round_trips(AttrValue::Null);
    round_trips(AttrValue::Bool(true));
    round_trips(AttrValue::Bool(false));
    round_trips(AttrValue::Number("123.456".to_string()));
    round_trips(AttrValue::Text("hello".to_string()));
    round_trips(AttrValue::Binary(vec![0, 1, 9, 10, 99, 100, 255]));
}

#[test]
fn nested_values_round_trip() {
    round_trips(AttrValue::List(vec![
        AttrValue::Number("1".to_string()),
        AttrValue::List(vec![AttrValue::Text("x".to_string()), AttrValue::Null]),
        AttrValue::MapVal(vec![("k".to_string(), AttrValue::Bool(false))]),
    ]));
    round_trips(AttrValue::MapVal(vec![
        (
            "outer".to_string(),
            AttrValue::MapVal(vec![("inner".to_string(), AttrValue::Number("2".to_string()))]),
        ),
        ("empty".to_string(), AttrValue::List(vec![])),
    ]));
    round_trips(AttrValue::StrSet(vec!["a".to_string(), "b".to_string()]));
    round_trips(AttrValue::NumSet(vec!["1".to_string(), "2.5".to_string()]));
}

#[test]
fn wire_forms_have_exactly_one_tag() {
    let w = encode_attr_wire(&AttrValue::Number("7".to_string()));
    match &w {
        JsonValue::Obj(es) => {
            assert_eq!(es.len(), 1);
            assert_eq!(es[0].0, "N");
            assert_eq!(es[0].1, JsonValue::Str("7".to_string()));
        }
        _ => panic!("a wire form is an object"),
    }
    assert_eq!(json_to_text(&w), "{\"N\":\"7\"}");
}

#[test]
fn wire_texts_match_the_store_shape() {
    assert_eq!(json_to_text(&encode_attr_wire(&AttrValue::Null)), "{\"NULL\":true}");
    assert_eq!(json_to_text(&encode_attr_wire(&AttrValue::Bool(true))), "{\"BOOL\":true}");
    assert_eq!(
        json_to_text(&encode_attr_wire(&AttrValue::Text("hi".to_string()))),
        "{\"S\":\"hi\"}"
    );
    assert_eq!(
        json_to_text(&encode_attr_wire(&AttrValue::Binary(vec![1, 255]))),
        "{\"B\":[1,255]}"
    );
    assert_eq!(
        json_to_text(&encode_attr_wire(&AttrValue::StrSet(vec![
            "Giraffe".to_string(),
            "Hippo".to_string(),
        ]))),
        "{\"SS\":[\"Giraffe\",\"Hippo\"]}"
    );
    assert_eq!(
        json_to_text(&encode_attr_wire(&AttrValue::NumSet(vec![
            "42.2".to_string(),
            "-19".to_string(),
        ]))),
        "{\"NS\":[\"42.2\",\"-19\"]}"
    );
    assert_eq!(
        json_to_text(&encode_attr_wire(&AttrValue::List(vec![AttrValue::Number(
            "1".to_string()
        )]))),
        "{\"L\":[{\"N\":\"1\"}]}"
    );
    assert_eq!(
        json_to_text(&encode_attr_wire(&AttrValue::MapVal(vec![(
            "Name".to_string(),
            AttrValue::Text("Joe".to_string())
        )]))),
        "{\"M\":{\"Name\":{\"S\":\"Joe\"}}}"
    );
}

#[test]
fn string_escapes_render_on_the_wire() {
    let t = AttrValue::Text("a\"b\\c\nd".to_string());
    assert_eq!(json_to_text(&encode_attr_wire(&t)), "{\"S\":\"a\\\"b\\\\c\\nd\"}");
}

#[test]
fn malformed_wire_objects_are_rejected() {
    assert_eq!(decode_attr_wire(&JsonValue::Null), None);
    assert_eq!(decode_attr_wire(&JsonValue::Obj(vec![])), None);
    assert_eq!(
        decode_attr_wire(&JsonValue::Obj(vec![(
            "X".to_string(),
            JsonValue::Bool(true)
        )])),
        None
    );
    // a binary payload with a byte out of range does not read back
    assert_eq!(
        decode_attr_wire(&JsonValue::Obj(vec![(
            "B".to_string(),
            JsonValue::Arr(vec![JsonValue::Num("256".to_string())])
        )])),
        None
    );
    assert_eq!(
        decode_attr_wire(&JsonValue::Obj(vec![(
            "B".to_string(),
            JsonValue::Arr(vec![JsonValue::Num("007".to_string())])
        )])),
        None
    );
}

#[test]
fn preview_and_log_lines_render_items() {
    let item = WriteItem {
        entries: vec![
            ("id".to_string(), AttrValue::Number("1".to_string())),
            ("name".to_string(), AttrValue::Text("Joe".to_string())),
        ],
    };
    assert_eq!(render_item(&item), "{\"id\":{\"N\":\"1\"},\"name\":{\"S\":\"Joe\"}}");
    assert_eq!(
        render_log_line(true, &item),
        "Success: [[\"id\",{\"N\":\"1\"}],[\"name\",{\"S\":\"Joe\"}]]"
    );
    assert_eq!(
        render_log_line(false, &item),
        "Failure: [[\"id\",{\"N\":\"1\"}],[\"name\",{\"S\":\"Joe\"}]]"
    );
}

#[test]
fn log_lines_sort_entries_by_attribute_name() {
    // the item keeps header order b, a, c; the log line sorts by name
    let item = WriteItem {
        entries: vec![
            ("b".to_string(), AttrValue::Number("2".to_string())),
            ("a".to_string(), AttrValue::Number("1".to_string())),
            ("c".to_string(), AttrValue::Number("3".to_string())),
        ],
    };
    assert_eq!(
        render_log_line(true, &item),
        "Success: [[\"a\",{\"N\":\"1\"}],[\"b\",{\"N\":\"2\"}],[\"c\",{\"N\":\"3\"}]]"
    );
    // the preview keeps the item's own (header) order
    assert_eq!(
        render_item(&item),
        "{\"b\":{\"N\":\"2\"},\"a\":{\"N\":\"1\"},\"c\":{\"N\":\"3\"}}"
    );
}

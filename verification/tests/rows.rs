use csv_to_dynamo::encode::{ArityError, WriteItem};

use csv_to_dynamo::parser::Parser;
use csv_to_dynamo::value::AttrValue;

fn strings(cells: &[&str]) -> Vec<String> {
    cells.iter().map(|c| c.to_string()).collect()
}

#[test]
fn arity_mismatch_is_rejected() {
    let p = Parser { allow_set: false, allow_null: false };
    let header = strings(&["id", "age"]);
    let attrs: Vec<(String, String)> = Vec::new();
    let short = strings(&["1"]);
    let long = strings(&["1", "2", "3"]);
    assert_eq!(
        p.encode_row(&header, &short, &attrs),
        Err(ArityError { header_len: 2, row_len: 1 })
    );
    assert_eq!(
        p.encode_row(&header, &long, &attrs),
        Err(ArityError { header_len: 2, row_len: 3 })
    );
    assert!(p.encode_row(&header, &strings(&["1", "2"]), &attrs).is_ok());
}

#[test]
fn rows_encode_in_header_order() {
    let p = Parser { allow_set: true, allow_null: false };
    let header = strings(&["id", "age", "tags"]);
    let row = strings(&["1", "30", "[\"a\",\"b\",\"a\"]"]);
    let attrs: Vec<(String, String)> = Vec::new();
    let item = p.encode_row(&header, &row, &attrs).unwrap();
    assert_eq!(
        item,
        WriteItem {
            entries: vec![
                ("id".to_string(), AttrValue::Number("1".to_string())),
                ("age".to_string(), AttrValue::Number("30".to_string())),
                (
                    "tags".to_string(),
                    AttrValue::List(vec![
                        AttrValue::Text("a".to_string()),
                        AttrValue::Text("b".to_string()),
                        AttrValue::Text("a".to_string()),
                    ])
                ),
            ],
        }
    );
}

#[test]
fn distinct_strings_in_a_row_become_a_set() {
    let p = Parser { allow_set: true, allow_null: false };
    let header = strings(&["id", "age", "tags"]);
    let row = strings(&["2", "41", "[\"x\",\"y\"]"]);
    let attrs: Vec<(String, String)> = Vec::new();
    let item = p.encode_row(&header, &row, &attrs).unwrap();
    assert_eq!(
        item.entries[2],
        (
            "tags".to_string(),
            AttrValue::StrSet(vec!["x".to_string(), "y".to_string()])
        )
    );
}

#[test]
fn null_cells_are_omitted_without_null_retention() {
    let p = Parser { allow_set: false, allow_null: false };
    let header = strings(&["id", "note"]);
    let row = strings(&["1", "null"]);
    let attrs: Vec<(String, String)> = Vec::new();
    let item = p.encode_row(&header, &row, &attrs).unwrap();
    // the column is absent from the item, not present with a null tag
    assert_eq!(
        item.entries,
        vec![("id".to_string(), AttrValue::Number("1".to_string()))]
    );

    let keep = Parser { allow_set: false, allow_null: true };
    let kept = keep.encode_row(&header, &row, &attrs).unwrap();
    assert_eq!(
        kept.entries,
        vec![
            ("id".to_string(), AttrValue::Number("1".to_string())),
            ("note".to_string(), AttrValue::Null),
        ]
    );
}

#[test]
fn declared_types_apply_per_column() {
    let p = Parser { allow_set: false, allow_null: false };
    let header = strings(&["id", "payload"]);
    let row = strings(&["abc", "hi"]);
    let attrs = vec![
        ("id".to_string(), "N".to_string()),
        ("payload".to_string(), "B".to_string()),
    ];
    let item = p.encode_row(&header, &row, &attrs).unwrap();
    assert_eq!(
        item.entries,
        vec![
            ("id".to_string(), AttrValue::Number("abc".to_string())),
            ("payload".to_string(), AttrValue::Binary(vec![104, 105])),
        ]
    );
}

#[test]
fn encoding_twice_is_bit_identical() {
    let p = Parser { allow_set: true, allow_null: false };
    let header = strings(&["id", "tags", "meta"]);
    let row = strings(&["7", "[\"x\",\"y\"]", "{\"a\": [1, 2]}"]);
    let attrs = vec![("id".to_string(), "N".to_string())];
    let first = p.encode_row(&header, &row, &attrs).unwrap();
    let second = p.encode_row(&header, &row, &attrs).unwrap();
    assert_eq!(first, second);
}

#[test]
fn mismatched_rows_are_skipped_not_sent() {
    let p = Parser { allow_set: false, allow_null: false };
    let header = strings(&["id", "v"]);
    let rows = vec![
        strings(&["1", "a"]),
        strings(&["2"]),
        strings(&["3", "c"]),
        strings(&["4", "d", "extra"]),
    ];
    let attrs: Vec<(String, String)> = Vec::new();
    let outcome = p.encode_rows(&header, &rows, &attrs);
    let indices: Vec<usize> = outcome.encoded.iter().map(|(i, _)| *i).collect();
    assert_eq!(indices, vec![0, 2]);
    assert_eq!(outcome.skipped, vec![1, 3]);
    assert_eq!(
        outcome.encoded[1].1.entries[0],
        ("id".to_string(), AttrValue::Number("3".to_string()))
    );
}

use toon::{decode, encode, DecoderOptions, EncoderOptions, Number, ObjMap, Value};

fn dec(s: &str) -> Result<Value, toon::Error> {
    decode(s, &DecoderOptions::default())
}

fn obj(entries: Vec<(&str, Value)>) -> Value {
    let mut m = ObjMap::new();
    for (k, v) in entries {
        m.insert(k.to_string(), v);
    }
    Value::Object(m)
}

#[test]
fn root_multiline_array() {
    let text = "[2]:\n  - 1\n  - 2";
    let v = dec(text).unwrap();
    let items = v.as_array().unwrap();
    assert_eq!(items.len(), 2);
    assert_eq!(items[0].as_u64().unwrap(), 1);
    assert_eq!(items[1].as_u64().unwrap(), 2);
}

#[test]
fn root_tabular_array() {
    let v = Value::Arr(vec![
        obj(vec![("a", Value::Number(Number::U64(1)))]),
        obj(vec![("a", Value::Number(Number::U64(2)))]),
    ]);
    let text = encode(&v, &EncoderOptions::default());
    assert_eq!(text, "[2]{a}:\n  1\n  2");
    let back = dec(&text).unwrap();
    assert_eq!(back, v);
}

#[test]
fn list_item_with_array_field() {
    let v = obj(vec![(
        "items",
        Value::Arr(vec![
            obj(vec![
                ("a", Value::Number(Number::U64(1))),
                (
                    "tags",
                    Value::Arr(vec![Value::Str("x".to_string()), Value::Str("y".to_string())]),
                ),
            ]),
            Value::Bool(false),
        ]),
    )]);
    let text = encode(&v, &EncoderOptions::default());
    assert_eq!(text, "items[2]:\n  - a: 1\n    tags[2]: x,y\n  - false");
    let back = dec(&text).unwrap();
    assert_eq!(back, v);
}

#[test]
fn list_item_starting_with_array_field() {
    let text = "items[1]:\n  - tags[2]: x,y\n    a: 1";
    let v = dec(text).unwrap();
    let items = v.as_object().unwrap().get("items").unwrap().as_array().unwrap();
    let first = items[0].as_object().unwrap();
    assert_eq!(first.get("tags").unwrap().as_array().unwrap().len(), 2);
    assert_eq!(first.get("a").unwrap().as_u64().unwrap(), 1);
}

#[test]
fn list_item_bare_nested_array() {
    let text = "items[1]:\n  - [2]:\n    - a: 1\n    - b: 2";
    let v = dec(text).unwrap();
    let items = v.as_object().unwrap().get("items").unwrap().as_array().unwrap();
    let inner = items[0].as_array().unwrap();
    assert_eq!(inner.len(), 2);
    assert_eq!(
        inner[0].as_object().unwrap().get("a").unwrap().as_u64().unwrap(),
        1
    );
}

#[test]
fn empty_object_list_items() {
    let v = Value::Arr(vec![
        obj(vec![]),
        Value::Number(Number::U64(1)),
    ]);
    let text = encode(&v, &EncoderOptions::default());
    assert_eq!(text, "[2]:\n  -\n  - 1");
    let back = dec(&text).unwrap();
    assert_eq!(back, v);
}

#[test]
fn deep_nesting_round_trip() {
    let v = obj(vec![(
        "a",
        obj(vec![(
            "b",
            obj(vec![
                ("c", Value::Number(Number::U64(1))),
                ("d", Value::Str("x".to_string())),
            ]),
        )]),
    )]);
    let text = encode(&v, &EncoderOptions::default());
    assert_eq!(text, "a:\n  b:\n    c: 1\n    d: x");
    let back = dec(&text).unwrap();
    assert_eq!(back, v);
}

#[test]
fn quoted_field_names_in_tabular_header() {
    let v = obj(vec![(
        "rows",
        Value::Arr(vec![
            obj(vec![("my-col", Value::Number(Number::U64(1)))]),
            obj(vec![("my-col", Value::Number(Number::U64(2)))]),
        ]),
    )]);
    let text = encode(&v, &EncoderOptions::default());
    assert_eq!(text, "rows[2]{\"my-col\"}:\n  1\n  2");
    let back = dec(&text).unwrap();
    assert_eq!(back, v);
}

#[test]
fn nested_object_inside_list_item_field() {
    // A nested object under the first field of a list item is written
    // with its entries at the same column as the item's further fields,
    // so the decoder reads them back as sibling fields of the item.
    let v = obj(vec![(
        "items",
        Value::Arr(vec![obj(vec![
            ("meta", obj(vec![("k", Value::Str("v".to_string()))])),
            ("n", Value::Number(Number::U64(3))),
        ])]),
    )]);
    let text = encode(&v, &EncoderOptions::default());
    assert_eq!(text, "items[1]:\n  - meta:\n    k: v\n    n: 3");
    let back = dec(&text).unwrap();
    let items = back.as_object().unwrap().get("items").unwrap().as_array().unwrap();
    let first = items[0].as_object().unwrap();
    assert!(first.get("meta").unwrap().as_object().unwrap().is_empty());
    assert_eq!(first.get("k").unwrap().as_str().unwrap(), "v");
    assert_eq!(first.get("n").unwrap().as_u64().unwrap(), 3);
}

#[test]
fn mixed_array_with_nested_primitive_array_item() {
    let v = Value::Arr(vec![
        Value::Number(Number::U64(1)),
        Value::Arr(vec![Value::Number(Number::U64(2)), Value::Number(Number::U64(3))]),
    ]);
    let text = encode(&v, &EncoderOptions::default());
    assert_eq!(text, "[2]:\n  - 1\n  - [2]: 2,3");
    let back = dec(&text).unwrap();
    assert_eq!(back, v);
}

#[test]
fn wide_indent_round_trip() {
    let v = obj(vec![("a", obj(vec![("b", Value::Number(Number::U64(1)))]))]);
    let eopts = EncoderOptions { indent: 4, ..EncoderOptions::default() };
    let dopts = DecoderOptions { indent: 4, strict: true, ..DecoderOptions::default() };
    let text = encode(&v, &eopts);
    assert_eq!(text, "a:\n    b: 1");
    let back = decode(&text, &dopts).unwrap();
    assert_eq!(back, v);
}

#[test]
fn strict_mode_accepts_encoder_output() {
    let v = obj(vec![
        ("title", Value::Str("a, b".to_string())),
        (
            "list",
            Value::Arr(vec![Value::Null, Value::Bool(true), Value::Str("x y".to_string())]),
        ),
        ("nested", obj(vec![("n", Value::Number(Number::I64(-5)))])),
    ]);
    let text = encode(&v, &EncoderOptions::default());
    let dopts = DecoderOptions { strict: true, ..DecoderOptions::default() };
    let back = decode(&text, &dopts).unwrap();
    assert_eq!(back, v);
}

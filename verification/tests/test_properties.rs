use toon::{
    decode, encode, DecoderOptions, Delimiter, EncoderOptions, ErrorKind, KeyFolding, Number,
    ObjMap, PathExpansion, Value,
};

fn dec(s: &str) -> Result<Value, toon::Error> {
    decode(s, &DecoderOptions::default())
}

fn strict() -> DecoderOptions {
    DecoderOptions { indent: 2, strict: true, expand_paths: PathExpansion::Off }
}

#[test]
fn round_trip_simple_object() {
    let mut m = ObjMap::new();
    m.insert("id".to_string(), Value::Number(Number::U64(123)));
    m.insert("name".to_string(), Value::Str("Ada".to_string()));
    m.insert("active".to_string(), Value::Bool(true));
    let v = Value::Object(m);

    let text = encode(&v, &EncoderOptions::default());
    assert_eq!(text, "id: 123\nname: Ada\nactive: true");
    let back = dec(&text).unwrap();
    assert_eq!(back, v);
}

#[test]
fn round_trip_reserved_word_element() {
    let v = Value::Arr(vec![
        Value::Str("x".to_string()),
        Value::Str("y".to_string()),
        Value::Str("true".to_string()),
    ]);
    let text = encode(&v, &EncoderOptions::default());
    assert_eq!(text, "[3]: x,y,\"true\"");
    let back = dec(&text).unwrap();
    assert_eq!(back, v);
}

#[test]
fn round_trip_tabular() {
    let row = |sku: &str, qty: u64, price: &str| {
        let mut m = ObjMap::new();
        m.insert("sku".to_string(), Value::Str(sku.to_string()));
        m.insert("qty".to_string(), Value::Number(Number::U64(qty)));
        m.insert(
            "price".to_string(),
            Value::Number(Number::Decimal(price.to_string())),
        );
        Value::Object(m)
    };
    let mut m = ObjMap::new();
    m.insert("items".to_string(), Value::Arr(vec![row("A1", 2, "9.99"), row("B2", 1, "14.5")]));
    let v = Value::Object(m);

    let text = encode(&v, &EncoderOptions::default());
    assert_eq!(text, "items[2]{sku,qty,price}:\n  A1,2,9.99\n  B2,1,14.5");
    let back = dec(&text).unwrap();
    assert_eq!(back, v);
}

#[test]
fn round_trip_array_of_arrays() {
    let inner = |a: &str, b: &str| {
        Value::Arr(vec![Value::Str(a.to_string()), Value::Str(b.to_string())])
    };
    let mut m = ObjMap::new();
    m.insert("pairs".to_string(), Value::Arr(vec![inner("a", "b"), inner("c", "d")]));
    let v = Value::Object(m);

    let text = encode(&v, &EncoderOptions::default());
    assert_eq!(text, "pairs[2]:\n  - [2]: a,b\n  - [2]: c,d");
    let back = dec(&text).unwrap();
    assert_eq!(back, v);
}

#[test]
fn empty_structures() {
    assert_eq!(encode(&Value::Object(ObjMap::new()), &EncoderOptions::default()), "");
    assert_eq!(encode(&Value::Arr(vec![]), &EncoderOptions::default()), "[0]:");

    let mut m = ObjMap::new();
    m.insert("empty".to_string(), Value::Object(ObjMap::new()));
    assert_eq!(encode(&Value::Object(m), &EncoderOptions::default()), "empty:");

    let mut m = ObjMap::new();
    m.insert("empty".to_string(), Value::Arr(vec![]));
    assert_eq!(encode(&Value::Object(m), &EncoderOptions::default()), "empty[0]:");

    let back = dec("[0]:").unwrap();
    assert_eq!(back.as_array().unwrap().len(), 0);
    let back = dec("empty:").unwrap();
    assert!(back.as_object().unwrap().get("empty").unwrap().as_object().unwrap().is_empty());
    let back = dec("empty[0]:").unwrap();
    assert_eq!(back.as_object().unwrap().get("empty").unwrap().as_array().unwrap().len(), 0);
}

#[test]
fn path_expansion_safe() {
    let opts = DecoderOptions { indent: 2, strict: false, expand_paths: PathExpansion::Safe };
    let v = decode("a.b: 1\na.c: 2", &opts).unwrap();
    let a = v.as_object().unwrap().get("a").unwrap().as_object().unwrap();
    assert_eq!(a.get("b").unwrap().as_u64().unwrap(), 1);
    assert_eq!(a.get("c").unwrap().as_u64().unwrap(), 2);
}

#[test]
fn path_expansion_conflict_strict() {
    let opts = DecoderOptions { indent: 2, strict: true, expand_paths: PathExpansion::Safe };
    let e = decode("a: 3\na.b: 1", &opts).unwrap_err();
    assert!(matches!(e.kind(), ErrorKind::ExpansionConflict));
    let e = decode("a.b: 1\na: 3", &opts).unwrap_err();
    assert!(matches!(e.kind(), ErrorKind::ExpansionConflict));
}

#[test]
fn path_expansion_merges_overlapping_objects() {
    let opts = DecoderOptions { indent: 2, strict: false, expand_paths: PathExpansion::Safe };
    // An expanded path meeting an existing object merges the two
    // objects recursively instead of replacing.
    let text = "a:\n  b:\n    c: 1\na.b:\n  d: 2";
    let v = decode(text, &opts).unwrap();
    let b = v
        .as_object()
        .unwrap()
        .get("a")
        .unwrap()
        .as_object()
        .unwrap()
        .get("b")
        .unwrap()
        .as_object()
        .unwrap();
    assert_eq!(b.get("c").unwrap().as_u64().unwrap(), 1);
    assert_eq!(b.get("d").unwrap().as_u64().unwrap(), 2);

    // The merge applies in strict mode too: object meeting object is no
    // conflict.
    let sopts = DecoderOptions { indent: 2, strict: true, expand_paths: PathExpansion::Safe };
    let v = decode(text, &sopts).unwrap();
    let b = v
        .as_object()
        .unwrap()
        .get("a")
        .unwrap()
        .as_object()
        .unwrap()
        .get("b")
        .unwrap()
        .as_object()
        .unwrap();
    assert_eq!(b.get("c").unwrap().as_u64().unwrap(), 1);
    assert_eq!(b.get("d").unwrap().as_u64().unwrap(), 2);

    // A later non-object still replaces in lenient mode.
    let v = decode("a:\n  b: 1\na.b: 2", &opts).unwrap();
    let a = v.as_object().unwrap().get("a").unwrap().as_object().unwrap();
    assert_eq!(a.get("b").unwrap().as_u64().unwrap(), 2);
}

#[test]
fn expansion_merges_duplicate_literal_keys() {
    // Two entries whose keys both stay literal and read the same merge
    // their object values; built directly since parsing deduplicates
    // repeated keys up front.
    let opts = DecoderOptions { indent: 2, strict: false, expand_paths: PathExpansion::Safe };
    let mut e1 = ObjMap::new();
    e1.insert("p".to_string(), Value::Number(Number::U64(1)));
    let mut e2 = ObjMap::new();
    e2.insert("q".to_string(), Value::Number(Number::U64(2)));
    let m = ObjMap {
        entries: vec![
            ("\u{0}k.k".to_string(), Value::Object(e1)),
            ("\u{0}k.k".to_string(), Value::Object(e2)),
        ],
    };
    let v = toon::de::expand_paths(Value::Object(m), &opts).unwrap();
    let k = v.as_object().unwrap().get("k.k").unwrap().as_object().unwrap();
    assert_eq!(k.get("p").unwrap().as_u64().unwrap(), 1);
    assert_eq!(k.get("q").unwrap().as_u64().unwrap(), 2);
}

#[test]
fn byte_level_round_trip() {
    let mut m = ObjMap::new();
    m.insert("id".to_string(), Value::Number(Number::U64(7)));
    let v = Value::Object(m);
    let bytes = toon::encode_bytes(&v, &EncoderOptions::default());
    assert_eq!(bytes, b"id: 7".to_vec());
    let back = toon::decode_bytes(&bytes, &DecoderOptions::default()).unwrap();
    assert_eq!(back, v);

    let e = toon::decode_bytes(&[0xff, 0xfe], &DecoderOptions::default()).unwrap_err();
    assert!(matches!(e.kind(), ErrorKind::Custom(_)));
}

#[test]
fn error_locations() {
    let e = dec("v: \"abc").unwrap_err();
    assert_eq!(e.line(), Some(1));
    assert_eq!(e.column(), Some(1));
    let e = dec("items[3]: a,b").unwrap_err();
    assert_eq!(e.line(), Some(1));
    let e = dec("users[2]{name,age}:\n  Alice\n  Bob,30").unwrap_err();
    assert_eq!(e.line(), Some(2));
    let e = decode("a:\n   b: 1", &strict()).unwrap_err();
    assert_eq!(e.line(), Some(2));
    assert_eq!(e.column(), Some(1));
}

#[test]
fn quoted_dotted_key_stays_literal() {
    let opts = DecoderOptions { indent: 2, strict: false, expand_paths: PathExpansion::Safe };
    let v = decode("\"a.b.c\": 1", &opts).unwrap();
    let obj = v.as_object().unwrap();
    assert_eq!(obj.get("a.b.c").unwrap().as_u64().unwrap(), 1);
    assert!(obj.get("a").is_none());

    // The marker never escapes to the caller when expansion is off.
    let v = dec("\"a.b\": 1").unwrap();
    assert_eq!(v.as_object().unwrap().get("a.b").unwrap().as_u64().unwrap(), 1);
}

#[test]
fn strict_indentation_multiple() {
    let e = decode(" x: 1", &strict()).unwrap_err();
    assert!(matches!(e.kind(), ErrorKind::IndentationError));
    let e = decode("a:\n   b: 1", &strict()).unwrap_err();
    assert!(matches!(e.kind(), ErrorKind::IndentationError));
    assert!(decode(" x: 1", &DecoderOptions::default()).is_ok());
}

#[test]
fn strict_tab_in_indentation() {
    let e = decode("a:\n\tb: 1", &strict()).unwrap_err();
    assert!(matches!(e.kind(), ErrorKind::IndentationError));
}

#[test]
fn count_mismatch() {
    let e = dec("items[3]: a,b").unwrap_err();
    assert!(matches!(e.kind(), ErrorKind::CountMismatch));
}

#[test]
fn width_mismatch() {
    let e = dec("users[2]{name,age}:\n  Alice\n  Bob,30").unwrap_err();
    assert!(matches!(e.kind(), ErrorKind::WidthMismatch));
}

#[test]
fn blank_line_in_array_strict() {
    let e = decode("items[2]:\n  - a\n\n  - b", &strict()).unwrap_err();
    assert!(matches!(e.kind(), ErrorKind::BlankLineInArray));
    assert!(dec("items[2]:\n  - a\n\n  - b").is_ok());
}

#[test]
fn number_fidelity() {
    assert_eq!(encode(&Value::Number(Number::U64(42)), &EncoderOptions::default()), "42");
    assert_eq!(encode(&Value::Number(Number::I64(-42)), &EncoderOptions::default()), "-42");
    assert_eq!(
        encode(&Value::Number(Number::Decimal("1.5".to_string())), &EncoderOptions::default()),
        "1.5"
    );

    let back = dec("-42").unwrap();
    assert_eq!(back, Value::Number(Number::I64(-42)));
    let back = dec("42").unwrap();
    assert_eq!(back, Value::Number(Number::U64(42)));
    let back = dec("3.14159").unwrap();
    assert_eq!(back, Value::Number(Number::Decimal("3.14159".to_string())));
    let back = dec("01").unwrap();
    assert_eq!(back, Value::Str("01".to_string()));
}

#[test]
fn encoder_determinism() {
    let mut m = ObjMap::new();
    m.insert("k".to_string(), Value::Str("v".to_string()));
    m.insert("n".to_string(), Value::Number(Number::U64(7)));
    let v = Value::Object(m);
    let a = encode(&v, &EncoderOptions::default());
    let b = encode(&v, &EncoderOptions::default());
    assert_eq!(a, b);
}

#[test]
fn delimiters_pipe_and_tab() {
    let v = Value::Arr(vec![
        Value::Str("a".to_string()),
        Value::Str("b".to_string()),
        Value::Str("c".to_string()),
    ]);
    let pipe = EncoderOptions { delimiter: Delimiter::Pipe, ..EncoderOptions::default() };
    let text = encode(&v, &pipe);
    assert_eq!(text, "[3|]: a|b|c");
    let back = dec(&text).unwrap();
    assert_eq!(back, v);

    let tab = EncoderOptions { delimiter: Delimiter::Tab, ..EncoderOptions::default() };
    let text = encode(&v, &tab);
    assert_eq!(text, "[3\t]: a\tb\tc");
    let back = dec(&text).unwrap();
    assert_eq!(back, v);
}

#[test]
fn key_folding_safe() {
    let mut c = ObjMap::new();
    c.insert("c".to_string(), Value::Number(Number::U64(1)));
    let mut b = ObjMap::new();
    b.insert("b".to_string(), Value::Object(c));
    let mut m = ObjMap::new();
    m.insert("a".to_string(), Value::Object(b));
    let v = Value::Object(m);

    let opts = EncoderOptions { key_folding: KeyFolding::Safe, ..EncoderOptions::default() };
    assert_eq!(encode(&v, &opts), "a.b.c: 1");
    assert_eq!(encode(&v, &EncoderOptions::default()), "a:\n  b:\n    c: 1");
}

#[test]
fn key_folding_collision_falls_back() {
    let mut b = ObjMap::new();
    b.insert("b".to_string(), Value::Number(Number::U64(1)));
    let mut m = ObjMap::new();
    m.insert("a".to_string(), Value::Object(b));
    m.insert("a.b".to_string(), Value::Number(Number::U64(2)));
    let v = Value::Object(m);

    let opts = EncoderOptions { key_folding: KeyFolding::Safe, ..EncoderOptions::default() };
    assert_eq!(encode(&v, &opts), "a:\n  b: 1\na.b: 2");
}

#[test]
fn key_folding_depth_limit() {
    let mut c = ObjMap::new();
    c.insert("c".to_string(), Value::Number(Number::U64(1)));
    let mut b = ObjMap::new();
    b.insert("b".to_string(), Value::Object(c));
    let mut m = ObjMap::new();
    m.insert("a".to_string(), Value::Object(b));
    let v = Value::Object(m);

    let opts = EncoderOptions {
        key_folding: KeyFolding::Safe,
        flatten_depth: 2,
        ..EncoderOptions::default()
    };
    assert_eq!(encode(&v, &opts), "a.b:\n  c: 1");
}

#[test]
fn error_variants() {
    let e = dec("  x: 1").unwrap_err();
    assert!(matches!(e.kind(), ErrorKind::InvalidSyntax));
    let e = dec("v: \"a\\qb\"").unwrap_err();
    assert!(matches!(e.kind(), ErrorKind::InvalidEscape));
    let e = dec("v: \"abc").unwrap_err();
    assert!(matches!(e.kind(), ErrorKind::UnterminatedString));
    let e = dec("abc\ndef").unwrap_err();
    assert!(matches!(e.kind(), ErrorKind::MissingColon));
    let e = dec("k[xx]: 1").unwrap_err();
    assert!(matches!(e.kind(), ErrorKind::InvalidHeader));
}

#[test]
fn round_trip_mixed_list() {
    let mut obj = ObjMap::new();
    obj.insert("name".to_string(), Value::Str("Ada".to_string()));
    obj.insert("age".to_string(), Value::Number(Number::U64(36)));
    let v = Value::Arr(vec![
        Value::Number(Number::U64(1)),
        Value::Str("two".to_string()),
        Value::Object(obj),
        Value::Null,
    ]);
    let text = encode(&v, &EncoderOptions::default());
    assert_eq!(text, "[4]:\n  - 1\n  - two\n  - name: Ada\n    age: 36\n  - null");
    let back = dec(&text).unwrap();
    assert_eq!(back, v);
}

#[test]
fn round_trip_string_edge_cases() {
    for s in [
        "", " padded ", "true", "-dash", "a,b", "colon: here", "q\"uote", "back\\slash",
        "multi\nline", "tab\tin", "[bracket]", "{brace}", "0123", "3.14", "1e9",
    ] {
        let v = Value::Str(s.to_string());
        let text = encode(&v, &EncoderOptions::default());
        let back = dec(&text).unwrap();
        assert_eq!(back, v, "round trip failed for {:?}", s);
    }
}

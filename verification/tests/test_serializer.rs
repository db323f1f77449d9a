use toon::{encode, EncoderOptions, Number, ObjMap, Value};

#[test]
fn test_serializer_test_simple_object() {
    let mut m = ObjMap::new();
    m.insert("id".to_string(), Value::Number(Number::I64(123)));
    m.insert("name".to_string(), Value::Str("Ada".to_string()));
    m.insert("active".to_string(), Value::Bool(true));

    let result = encode(&Value::Object(m), &EncoderOptions::default());
    assert_eq!(result, "id: 123\nname: Ada\nactive: true");
}

#[test]
fn test_primitive_array() {
    let mut m = ObjMap::new();
    m.insert(
        "tags".to_string(),
        Value::Arr(vec![
            Value::Str("reading".to_string()),
            Value::Str("gaming".to_string()),
        ]),
    );

    let result = encode(&Value::Object(m), &EncoderOptions::default());
    assert_eq!(result, "tags[2]: reading,gaming");
}

#[test]
fn test_serializer_test_empty_object() {
    let m = ObjMap::new();
    let result = encode(&Value::Object(m), &EncoderOptions::default());
    assert_eq!(result, "");
}

#[test]
fn test_root_primitive() {
    let result = encode(&Value::Str("hello".to_string()), &EncoderOptions::default());
    assert_eq!(result, "hello");
}

#[test]
fn test_root_number() {
    let result = encode(&Value::Number(Number::I64(42)), &EncoderOptions::default());
    assert_eq!(result, "42");
}

#[test]
fn test_root_bool() {
    let result = encode(&Value::Bool(true), &EncoderOptions::default());
    assert_eq!(result, "true");
}

use toon::{encode, EncoderOptions, Number, ObjMap, Value};

#[test]
fn test_complex_test_nested_object() {
    let mut user = ObjMap::new();
    user.insert("id".to_string(), Value::Number(Number::I64(123)));
    user.insert("name".to_string(), Value::Str("Ada".to_string()));
    let mut m = ObjMap::new();
    m.insert("user".to_string(), Value::Object(user));

    let result = encode(&Value::Object(m), &EncoderOptions::default());
    let expected = "user:\n  id: 123\n  name: Ada";
    assert_eq!(result, expected);
}

fn item(sku: &str, qty: i64, price: &str) -> Value {
    let mut m = ObjMap::new();
    m.insert("sku".to_string(), Value::Str(sku.to_string()));
    m.insert("qty".to_string(), Value::Number(Number::I64(qty)));
    m.insert(
        "price".to_string(),
        Value::Number(Number::Decimal(price.to_string())),
    );
    Value::Object(m)
}

#[test]
fn test_complex_test_tabular_array() {
    let mut m = ObjMap::new();
    m.insert(
        "items".to_string(),
        Value::Arr(vec![item("A1", 2, "9.99"), item("B2", 1, "14.5")]),
    );

    let result = encode(&Value::Object(m), &EncoderOptions::default());
    let expected = "items[2]{sku,qty,price}:\n  A1,2,9.99\n  B2,1,14.5";
    assert_eq!(result, expected);
}

#[test]
fn test_root_array() {
    let arr = Value::Arr(vec![
        Value::Str("x".to_string()),
        Value::Str("y".to_string()),
        Value::Str("true".to_string()),
    ]);
    let result = encode(&arr, &EncoderOptions::default());
    let expected = "[3]: x,y,\"true\"";
    assert_eq!(result, expected);
}

#[test]
fn test_array_of_arrays() {
    let inner = |a: &str, b: &str| {
        Value::Arr(vec![Value::Str(a.to_string()), Value::Str(b.to_string())])
    };
    let mut m = ObjMap::new();
    m.insert("pairs".to_string(), Value::Arr(vec![inner("a", "b"), inner("c", "d")]));

    let result = encode(&Value::Object(m), &EncoderOptions::default());
    let expected = "pairs[2]:\n  - [2]: a,b\n  - [2]: c,d";
    assert_eq!(result, expected);
}

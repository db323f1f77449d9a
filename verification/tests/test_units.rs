use toon::de::{
    find_colon_outside_quotes, has_colon_outside_quotes, is_array_header, is_tabular_row,
    parse_delimited_values, parse_key_value_line, parse_primitive, tokenize_lines,
    try_parse_array_header, unescape_string, Deserializer,
};
use toon::{
    DecoderOptions, Delimiter, EncoderOptions, Error, ErrorKind, Number, Serializer, Value,
};

#[test]
fn colon_scans() {
    assert!(has_colon_outside_quotes("a: b"));
    assert!(!has_colon_outside_quotes("\"a: b\""));
    assert_eq!(find_colon_outside_quotes("ab: c"), Some(2));
    assert_eq!(find_colon_outside_quotes("\"a:\"x: y"), Some(5));
    assert_eq!(find_colon_outside_quotes("no colon"), None);
}

#[test]
fn delimited_values() {
    let vs = parse_delimited_values("a, b ,\"c,d\"", Delimiter::Comma, 1).unwrap();
    assert_eq!(vs, vec!["a".to_string(), "b".to_string(), "\"c,d\"".to_string()]);
    let vs = parse_delimited_values("x|y", Delimiter::Pipe, 1).unwrap();
    assert_eq!(vs, vec!["x".to_string(), "y".to_string()]);
}

#[test]
fn key_value_lines() {
    let (k, v) = parse_key_value_line("name: Ada", 1).unwrap();
    assert_eq!(k, "name");
    assert_eq!(v, "Ada");
    let (k, v) = parse_key_value_line("\"a b\":  x ", 1).unwrap();
    assert_eq!(k, "a b");
    assert_eq!(v, "x ");
    let e = parse_key_value_line("no colon here", 1).unwrap_err();
    assert!(matches!(e.kind(), ErrorKind::MissingColon));
}

#[test]
fn array_headers() {
    assert!(is_array_header("items[3]: a,b,c"));
    assert!(!is_array_header("items: a"));

    let h = try_parse_array_header("items[3]: a,b,c").unwrap().unwrap();
    assert_eq!(h.key.as_deref(), Some("items"));
    assert_eq!(h.length, 3);
    assert!(matches!(h.delimiter, Delimiter::Comma));
    assert!(h.fields.is_none());

    let h = try_parse_array_header("rows[2|]{a|b}:").unwrap().unwrap();
    assert_eq!(h.length, 2);
    assert!(matches!(h.delimiter, Delimiter::Pipe));
    assert_eq!(h.fields.unwrap(), vec!["a".to_string(), "b".to_string()]);

    let h = try_parse_array_header("[0]:").unwrap().unwrap();
    assert!(h.key.is_none());
    assert_eq!(h.length, 0);

    assert!(try_parse_array_header("plain: text").unwrap().is_none());
    let e = try_parse_array_header("k[9999999999999999999999999]: x").unwrap_err();
    assert!(matches!(e.kind(), ErrorKind::InvalidHeader));
}

#[test]
fn tabular_rows() {
    assert!(is_tabular_row("a,b,c", Delimiter::Comma));
    assert!(!is_tabular_row("key: value", Delimiter::Comma));
    assert!(is_tabular_row("a,b: c", Delimiter::Comma));
    assert!(is_tabular_row("plain", Delimiter::Comma));
}

#[test]
fn unescape() {
    assert_eq!(unescape_string(r"a\nb", 1).unwrap(), "a\nb");
    assert_eq!(unescape_string(r#"q\"r\\s\tt\ru"#, 1).unwrap(), "q\"r\\s\tt\ru");
    let e = unescape_string(r"bad\q", 1).unwrap_err();
    assert!(matches!(e.kind(), ErrorKind::InvalidEscape));
    let e = unescape_string("trail\\", 1).unwrap_err();
    assert!(matches!(e.kind(), ErrorKind::UnterminatedString));
}

#[test]
fn primitives() {
    assert!(parse_primitive("  ", 1).unwrap() == Value::Str(String::new()));
    assert!(parse_primitive("null", 1).unwrap().is_null());
    assert_eq!(parse_primitive("-7", 1).unwrap(), Value::Number(Number::I64(-7)));
    assert_eq!(
        parse_primitive("2.5e3", 1).unwrap(),
        Value::Number(Number::Decimal("2.5e3".to_string()))
    );
    assert_eq!(parse_primitive("bare words", 1).unwrap(), Value::Str("bare words".to_string()));
}

#[test]
fn tokenizer() {
    let opts = DecoderOptions::default();
    let lines = tokenize_lines("a: 1\n  b: 2\n\nc: 3\r\n", &opts).unwrap();
    assert_eq!(lines.len(), 3);
    assert_eq!(lines[0].content, "a: 1");
    assert_eq!(lines[0].depth, 0);
    assert_eq!(lines[0].line_number, 1);
    assert_eq!(lines[1].content, "b: 2");
    assert_eq!(lines[1].depth, 1);
    assert_eq!(lines[2].content, "c: 3");
    assert_eq!(lines[2].line_number, 4);
}

#[test]
fn serializer_helpers() {
    let mut s = Serializer::new(EncoderOptions::default());
    assert!(s.needs_quoting("", Delimiter::Comma));
    assert!(s.needs_quoting(" x", Delimiter::Comma));
    assert!(s.needs_quoting("true", Delimiter::Comma));
    assert!(s.needs_quoting("a,b", Delimiter::Comma));
    assert!(!s.needs_quoting("a|b", Delimiter::Comma));
    assert!(s.needs_quoting("a|b", Delimiter::Pipe));
    assert!(!s.needs_quoting("plain", Delimiter::Comma));

    assert!(Serializer::looks_like_number("-1.5e-3"));
    assert!(!Serializer::looks_like_number("1."));
    assert!(!Serializer::looks_like_number(".5"));
    assert!(Serializer::has_leading_zeros("012"));
    assert!(!Serializer::has_leading_zeros("0"));

    assert_eq!(s.escape_string("a\"b\\c\nd"), "a\\\"b\\\\c\\nd");
    assert!(s.key_needs_quoting("my-key"));
    assert!(!s.key_needs_quoting("a.b_c9"));
    assert!(Serializer::is_valid_unquoted_key("_x1"));
    assert!(!Serializer::is_valid_unquoted_key("1x"));

    s.write_string("hello, world", Delimiter::Comma);
    assert_eq!(s.into_string(), "\"hello, world\"");

    let s = Serializer::new(EncoderOptions::default());
    assert_eq!(s.indent(), "");
}

#[test]
fn delimiter_accessors() {
    assert_eq!(Delimiter::Comma.as_char(), ',');
    assert_eq!(Delimiter::Tab.as_char(), '\t');
    assert_eq!(Delimiter::Pipe.as_char(), '|');
    assert_eq!(Delimiter::Comma.as_str(), ",");
    assert_eq!(Delimiter::Comma.header_marker(), "");
    assert_eq!(Delimiter::Tab.header_marker(), "\t");
    assert_eq!(Delimiter::Pipe.header_marker(), "|");
}

#[test]
fn error_accessors() {
    let e = Error::new(ErrorKind::CountMismatch, "count is off").with_location(5, 12);
    assert!(matches!(e.kind(), ErrorKind::CountMismatch));
    assert_eq!(e.message(), "count is off");
    assert_eq!(e.line(), Some(5));
    assert_eq!(e.column(), Some(12));

    let e = Error::custom("something odd");
    assert!(matches!(e.kind(), ErrorKind::Custom(_)));
    assert_eq!(e.message(), "something odd");
    assert_eq!(e.line(), None);
}

#[test]
fn number_accessors() {
    assert_eq!(Number::I64(42).as_i64(), Some(42));
    assert_eq!(Number::U64(42).as_i64(), Some(42));
    assert_eq!(Number::I64(-42).as_u64(), None);
    assert_eq!(Number::U64(7).as_u64(), Some(7));
    assert!(Number::I64(1).is_i64());
    assert!(Number::U64(1).is_u64());
    assert!(Number::Decimal("1.5".to_string()).is_decimal());
    assert_eq!(
        Number::Decimal("1.5".to_string()).as_decimal_str(),
        Some(&"1.5".to_string())
    );
}

#[test]
fn deserializer_holds_input() {
    let opts = DecoderOptions::default();
    let _d = Deserializer::new("id: 1", opts);
}

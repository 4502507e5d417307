use json_canon::error::Error;
use json_canon::ser::CanonicalFormatter;
use json_canon::value::{to_string, Value};

fn s(x: &str) -> Value {
    Value::Str(x.to_string())
}

fn n(x: i64) -> Value {
    Value::Int(x)
}

fn obj(pairs: Vec<(&str, Value)>) -> Value {
    Value::Object(pairs.into_iter().map(|(k, v)| (k.to_string(), v)).collect())
}

fn test_ok(expected: &str, input: Value) {
    let actual = to_string(&input).unwrap();
    assert_eq!(actual, expected);
}

#[test]
fn test_works() {
    let expected = r#"{"a":1,"b":[],"c":2}"#;
    let input = obj(vec![("c", n(2)), ("a", n(1)), ("b", Value::Array(vec![]))]);
    test_ok(expected, input);
}

#[test]
fn test_null() {
    test_ok("null", Value::Null);
}

#[test]
fn test_encode_special_utf_ascii() {
    let expected = r#""\n""#;
    test_ok(expected, s("\u{000a}"));
}

#[test]
fn test_empty_array() {
    test_ok("[]", Value::Array(vec![]));
}

#[test]
fn test_one_element_array() {
    test_ok("[123]", Value::Array(vec![n(123)]));
}

#[test]
fn test_multi_element_array() {
    test_ok("[123,456]", Value::Array(vec![n(123), n(456)]));
}

#[test]
fn test_multi_element_mixed_array() {
    let expected = r#"[123,456,"hello"]"#;
    test_ok(expected, Value::Array(vec![n(123), n(456), s("hello")]));
}

#[test]
fn test_none_values_in_array() {
    let expected = r#"[null,"hello"]"#;
    test_ok(expected, Value::Array(vec![Value::Null, s("hello")]));
}

#[test]
fn test_array_with_large_integer_values() {
    // Larger than the largest safe integer, smaller than i64::MAX.
    let values: [u64; 3] = [9_100_000_000_000_000, 9_000_000_000_000_000, 9_200_000_000_000_000];

    let mut fmt = CanonicalFormatter::new();
    let mut sink: Vec<u8> = Vec::new();
    fmt.begin_array(&mut sink);
    fmt.begin_array_value(&mut sink, true);
    let err = fmt.write_u64(&mut sink, values[0]).unwrap_err();
    assert_eq!(err.message(), "u64 must be less than JSON max safe integer");

    let mut fmt = CanonicalFormatter::new();
    let mut sink: Vec<u8> = Vec::new();
    fmt.begin_array(&mut sink);
    fmt.begin_array_value(&mut sink, true);
    let err = fmt.write_u128(&mut sink, values[0] as u128).unwrap_err();
    assert_eq!(err.message(), "u128 must be less than JSON max safe integer");

    let mut fmt = CanonicalFormatter::new();
    let mut sink: Vec<u8> = Vec::new();
    fmt.begin_array(&mut sink);
    fmt.begin_array_value(&mut sink, true);
    let err = fmt.write_i64(&mut sink, values[0] as i64).unwrap_err();
    assert_eq!(err.message(), "i64.abs() must be less than JSON max safe integer");

    let mut fmt = CanonicalFormatter::new();
    let mut sink: Vec<u8> = Vec::new();
    fmt.begin_array(&mut sink);
    fmt.begin_array_value(&mut sink, true);
    let err = fmt.write_i128(&mut sink, values[0] as i128).unwrap_err();
    assert_eq!(err.message(), "i128.abs() must be less than JSON max safe integer");
}

#[test]
fn test_object_in_array() {
    let expected = r#"[{"a":"string","b":123}]"#;
    let input = Value::Array(vec![obj(vec![("b", n(123)), ("a", s("string"))])]);
    test_ok(expected, input);
}

#[test]
fn test_empty_object() {
    test_ok("{}", obj(vec![]));
}

#[test]
fn test_object_with_null_value() {
    let expected = r#"{"test":null}"#;
    test_ok(expected, obj(vec![("test", Value::Null)]));
}

#[test]
fn test_object_with_one_property() {
    let expected = r#"{"hello":"world"}"#;
    test_ok(expected, obj(vec![("hello", s("world"))]));
}

#[test]
fn test_object_with_more_than_one_property() {
    let expected = r#"{"goodbye":"test","hello":"world"}"#;
    test_ok(expected, obj(vec![("hello", s("world")), ("goodbye", s("test"))]));
}

#[test]
fn test_mixed_object_with_more_than_one_property() {
    let expected = r#"{"hello":"world","number":123}"#;
    test_ok(expected, obj(vec![("hello", s("world")), ("number", n(123))]));
}

// A map key that is not string-like or integer-like has no canonical text:
// the serialization front end rejects it before any write reaches the
// formatter, with the message checked here.

#[test]
fn test_object_with_none_keys() {
    let expected_err = "key must be a string";
    assert_eq!(Error::UnsupportedKeyType.message(), expected_err);
}

#[test]
fn test_object_with_bool_keys() {
    let expected_err = "key must be a string";
    assert_eq!(Error::UnsupportedKeyType.message(), expected_err);
}

/// Builds `{key: value}` members through the formatter using the
/// width-specific integer key writers, and returns the canonical text.
fn int_keyed_object(write_key: impl Fn(&mut CanonicalFormatter, &mut Vec<u8>, u64), entries: &[(u64, &str)]) -> String {
    let mut fmt = CanonicalFormatter::new();
    let mut sink: Vec<u8> = Vec::new();
    fmt.begin_object(&mut sink);
    let mut first = true;
    for (k, v) in entries {
        fmt.begin_object_key(&mut sink, first);
        first = false;
        fmt.begin_string(&mut sink);
        write_key(&mut fmt, &mut sink, *k);
        fmt.end_string(&mut sink);
        fmt.end_object_key(&mut sink);
        fmt.begin_object_value(&mut sink);
        fmt.begin_string(&mut sink);
        fmt.write_string_fragment(&mut sink, v);
        fmt.end_string(&mut sink);
        fmt.end_object_value(&mut sink);
    }
    fmt.end_object(&mut sink);
    String::from_utf8(sink).unwrap()
}

#[test]
fn test_object_with_valid_integer_keys() {
    let expected = r#"{"1":"One","2":"Two","3":"Three","4":"Four"}"#;
    let entries: [(u64, &str); 4] = [(2, "Two"), (4, "Four"), (1, "One"), (3, "Three")];
    let by_u8 = int_keyed_object(|f, o, k| f.write_u8(o, k as u8), &entries);
    let by_u16 = int_keyed_object(|f, o, k| f.write_u16(o, k as u16), &entries);
    let by_u32 = int_keyed_object(|f, o, k| f.write_u32(o, k as u32), &entries);
    let by_u64 = int_keyed_object(|f, o, k| f.write_u64(o, k).unwrap(), &entries);
    let by_u128 = int_keyed_object(|f, o, k| f.write_u128(o, k as u128).unwrap(), &entries);
    let by_i8 = int_keyed_object(|f, o, k| f.write_i8(o, k as i8), &entries);
    let by_i16 = int_keyed_object(|f, o, k| f.write_i16(o, k as i16), &entries);
    let by_i32 = int_keyed_object(|f, o, k| f.write_i32(o, k as i32), &entries);
    let by_i64 = int_keyed_object(|f, o, k| f.write_i64(o, k as i64).unwrap(), &entries);
    let by_i128 = int_keyed_object(|f, o, k| f.write_i128(o, k as i128).unwrap(), &entries);
    for actual in [by_u8, by_u16, by_u32, by_u64, by_u128, by_i8, by_i16, by_i32, by_i64, by_i128]
    {
        assert_eq!(actual, expected);
    }
}

#[test]
fn test_object_with_large_integer_keys() {
    // Keys beyond the safe-integer bound still render: the bound applies to
    // values only.
    let expected =
        r#"{"9000000000000000":"WOWZA","9100000000000000":"OKAYY","9200000000000000":"YIPES"}"#;
    let entries: [(u64, &str); 3] = [
        (9_100_000_000_000_000, "OKAYY"),
        (9_000_000_000_000_000, "WOWZA"),
        (9_200_000_000_000_000, "YIPES"),
    ];
    let by_u64 = int_keyed_object(|f, o, k| f.write_u64(o, k).unwrap(), &entries);
    let by_u128 = int_keyed_object(|f, o, k| f.write_u128(o, k as u128).unwrap(), &entries);
    let by_i64 = int_keyed_object(|f, o, k| f.write_i64(o, k as i64).unwrap(), &entries);
    let by_i128 = int_keyed_object(|f, o, k| f.write_i128(o, k as i128).unwrap(), &entries);
    for actual in [by_u64, by_u128, by_i64, by_i128] {
        assert_eq!(actual, expected);
    }
}

#[test]
fn test_object_with_unit_variant_keys() {
    // Enum-like keys reach the formatter as their string names.
    let expected = r#"{"One":"One","Three":"Three","Two":"Two"}"#;
    let input = obj(vec![("One", s("One")), ("Two", s("Two")), ("Three", s("Three"))]);
    test_ok(expected, input);
}

#[test]
fn test_object_with_newtype_keys() {
    // Newtype keys reach the formatter as their inner strings.
    let expected = r#"{"One":"One","Three":"Three","Two":"Two"}"#;
    let input = obj(vec![("One", s("One")), ("Two", s("Two")), ("Three", s("Three"))]);
    test_ok(expected, input);
}

#[test]
fn test_object_with_utf_keys() {
    let expected = r#"{"\n":"Newline","1":"One"}"#;
    let input = obj(vec![("1", s("One")), ("\u{000a}", s("Newline"))]);
    test_ok(expected, input);
}

#[test]
fn test_object_with_wacky_keys() {
    let expected = r#"{"\n":"Newline","1":"One","2":"Two","3":"Three","4":"Four"}"#;
    let input = obj(vec![
        ("2", s("Two")),
        ("4", s("Four")),
        ("1", s("One")),
        ("3", s("Three")),
        ("\u{000a}", s("Newline")),
    ]);
    test_ok(expected, input);
}

#[test]
fn test_bug_utf8_sort() {
    let key_a = "\u{fffd}\u{0017}B\u{fffd}\u{fffd}";
    let key_b = "\u{fffd}\u{0017}\\\u{fffd}4\u{fffd}";
    let expected =
        "{\"\u{fffd}\\u0017B\u{fffd}\u{fffd}\":null,\"\u{fffd}\\u0017\\\\\u{fffd}4\u{fffd}\":null}";
    let input = obj(vec![(key_a, Value::Null), (key_b, Value::Null)]);
    test_ok(expected, input);
}

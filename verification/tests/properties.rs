use json_canon::error::{Error, NumberWidth};
use json_canon::ser::CanonicalFormatter;
use json_canon::value::{to_sink, to_string, to_vec, Value};

fn s(x: &str) -> Value {
    Value::Str(x.to_string())
}

fn n(x: i64) -> Value {
    Value::Int(x)
}

fn obj(pairs: Vec<(&str, Value)>) -> Value {
    Value::Object(pairs.into_iter().map(|(k, v)| (k.to_string(), v)).collect())
}

fn sample_value() -> Value {
    obj(vec![
        ("z", Value::Array(vec![n(1), s("two"), Value::Null])),
        ("a", Value::Bool(true)),
        ("k\u{00e9}y", s("valu\u{00e9}")),
    ])
}

#[test]
fn test_determinism_repeated_runs() {
    let v = sample_value();
    let first = to_vec(&v).unwrap();
    let second = to_vec(&v).unwrap();
    assert_eq!(first, second);
}

#[test]
fn test_reordering_invariance() {
    let order_a = obj(vec![("c", n(2)), ("a", n(1)), ("b", Value::Array(vec![]))]);
    let order_b = obj(vec![("b", Value::Array(vec![])), ("c", n(2)), ("a", n(1))]);
    assert_eq!(to_vec(&order_a).unwrap(), to_vec(&order_b).unwrap());
}

#[test]
fn test_round_trip_decode() {
    // Any decoder consistent with the data model reads the same structure
    // from the canonical text as from any other rendering of the value.
    let v = obj(vec![
        ("b", Value::Array(vec![n(1), n(2)])),
        ("a", s("x")),
    ]);
    let canonical = to_string(&v).unwrap();
    let decoded: serde_json::Value = serde_json::from_str(&canonical).unwrap();
    let reference: serde_json::Value =
        serde_json::from_str("{ \"b\" : [1, 2], \"a\" : \"x\" }").unwrap();
    assert_eq!(decoded, reference);
}

#[test]
fn test_round_trip_decode_nested() {
    let v = Value::Array(vec![obj(vec![
        ("inner", obj(vec![("y", n(2)), ("x", n(1))])),
        ("flag", Value::Bool(false)),
    ])]);
    let canonical = to_string(&v).unwrap();
    let decoded: serde_json::Value = serde_json::from_str(&canonical).unwrap();
    let reference: serde_json::Value =
        serde_json::from_str("[{\"flag\": false, \"inner\": {\"x\": 1, \"y\": 2}}]").unwrap();
    assert_eq!(decoded, reference);
}

#[test]
fn test_key_ordering_utf16() {
    // U+000A sorts before U+0031 as UTF-16 code units.
    let input = obj(vec![("1", s("One")), ("\n", s("Newline"))]);
    assert_eq!(to_string(&input).unwrap(), "{\"\\n\":\"Newline\",\"1\":\"One\"}");
}

#[test]
fn test_supplementary_plane_sort() {
    // A supplementary-plane character compares by its surrogate pair, so
    // U+10000 (units D800 DC00) sorts before U+FFFD (unit FFFD), against
    // raw codepoint order.
    let input = obj(vec![("\u{fffd}", n(1)), ("\u{10000}", n(2))]);
    assert_eq!(
        to_string(&input).unwrap(),
        "{\"\u{10000}\":2,\"\u{fffd}\":1}"
    );
}

#[test]
fn test_float_edge_cases() {
    let cases: [(u64, &str); 5] = [
        (0x0000000000000000, "0"),
        (0x8000000000000000, "0"),
        (0x0000000000000001, "5e-324"),
        (0x4340000000000000, "9007199254740992"),
        (0x44b52d02c7e14af6, "1e+23"),
    ];
    for (bits, expected) in cases {
        let f = f64::from_bits(bits);
        let text = if f.is_finite() && f != 0.0 {
            ryu_js::Buffer::new().format_finite(f).to_string()
        } else {
            String::new()
        };
        let v = Value::Float { bits, text };
        assert_eq!(to_string(&v).unwrap(), expected);
    }
}

#[test]
fn test_safe_integer_boundary() {
    // 2^60 as an object value fails the safe-range check ...
    let pow60: u64 = 1152921504606846976;
    let mut fmt = CanonicalFormatter::new();
    let mut sink: Vec<u8> = Vec::new();
    fmt.begin_object(&mut sink);
    fmt.begin_object_key(&mut sink, true);
    fmt.begin_string(&mut sink);
    fmt.write_string_fragment(&mut sink, "huge");
    fmt.end_string(&mut sink);
    fmt.end_object_key(&mut sink);
    fmt.begin_object_value(&mut sink);
    let err = fmt.write_u64(&mut sink, pow60).unwrap_err();
    assert_eq!(err, Error::IntegerOutOfSafeRange { width: NumberWidth::U64 });

    // ... while the same value as an object key renders.
    let mut fmt = CanonicalFormatter::new();
    let mut sink: Vec<u8> = Vec::new();
    fmt.begin_object(&mut sink);
    fmt.begin_object_key(&mut sink, true);
    fmt.begin_string(&mut sink);
    fmt.write_u64(&mut sink, pow60).unwrap();
    fmt.end_string(&mut sink);
    fmt.end_object_key(&mut sink);
    fmt.begin_object_value(&mut sink);
    fmt.write_null(&mut sink);
    fmt.end_object_value(&mut sink);
    fmt.end_object(&mut sink);
    assert_eq!(String::from_utf8(sink).unwrap(), "{\"1152921504606846976\":null}");
}

#[test]
fn test_nonfinite_rejected_f64() {
    for bits in [
        f64::NAN.to_bits(),
        0x7ff8000000000001_u64,
        0xfff8000000000000_u64,
    ] {
        let v = Value::Float { bits, text: String::new() };
        let err = to_string(&v).unwrap_err();
        assert_eq!(err, Error::NonFiniteNumber { infinite: false });
        assert_eq!(err.message(), "NaN is not allowed.");
    }
    for bits in [f64::INFINITY.to_bits(), f64::NEG_INFINITY.to_bits()] {
        let v = Value::Float { bits, text: String::new() };
        let err = to_string(&v).unwrap_err();
        assert_eq!(err, Error::NonFiniteNumber { infinite: true });
        assert_eq!(err.message(), "Infinity is not allowed.");
    }
}

#[test]
fn test_nonfinite_rejected_f32() {
    let mut fmt = CanonicalFormatter::new();
    let mut sink: Vec<u8> = Vec::new();
    let err = fmt.write_f32(&mut sink, f32::NAN.to_bits(), "").unwrap_err();
    assert_eq!(err, Error::NonFiniteNumber { infinite: false });
    let err = fmt.write_f32(&mut sink, f32::INFINITY.to_bits(), "").unwrap_err();
    assert_eq!(err, Error::NonFiniteNumber { infinite: true });
    let err = fmt.write_f32(&mut sink, f32::NEG_INFINITY.to_bits(), "").unwrap_err();
    assert_eq!(err, Error::NonFiniteNumber { infinite: true });
}

#[test]
fn test_f32_values_render() {
    let mut fmt = CanonicalFormatter::new();
    let mut sink: Vec<u8> = Vec::new();
    let x: f32 = 0.5;
    let text = ryu_js::Buffer::new().format_finite(x).to_string();
    fmt.write_f32(&mut sink, x.to_bits(), &text).unwrap();
    assert_eq!(String::from_utf8(sink).unwrap(), "0.5");

    let mut fmt = CanonicalFormatter::new();
    let mut sink: Vec<u8> = Vec::new();
    let z: f32 = -0.0;
    fmt.write_f32(&mut sink, z.to_bits(), "").unwrap();
    assert_eq!(String::from_utf8(sink).unwrap(), "0");
}

#[test]
fn test_nested_independence() {
    // An object inside an array element, itself holding another object:
    // each level sorts independently.
    let input = Value::Array(vec![obj(vec![
        ("b", obj(vec![("d", n(1)), ("c", n(2))])),
        ("a", n(0)),
    ])]);
    assert_eq!(
        to_string(&input).unwrap(),
        "[{\"a\":0,\"b\":{\"c\":2,\"d\":1}}]"
    );
}

#[test]
fn test_duplicate_keys_last_write_wins() {
    // The documented duplicate-key policy: the last write to a key wins.
    let input = obj(vec![("a", n(1)), ("b", n(3)), ("a", n(2))]);
    assert_eq!(to_string(&input).unwrap(), "{\"a\":2,\"b\":3}");
}

#[test]
fn test_solidus_not_escaped() {
    // The canonical form leaves the solidus unescaped ...
    assert_eq!(to_string(&s("a/b")).unwrap(), "\"a/b\"");

    // ... but a driver that asks for the escape gets `\/`, and the
    // comparison text still holds the bare character.
    let input = obj(vec![("a/b", n(1)), ("a.b", n(2))]);
    assert_eq!(to_string(&input).unwrap(), "{\"a.b\":2,\"a/b\":1}");

    let mut fmt = CanonicalFormatter::new();
    let mut sink: Vec<u8> = Vec::new();
    fmt.begin_string(&mut sink);
    fmt.write_char_escape(&mut sink, '/');
    fmt.end_string(&mut sink);
    assert_eq!(String::from_utf8(sink).unwrap(), "\"\\/\"");
}

#[test]
fn test_escape_table() {
    let input = s("\u{8}\u{9}\u{a}\u{c}\u{d}\"\\\u{1}\u{1f}ok");
    assert_eq!(
        to_string(&input).unwrap(),
        "\"\\b\\t\\n\\f\\r\\\"\\\\\\u0001\\u001fok\""
    );
}

#[test]
fn test_non_ascii_passthrough() {
    // Characters outside the escape table pass through as UTF-8.
    let input = s("\u{00e9}\u{4e16}\u{1f600}");
    let out = to_vec(&input).unwrap();
    let mut expected: Vec<u8> = Vec::new();
    expected.push(b'"');
    expected.extend_from_slice("\u{00e9}\u{4e16}\u{1f600}".as_bytes());
    expected.push(b'"');
    assert_eq!(out, expected);
}

#[test]
fn test_to_sink_appends() {
    let mut sink: Vec<u8> = Vec::new();
    sink.extend_from_slice(b"prefix:");
    to_sink(&mut sink, &n(7)).unwrap();
    assert_eq!(sink, b"prefix:7");
}

#[test]
fn test_error_messages() {
    assert_eq!(
        Error::IntegerOutOfSafeRange { width: NumberWidth::U64 }.message(),
        "u64 must be less than JSON max safe integer"
    );
    assert_eq!(Error::UnsupportedKeyType.message(), "key must be a string");
    assert_eq!(
        Error::MalformedKeyText.message(),
        "key must be valid Unicode without unpaired surrogates"
    );
    assert_eq!(
        Error::UnderlyingSink.message(),
        "the output sink failed to accept bytes"
    );
}

#[test]
fn test_number_str_and_raw_fragment() {
    let mut fmt = CanonicalFormatter::new();
    let mut sink: Vec<u8> = Vec::new();
    fmt.begin_array(&mut sink);
    fmt.begin_array_value(&mut sink, true);
    fmt.write_number_str(&mut sink, "3.14");
    fmt.end_array_value(&mut sink);
    fmt.begin_array_value(&mut sink, false);
    fmt.write_raw_fragment(&mut sink, "true");
    fmt.end_array_value(&mut sink);
    fmt.end_array(&mut sink);
    assert_eq!(String::from_utf8(sink).unwrap(), "[3.14,true]");
}

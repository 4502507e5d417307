use json_canon::ser::CanonicalFormatter;
use json_canon::value::{to_string, Value};

/// Builds a double value: the bit pattern plus the shortest round-trip text
/// that the formatter takes as given for finite non-zero doubles.
fn float_val(bits: u64) -> Value {
    let f = f64::from_bits(bits);
    let text = if f.is_finite() && f != 0.0 {
        ryu_js::Buffer::new().format_finite(f).to_string()
    } else {
        String::new()
    };
    Value::Float { bits, text }
}

fn test_json_number(bits: u64, expected: &str) {
    let actual = to_string(&float_val(bits)).unwrap();
    assert_eq!(actual, expected);
}

#[test]
fn test_numbers() {
    test_json_number(0x0000000000000000, "0"); // Zero
    test_json_number(0x8000000000000000, "0"); // Minus zero
    test_json_number(0x0000000000000001, "5e-324"); // Min pos number
    test_json_number(0x8000000000000001, "-5e-324"); // Min neg number
    test_json_number(0x7fefffffffffffff, "1.7976931348623157e+308"); // Max pos number
    test_json_number(0xffefffffffffffff, "-1.7976931348623157e+308"); // Max neg number
    test_json_number(0x4340000000000000, "9007199254740992"); // Max pos int
    test_json_number(0xc340000000000000, "-9007199254740992"); // Max neg int
    test_json_number(0x4430000000000000, "295147905179352830000"); // ~2**68

    test_json_number(0x44b52d02c7e14af5, "9.999999999999997e+22");
    test_json_number(0x44b52d02c7e14af6, "1e+23");
    test_json_number(0x44b52d02c7e14af7, "1.0000000000000001e+23");
    test_json_number(0x444b1ae4d6e2ef4e, "999999999999999700000");
    test_json_number(0x444b1ae4d6e2ef4f, "999999999999999900000");
    test_json_number(0x444b1ae4d6e2ef50, "1e+21");
    test_json_number(0x3eb0c6f7a0b5ed8c, "9.999999999999997e-7");
    test_json_number(0x3eb0c6f7a0b5ed8d, "0.000001");
    test_json_number(0x41b3de4355555553, "333333333.3333332");
    test_json_number(0x41b3de4355555554, "333333333.33333325");
    test_json_number(0x41b3de4355555555, "333333333.3333333");
    test_json_number(0x41b3de4355555556, "333333333.3333334");
    test_json_number(0x41b3de4355555557, "333333333.33333343");
    test_json_number(0xbecbf647612f3696, "-0.0000033333333333333333");
    test_json_number(0x43143ff3c1cb0959, "1424953923781206.2"); // Round to even
}

/// Serializes one integer through the width-specific writer and returns the
/// canonical text.
fn int_text(write: impl Fn(&mut CanonicalFormatter, &mut Vec<u8>)) -> String {
    let mut fmt = CanonicalFormatter::new();
    let mut sink: Vec<u8> = Vec::new();
    write(&mut fmt, &mut sink);
    String::from_utf8(sink).unwrap()
}

#[test]
fn test_valid_integers() {
    assert_eq!(int_text(|f, o| f.write_u8(o, 0_u8)), "0");
    assert_eq!(int_text(|f, o| f.write_i8(o, 0_i8)), "0");
    assert_eq!(int_text(|f, o| f.write_i8(o, -0_i8)), "0");
    assert_eq!(int_text(|f, o| f.write_i128(o, 0_i128).unwrap()), "0");
    assert_eq!(int_text(|f, o| f.write_i128(o, -0_i128).unwrap()), "0");
    assert_eq!(int_text(|f, o| f.write_u8(o, 1_u8)), "1");
    assert_eq!(int_text(|f, o| f.write_u16(o, 2_u16)), "2");
    assert_eq!(int_text(|f, o| f.write_u32(o, 4_u32)), "4");
    assert_eq!(int_text(|f, o| f.write_u64(o, 8_u64).unwrap()), "8");
    assert_eq!(int_text(|f, o| f.write_u128(o, 16_u128).unwrap()), "16");
    assert_eq!(int_text(|f, o| f.write_i8(o, 32_i8)), "32");
    assert_eq!(int_text(|f, o| f.write_i16(o, 64_i16)), "64");
    assert_eq!(int_text(|f, o| f.write_i32(o, 128_i32)), "128");
    assert_eq!(int_text(|f, o| f.write_i64(o, 256_i64).unwrap()), "256");
    assert_eq!(int_text(|f, o| f.write_i128(o, 512_i128).unwrap()), "512");
    assert_eq!(int_text(|f, o| f.write_i64(o, -1024_i64).unwrap()), "-1024");
    assert_eq!(int_text(|f, o| f.write_i32(o, -2048_i32)), "-2048");
    assert_eq!(int_text(|f, o| f.write_i16(o, -4096_i16)), "-4096");
    assert_eq!(int_text(|f, o| f.write_i8(o, -2_i8)), "-2");
}

/// Serializes one integer expecting a safe-range failure, and returns the
/// error message.
fn int_err(write: impl Fn(&mut CanonicalFormatter, &mut Vec<u8>) -> Result<(), json_canon::error::Error>) -> String {
    let mut fmt = CanonicalFormatter::new();
    let mut sink: Vec<u8> = Vec::new();
    let err = write(&mut fmt, &mut sink).unwrap_err();
    err.message()
}

#[test]
fn test_invalid_integers() {
    // 2.pow(60)
    assert_eq!(
        int_err(|f, o| f.write_u64(o, 1152921504606846976_u64)),
        "u64 must be less than JSON max safe integer"
    );
    assert_eq!(
        int_err(|f, o| f.write_u128(o, 1152921504606846976_u128)),
        "u128 must be less than JSON max safe integer"
    );
    assert_eq!(
        int_err(|f, o| f.write_i64(o, 1152921504606846976_i64)),
        "i64.abs() must be less than JSON max safe integer"
    );
    assert_eq!(
        int_err(|f, o| f.write_i128(o, 1152921504606846976_i128)),
        "i128.abs() must be less than JSON max safe integer"
    );
    assert_eq!(
        int_err(|f, o| f.write_i64(o, -1152921504606846976_i64)),
        "i64.abs() must be less than JSON max safe integer"
    );
    assert_eq!(
        int_err(|f, o| f.write_i128(o, -1152921504606846976_i128)),
        "i128.abs() must be less than JSON max safe integer"
    );
}

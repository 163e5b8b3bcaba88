use base64::Engine;
use wasmee::delta_json::{decode_delta_key, decode_delta_value, decode_deltas, parse_i32, IntParseError};
use wasmee::json::JsonValue;

fn b64(bytes: &[u8]) -> JsonValue {
    JsonValue::Str(base64::engine::general_purpose::STANDARD.encode(bytes))
}

fn num(n: &str) -> JsonValue {
    JsonValue::Number(n.to_string())
}

#[test]
fn test_serde_map_bytes_base64() {
    // Round trip: keys written as decimal text, pages as base64 strings.
    let entries = vec![("1".to_string(), b64(b"one")), ("2".to_string(), b64(b"two"))];
    let deltas = decode_deltas(&entries).unwrap();
    assert_eq!(deltas.len(), 2);
    assert_eq!(deltas.get(&1).unwrap(), &b"one".to_vec());
    assert_eq!(deltas.get(&2).unwrap(), &b"two".to_vec());

    // Empty strings and byte arrays.
    let mixed = vec![
        ("1".to_string(), JsonValue::Str(String::new())),
        ("2".to_string(), JsonValue::Array(vec![num("116"), num("119"), num("111")])),
    ];
    let s_mixed = decode_deltas(&mixed).unwrap();
    assert_eq!(s_mixed.get(&1).unwrap(), &Vec::<u8>::new());
    assert_eq!(s_mixed.get(&2).unwrap(), &b"two".to_vec());
}

#[test]
fn delta_values() {
    assert_eq!(decode_delta_value(&JsonValue::Null).unwrap(), Vec::<u8>::new());
    assert_eq!(decode_delta_value(&JsonValue::Str("  aGVsbG8=\n".to_string())).unwrap(), b"hello".to_vec());
    assert_eq!(decode_delta_value(&JsonValue::Str(" \t ".to_string())).unwrap(), Vec::<u8>::new());
    // Byte values are taken modulo 256.
    assert_eq!(decode_delta_value(&JsonValue::Array(vec![num("256"), num("257")])).unwrap(), vec![0, 1]);
    assert_eq!(
        decode_delta_value(&JsonValue::Array(vec![num("1"), num("-1")])).unwrap_err(),
        "expected integer array for bytes"
    );
    assert_eq!(
        decode_delta_value(&JsonValue::Array(vec![num("1.5")])).unwrap_err(),
        "expected integer array for bytes"
    );
    assert_eq!(
        decode_delta_value(&JsonValue::Array(vec![num("18446744073709551616")])).unwrap_err(),
        "expected integer array for bytes"
    );
    assert_eq!(decode_delta_value(&JsonValue::Bool(true)).unwrap_err(), "expected string or array for bytes");
    let err = decode_delta_value(&JsonValue::Str("!!".to_string())).unwrap_err();
    let expected = base64::engine::general_purpose::STANDARD.decode("!!").unwrap_err().to_string();
    assert_eq!(err, format!("failed to decode base64: {}", expected));
}

#[test]
fn page_numbers_parse_like_std() {
    for key in ["0", "17", "-5", "+8", "2147483647", "-2147483648", "2147483648", "-2147483649", "", "-", "+",
        "1x", "99999999999x", "x9", " 1", "0007"]
    {
        let ours = decode_delta_key(key);
        let std_result = key.parse::<i32>().map_err(|e| format!("invalid map key: {}", e));
        assert_eq!(ours, std_result, "key {:?}", key);
    }
    assert_eq!(parse_i32("2147483648"), Err(IntParseError::PosOverflow));
    assert_eq!(parse_i32("-2147483649"), Err(IntParseError::NegOverflow));
    assert_eq!(parse_i32(""), Err(IntParseError::Empty));
    assert_eq!(parse_i32("-"), Err(IntParseError::InvalidDigit));
}

#[test]
fn page_keys_read_back() {
    for page in [0i32, 1, -1, 65535, i32::MAX, i32::MIN] {
        assert_eq!(decode_delta_key(&page.to_string()), Ok(page));
    }
}

#[test]
fn first_bad_member_is_the_error_and_later_pages_win() {
    let entries = vec![
        ("3".to_string(), b64(b"a")),
        ("x".to_string(), b64(b"b")),
        ("4".to_string(), JsonValue::Bool(false)),
    ];
    assert_eq!(decode_deltas(&entries).unwrap_err(), "invalid map key: invalid digit found in string");
    let entries = vec![("3".to_string(), b64(b"a")), ("3".to_string(), b64(b"b"))];
    assert_eq!(decode_deltas(&entries).unwrap()[&3], b"b".to_vec());
}

#[test]
fn test_serde_bytes_base64() {
    // Bytes are written as base64 and read back from base64, an empty string,
    // an array of byte values, or null.
    let written = base64::engine::general_purpose::STANDARD.encode(b"hello");
    assert_eq!(written, "aGVsbG8=");
    assert_eq!(decode_delta_value(&JsonValue::Str(written)).unwrap(), b"hello".to_vec());
    assert_eq!(decode_delta_value(&JsonValue::Str(String::new())).unwrap(), Vec::<u8>::new());
    let seq = JsonValue::Array(vec![num("104"), num("101"), num("108"), num("108"), num("111")]);
    assert_eq!(decode_delta_value(&seq).unwrap(), b"hello".to_vec());
    assert_eq!(decode_delta_value(&JsonValue::Null).unwrap(), Vec::<u8>::new());
}

use wasmee::text::{decimal_string, has_prefix, has_suffix, parse_i64, same_text};

#[test]
fn decimal_text_of_integers() {
    for n in [0i64, 7, -7, 1234567890, i64::MAX, i64::MIN] {
        assert_eq!(decimal_string(n), n.to_string());
        assert_eq!(parse_i64(&decimal_string(n)), Some(n));
    }
}

#[test]
fn parsing_like_std() {
    for s in ["", "-", "+1", "-0", "12a", "9223372036854775808", "-9223372036854775808", " 1", "007"] {
        assert_eq!(parse_i64(s), s.parse::<i64>().ok(), "{:?}", s);
    }
}

#[test]
fn prefixes_and_suffixes() {
    assert!(has_prefix("refs/heads/main", "refs/heads/"));
    assert!(!has_prefix("refs", "refs/heads/"));
    assert!(has_suffix("app.wasm", ".wasm"));
    assert!(!has_suffix("wasm", ".wasm"));
    assert!(same_text("ä", "ä"));
    assert!(!same_text("a", "ab"));
}

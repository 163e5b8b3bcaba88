use wasmee::service::{
    is_authorized, is_json_request, module_source, warmup_reply, webhook_reply, ModuleSource, WarmupOutcome,
    MAX_WASM_BYTES,
};

#[test]
fn bearer_token_must_match_exactly() {
    assert!(is_authorized(Some("Bearer secret"), "secret"));
    assert!(!is_authorized(Some("Bearer secret "), "secret"));
    assert!(!is_authorized(Some("bearer secret"), "secret"));
    assert!(!is_authorized(None, "secret"));
    assert!(is_authorized(Some("Bearer "), ""));
}

#[test]
fn json_requests_are_recognized_by_content_type() {
    assert!(is_json_request(Some("application/json; charset=utf-8")));
    assert!(!is_json_request(Some("application/x-protobuf")));
    assert!(!is_json_request(None));
}

#[test]
fn module_source_order() {
    assert_eq!(module_source(MAX_WASM_BYTES + 1, true, "h"), ModuleSource::TooLarge);
    assert_eq!(module_source(MAX_WASM_BYTES, true, "h"), ModuleSource::Bytes);
    assert_eq!(module_source(0, true, "h"), ModuleSource::Git);
    assert_eq!(module_source(0, false, "h"), ModuleSource::Hash);
    assert_eq!(module_source(0, false, ""), ModuleSource::Default);
    assert_eq!(MAX_WASM_BYTES, 15 * 1024 * 1024);
}

#[test]
fn webhook_replies() {
    assert_eq!(
        webhook_reply(0),
        "{\"success\": true, \"message\": \"No matching Git sources in cache\", \"updated_count\": 0}"
    );
    assert_eq!(
        webhook_reply(12),
        "{\"success\": true, \"message\": \"Triggered background hot-reload\", \"updated_count\": 12}"
    );
}

#[test]
fn warmup_replies() {
    let r = warmup_reply(WarmupOutcome::MissingSource);
    assert!(!r.success);
    assert_eq!(r.error, "Missing git_source in request");
    let r = warmup_reply(WarmupOutcome::GitFailed("File path is empty".to_string()));
    assert_eq!(r.error, "Git resolution failed: File path is empty");
    let r = warmup_reply(WarmupOutcome::CompileFailed("bad magic".to_string()));
    assert_eq!(r.error, "Failed to compile module: bad magic");
    let r = warmup_reply(WarmupOutcome::Compiled("abc".to_string()));
    assert!(r.success);
    assert_eq!((r.wasm_hash.as_str(), r.error.as_str()), ("abc", ""));
}

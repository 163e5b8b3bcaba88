use wasmee::cache::{GitCache, GitEntry, ModuleCache, MAX_CACHED_MODULES};
use wasmee::gitops::{get_git_cache_key, parse_webhook_payload, webhook_matches, GitSource};
use wasmee::json::JsonValue;

fn s(x: &str) -> JsonValue {
    JsonValue::Str(x.to_string())
}

fn obj(members: Vec<(&str, JsonValue)>) -> JsonValue {
    JsonValue::Object(members.into_iter().map(|(k, v)| (k.to_string(), v)).collect())
}

fn source(repository: &str, git_ref: &str, file_path: &str) -> GitSource {
    GitSource {
        repository: repository.to_string(),
        git_ref: git_ref.to_string(),
        file_path: file_path.to_string(),
        git_token: String::new(),
    }
}

#[test]
fn test_parse_webhook_payload_github() {
    let payload = obj(vec![
        ("ref", s("refs/heads/main")),
        ("repository", obj(vec![("html_url", s("https://github.com/nativebpm/wasmee"))])),
    ]);
    let (repo, branch) = parse_webhook_payload(&payload).unwrap();
    assert_eq!(repo, "https://github.com/nativebpm/wasmee");
    assert_eq!(branch, "main");
}

#[test]
fn test_parse_webhook_payload_gitlab() {
    let payload = obj(vec![
        ("ref", s("refs/heads/test-branch")),
        ("repository", obj(vec![("homepage", s("https://gitlab.com/nativebpm/wasmee.git"))])),
    ]);
    let (repo, branch) = parse_webhook_payload(&payload).unwrap();
    assert_eq!(repo, "https://gitlab.com/nativebpm/wasmee");
    assert_eq!(branch, "test-branch");
}

#[test]
fn webhook_falls_back_to_project_and_strips_tags() {
    let payload = obj(vec![
        ("ref", s("refs/tags/v1.2")),
        ("project", obj(vec![("git_http_url", s(" https://GitLab.com/Team/App.git "))])),
    ]);
    let (repo, branch) = parse_webhook_payload(&payload).unwrap();
    assert_eq!(repo, "https://gitlab.com/team/app");
    assert_eq!(branch, "v1.2");
}

#[test]
fn webhook_without_ref_means_main_and_other_refs_stay() {
    let payload = obj(vec![("repository", obj(vec![("html_url", s("https://github.com/a/b"))]))]);
    assert_eq!(parse_webhook_payload(&payload).unwrap().1, "main");
    let payload = obj(vec![
        ("ref", s("feature")),
        ("repository", obj(vec![("html_url", s("https://github.com/a/b"))])),
    ]);
    assert_eq!(parse_webhook_payload(&payload).unwrap().1, "feature");
}

#[test]
fn webhook_present_but_not_a_string_does_not_fall_through() {
    // `html_url` is present, so `homepage` is not consulted; it is no string.
    let payload = obj(vec![(
        "repository",
        obj(vec![
            ("html_url", JsonValue::Null),
            ("homepage", s("https://github.com/a/b")),
        ]),
    )]);
    assert!(parse_webhook_payload(&payload).is_none());
    assert!(parse_webhook_payload(&JsonValue::Array(vec![])).is_none());
}

#[test]
fn webhook_matches_sources_by_repository_and_ref() {
    let src = source("https://GitHub.com/A/B.git", "", "x.wasm");
    assert!(webhook_matches(&src, "https://github.com/a/b", "main"));
    assert!(!webhook_matches(&src, "https://github.com/a/b", "dev"));
    assert!(!webhook_matches(&src, "https://github.com/a/c", "main"));
    // A matching source is cached under `repo:branch:path`.
    assert_eq!(get_git_cache_key(&src), "https://github.com/a/b:main:x.wasm");
}

#[test]
fn git_cache_replaces_and_matches_in_order() {
    let mut cache: GitCache<u32> = GitCache::new();
    let a = source("https://github.com/a/b", "main", "one.wasm");
    let b = source("https://github.com/a/b", "dev", "two.wasm");
    let c = source("https://github.com/a/b.git", "", "three.wasm");
    for (src, m) in [(a, 1u32), (b, 2), (c, 3)] {
        let key = get_git_cache_key(&src);
        cache.insert(key, GitEntry { source: src, hash: "h".to_string(), module: m });
    }
    let a2 = source("https://github.com/a/b", "main", "one.wasm");
    cache.insert(get_git_cache_key(&a2), GitEntry { source: a2, hash: "h2".to_string(), module: 9 });
    assert_eq!(cache.entries.len(), 3);
    assert_eq!(cache.get("https://github.com/a/b:main:one.wasm").unwrap().module, 9);
    let hits = cache.matching("https://github.com/a/b", "main");
    let paths: Vec<&str> = hits.iter().map(|s| s.file_path.as_str()).collect();
    assert_eq!(paths, vec!["one.wasm", "three.wasm"]);
}

#[test]
fn module_cache_keys_by_sha256_and_evicts_oldest() {
    let mut cache: ModuleCache<usize> = ModuleCache::new();
    let (key, found) = cache.find(b"hello");
    assert_eq!(key, "2cf24dba5fb0a30e26e83b2ac5b9e29e1b161e5c1fa7425e73043362938b9824");
    assert!(found.is_none());
    cache.insert(key.clone(), 0);
    assert_eq!(cache.find(b"hello").1, Some(&0));
    // Caching under a key already present keeps the first module.
    cache.insert(key.clone(), 7);
    assert_eq!(cache.get(&key), Some(&0));
    for i in 1..=MAX_CACHED_MODULES {
        cache.insert(format!("k{}", i), i);
    }
    assert_eq!(cache.len(), MAX_CACHED_MODULES);
    assert!(cache.get(&key).is_none());
    assert_eq!(cache.get("k1"), Some(&1));
    assert_eq!(cache.get(&format!("k{}", MAX_CACHED_MODULES)), Some(&MAX_CACHED_MODULES));
}

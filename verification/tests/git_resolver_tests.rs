use std::io::Write;
use wasmee::git_resolver::{build_raw_url, decode_fetched, extract_wasm_from_zip, prepare_fetch, SourceError};
use wasmee::gitops::{get_git_cache_key, GitSource};

fn source(repository: &str, git_ref: &str, file_path: &str, token: &str) -> GitSource {
    GitSource {
        repository: repository.to_string(),
        git_ref: git_ref.to_string(),
        file_path: file_path.to_string(),
        git_token: token.to_string(),
    }
}

fn zip_with(entries: &[(&str, &[u8])]) -> Vec<u8> {
    let mut buf = Vec::new();
    {
        let w = std::io::Cursor::new(&mut buf);
        let mut zip = zip::ZipWriter::new(w);
        let options = zip::write::SimpleFileOptions::default()
            .compression_method(zip::CompressionMethod::Deflated);
        for (name, data) in entries {
            zip.start_file(*name, options).unwrap();
            zip.write_all(data).unwrap();
        }
        zip.finish().unwrap();
    }
    buf
}

#[test]
fn test_build_raw_url_github() {
    let url = build_raw_url("https://github.com/nativebpm/wasmee", "main", "dist/app.wasm").unwrap();
    assert_eq!(url, "https://raw.githubusercontent.com/nativebpm/wasmee/main/dist/app.wasm");

    let url_git = build_raw_url("https://github.com/nativebpm/wasmee.git", "dev", "app.zip").unwrap();
    assert_eq!(url_git, "https://raw.githubusercontent.com/nativebpm/wasmee/dev/app.zip");
}

#[test]
fn test_build_raw_url_gitlab() {
    let url = build_raw_url("https://gitlab.com/nativebpm/wasmee", "master", "app.wasm").unwrap();
    assert_eq!(url, "https://gitlab.com/nativebpm/wasmee/-/raw/master/app.wasm");
}

#[test]
fn test_build_raw_url_invalid() {
    let res = build_raw_url("https://otherhost.com/repo", "main", "app.wasm");
    assert!(res.is_err());
}

#[test]
fn test_get_git_cache_key() {
    let src1 = GitSource {
        repository: "https://github.com/nativebpm/wasmee.git".to_string(),
        git_ref: "main".to_string(),
        file_path: "guest.wasm".to_string(),
        git_token: "".to_string(),
    };
    assert_eq!(get_git_cache_key(&src1), "https://github.com/nativebpm/wasmee:main:guest.wasm");

    let src2 = GitSource {
        repository: "https://GitLab.com/user/Repo".to_string(),
        git_ref: "".to_string(),
        file_path: "app/dist.zip".to_string(),
        git_token: "tok".to_string(),
    };
    assert_eq!(get_git_cache_key(&src2), "https://gitlab.com/user/repo:main:app/dist.zip");
}

#[test]
fn build_raw_url_messages() {
    assert_eq!(
        build_raw_url("https://otherhost.com/repo", "main", "app.wasm").unwrap_err(),
        "Unsupported Git host. Only GitHub and GitLab are currently supported."
    );
    assert_eq!(
        build_raw_url("github.com", "main", "a.wasm").unwrap_err(),
        "Invalid GitHub repository URL format"
    );
    assert_eq!(
        build_raw_url("https://gitlab.com/a/gitlab.com/b", "main", "a.wasm").unwrap_err(),
        "Invalid GitLab repository URL format"
    );
}

#[test]
fn build_raw_url_trims_and_strips_every_git_suffix() {
    let url = build_raw_url("  https://github.com/o/r.git.git \n", "v1", "x.wasm").unwrap();
    assert_eq!(url, "https://raw.githubusercontent.com/o/r/v1/x.wasm");
}

#[test]
fn test_zip_decompression() {
    let buf = zip_with(&[("test.wasm", b"\x00asm\x01\x00\x00\x00dummy_wasm_code")]);
    let extracted = extract_wasm_from_zip(buf).unwrap();
    assert_eq!(extracted, b"\x00asm\x01\x00\x00\x00dummy_wasm_code");
}

#[test]
fn test_gzip_decompression() {
    let plain_data = b"\x00asm\x01\x00\x00\x00gzip_dummy_data";
    let mut encoder = flate2::write::GzEncoder::new(Vec::new(), flate2::Compression::default());
    encoder.write_all(plain_data).unwrap();
    let compressed_bytes = encoder.finish().unwrap();

    let is_gzip = compressed_bytes.len() >= 2 && &compressed_bytes[0..2] == b"\x1f\x8b";
    assert!(is_gzip);

    // Recognized by its magic bytes, whatever the file is called.
    let decoded = decode_fetched("app.wasm", compressed_bytes).unwrap();
    assert_eq!(decoded, plain_data);
}

#[test]
fn test_brotli_decompression() {
    let plain_data = b"\x00asm\x01\x00\x00\x00brotli_dummy_data";
    let mut compressed_bytes = Vec::new();
    {
        let mut writer = brotli::CompressorWriter::new(&mut compressed_bytes, 4096, 5, 20);
        writer.write_all(plain_data).unwrap();
    }

    let decompressed = decode_fetched("dist/app.wasm.br", compressed_bytes).unwrap();
    assert_eq!(decompressed, plain_data);
}

#[test]
fn zip_found_by_magic_takes_the_first_wasm_entry() {
    let buf = zip_with(&[("readme.txt", b"hi"), ("a.wasm", b"first"), ("b.wasm", b"second")]);
    assert_eq!(decode_fetched("download.bin", buf).unwrap(), b"first");
}

#[test]
fn zip_without_wasm_entry_is_refused() {
    let buf = zip_with(&[("readme.txt", b"hi")]);
    assert!(matches!(decode_fetched("app.zip", buf), Err(SourceError::NoWasmInZip)));
}

#[test]
fn broken_zip_is_a_parse_error() {
    let r = decode_fetched("app.zip", b"PK\x03\x04 not really".to_vec());
    assert!(matches!(r, Err(SourceError::ZipParse(_))));
}

#[test]
fn broken_gzip_and_brotli_are_errors() {
    assert!(matches!(decode_fetched("app.gz", b"nope".to_vec()), Err(SourceError::Gzip(_))));
    assert!(matches!(
        decode_fetched("app.brotli", vec![0xff, 0xff, 0xff, 0xff]),
        Err(SourceError::Brotli(_))
    ));
}

#[test]
fn plain_download_is_kept_as_is() {
    let bytes = b"\x00asm\x01\x00\x00\x00".to_vec();
    assert_eq!(decode_fetched("app.wasm", bytes.clone()).unwrap(), bytes);
}

#[test]
fn fetch_plan_defaults_ref_and_sets_auth_header() {
    let plan = prepare_fetch(&source("https://github.com/o/r", "", "app.wasm", "")).unwrap();
    assert_eq!(plan.url, "https://raw.githubusercontent.com/o/r/main/app.wasm");
    assert!(plan.auth_header.is_none());

    let plan = prepare_fetch(&source("https://github.com/o/r", "dev", "app.wasm", "t0k")).unwrap();
    assert_eq!(plan.auth_header, Some(("Authorization".to_string(), "token t0k".to_string())));

    let plan = prepare_fetch(&source("https://gitlab.com/o/r", "", "app.wasm", "t0k")).unwrap();
    assert_eq!(plan.url, "https://gitlab.com/o/r/-/raw/main/app.wasm");
    assert_eq!(plan.auth_header, Some(("PRIVATE-TOKEN".to_string(), "t0k".to_string())));
}

#[test]
fn fetch_plan_errors() {
    assert!(matches!(prepare_fetch(&source("", "main", "a.wasm", "")), Err(SourceError::EmptyRepository)));
    assert!(matches!(
        prepare_fetch(&source("https://github.com/o/r", "main", "", "")),
        Err(SourceError::EmptyFilePath)
    ));
    match prepare_fetch(&source("https://example.org/o/r", "main", "a.wasm", "")) {
        Err(SourceError::Url(m)) => {
            assert_eq!(m, "Unsupported Git host. Only GitHub and GitLab are currently supported.")
        }
        _ => panic!("expected a URL error"),
    }
}

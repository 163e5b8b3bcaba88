//! Where a WebAssembly module held in a Git repository is downloaded from, and how
//! the downloaded bytes are unpacked.

use vstd::prelude::*;
use crate::gitops::{effective_ref, ref_or_main, GitSource};
use crate::text::{after_first, chars_of, digits, digits_string, contains, ends_with, find, find_from, first_occ, has_suffix, occurs_at, occurs_once, strip_suffixes, strip_suffixes_end, trim, trim_bounds};

verus! {

/// The repository part of a URL: trimmed, with trailing `.git` suffixes removed.
pub open spec fn normalized_repo(repository: Seq<char>) -> Seq<char> {
    strip_suffixes(trim(repository), ".git"@)
}

/// The raw-file download URL for `file_path` at `branch` of a GitHub or GitLab
/// repository, or the message of the error that `build_raw_url` returns.
pub open spec fn raw_url(repository: Seq<char>, branch: Seq<char>, file_path: Seq<char>) -> Result<
    Seq<char>,
    Seq<char>,
> {
    let repo = normalized_repo(repository);
    if contains(repo, "github.com"@) {
        if occurs_once(repo, "github.com/"@) {
            Ok("https://raw.githubusercontent.com/"@ + after_first(repo, "github.com/"@) + "/"@
                + branch + "/"@ + file_path)
        } else {
            Err("Invalid GitHub repository URL format"@)
        }
    } else if contains(repo, "gitlab.com"@) {
        if occurs_once(repo, "gitlab.com/"@) {
            Ok("https://gitlab.com/"@ + after_first(repo, "gitlab.com/"@) + "/-/raw/"@ + branch
                + "/"@ + file_path)
        } else {
            Err("Invalid GitLab repository URL format"@)
        }
    } else {
        Err("Unsupported Git host. Only GitHub and GitLab are currently supported."@)
    }
}

/// The trimmed repository URL with its `.git` suffixes removed, as a string slice.
pub fn normalize_repo(repository: &str) -> (r: &str)
    ensures
        r@ == normalized_repo(repository@),
{
    let v = chars_of(repository);
    let (a, b) = trim_bounds(&v);
    let git = chars_of(".git");
    proof {
        reveal_strlit(".git");
    }
    let e = strip_suffixes_end(&v, a, b, &git);
    repository.substring_char(a, e)
}

/// Where `pat` occurs in `v`, when it occurs there exactly once.
fn single_occurrence(v: &Vec<char>, pat: &Vec<char>) -> (r: Option<usize>)
    ensures
        r is Some <==> occurs_once(v@, pat@),
        r matches Some(k) ==> k == first_occ(v@, pat@) && occurs_at(v@, pat@, k as int),
{
    match find(v, pat) {
        None => {
            assert(!occurs_once(v@, pat@));
            None
        },
        Some(k) => {
            proof {
                let c = first_occ(v@, pat@);
                assert(occurs_at(v@, pat@, c) && forall|j: int|
                    0 <= j < c ==> !occurs_at(v@, pat@, j));
                if c < k {
                } else if c > k {
                    assert(!occurs_at(v@, pat@, k as int));
                }
            }
            if k == v.len() {
                assert(forall|j: int| occurs_at(v@, pat@, j) ==> j == k);
                return Some(k);
            }
            match find_from(v, pat, k + 1) {
                None => {
                    assert forall|j: int| occurs_at(v@, pat@, j) implies j == k by {
                        if j < k {
                        }
                    }
                    Some(k)
                },
                Some(m) => {
                    assert(occurs_at(v@, pat@, m as int));
                    None
                },
            }
        },
    }
}

/// The raw download URL of `file_path` at `branch` for a GitHub or GitLab repository.
pub fn build_raw_url(repository: &str, branch: &str, file_path: &str) -> (r: Result<
    String,
    String,
>)
    ensures
        r matches Ok(u) ==> raw_url(repository@, branch@, file_path@) == Ok::<Seq<char>, Seq<char>>(
            u@,
        ),
        r matches Err(m) ==> raw_url(repository@, branch@, file_path@) == Err::<
            Seq<char>,
            Seq<char>,
        >(m@),
{
    let repo = normalize_repo(repository);
    let rv = chars_of(repo);
    let github = chars_of("github.com");
    let gitlab = chars_of("gitlab.com");
    if find(&rv, &github).is_some() {
        let pat = chars_of("github.com/");
        match single_occurrence(&rv, &pat) {
            Some(k) => {
                assert(occurs_at(rv@, pat@, k as int));
                let plen = pat.len();
                assert(k + plen <= rv.len());
                let start = k + plen;
                let path = repo.substring_char(start, rv.len());
                let mut u = String::from_str("https://raw.githubusercontent.com/");
                u.append(path);
                u.append("/");
                u.append(branch);
                u.append("/");
                u.append(file_path);
                Ok(u)
            },
            None => Err(String::from_str("Invalid GitHub repository URL format")),
        }
    } else if find(&rv, &gitlab).is_some() {
        let pat = chars_of("gitlab.com/");
        match single_occurrence(&rv, &pat) {
            Some(k) => {
                assert(occurs_at(rv@, pat@, k as int));
                let plen = pat.len();
                assert(k + plen <= rv.len());
                let start = k + plen;
                let path = repo.substring_char(start, rv.len());
                let mut u = String::from_str("https://gitlab.com/");
                u.append(path);
                u.append("/-/raw/");
                u.append(branch);
                u.append("/");
                u.append(file_path);
                Ok(u)
            },
            None => Err(String::from_str("Invalid GitLab repository URL format")),
        }
    } else {
        Err(String::from_str("Unsupported Git host. Only GitHub and GitLab are currently supported."))
    }
}


/// Why a Git source could not be resolved to WebAssembly bytes.
#[derive(Debug)]
pub enum SourceError {
    /// The source names no repository.
    EmptyRepository,
    /// The source names no file.
    EmptyFilePath,
    /// No download URL could be built; the message of `build_raw_url`.
    Url(String),
    /// The download is not a ZIP archive; the reader's message.
    ZipParse(String),
    /// The entry at this position of the archive could not be read.
    ZipEntry(usize, String),
    /// The `.wasm` entry could not be extracted.
    ZipExtract(String),
    /// The archive holds no `.wasm` entry.
    NoWasmInZip,
    /// The Gzip stream is broken.
    Gzip(String),
    /// The Brotli stream is broken.
    Brotli(String),
}

/// The message of a source error.
pub open spec fn source_error_text(e: SourceError) -> Seq<char> {
    match e {
        SourceError::EmptyRepository => "Repository URL is empty"@,
        SourceError::EmptyFilePath => "File path is empty"@,
        SourceError::Url(m) => m@,
        SourceError::ZipParse(m) => "Failed to parse ZIP archive: "@ + m@,
        SourceError::ZipEntry(i, m) => "Failed to read ZIP entry at index "@ + digits(i as nat)
            + ": "@ + m@,
        SourceError::ZipExtract(m) => "Failed to extract WASM from ZIP: "@ + m@,
        SourceError::NoWasmInZip => "No .wasm file found inside the ZIP archive"@,
        SourceError::Gzip(m) => "Failed to decompress Gzip: "@ + m@,
        SourceError::Brotli(m) => "Failed to decompress Brotli: "@ + m@,
    }
}

/// `prefix` followed by `rest`.
fn joined(prefix: &str, rest: &str) -> (r: String)
    ensures
        r@ == prefix@ + rest@,
{
    let mut s = String::from_str(prefix);
    s.append(rest);
    s
}

impl SourceError {
    /// The error's message (see `source_error_text`).
    pub fn message(&self) -> (r: String)
        ensures
            r@ == source_error_text(*self),
    {
        match self {
            SourceError::EmptyRepository => String::from_str("Repository URL is empty"),
            SourceError::EmptyFilePath => String::from_str("File path is empty"),
            SourceError::Url(m) => m.clone(),
            SourceError::ZipParse(m) => joined("Failed to parse ZIP archive: ", m.as_str()),
            SourceError::ZipEntry(i, m) => {
                let mut s = joined(
                    "Failed to read ZIP entry at index ",
                    digits_string(*i as u64).as_str(),
                );
                s.append(": ");
                s.append(m.as_str());
                s
            },
            SourceError::ZipExtract(m) => joined("Failed to extract WASM from ZIP: ", m.as_str()),
            SourceError::NoWasmInZip => String::from_str("No .wasm file found inside the ZIP archive"),
            SourceError::Gzip(m) => joined("Failed to decompress Gzip: ", m.as_str()),
            SourceError::Brotli(m) => joined("Failed to decompress Brotli: ", m.as_str()),
        }
    }
}

/// How to download a Git source: from `url`, with an authentication header
/// (name, value) when the source carries a token.
#[derive(Debug)]
pub struct FetchPlan {
    pub url: String,
    pub auth_header: Option<(String, String)>,
}

/// The authentication header for a token: GitHub takes `Authorization: token ..`,
/// GitLab `PRIVATE-TOKEN: ..`, any other host `Authorization: Bearer ..`.
pub open spec fn auth_header_for(url: Seq<char>, token: Seq<char>) -> Option<(Seq<char>, Seq<char>)> {
    if token.len() == 0 {
        None
    } else if contains(url, "github.com"@) || contains(url, "githubusercontent.com"@) {
        Some(("Authorization"@, "token "@ + token))
    } else if contains(url, "gitlab.com"@) {
        Some(("PRIVATE-TOKEN"@, token))
    } else {
        Some(("Authorization"@, "Bearer "@ + token))
    }
}

/// Whether `s` contains `pat`.
pub fn contains_str(s: &str, pat: &str) -> (r: bool)
    ensures
        r == contains(s@, pat@),
{
    let v = chars_of(s);
    let p = chars_of(pat);
    find(&v, &p).is_some()
}

/// Where and how to download `source`: it must name a repository and a file; the
/// reference defaults to `main`; a token becomes an authentication header.
pub fn prepare_fetch(source: &GitSource) -> (r: Result<FetchPlan, SourceError>)
    ensures
        source.repository@.len() == 0 ==> r matches Err(SourceError::EmptyRepository),
        source.repository@.len() > 0 && source.file_path@.len() == 0 ==> r matches Err(
            SourceError::EmptyFilePath,
        ),
        source.repository@.len() > 0 && source.file_path@.len() > 0 ==> match raw_url(
            source.repository@,
            effective_ref(source.git_ref@),
            source.file_path@,
        ) {
            Err(m) => r matches Err(SourceError::Url(e)) && e@ == m,
            Ok(u) => r matches Ok(plan) && plan.url@ == u && match (
                plan.auth_header,
                auth_header_for(u, source.git_token@),
            ) {
                (None, None) => true,
                (Some(h), Some(e)) => h.0@ == e.0 && h.1@ == e.1,
                _ => false,
            },
        },
{
    if source.repository.as_str().unicode_len() == 0 {
        return Err(SourceError::EmptyRepository);
    }
    if source.file_path.as_str().unicode_len() == 0 {
        return Err(SourceError::EmptyFilePath);
    }
    let git_ref = ref_or_main(source.git_ref.as_str());
    let url = match build_raw_url(source.repository.as_str(), git_ref, source.file_path.as_str()) {
        Ok(u) => u,
        Err(m) => return Err(SourceError::Url(m)),
    };
    let token = source.git_token.as_str();
    let auth_header = if token.unicode_len() == 0 {
        None
    } else if contains_str(url.as_str(), "github.com") || contains_str(
        url.as_str(),
        "githubusercontent.com",
    ) {
        let mut v = String::from_str("token ");
        v.append(token);
        Some((String::from_str("Authorization"), v))
    } else if contains_str(url.as_str(), "gitlab.com") {
        Some((String::from_str("PRIVATE-TOKEN"), String::from_str(token)))
    } else {
        let mut v = String::from_str("Bearer ");
        v.append(token);
        Some((String::from_str("Authorization"), v))
    };
    Ok(FetchPlan { url, auth_header })
}

/// What decoding a Gzip stream gives: the decompressed bytes, or the decoder's
/// error message.
pub uninterp spec fn gzip_decoded(data: Seq<u8>) -> Result<Seq<u8>, Seq<char>>;

/// Decompresses a Gzip stream with `flate2::read::GzDecoder` and `Read::read_to_end`;
/// the result is named by `gzip_decoded`.
#[verifier::external_body]
fn gunzip(data: &[u8]) -> (r: Result<Vec<u8>, String>)
    ensures
        gzip_decoded(data@) == match r {
            Ok(v) => Ok::<Seq<u8>, Seq<char>>(v@),
            Err(e) => Err::<Seq<u8>, Seq<char>>(e@),
        },
{
    let mut decoder = flate2::read::GzDecoder::new(data);
    let mut out = Vec::new();
    match std::io::Read::read_to_end(&mut decoder, &mut out) {
        Ok(_) => Ok(out),
        Err(e) => Err(e.to_string()),
    }
}

/// What decoding a Brotli stream gives: the decompressed bytes, or the decoder's
/// error message.
pub uninterp spec fn brotli_decoded(data: Seq<u8>) -> Result<Seq<u8>, Seq<char>>;

/// Decompresses a Brotli stream with `brotli::Decompressor` (4096-byte buffer) and
/// `Read::read_to_end`; the result is named by `brotli_decoded`.
#[verifier::external_body]
fn unbrotli(data: &[u8]) -> (r: Result<Vec<u8>, String>)
    ensures
        brotli_decoded(data@) == match r {
            Ok(v) => Ok::<Seq<u8>, Seq<char>>(v@),
            Err(e) => Err::<Seq<u8>, Seq<char>>(e@),
        },
{
    let mut decompressor = brotli::Decompressor::new(data, 4096);
    let mut out = Vec::new();
    match std::io::Read::read_to_end(&mut decompressor, &mut out) {
        Ok(_) => Ok(out),
        Err(e) => Err(e.to_string()),
    }
}


#[verifier::external_type_specification]
#[verifier::external_body]
#[verifier::reject_recursive_types(R)]
pub struct ExZipArchive<R>(zip::ZipArchive<R>);

#[verifier::external_type_specification]
#[verifier::external_body]
#[verifier::reject_recursive_types(T)]
pub struct ExCursor<T>(std::io::Cursor<T>);

/// An in-memory ZIP archive together with the bytes it was read from.
pub struct ZipReader {
    archive: zip::ZipArchive<std::io::Cursor<Vec<u8>>>,
    bytes: Ghost<Seq<u8>>,
}

/// Whether bytes can be read as a ZIP archive: `None` if its central directory
/// reads, else the reader's error message.
pub uninterp spec fn zip_open_error(bytes: Seq<u8>) -> Option<Seq<char>>;

/// The names of the entries of the ZIP archive held in `bytes`, in
/// central-directory order, or the reader's message where an entry or its name
/// cannot be read.
pub uninterp spec fn zip_entry_names(bytes: Seq<u8>) -> Seq<Result<Seq<char>, Seq<char>>>;

/// The decompressed contents of the entries of the ZIP archive held in `bytes`, in
/// the same order; where an entry cannot be extracted, whether opening it failed
/// (`true`) or copying its data (`false`), and the message.
pub uninterp spec fn zip_entry_data(bytes: Seq<u8>) -> Seq<Result<Seq<u8>, (bool, Seq<char>)>>;

/// Reads the central directory of an in-memory ZIP archive with
/// `zip::ZipArchive::new`; an error comes with the reader's message.
#[verifier::external_body]
fn zip_open(bytes: Vec<u8>) -> (r: Result<ZipReader, String>)
    ensures
        match r {
            Ok(z) => z.bytes@ == bytes@ && zip_open_error(bytes@) is None,
            Err(e) => zip_open_error(bytes@) == Some(e@),
        },
{
    let ghost b = bytes@;
    match zip::ZipArchive::new(std::io::Cursor::new(bytes)) {
        Ok(archive) => Ok(ZipReader { archive, bytes: Ghost(b) }),
        Err(e) => Err(e.to_string()),
    }
}

/// The number of entries of an archive (`zip::ZipArchive::len`).
#[verifier::external_body]
fn zip_len(z: &ZipReader) -> (r: usize)
    ensures
        r == zip_entry_names(z.bytes@).len(),
        r == zip_entry_data(z.bytes@).len(),
{
    z.archive.len()
}

/// The name of entry `i`, through `zip::ZipArchive::by_index` and `ZipFile::name`;
/// an error comes with the reader's message.
#[verifier::external_body]
fn zip_entry_name(z: &mut ZipReader, i: usize) -> (r: Result<String, String>)
    requires
        i < zip_entry_names(old(z).bytes@).len(),
    ensures
        final(z).bytes == old(z).bytes,
        zip_entry_names(old(z).bytes@)[i as int] == match r {
            Ok(n) => Ok::<Seq<char>, Seq<char>>(n@),
            Err(e) => Err::<Seq<char>, Seq<char>>(e@),
        },
{
    match z.archive.by_index(i) {
        Ok(file) => match file.name() {
            Ok(n) => Ok(n.to_string()),
            Err(e) => Err(e.to_string()),
        },
        Err(e) => Err(e.to_string()),
    }
}

/// Why entry `i` could not be extracted: opening it failed, or copying its data.
#[derive(Debug)]
pub enum ZipReadError {
    Entry(String),
    Extract(String),
}

/// The decompressed contents of entry `i`, through `zip::ZipArchive::by_index` and
/// `std::io::copy`.
#[verifier::external_body]
fn zip_entry_read(z: &mut ZipReader, i: usize) -> (r: Result<Vec<u8>, ZipReadError>)
    requires
        i < zip_entry_data(old(z).bytes@).len(),
    ensures
        final(z).bytes == old(z).bytes,
        zip_entry_data(old(z).bytes@)[i as int] == match r {
            Ok(v) => Ok::<Seq<u8>, (bool, Seq<char>)>(v@),
            Err(ZipReadError::Entry(e)) => Err::<Seq<u8>, (bool, Seq<char>)>((true, e@)),
            Err(ZipReadError::Extract(e)) => Err::<Seq<u8>, (bool, Seq<char>)>((false, e@)),
        },
{
    match z.archive.by_index(i) {
        Ok(mut file) => {
            let mut buf = Vec::new();
            match std::io::copy(&mut file, &mut buf) {
                Ok(_) => Ok(buf),
                Err(e) => Err(ZipReadError::Extract(e.to_string())),
            }
        },
        Err(e) => Err(ZipReadError::Entry(e.to_string())),
    }
}

/// Whether an entry name marks a WebAssembly module.
pub open spec fn is_wasm_name(n: Result<Seq<char>, Seq<char>>) -> bool {
    n matches Ok(s) && ends_with(s, ".wasm"@)
}

/// Whether the first `i` entries all have readable names that are not `.wasm`.
pub open spec fn skipped_before(names: Seq<Result<Seq<char>, Seq<char>>>, i: int) -> bool {
    forall|j: int| 0 <= j < i ==> names[j] is Ok && !is_wasm_name(names[j])
}

/// What extracting the first `.wasm` entry of the archive in `bytes` may give:
/// that entry's contents, found after entries that all have non-`.wasm` names;
/// `NoWasmInZip` when every entry has such a name; a parse error with the reader's
/// message; or an error while reading an entry.
pub open spec fn zip_extraction(bytes: Seq<u8>, r: Result<Vec<u8>, SourceError>) -> bool {
    let names = zip_entry_names(bytes);
    let data = zip_entry_data(bytes);
    match r {
        Ok(v) => zip_open_error(bytes) is None && exists|i: int|
            0 <= i < names.len() && is_wasm_name(names[i]) && data[i] == Ok::<
                Seq<u8>,
                (bool, Seq<char>),
            >(v@) && skipped_before(names, i),
        Err(SourceError::NoWasmInZip) => zip_open_error(bytes) is None && skipped_before(
            names,
            names.len() as int,
        ),
        Err(SourceError::ZipParse(e)) => zip_open_error(bytes) == Some(e@),
        Err(SourceError::ZipEntry(i, e)) => zip_open_error(bytes) is None && i < names.len()
            && skipped_before(names, i as int) && (names[i as int] == Err::<Seq<char>, Seq<char>>(
            e@,
        ) || (is_wasm_name(names[i as int]) && data[i as int] == Err::<
            Seq<u8>,
            (bool, Seq<char>),
        >((true, e@)))),
        Err(SourceError::ZipExtract(e)) => zip_open_error(bytes) is None && exists|i: int|
            0 <= i < names.len() && is_wasm_name(names[i]) && data[i] == Err::<
                Seq<u8>,
                (bool, Seq<char>),
            >((false, e@)) && skipped_before(names, i),
        _ => false,
    }
}

/// Extracts the first `.wasm` entry of a ZIP archive.
pub fn extract_wasm_from_zip(bytes: Vec<u8>) -> (r: Result<Vec<u8>, SourceError>)
    ensures
        zip_extraction(bytes@, r),
{
    let ghost b = bytes@;
    let mut z = match zip_open(bytes) {
        Ok(z) => z,
        Err(e) => return Err(SourceError::ZipParse(e)),
    };
    let n = zip_len(&z);
    let mut i: usize = 0;
    while i < n
        invariant
            b == bytes@,
            z.bytes@ == b,
            zip_open_error(b) is None,
            n == zip_entry_names(b).len(),
            n == zip_entry_data(b).len(),
            i <= n,
            skipped_before(zip_entry_names(b), i as int),
        decreases n - i,
    {
        let name = match zip_entry_name(&mut z, i) {
            Ok(n) => n,
            Err(e) => {
                let r: Result<Vec<u8>, SourceError> = Err(SourceError::ZipEntry(i, e));
                assert(zip_extraction(b, r));
                return r;
            },
        };
        if has_suffix(name.as_str(), ".wasm") {
            match zip_entry_read(&mut z, i) {
                Ok(v) => {
                    assert(is_wasm_name(zip_entry_names(b)[i as int]));
                    assert(zip_entry_data(b)[i as int] == Ok::<Seq<u8>, (bool, Seq<char>)>(v@));
                    let r: Result<Vec<u8>, SourceError> = Ok(v);
                    assert(zip_extraction(b, r));
                    return r;
                },
                Err(ZipReadError::Entry(e)) => {
                    let r: Result<Vec<u8>, SourceError> = Err(SourceError::ZipEntry(i, e));
                    assert(zip_extraction(b, r));
                    return r;
                },
                Err(ZipReadError::Extract(e)) => {
                    assert(is_wasm_name(zip_entry_names(b)[i as int]));
                    let r: Result<Vec<u8>, SourceError> = Err(SourceError::ZipExtract(e));
                    assert(zip_extraction(b, r));
                    return r;
                },
            }
        }
        i = i + 1;
    }
    let r: Result<Vec<u8>, SourceError> = Err(SourceError::NoWasmInZip);
    assert(zip_extraction(b, r));
    r
}

/// How a download is packed, by its file name or its first bytes.
pub open spec fn is_zip_payload(file_path: Seq<char>, bytes: Seq<u8>) -> bool {
    ends_with(file_path, ".zip"@) || (bytes.len() >= 4 && bytes[0] == 0x50u8 && bytes[1] == 0x4bu8
        && bytes[2] == 3u8 && bytes[3] == 4u8)
}

pub open spec fn is_gzip_payload(file_path: Seq<char>, bytes: Seq<u8>) -> bool {
    ends_with(file_path, ".gz"@) || ends_with(file_path, ".gzip"@) || (bytes.len() >= 2 && bytes[0]
        == 0x1fu8 && bytes[1] == 0x8bu8)
}

pub open spec fn is_brotli_payload(file_path: Seq<char>) -> bool {
    ends_with(file_path, ".br"@) || ends_with(file_path, ".brotli"@)
}

/// Unpacks a downloaded file: a ZIP archive (by name or `PK\x03\x04` magic) gives
/// its first `.wasm` entry, a Gzip stream (by name or `\x1f\x8b` magic) and a
/// Brotli stream (by name) are decompressed, anything else is taken as it is.
pub fn decode_fetched(file_path: &str, bytes: Vec<u8>) -> (r: Result<Vec<u8>, SourceError>)
    ensures
        is_zip_payload(file_path@, bytes@) ==> zip_extraction(bytes@, r),
        !is_zip_payload(file_path@, bytes@) && is_gzip_payload(file_path@, bytes@) ==> match r {
            Ok(v) => gzip_decoded(bytes@) == Ok::<Seq<u8>, Seq<char>>(v@),
            Err(SourceError::Gzip(e)) => gzip_decoded(bytes@) == Err::<Seq<u8>, Seq<char>>(e@),
            _ => false,
        },
        !is_zip_payload(file_path@, bytes@) && !is_gzip_payload(file_path@, bytes@)
            && is_brotli_payload(file_path@) ==> match r {
            Ok(v) => brotli_decoded(bytes@) == Ok::<Seq<u8>, Seq<char>>(v@),
            Err(SourceError::Brotli(e)) => brotli_decoded(bytes@) == Err::<Seq<u8>, Seq<char>>(e@),
            _ => false,
        },
        !is_zip_payload(file_path@, bytes@) && !is_gzip_payload(file_path@, bytes@)
            && !is_brotli_payload(file_path@) ==> (r matches Ok(v) && v@ == bytes@),
{
    let zip_magic = bytes.len() >= 4 && bytes[0] == 0x50u8 && bytes[1] == 0x4bu8 && bytes[2] == 3u8
        && bytes[3] == 4u8;
    let is_zip = has_suffix(file_path, ".zip") || zip_magic;
    let gzip_magic = bytes.len() >= 2 && bytes[0] == 0x1fu8 && bytes[1] == 0x8bu8;
    let is_gzip = has_suffix(file_path, ".gz") || has_suffix(file_path, ".gzip") || gzip_magic;
    let is_brotli = has_suffix(file_path, ".br") || has_suffix(file_path, ".brotli");
    if is_zip {
        extract_wasm_from_zip(bytes)
    } else if is_gzip {
        match gunzip(bytes.as_slice()) {
            Ok(v) => Ok(v),
            Err(e) => Err(SourceError::Gzip(e)),
        }
    } else if is_brotli {
        match unbrotli(bytes.as_slice()) {
            Ok(v) => Ok(v),
            Err(e) => Err(SourceError::Brotli(e)),
        }
    } else {
        Ok(bytes)
    }
}

} // verus!

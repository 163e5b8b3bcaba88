//! Keys under which compiled Git sources are cached, and the matching of push
//! webhooks against them.

use vstd::prelude::*;
use crate::git_resolver::{normalize_repo, normalized_repo};
use crate::json::{get_binding, lookup, JsonValue};
use crate::text::{ascii_lower, ascii_lowered, has_prefix, is_ascii_text, same_text, starts_with};

verus! {

/// A file in a Git repository at a given reference.
#[derive(Debug)]
pub struct GitSource {
    pub repository: String,
    pub git_ref: String,
    pub file_path: String,
    pub git_token: String,
}

impl GitSource {
    /// A copy of the source.
    pub fn duplicate(&self) -> (r: GitSource)
        ensures
            r == *self,
    {
        GitSource {
            repository: self.repository.clone(),
            git_ref: self.git_ref.clone(),
            file_path: self.file_path.clone(),
            git_token: self.git_token.clone(),
        }
    }
}

/// What `str::to_lowercase` returns for a string: its characters mapped by the
/// Unicode `Lowercase` mapping, which can change the length.
pub uninterp spec fn lowercase(s: Seq<char>) -> Seq<char>;

/// Calls `str::to_lowercase`; the result is named by `lowercase`. On ASCII text
/// the Unicode mapping lower-cases the letters `A`-`Z` and keeps every other
/// character.
#[verifier::external_body]
fn to_lowercase(s: &str) -> (r: String)
    ensures
        r@ == lowercase(s@),
        is_ascii_text(s@) ==> r@.len() == s@.len() && forall|i: int|
            0 <= i < s@.len() ==> #[trigger] r@[i] == ascii_lower(s@[i]),
{
    s.to_lowercase()
}

/// Lower-cases with `to_lowercase`; on ASCII text that is `ascii_lowered`.
fn lower(s: &str) -> (r: String)
    ensures
        r@ == lowercase(s@),
        is_ascii_text(s@) ==> lowercase(s@) == ascii_lowered(s@),
{
    let r = to_lowercase(s);
    proof {
        if is_ascii_text(s@) {
            assert(r@ =~= ascii_lowered(s@));
        }
    }
    r
}

/// The reference a source points at: its own, or `main` when it names none.
pub open spec fn effective_ref(git_ref: Seq<char>) -> Seq<char> {
    if git_ref.len() == 0 {
        "main"@
    } else {
        git_ref
    }
}

/// The cache key of a Git source: `repository:ref:path`, the repository
/// normalized and lower-cased, the reference defaulting to `main`.
pub open spec fn cache_key(repository: Seq<char>, git_ref: Seq<char>, file_path: Seq<char>) -> Seq<
    char,
> {
    lowercase(normalized_repo(repository)) + ":"@ + effective_ref(git_ref) + ":"@ + file_path
}

/// The reference a source points at, `main` when it names none.
pub fn ref_or_main(git_ref: &str) -> (r: &str)
    ensures
        r@ == effective_ref(git_ref@),
{
    if git_ref.unicode_len() == 0 {
        "main"
    } else {
        git_ref
    }
}

/// The key under which the module compiled from `src` is cached.
pub fn get_git_cache_key(src: &GitSource) -> (r: String)
    ensures
        r@ == cache_key(src.repository@, src.git_ref@, src.file_path@),
        is_ascii_text(normalized_repo(src.repository@)) ==> lowercase(
            normalized_repo(src.repository@),
        ) == ascii_lowered(normalized_repo(src.repository@)),
{
    let repo = lower(normalize_repo(src.repository.as_str()));
    let mut key = repo;
    key.append(":");
    key.append(ref_or_main(src.git_ref.as_str()));
    key.append(":");
    key.append(src.file_path.as_str());
    key
}

/// The member `key` of a JSON object (the first one of that name); nothing for
/// any other value.
pub open spec fn member(v: JsonValue, key: Seq<char>) -> Option<JsonValue> {
    match v {
        JsonValue::Object(m) => lookup(m@, key),
        _ => None,
    }
}

/// The text of a JSON string.
pub open spec fn string_of(v: Option<JsonValue>) -> Option<Seq<char>> {
    match v {
        Some(JsonValue::Str(s)) => Some(s@),
        _ => None,
    }
}

/// The first of two optional values that is present.
pub open spec fn either<T>(a: Option<T>, b: Option<T>) -> Option<T> {
    if a is Some {
        a
    } else {
        b
    }
}

/// The repository URL that a push webhook names: the first present of
/// `repository.html_url`, `repository.homepage`, `repository.git_http_url`, if it
/// is a string; otherwise the first present of `project.web_url`,
/// `project.git_http_url`, if it is a string.
pub open spec fn webhook_repository(payload: JsonValue) -> Option<Seq<char>> {
    let from_repo = match member(payload, "repository"@) {
        Some(r) => string_of(
            either(
                member(r, "html_url"@),
                either(member(r, "homepage"@), member(r, "git_http_url"@)),
            ),
        ),
        None => None,
    };
    let from_project = match member(payload, "project"@) {
        Some(p) => string_of(either(member(p, "web_url"@), member(p, "git_http_url"@))),
        None => None,
    };
    either(from_repo, from_project)
}

/// The branch or tag that a reference names: without its `refs/heads/` or
/// `refs/tags/` prefix.
pub open spec fn branch_of(git_ref: Seq<char>) -> Seq<char> {
    if starts_with(git_ref, "refs/heads/"@) {
        git_ref.subrange(11, git_ref.len() as int)
    } else if starts_with(git_ref, "refs/tags/"@) {
        git_ref.subrange(10, git_ref.len() as int)
    } else {
        git_ref
    }
}

/// The repository and branch that a push webhook is about: the repository URL
/// normalized and lower-cased, the branch taken from the `ref` string
/// (`refs/heads/main` when there is none); nothing when no repository URL is
/// found.
pub open spec fn webhook_target(payload: JsonValue) -> Option<(Seq<char>, Seq<char>)> {
    match webhook_repository(payload) {
        Some(url) => {
            let git_ref = match string_of(member(payload, "ref"@)) {
                Some(r) => r,
                None => "refs/heads/main"@,
            };
            Some((lowercase(normalized_repo(url)), branch_of(git_ref)))
        },
        None => None,
    }
}

/// The member `key` of a JSON object.
fn member_of<'a>(v: &'a JsonValue, key: &str) -> (r: Option<&'a JsonValue>)
    ensures
        r matches Some(x) ==> member(*v, key@) == Some(*x),
        r is None ==> member(*v, key@) is None,
{
    match v {
        JsonValue::Object(m) => get_binding(m, key),
        _ => None,
    }
}

/// The first present of the members named `a`, `b` (and `c`, when given).
fn first_member<'a>(v: &'a JsonValue, a: &str, b: &str, c: Option<&str>) -> (r: Option<
    &'a JsonValue,
>)
    ensures
        ({
            let want = match c {
                Some(c) => either(member(*v, a@), either(member(*v, b@), member(*v, c@))),
                None => either(member(*v, a@), member(*v, b@)),
            };
            &&& r matches Some(x) ==> want == Some(*x)
            &&& r is None ==> want is None
        }),
{
    match member_of(v, a) {
        Some(x) => Some(x),
        None => match member_of(v, b) {
            Some(x) => Some(x),
            None => match c {
                Some(c) => member_of(v, c),
                None => None,
            },
        },
    }
}

/// The text of a JSON string value.
fn string_value(v: Option<&JsonValue>) -> (r: Option<&str>)
    ensures
        r matches Some(s) ==> v matches Some(x) && string_of(Some(*x)) == Some(s@),
        r is None ==> match v {
            Some(x) => string_of(Some(*x)) is None,
            None => true,
        },
{
    match v {
        Some(JsonValue::Str(s)) => Some(s.as_str()),
        _ => None,
    }
}

/// The repository and branch that a parsed push webhook (GitHub or GitLab) is
/// about; see `webhook_target`.
pub fn parse_webhook_payload(payload: &JsonValue) -> (r: Option<(String, String)>)
    ensures
        match webhook_target(*payload) {
            Some((repo, branch)) => r matches Some((a, b)) && a@ == repo && b@ == branch,
            None => r is None,
        },
        match webhook_repository(*payload) {
            Some(url) => is_ascii_text(normalized_repo(url)) ==> lowercase(normalized_repo(url))
                == ascii_lowered(normalized_repo(url)),
            None => true,
        },
{
    let from_repo = match member_of(payload, "repository") {
        Some(r) => string_value(first_member(r, "html_url", "homepage", Some("git_http_url"))),
        None => None,
    };
    let url = match from_repo {
        Some(u) => u,
        None => {
            let from_project = match member_of(payload, "project") {
                Some(p) => string_value(first_member(p, "web_url", "git_http_url", None)),
                None => None,
            };
            match from_project {
                Some(u) => u,
                None => {
                    return None;
                },
            }
        },
    };
    let repo = lower(normalize_repo(url));
    let git_ref = match string_value(member_of(payload, "ref")) {
        Some(r) => r,
        None => "refs/heads/main",
    };
    proof {
        reveal_strlit("refs/heads/");
        reveal_strlit("refs/tags/");
    }
    let n = git_ref.unicode_len();
    let branch = if has_prefix(git_ref, "refs/heads/") {
        git_ref.substring_char(11, n)
    } else if has_prefix(git_ref, "refs/tags/") {
        git_ref.substring_char(10, n)
    } else {
        git_ref
    };
    Some((repo, String::from_str(branch)))
}

/// Whether a cached source is the one a webhook for `repo_url` at `branch` is
/// about: its normalized, lower-cased repository and its reference (`main` when
/// it names none) are those.
pub open spec fn source_matches(src: GitSource, repo_url: Seq<char>, branch: Seq<char>) -> bool {
    lowercase(normalized_repo(src.repository@)) == repo_url && effective_ref(src.git_ref@)
        == branch
}

/// Whether the cached source `src` is the one a webhook for `repo_url` at
/// `branch` is about.
pub fn webhook_matches(src: &GitSource, repo_url: &str, branch: &str) -> (r: bool)
    ensures
        r == source_matches(*src, repo_url@, branch@),
        is_ascii_text(normalized_repo(src.repository@)) ==> lowercase(
            normalized_repo(src.repository@),
        ) == ascii_lowered(normalized_repo(src.repository@)),
{
    let repo = lower(normalize_repo(src.repository.as_str()));
    same_text(repo.as_str(), repo_url) && same_text(ref_or_main(src.git_ref.as_str()), branch)
}

/// A cached source that a webhook for `repo_url` at `branch` matches is cached
/// under the key `repo_url:branch:path`: the webhook and the cache key agree on
/// what a source's repository and reference are.
pub proof fn lemma_match_agrees_with_key(src: GitSource, repo_url: Seq<char>, branch: Seq<char>)
    requires
        source_matches(src, repo_url, branch),
    ensures
        cache_key(src.repository@, src.git_ref@, src.file_path@) == repo_url + ":"@ + branch
            + ":"@ + src.file_path@,
{
}

} // verus!

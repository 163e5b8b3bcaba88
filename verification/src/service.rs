//! The HTTP service's decisions: who may call it, how a request is encoded,
//! where the module to run comes from, and what a push webhook is answered.

use vstd::prelude::*;
use crate::git_resolver::contains_str;
use crate::text::{contains, digits, digits_string, same_text};

verus! {

/// The largest module, in bytes, that a request may carry (15 MiB).
pub const MAX_WASM_BYTES: usize = 15728640;

/// Whether the `Authorization` header carries the service's bearer token.
pub fn is_authorized(header: Option<&str>, api_token: &str) -> (r: bool)
    ensures
        r == (header matches Some(h) && h@ == "Bearer "@ + api_token@),
{
    match header {
        None => false,
        Some(h) => {
            let mut expected = String::from_str("Bearer ");
            expected.append(api_token);
            same_text(h, expected.as_str())
        },
    }
}

/// Whether a request with this `Content-Type` is JSON (otherwise protobuf).
pub fn is_json_request(content_type: Option<&str>) -> (r: bool)
    ensures
        r == (content_type matches Some(c) && contains(c@, "application/json"@)),
{
    match content_type {
        None => false,
        Some(c) => contains_str(c, "application/json"),
    }
}

/// Where the module that a request runs comes from.
#[derive(Debug, PartialEq, Eq, Structural)]
pub enum ModuleSource {
    /// The module carried is larger than `MAX_WASM_BYTES`: the request is refused.
    TooLarge,
    /// The module carried in the request.
    Bytes,
    /// The request's Git source.
    Git,
    /// A module compiled before, named by the hash in the request.
    Hash,
    /// The host's default module.
    Default,
}

/// Where the module comes from, for a request carrying `wasm_len` bytes of
/// module, a Git source or not, and a module hash (maybe empty): carried bytes
/// first, then the Git source, then the hash, else the default module.
pub fn module_source(wasm_len: usize, has_git_source: bool, wasm_hash: &str) -> (r: ModuleSource)
    ensures
        r == (if wasm_len > MAX_WASM_BYTES {
            ModuleSource::TooLarge
        } else if wasm_len > 0 {
            ModuleSource::Bytes
        } else if has_git_source {
            ModuleSource::Git
        } else if wasm_hash@.len() > 0 {
            ModuleSource::Hash
        } else {
            ModuleSource::Default
        }),
{
    if wasm_len > MAX_WASM_BYTES {
        ModuleSource::TooLarge
    } else if wasm_len > 0 {
        ModuleSource::Bytes
    } else if has_git_source {
        ModuleSource::Git
    } else if wasm_hash.unicode_len() > 0 {
        ModuleSource::Hash
    } else {
        ModuleSource::Default
    }
}

/// The JSON answer to a push webhook that matched `count` cached sources.
pub open spec fn webhook_reply_text(count: nat) -> Seq<char> {
    if count == 0 {
        "{\"success\": true, \"message\": \"No matching Git sources in cache\", \"updated_count\": 0}"@
    } else {
        "{\"success\": true, \"message\": \"Triggered background hot-reload\", \"updated_count\": "@
            + digits(count) + "}"@
    }
}

/// The JSON answer to a push webhook that matched `count` cached sources.
pub fn webhook_reply(count: usize) -> (r: String)
    ensures
        r@ == webhook_reply_text(count as nat),
{
    if count == 0 {
        String::from_str(
            "{\"success\": true, \"message\": \"No matching Git sources in cache\", \"updated_count\": 0}",
        )
    } else {
        let mut s = String::from_str(
            "{\"success\": true, \"message\": \"Triggered background hot-reload\", \"updated_count\": ",
        );
        s.append(digits_string(count as u64).as_str());
        s.append("}");
        s
    }
}

/// How pre-warming a Git source went.
pub enum WarmupOutcome {
    /// The request named no Git source.
    MissingSource,
    /// Downloading or unpacking failed, with this message.
    GitFailed(String),
    /// Compiling failed, with this message.
    CompileFailed(String),
    /// The module was compiled and cached under this hash.
    Compiled(String),
}

/// The answer to a pre-warming request.
pub struct WarmupReply {
    pub success: bool,
    pub wasm_hash: String,
    pub error: String,
}

/// The answer to a pre-warming request that went as `outcome`: success with the
/// module's hash, or failure with the reason.
pub open spec fn warmup_reply_of(outcome: WarmupOutcome) -> (bool, Seq<char>, Seq<char>) {
    match outcome {
        WarmupOutcome::MissingSource => (false, Seq::empty(), "Missing git_source in request"@),
        WarmupOutcome::GitFailed(e) => (false, Seq::empty(), "Git resolution failed: "@ + e@),
        WarmupOutcome::CompileFailed(e) => (false, Seq::empty(), "Failed to compile module: "@ + e@),
        WarmupOutcome::Compiled(h) => (true, h@, Seq::empty()),
    }
}

/// The answer to a pre-warming request (see `warmup_reply_of`).
pub fn warmup_reply(outcome: WarmupOutcome) -> (r: WarmupReply)
    ensures
        (r.success, r.wasm_hash@, r.error@) == warmup_reply_of(outcome),
{
    match outcome {
        WarmupOutcome::MissingSource => WarmupReply {
            success: false,
            wasm_hash: String::new(),
            error: String::from_str("Missing git_source in request"),
        },
        WarmupOutcome::GitFailed(e) => {
            let mut m = String::from_str("Git resolution failed: ");
            m.append(e.as_str());
            WarmupReply { success: false, wasm_hash: String::new(), error: m }
        },
        WarmupOutcome::CompileFailed(e) => {
            let mut m = String::from_str("Failed to compile module: ");
            m.append(e.as_str());
            WarmupReply { success: false, wasm_hash: String::new(), error: m }
        },
        WarmupOutcome::Compiled(h) => WarmupReply { success: true, wasm_hash: h, error: String::new() },
    }
}

} // verus!

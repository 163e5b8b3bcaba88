//! The host's caches: compiled modules by the SHA-256 of their bytes, evicted
//! oldest first beyond a fixed number, and compiled Git sources by cache key.

use vstd::prelude::*;
use sha2::Digest;
use crate::gitops::{source_matches, webhook_matches, GitSource};
use crate::json::{get_binding, insert_binding, lookup};

verus! {

/// How many compiled modules the module cache keeps.
pub const MAX_CACHED_MODULES: usize = 100;

/// What `format!("{:x}", Sha256::digest(bytes))` returns: the SHA-256 digest of
/// the bytes in lower-case hexadecimal.
pub uninterp spec fn sha256_hex(bytes: Seq<u8>) -> Seq<char>;

/// Whether `c` is a lower-case hexadecimal digit.
pub open spec fn is_lower_hex(c: char) -> bool {
    ('0' <= c && c <= '9') || ('a' <= c && c <= 'f')
}

/// Hashes the bytes with `sha2::Sha256::digest` and formats the digest in
/// lower-case hexadecimal; the result is named by `sha256_hex`. The 32-byte
/// digest is written as two hex digits per byte, 64 in all.
#[verifier::external_body]
fn digest_hex(bytes: &[u8]) -> (r: String)
    ensures
        r@ == sha256_hex(bytes@),
        r@.len() == 64,
        forall|i: int| 0 <= i < r@.len() ==> is_lower_hex(#[trigger] r@[i]),
{
    format!("{:x}", sha2::Sha256::digest(bytes))
}

/// Whether no key occurs twice in a list of bindings.
pub open spec fn distinct_keys<V>(s: Seq<(String, V)>) -> bool {
    forall|i: int, j: int| 0 <= i < j < s.len() ==> s[i].0@ != s[j].0@
}

/// Compiled modules by the hex SHA-256 of their bytes, oldest first.
pub struct ModuleCache<M> {
    entries: Vec<(String, M)>,
}

impl<M> View for ModuleCache<M> {
    type V = Seq<(String, M)>;

    /// The cached entries, oldest first.
    closed spec fn view(&self) -> Seq<(String, M)> {
        self.entries@
    }
}

/// The entries after caching `m` under `key`: an entry already cached under
/// `key` stays as it is; otherwise the new entry goes last and, when that makes
/// more than `MAX_CACHED_MODULES`, the oldest entry is dropped.
pub open spec fn admitted<M>(entries: Seq<(String, M)>, key: String, m: M) -> Seq<(String, M)> {
    if lookup(entries, key@) is Some {
        entries
    } else if entries.len() + 1 > MAX_CACHED_MODULES {
        entries.push((key, m)).drop_first()
    } else {
        entries.push((key, m))
    }
}

proof fn lemma_lookup_in<V>(s: Seq<(String, V)>, i: int, key: Seq<char>)
    requires
        0 <= i < s.len(),
        s[i].0@ == key,
    ensures
        lookup(s, key) is Some,
    decreases i,
{
    if i > 0 && s[0].0@ != key {
        lemma_lookup_in(s.drop_first(), i - 1, key);
    }
}

proof fn lemma_lookup_not_in<V>(s: Seq<(String, V)>, key: Seq<char>)
    requires
        lookup(s, key) is None,
    ensures
        forall|i: int| 0 <= i < s.len() ==> s[i].0@ != key,
{
    assert forall|i: int| 0 <= i < s.len() implies s[i].0@ != key by {
        if s[i].0@ == key {
            lemma_lookup_in(s, i, key);
        }
    }
}

impl<M> ModuleCache<M> {
    /// The cache's invariant: at most `MAX_CACHED_MODULES` entries, no key twice.
    #[verifier::type_invariant]
    spec fn wf(self) -> bool {
        &&& self.entries@.len() <= MAX_CACHED_MODULES
        &&& distinct_keys(self.entries@)
    }

    /// An empty cache.
    pub fn new() -> (r: Self)
        ensures
            r@.len() == 0,
    {
        ModuleCache { entries: Vec::new() }
    }

    /// How many modules are cached (at most `MAX_CACHED_MODULES`, no key twice).
    pub fn len(&self) -> (r: usize)
        ensures
            r == self@.len(),
            r <= MAX_CACHED_MODULES,
            distinct_keys(self@),
    {
        proof {
            use_type_invariant(self);
        }
        self.entries.len()
    }

    /// The module cached under `key`.
    pub fn get(&self, key: &str) -> (r: Option<&M>)
        ensures
            r matches Some(m) ==> lookup(self@, key@) == Some(*m),
            r is None ==> lookup(self@, key@) is None,
    {
        get_binding(&self.entries, key)
    }

    /// The key of a module's bytes, and the module cached under it.
    pub fn find(&self, wasm: &[u8]) -> (r: (String, Option<&M>))
        ensures
            r.0@ == sha256_hex(wasm@),
            r.0@.len() == 64,
            forall|i: int| 0 <= i < r.0@.len() ==> is_lower_hex(#[trigger] r.0@[i]),
            r.1 matches Some(m) ==> lookup(self@, r.0@) == Some(*m),
            r.1 is None ==> lookup(self@, r.0@) is None,
    {
        let key = digest_hex(wasm);
        let found = self.get(key.as_str());
        (key, found)
    }

    /// Caches the module compiled under `key`, unless one is cached under it
    /// already; beyond `MAX_CACHED_MODULES` entries the oldest is evicted. The
    /// cache never holds more than `MAX_CACHED_MODULES` modules, nor a key twice,
    /// and afterwards holds one under `key`.
    pub fn insert(&mut self, key: String, m: M)
        ensures
            final(self)@ == admitted(old(self)@, key, m),
            final(self)@.len() <= MAX_CACHED_MODULES,
            distinct_keys(final(self)@),
            lookup(final(self)@, key@) is Some,
    {
        proof {
            use_type_invariant(&*self);
        }
        let ghost k = key@;
        if self.get(key.as_str()).is_some() {
            return;
        }
        let mut entries: Vec<(String, M)> = Vec::new();
        std::mem::swap(&mut entries, &mut self.entries);
        let ghost before = entries@;
        proof {
            lemma_lookup_not_in(before, k);
        }
        entries.push((key, m));
        let ghost pushed = entries@;
        assert(pushed == before.push(pushed.last()));
        if entries.len() > MAX_CACHED_MODULES {
            entries.remove(0);
            assert(entries@ =~= pushed.drop_first());
        }
        proof {
            let s = entries@;
            assert(s.last().0@ == k);
            lemma_lookup_in(s, s.len() - 1, k);
            assert forall|i: int, j: int| 0 <= i < j < s.len() implies s[i].0@ != s[j].0@ by {
                assert(pushed.contains(s[i]));
            }
        }
        self.entries = entries;
    }
}

/// A cached Git source: the source, the hash of its module's bytes, the module.
pub struct GitEntry<M> {
    pub source: GitSource,
    pub hash: String,
    pub module: M,
}

/// Compiled Git sources by cache key (see `get_git_cache_key`).
pub struct GitCache<M> {
    pub entries: Vec<(String, GitEntry<M>)>,
}

/// The sources among the cached entries that a webhook for `repo_url` at
/// `branch` is about, in cache order.
pub open spec fn matching_sources<M>(
    entries: Seq<(String, GitEntry<M>)>,
    repo_url: Seq<char>,
    branch: Seq<char>,
) -> Seq<GitSource>
    decreases entries.len(),
{
    if entries.len() == 0 {
        Seq::empty()
    } else {
        let rest = matching_sources(entries.drop_last(), repo_url, branch);
        let src = entries.last().1.source;
        if source_matches(src, repo_url, branch) {
            rest.push(src)
        } else {
            rest
        }
    }
}

impl<M> GitCache<M> {
    /// An empty cache.
    pub fn new() -> (r: Self)
        ensures
            r.entries@.len() == 0,
    {
        GitCache { entries: Vec::new() }
    }

    /// The entry cached under `key`.
    pub fn get(&self, key: &str) -> (r: Option<&GitEntry<M>>)
        ensures
            r matches Some(e) ==> lookup(self.entries@, key@) == Some(*e),
            r is None ==> lookup(self.entries@, key@) is None,
    {
        get_binding(&self.entries, key)
    }

    /// Caches `entry` under `key`, replacing what was cached under it.
    pub fn insert(&mut self, key: String, entry: GitEntry<M>)
        ensures
            lookup(final(self).entries@, key@) == Some(entry),
            forall|k: Seq<char>|
                k != key@ ==> #[trigger] lookup(final(self).entries@, k) == lookup(
                    old(self).entries@,
                    k,
                ),
    {
        insert_binding(&mut self.entries, key, entry);
    }

    /// The cached sources that a webhook for `repo_url` at `branch` is about.
    pub fn matching(&self, repo_url: &str, branch: &str) -> (r: Vec<GitSource>)
        ensures
            r@ == matching_sources(self.entries@, repo_url@, branch@),
    {
        let mut r: Vec<GitSource> = Vec::new();
        let mut i: usize = 0;
        while i < self.entries.len()
            invariant
                i <= self.entries@.len(),
                r@ == matching_sources(self.entries@.take(i as int), repo_url@, branch@),
            decreases self.entries.len() - i,
        {
            assert(self.entries@.take(i + 1).drop_last() =~= self.entries@.take(i as int));
            let src = &self.entries[i].1.source;
            if webhook_matches(src, repo_url, branch) {
                r.push(src.duplicate());
            }
            i = i + 1;
        }
        assert(self.entries@.take(self.entries@.len() as int) =~= self.entries@);
        r
    }
}

} // verus!

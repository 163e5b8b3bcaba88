//! Page-level snapshots of a WebAssembly linear memory: hashing pages, computing the
//! pages that changed against earlier hashes, and rebuilding a memory from a base
//! image and such deltas.

use vstd::prelude::*;
use std::collections::HashMap;
use vstd::std_specs::iter::IteratorSpec;
use vstd::string::StrSliceExecFns;
use vstd::utf8::encode_utf8;
use crate::text::{decimal, decimal_string, lossy_string, parse_i64, parsed_i64, same_text, utf8_lossy};

verus! {

broadcast use vstd::std_specs::hash::group_hash_axioms;

/// The size of a WebAssembly memory page.
pub const PAGE_SIZE: usize = 65536;

/// The largest memory (in bytes) whose pages can all be numbered by an `i32` below
/// `i32::MAX`.
pub open spec fn max_memory_len() -> int {
    0x7fff_ffffint * 65536
}

/// The 64-bit FNV-1a hash of a byte sequence.
pub open spec fn fnv1a(data: Seq<u8>) -> u64
    decreases data.len(),
{
    if data.len() == 0 {
        14695981039346656037u64
    } else {
        (fnv1a(data.drop_last()) ^ (data.last() as u64)).wrapping_mul(1099511628211u64)
    }
}

/// How many pages a memory of `len` bytes spans (the last one may be partial).
pub open spec fn page_count(len: int) -> int {
    (len + 65535) / 65536
}

/// The bytes of page `i` of `mem` (the last page may be shorter than a full page).
pub open spec fn page_of(mem: Seq<u8>, i: int) -> Seq<u8> {
    let start = i * 65536;
    let end = if (i + 1) * 65536 <= mem.len() {
        (i + 1) * 65536
    } else {
        mem.len() as int
    };
    mem.subrange(start, end)
}

/// Whether a page whose hash is now `h` counts as changed against `prev`.
pub open spec fn page_changed(prev: Map<i32, u64>, k: i32, h: u64) -> bool {
    !prev.contains_key(k) || prev[k] != h
}

/// `h` holds exactly the hash of every page of `mem`, keyed by page number.
pub open spec fn hashes_of(h: Map<i32, u64>, mem: Seq<u8>) -> bool {
    &&& forall|k: i32| #[trigger] h.contains_key(k) <==> 0 <= k < page_count(mem.len() as int)
    &&& forall|k: i32| #[trigger] h.contains_key(k) ==> h[k] == fnv1a(page_of(mem, k as int))
}

/// `d` holds exactly the pages of `mem` whose hash differs from, or is missing in,
/// `prev`, keyed by page number.
pub open spec fn deltas_of(d: Map<i32, Vec<u8>>, mem: Seq<u8>, prev: Map<i32, u64>) -> bool {
    &&& forall|k: i32| #[trigger]
        d.contains_key(k) <==> 0 <= k < page_count(mem.len() as int) && page_changed(
            prev,
            k,
            fnv1a(page_of(mem, k as int)),
        )
    &&& forall|k: i32| #[trigger] d.contains_key(k) ==> d[k]@ == page_of(mem, k as int)
}

/// The FNV-1a hash of a memory page.
pub fn hash_page(data: &[u8]) -> (h: u64)
    ensures
        h == fnv1a(data@),
{
    let mut hash: u64 = 14695981039346656037;
    let mut i: usize = 0;
    while i < data.len()
        invariant
            i <= data.len(),
            hash == fnv1a(data@.subrange(0, i as int)),
        decreases data.len() - i,
    {
        proof {
            let s = data@.subrange(0, i + 1);
            assert(s.drop_last() =~= data@.subrange(0, i as int));
        }
        hash = hash ^ (data[i] as u64);
        hash = hash.wrapping_mul(1099511628211);
        i = i + 1;
    }
    assert(data@.subrange(0, data.len() as int) =~= data@);
    hash
}

/// The bytes `data[start..end]` as a vector.
fn copy_range(data: &[u8], start: usize, end: usize) -> (v: Vec<u8>)
    requires
        start <= end <= data.len(),
    ensures
        v@ == data@.subrange(start as int, end as int),
{
    let mut v: Vec<u8> = Vec::new();
    let mut j: usize = start;
    while j < end
        invariant
            start <= j <= end <= data.len(),
            v@ == data@.subrange(start as int, j as int),
        decreases end - j,
    {
        v.push(data[j]);
        j = j + 1;
    }
    v
}

/// The number of pages a memory of `len` bytes spans.
pub fn num_pages(len: usize) -> (n: usize)
    ensures
        n == page_count(len as int),
{
    let n = len / PAGE_SIZE + if len % PAGE_SIZE != 0 { 1 } else { 0 };
    n
}

/// Hashes every page of `current` and collects the pages whose hash differs from
/// (or is missing in) `previous_hashes`: returns the changed pages and the new
/// hashes, both keyed by page number.
pub fn calculate_deltas(current: &[u8], previous_hashes: &HashMap<i32, u64>) -> (r: (
    HashMap<i32, Vec<u8>>,
    HashMap<i32, u64>,
))
    requires
        current@.len() <= max_memory_len(),
    ensures
        deltas_of(r.0@, current@, previous_hashes@),
        hashes_of(r.1@, current@),
{
    let mut deltas: HashMap<i32, Vec<u8>> = HashMap::new();
    let mut new_hashes: HashMap<i32, u64> = HashMap::new();
    let len = current.len();
    let n = num_pages(len);
    let mut i: usize = 0;
    while i < n
        invariant
            len == current@.len(),
            len <= max_memory_len(),
            n == page_count(len as int),
            i <= n,
            forall|k: i32| #[trigger] new_hashes@.contains_key(k) <==> 0 <= k < i,
            forall|k: i32| #[trigger]
                new_hashes@.contains_key(k) ==> new_hashes@[k] == fnv1a(page_of(current@, k as int)),
            forall|k: i32| #[trigger]
                deltas@.contains_key(k) <==> 0 <= k < i && page_changed(
                    previous_hashes@,
                    k,
                    fnv1a(page_of(current@, k as int)),
                ),
            forall|k: i32| #[trigger] deltas@.contains_key(k) ==> deltas@[k]@ == page_of(current@, k as int),
        decreases n - i,
    {
        assert(i * 65536 < len) by (nonlinear_arith)
            requires
                i < n,
                n == (len + 65535) / 65536,
        ;
        let start = i * PAGE_SIZE;
        let end = if len - start > PAGE_SIZE {
            start + PAGE_SIZE
        } else {
            len
        };
        let page = copy_range(current, start, end);
        assert(page@ == page_of(current@, i as int));
        let h = hash_page(page.as_slice());
        assert(i < 0x7fff_ffff) by (nonlinear_arith)
            requires
                i * 65536 < len,
                len <= 0x7fff_ffff * 65536,
        ;
        let key = i as i32;
        new_hashes.insert(key, h);
        let changed = match previous_hashes.get(&key) {
            None => true,
            Some(p) => *p != h,
        };
        if changed {
            deltas.insert(key, page);
        }
        i = i + 1;
    }
    (deltas, new_hashes)
}


/// The page numbers of a delta map, each once.
fn delta_keys(deltas: &HashMap<i32, Vec<u8>>) -> (v: Vec<i32>)
    ensures
        forall|k: i32| deltas@.contains_key(k) <==> v@.contains(k),
{
    let ghost ks = vstd::std_specs::hash::spec_keys_iter(deltas).remaining().unref();
    let mut v: Vec<i32> = Vec::new();
    for k in it: deltas.keys()
        invariant
            it.seq().unref() == ks,
            v@ == ks.take(it.index()),
    {
        v.push(*k);
        assert(ks.take(it.index()).push(*k) =~= ks.take(it.index() + 1));
    }
    assert(v@ == ks);
    proof {
        assert(ks.to_set() == deltas@.dom());
        assert forall|k: i32| deltas@.contains_key(k) <==> v@.contains(k) by {
            if deltas@.contains_key(k) {
                assert(ks.to_set().contains(k));
            }
            if v@.contains(k) {
                assert(ks.to_set().contains(k));
            }
        }
    }
    v
}


/// Whether the delta of page `k` covers byte `j` of the restored memory.
pub open spec fn covers(d: Map<i32, Vec<u8>>, k: i32, j: int) -> bool {
    d.contains_key(k) && k * 65536 <= j < k * 65536 + d[k]@.len()
}

/// The byte that a restored memory holds at `j` where no delta covers it.
pub open spec fn base_byte(base: Seq<u8>, j: int) -> u8 {
    if j < base.len() {
        base[j]
    } else {
        0u8
    }
}

/// The length of a memory rebuilt from `base` and deltas `d`: the base, grown to
/// the end of the highest delta page.
pub open spec fn restored_len_is(n: int, base_len: int, d: Map<i32, Vec<u8>>) -> bool {
    &&& n >= base_len
    &&& forall|k: i32| #[trigger] d.contains_key(k) ==> n >= (k + 1) * 65536
    &&& (n == base_len || exists|k: i32| #[trigger] d.contains_key(k) && n == (k + 1) * 65536)
}

/// What `restore_memory` needs of its deltas: page numbers from 0 below `i32::MAX`,
/// page ends that fit in `usize`, and data that ends inside the rebuilt memory.
pub open spec fn deltas_restorable(base_len: int, d: Map<i32, Vec<u8>>) -> bool {
    &&& forall|k: i32| #[trigger] d.contains_key(k) ==> 0 <= k < i32::MAX && (k + 1) * 65536 <= usize::MAX
    &&& forall|k: i32| #[trigger]
        d.contains_key(k) ==> k * 65536 + d[k]@.len() <= base_len || exists|m: i32|
            #[trigger] d.contains_key(m) && k * 65536 + d[k]@.len() <= (m + 1) * 65536
}

/// The restored memory `r` agrees with `base` and the deltas `d` at byte `j`:
/// a covered byte comes from a delta that covers it, any other byte from `base`
/// (zero past its end).
pub open spec fn restored_byte_ok(r: Seq<u8>, base: Seq<u8>, d: Map<i32, Vec<u8>>, j: int) -> bool {
    if exists|k: i32| covers(d, k, j) {
        exists|k: i32| covers(d, k, j) && r[j] == d[k]@[j - k * 65536]
    } else {
        r[j] == base_byte(base, j)
    }
}

/// `r` is the memory rebuilt from `base` and the deltas `d`.
pub open spec fn restored_from(r: Seq<u8>, base: Seq<u8>, d: Map<i32, Vec<u8>>) -> bool {
    &&& restored_len_is(r.len() as int, base.len() as int, d)
    &&& forall|j: int| 0 <= j < r.len() ==> #[trigger] restored_byte_ok(r, base, d, j)
}

spec fn covered_by_prefix(keys: Seq<i32>, q: int, d: Map<i32, Vec<u8>>, j: int) -> bool {
    exists|t: int| 0 <= t < q && #[trigger] covers(d, keys[t], j)
}

spec fn prefix_byte_ok(
    r: Seq<u8>,
    base: Seq<u8>,
    keys: Seq<i32>,
    q: int,
    d: Map<i32, Vec<u8>>,
    j: int,
) -> bool {
    if covered_by_prefix(keys, q, d, j) {
        exists|t: int|
            0 <= t < q && #[trigger] covers(d, keys[t], j) && r[j] == d[keys[t]]@[j - keys[t] * 65536]
    } else {
        r[j] == base_byte(base, j)
    }
}

/// Whether `restore_memory` can rebuild a memory from a base of `base_len` bytes
/// and `deltas` (see `deltas_restorable`).
pub fn deltas_fit(base_len: usize, deltas: &HashMap<i32, Vec<u8>>) -> (r: bool)
    ensures
        r == deltas_restorable(base_len as int, deltas@),
{
    let keys = delta_keys(deltas);
    let mut max_end: u64 = 0;
    let mut q: usize = 0;
    while q < keys.len()
        invariant
            q <= keys.len(),
            forall|k: i32| deltas@.contains_key(k) <==> keys@.contains(k),
            forall|t: int|
                0 <= t < q ==> 0 <= #[trigger] keys@[t] < i32::MAX && (keys@[t] + 1) * 65536
                    <= usize::MAX && (keys@[t] + 1) * 65536 <= max_end,
            max_end == 0 || exists|t: int| 0 <= t < q && (keys@[t] + 1) * 65536 == max_end,
        decreases keys.len() - q,
    {
        let k = keys[q];
        assert(keys@.contains(k));
        if k < 0 || k == i32::MAX {
            return false;
        }
        let end: u64 = (k as u64 + 1) * 65536;
        if end > usize::MAX as u64 {
            return false;
        }
        if end > max_end {
            max_end = end;
        }
        q = q + 1;
    }
    let mut q: usize = 0;
    while q < keys.len()
        invariant
            q <= keys.len(),
            forall|k: i32| deltas@.contains_key(k) <==> keys@.contains(k),
            forall|t: int|
                0 <= t < keys@.len() ==> 0 <= #[trigger] keys@[t] < i32::MAX && (keys@[t] + 1)
                    * 65536 <= usize::MAX && (keys@[t] + 1) * 65536 <= max_end,
            max_end == 0 || exists|t: int| 0 <= t < keys@.len() && (keys@[t] + 1) * 65536 == max_end,
            forall|t: int|
                0 <= t < q ==> #[trigger] keys@[t] * 65536 + deltas@[keys@[t]]@.len() <= base_len
                    || keys@[t] * 65536 + deltas@[keys@[t]]@.len() <= max_end,
        decreases keys.len() - q,
    {
        let k = keys[q];
        assert(keys@.contains(k));
        let len = match deltas.get(&k) {
            Some(d) => d.len(),
            None => 0,
        };
        let start: u64 = (k as u64) * 65536;
        let end: u128 = start as u128 + len as u128;
        if end > base_len as u128 && end > max_end as u128 {
            proof {
                assert(deltas@.contains_key(k));
                assert forall|m: i32| #[trigger] deltas@.contains_key(m) implies !(k * 65536
                    + deltas@[k]@.len() <= (m + 1) * 65536) by {
                    assert(keys@.contains(m));
                    let t = choose|t: int| 0 <= t < keys@.len() && keys@[t] == m;
                }
            }
            return false;
        }
        q = q + 1;
    }
    proof {
        assert forall|k: i32| #[trigger] deltas@.contains_key(k) implies 0 <= k < i32::MAX && (k
            + 1) * 65536 <= usize::MAX by {
            assert(keys@.contains(k));
            let t = choose|t: int| 0 <= t < keys@.len() && keys@[t] == k;
        }
        assert forall|k: i32| #[trigger] deltas@.contains_key(k) implies k * 65536
            + deltas@[k]@.len() <= base_len || exists|m: i32|
            #[trigger] deltas@.contains_key(m) && k * 65536 + deltas@[k]@.len() <= (m + 1)
                * 65536 by {
            assert(keys@.contains(k));
            let t = choose|t: int| 0 <= t < keys@.len() && keys@[t] == k;
            if k * 65536 + deltas@[k]@.len() > base_len {
                let w = choose|w: int| 0 <= w < keys@.len() && (keys@[w] + 1) * 65536 == max_end;
                assert(keys@.contains(keys@[w]));
                assert(deltas@.contains_key(keys@[w]));
            }
        }
    }
    true
}

/// Rebuilds a memory image from `base` and the changed pages in `deltas`: the
/// result is `base` (zero-extended to the end of the highest delta page) with
/// each delta written at its page's offset.
pub fn restore_memory(base: &[u8], deltas: &HashMap<i32, Vec<u8>>) -> (r: Vec<u8>)
    requires
        deltas_restorable(base@.len() as int, deltas@),
    ensures
        restored_from(r@, base@, deltas@),
{
    let keys = delta_keys(deltas);
    let mut max_page: i32 = -1;
    let mut q: usize = 0;
    while q < keys.len()
        invariant
            q <= keys.len(),
            forall|k: i32| deltas@.contains_key(k) <==> keys@.contains(k),
            deltas_restorable(base@.len() as int, deltas@),
            -1 <= max_page,
            forall|t: int| 0 <= t < q ==> keys@[t] <= max_page,
            max_page == -1 || exists|t: int| 0 <= t < q && keys@[t] == max_page,
        decreases keys.len() - q,
    {
        assert(keys@.contains(keys@[q as int]));
        assert(deltas@.contains_key(keys@[q as int]));
        if keys[q] > max_page {
            max_page = keys[q];
        }
        q = q + 1;
    }
    proof {
        if max_page != -1 {
            let t = choose|t: int| 0 <= t < q && keys@[t] == max_page;
            assert(keys@.contains(keys@[t]));
            assert(deltas@.contains_key(keys@[t]));
        }
    }
    assert((max_page + 1) * 65536 <= usize::MAX);
    let pages_needed: usize = (max_page + 1) as usize;
    let needed_size: usize = pages_needed * PAGE_SIZE;
    let base_size = base.len();
    let final_size = if needed_size > base_size {
        needed_size
    } else {
        base_size
    };
    proof {
        assert forall|k: i32| #[trigger] deltas@.contains_key(k) implies final_size >= (k + 1)
            * 65536 by {
            assert(keys@.contains(k));
        }
        if final_size != base_size {
            let t = choose|t: int| 0 <= t < q && keys@[t] == max_page;
            assert(keys@.contains(keys@[t]));
            assert(deltas@.contains_key(keys@[t]));
        }
    }
    let mut restored: Vec<u8> = Vec::new();
    let mut j: usize = 0;
    while j < final_size
        invariant
            j <= final_size,
            base_size == base@.len(),
            restored@.len() == j,
            forall|i: int| 0 <= i < j ==> restored@[i] == base_byte(base@, i),
        decreases final_size - j,
    {
        if j < base_size {
            restored.push(base[j]);
        } else {
            restored.push(0u8);
        }
        j = j + 1;
    }
    let mut q: usize = 0;
    while q < keys.len()
        invariant
            q <= keys.len(),
            restored@.len() == final_size,
            restored_len_is(final_size as int, base@.len() as int, deltas@),
            deltas_restorable(base@.len() as int, deltas@),
            forall|k: i32| deltas@.contains_key(k) <==> keys@.contains(k),
            forall|i: int|
                0 <= i < final_size ==> #[trigger] prefix_byte_ok(
                    restored@,
                    base@,
                    keys@,
                    q as int,
                    deltas@,
                    i,
                ),
        decreases keys.len() - q,
    {
        let p = keys[q];
        assert(keys@.contains(p));
        assert(deltas@.contains_key(p));
        let data = deltas.get(&p).unwrap();
        proof {
            if !(p * 65536 + data@.len() <= base@.len()) {
                let m = choose|m: i32|
                    #[trigger] deltas@.contains_key(m) && p * 65536 + deltas@[p]@.len() <= (m + 1)
                        * 65536;
                assert(final_size >= (m + 1) * 65536);
            }
        }
        let offset: usize = (p as usize) * PAGE_SIZE;
        let ghost before = restored@;
        let mut w: usize = 0;
        while w < data.len()
            invariant
                w <= data.len(),
                offset + data.len() <= final_size,
                restored@.len() == final_size,
                offset == p * 65536,
                forall|i: int|
                    0 <= i < final_size ==> #[trigger] restored@[i] == if offset <= i < offset + w {
                        data@[i - offset]
                    } else {
                        before[i]
                    },
            decreases data.len() - w,
        {
            restored.set(offset + w, data[w]);
            w = w + 1;
        }
        proof {
            assert forall|i: int| 0 <= i < final_size implies #[trigger] prefix_byte_ok(
                restored@,
                base@,
                keys@,
                q + 1,
                deltas@,
                i,
            ) by {
                assert(prefix_byte_ok(before, base@, keys@, q as int, deltas@, i));
                if covers(deltas@, keys@[q as int], i) {
                    assert(restored@[i] == data@[i - offset]);
                    assert(covered_by_prefix(keys@, q + 1, deltas@, i));
                } else {
                    assert(restored@[i] == before[i]);
                    if covered_by_prefix(keys@, q + 1, deltas@, i) {
                        let t = choose|t: int|
                            0 <= t < q + 1 && #[trigger] covers(deltas@, keys@[t], i);
                        assert(covered_by_prefix(keys@, q as int, deltas@, i));
                    } else {
                        if covered_by_prefix(keys@, q as int, deltas@, i) {
                            let t = choose|t: int|
                                0 <= t < q && #[trigger] covers(deltas@, keys@[t], i);
                            assert(covers(deltas@, keys@[t], i));
                        }
                    }
                }
            }
        }
        q = q + 1;
    }
    proof {
        assert forall|i: int| 0 <= i < restored@.len() implies #[trigger] restored_byte_ok(
            restored@,
            base@,
            deltas@,
            i,
        ) by {
            assert(prefix_byte_ok(restored@, base@, keys@, keys@.len() as int, deltas@, i));
            if exists|k: i32| covers(deltas@, k, i) {
                let k = choose|k: i32| covers(deltas@, k, i);
                assert(keys@.contains(k));
                let t = choose|t: int| 0 <= t < keys@.len() && keys@[t] == k;
                assert(covers(deltas@, keys@[t], i));
                let t2 = choose|t2: int|
                    0 <= t2 < keys@.len() && #[trigger] covers(deltas@, keys@[t2], i) && restored@[i]
                        == deltas@[keys@[t2]]@[i - keys@[t2] * 65536];
                assert(covers(deltas@, keys@[t2], i));
            } else {
                if covered_by_prefix(keys@, keys@.len() as int, deltas@, i) {
                    let t = choose|t: int|
                        0 <= t < keys@.len() && #[trigger] covers(deltas@, keys@[t], i);
                    assert(covers(deltas@, keys@[t], i));
                }
            }
        }
    }
    restored
}


/// Whether the pages of `base` and `current` that share a number and a hash also
/// share their bytes (no FNV-1a collision between them).
pub open spec fn no_hash_collision(base: Seq<u8>, current: Seq<u8>) -> bool {
    forall|i: int|
        0 <= i < page_count(base.len() as int) && 0 <= i < page_count(current.len() as int)
            && #[trigger] fnv1a(page_of(base, i)) == fnv1a(page_of(current, i)) ==> page_of(base, i)
            == page_of(current, i)
}

proof fn lemma_page_of_index(mem: Seq<u8>, j: int)
    requires
        0 <= j < mem.len(),
        mem.len() % 65536 == 0,
    ensures
        ({
            let i = j / 65536;
            &&& 0 <= i < page_count(mem.len() as int)
            &&& i * 65536 <= j < (i + 1) * 65536
            &&& (i + 1) * 65536 <= mem.len()
            &&& page_of(mem, i).len() == 65536
            &&& page_of(mem, i)[j - i * 65536] == mem[j]
        }),
{
    let i = j / 65536;
    assert(i * 65536 <= j < (i + 1) * 65536) by (nonlinear_arith)
        requires
            i == j / 65536,
            0 <= j,
    ;
    assert((i + 1) * 65536 <= mem.len()) by (nonlinear_arith)
        requires
            i * 65536 <= j < mem.len(),
            mem.len() % 65536 == 0,
    ;
    assert(i < page_count(mem.len() as int)) by (nonlinear_arith)
        requires
            (i + 1) * 65536 <= mem.len(),
    ;
}

/// The deltas of any memory within `max_memory_len` (and whose last page ends
/// within `usize`), taken against any hashes, can be handed to `restore_memory`
/// together with any base image.
pub proof fn lemma_deltas_restorable(
    base: Seq<u8>,
    current: Seq<u8>,
    prev: Map<i32, u64>,
    d: Map<i32, Vec<u8>>,
)
    requires
        current.len() <= max_memory_len(),
        current.len() + 65535 <= usize::MAX,
        deltas_of(d, current, prev),
    ensures
        deltas_restorable(base.len() as int, d),
{
    assert forall|k: i32| #[trigger] d.contains_key(k) implies 0 <= k < i32::MAX && (k + 1) * 65536
        <= usize::MAX by {
        assert(k < 0x7fff_ffff) by (nonlinear_arith)
            requires
                k < (current.len() + 65535) / 65536,
                current.len() <= 0x7fff_ffff * 65536,
        ;
        assert((k + 1) * 65536 <= current.len() + 65535) by (nonlinear_arith)
            requires
                0 <= k < (current.len() + 65535) / 65536,
        ;
    }
    assert forall|k: i32| #[trigger] d.contains_key(k) implies k * 65536 + d[k]@.len() <= base.len()
        || exists|m: i32| #[trigger] d.contains_key(m) && k * 65536 + d[k]@.len() <= (m + 1) * 65536 by {
        assert(d.contains_key(k) && k * 65536 + d[k]@.len() <= (k + 1) * 65536);
    }
}

/// Taking deltas again against the hashes just computed for the same memory
/// gives no deltas and the same hashes.
pub proof fn lemma_deltas_against_own_hashes(
    mem: Seq<u8>,
    h: Map<i32, u64>,
    d: Map<i32, Vec<u8>>,
    h2: Map<i32, u64>,
)
    requires
        hashes_of(h, mem),
        deltas_of(d, mem, h),
        hashes_of(h2, mem),
    ensures
        d == Map::<i32, Vec<u8>>::empty(),
        h2 == h,
{
    assert forall|k: i32| !#[trigger] d.contains_key(k) by {
        if 0 <= k < page_count(mem.len() as int) {
            assert(h.contains_key(k));
        }
    }
    assert(d =~= Map::<i32, Vec<u8>>::empty());
    assert forall|k: i32| #[trigger] h2.contains_key(k) == h.contains_key(k) by {}
    assert(h2 =~= h);
}

/// Snapshot round trip: restoring a base image together with the deltas of a
/// later memory, taken against the base's page hashes, gives back that later
/// memory. The later memory is whole pages and no shorter than the base (a
/// WebAssembly memory only grows), and no page of the base shares its hash with
/// the same page of the later memory unless their bytes are equal.
pub proof fn lemma_snapshot_roundtrip(
    base: Seq<u8>,
    current: Seq<u8>,
    base_hashes: Map<i32, u64>,
    deltas: Map<i32, Vec<u8>>,
    restored: Seq<u8>,
)
    requires
        current.len() % 65536 == 0,
        base.len() <= current.len() <= max_memory_len(),
        no_hash_collision(base, current),
        hashes_of(base_hashes, base),
        deltas_of(deltas, current, base_hashes),
        restored_from(restored, base, deltas),
    ensures
        restored == current,
{
    let n = restored.len() as int;
    // every delta page ends inside `current`
    assert forall|k: i32| #[trigger] deltas.contains_key(k) implies (k + 1) * 65536 <= current.len() by {
        assert((k + 1) * 65536 <= current.len()) by (nonlinear_arith)
            requires
                0 <= k < (current.len() + 65535) / 65536,
                current.len() % 65536 == 0,
        ;
    }
    if n != base.len() {
        let k = choose|k: i32| #[trigger] deltas.contains_key(k) && n == (k + 1) * 65536;
    }
    assert(n <= current.len());
    if current.len() > base.len() {
        let j = current.len() - 1;
        lemma_page_of_index(current, j);
        let i = j / 65536;
        assert((i + 1) * 65536 == current.len()) by (nonlinear_arith)
            requires
                i == j / 65536,
                j == current.len() - 1,
                current.len() % 65536 == 0,
                current.len() > 0,
        ;
        assert(i < 0x7fff_ffff);
        let ki = i as i32;
        if !deltas.contains_key(ki) {
            // the page is unchanged, so the base holds all of it: it is not
            // shorter than `current`
            assert(base_hashes.contains_key(ki));
            assert(page_of(base, i) == page_of(current, i));
            assert(page_of(current, i).len() == 65536);
            assert(false);
        }
        assert(n >= current.len());
    }
    assert(n == current.len());
    assert forall|j: int| 0 <= j < n implies restored[j] == current[j] by {
        lemma_page_of_index(current, j);
        let i = j / 65536;
        assert(i < 0x7fff_ffff) by (nonlinear_arith)
            requires
                i < (current.len() + 65535) / 65536,
                current.len() <= 0x7fff_ffff * 65536,
        ;
        let ki = i as i32;
        assert(restored_byte_ok(restored, base, deltas, j));
        // any delta covering byte `j` is the one of page `i`
        assert forall|k: i32| covers(deltas, k, j) implies k == ki by {
            assert(deltas[k]@.len() <= 65536);
            assert(k == ki) by (nonlinear_arith)
                requires
                    k * 65536 <= j < k * 65536 + 65536,
                    i * 65536 <= j < (i + 1) * 65536,
                    ki == i,
            ;
        }
        if deltas.contains_key(ki) {
            assert(covers(deltas, ki, j));
        } else {
            assert(base_hashes.contains_key(ki));
            assert(i < page_count(base.len() as int));
            assert(fnv1a(page_of(base, i)) == fnv1a(page_of(current, i)));
            assert(page_of(base, i) == page_of(current, i));
            assert(page_of(base, i).len() == 65536);
            assert(j < base.len());
            assert(page_of(base, i)[j - i * 65536] == base[j]);
        }
    }
    assert(restored =~= current);
}


/// A host call recorded for replay: its position in the run, the API called, and
/// the request and response bytes.
pub struct OplogEntry {
    pub call_index: i32,
    pub api_name: String,
    pub request_payload: Vec<u8>,
    pub response_payload: Vec<u8>,
}

/// A full memory snapshot taken at a checkpoint, with the number of host calls
/// recorded by then.
pub struct CheckpointData {
    pub memory: Vec<u8>,
    pub oplog_len: i32,
}

/// Resource limits for a run; zero means "use the default".
pub struct SandboxConfig {
    pub max_fuel: u64,
    pub max_memory_mb: u64,
}

/// What a run of a guest gives back: the call log, the pages changed against the
/// base snapshot, the checkpoints taken, whether (and why) the guest crashed, and
/// the bytes it returned.
pub struct RunResult {
    pub final_oplog: Vec<OplogEntry>,
    pub final_deltas: HashMap<i32, Vec<u8>>,
    pub checkpoints: Vec<CheckpointData>,
    pub crashed: bool,
    pub error: String,
    pub response_bytes: Vec<u8>,
}

/// The host's state during a run: the number of host calls made, the call log
/// (replayed, then extended), the page hashes at the last checkpoint, and the
/// checkpoints taken.
pub struct VMState {
    pub instance_id: String,
    pub call_index: i32,
    pub oplog: Vec<OplogEntry>,
    pub page_hashes: HashMap<i32, u64>,
    pub checkpoints: Vec<CheckpointData>,
}

/// The fuel and memory (in MiB) a run may use: the configured values, each
/// defaulting to 10 000 000 units of fuel and 32 MiB when zero or not configured.
pub fn sandbox_limits(config: Option<&SandboxConfig>) -> (r: (u64, u64))
    ensures
        r.0 == match config {
            Some(c) => if c.max_fuel == 0 {
                10_000_000
            } else {
                c.max_fuel
            },
            None => 10_000_000,
        },
        r.1 == match config {
            Some(c) => if c.max_memory_mb == 0 {
                32
            } else {
                c.max_memory_mb
            },
            None => 32,
        },
{
    match config {
        Some(c) => (
            if c.max_fuel == 0 {
                10_000_000
            } else {
                c.max_fuel
            },
            if c.max_memory_mb == 0 {
                32
            } else {
                c.max_memory_mb
            },
        ),
        None => (10_000_000, 32),
    }
}

/// The byte range `[ptr, ptr + len)` of guest memory named by a pointer and a
/// length from the guest, if both are non-negative and the range lies inside a
/// memory of `mem_len` bytes.
pub fn guest_range(ptr: i32, len: i32, mem_len: usize) -> (r: Option<(usize, usize)>)
    ensures
        (ptr < 0 || len < 0 || ptr + len > mem_len) ==> r is None,
        !(ptr < 0 || len < 0 || ptr + len > mem_len) ==> r == Some(
            (ptr as usize, (ptr + len) as usize),
        ),
{
    if ptr < 0 || len < 0 {
        return None;
    }
    let p = ptr as usize;
    let l = len as usize;
    if l > mem_len || p > mem_len - l {
        return None;
    }
    Some((p, p + l))
}

/// Whether the call log holds, at position `k`, a call of `name`.
pub open spec fn replays(oplog: Seq<OplogEntry>, k: int, name: Seq<char>) -> bool {
    0 <= k < oplog.len() && oplog[k].api_name@ == name
}

/// The response a host API gives when called live as call number `idx`: only
/// `test_api` is known, answering `resp_for_<request>_call_<idx>`.
pub open spec fn live_response(name: Seq<char>, request: Seq<u8>, idx: int) -> Option<Seq<u8>> {
    if name == "test_api"@ {
        Some(encode_utf8("resp_for_"@ + utf8_lossy(request) + "_call_"@ + decimal(idx)))
    } else {
        None
    }
}

/// What the host answers a guest's API call.
#[derive(Debug)]
pub enum HostReply {
    /// Write these bytes to the guest's response buffer and return their length.
    Respond(Vec<u8>),
    /// Return this status: -2 when the response does not fit the buffer, -3 when
    /// the API is unknown.
    Status(i32),
}

/// `new` starts with all of `old`: a call log only ever grows at its end.
pub open spec fn log_extends(old: Seq<OplogEntry>, new: Seq<OplogEntry>) -> bool {
    &&& old.len() <= new.len()
    &&& forall|i: int| 0 <= i < old.len() ==> #[trigger] new[i] == old[i]
}

/// `new` is `old` with `e` appended.
pub open spec fn appended(old: Seq<OplogEntry>, new: Seq<OplogEntry>, e: (int, Seq<char>, Seq<u8>, Seq<u8>)) -> bool {
    &&& new.len() == old.len() + 1
    &&& forall|i: int| 0 <= i < old.len() ==> new[i] == old[i]
    &&& new[old.len() as int].call_index == e.0
    &&& new[old.len() as int].api_name@ == e.1
    &&& new[old.len() as int].request_payload@ == e.2
    &&& new[old.len() as int].response_payload@ == e.3
}

/// An API call of the guest, as call number `ci + 1` with call log `oplog`: a
/// logged call of the same API at position `ci` is replayed; otherwise the API is
/// answered live and the call logged. A response longer than `max` is refused.
pub open spec fn api_call(
    oplog: Seq<OplogEntry>,
    ci: int,
    name: Seq<char>,
    request: Seq<u8>,
    max: i32,
    r: HostReply,
    new_oplog: Seq<OplogEntry>,
) -> bool {
    if replays(oplog, ci, name) {
        let p = oplog[ci].response_payload@;
        &&& new_oplog == oplog
        &&& if p.len() > max as usize {
            r == HostReply::Status(-2i32)
        } else {
            r matches HostReply::Respond(b) && b@ == p
        }
    } else {
        match live_response(name, request, ci + 1) {
            None => r == HostReply::Status(-3i32) && new_oplog == oplog,
            Some(resp) => if resp.len() > max as usize {
                r == HostReply::Status(-2i32) && new_oplog == oplog
            } else {
                &&& r matches HostReply::Respond(b) && b@ == resp
                &&& appended(oplog, new_oplog, (ci + 1, name, request, resp))
            },
        }
    }
}

/// The clock read of the guest, as call number `ci + 1` with call log `oplog`: a
/// logged clock read at position `ci` is replayed (its response decoded as UTF-8,
/// invalid sequences replaced, and read back as a number, 0 if it is none);
/// otherwise `now` is returned and logged as its decimal text.
pub open spec fn time_call(oplog: Seq<OplogEntry>, ci: int, now: i64, r: i64, new_oplog: Seq<OplogEntry>) -> bool {
    if replays(oplog, ci, "host_get_time"@) {
        let p = oplog[ci].response_payload@;
        let text = if vstd::utf8::valid_utf8(p) {
            vstd::utf8::decode_utf8(p)
        } else {
            utf8_lossy(p)
        };
        &&& new_oplog == oplog
        &&& r == match parsed_i64(text) {
            Some(t) => t,
            None => 0,
        }
    } else {
        &&& r == now
        &&& appended(
            oplog,
            new_oplog,
            (ci + 1, "host_get_time"@, Seq::empty(), encode_utf8(decimal(now as int))),
        )
    }
}

impl VMState {
    /// What a host call can rely on: a call counter that can still be counted up
    /// and a call log whose length is an `i32`.
    pub open spec fn can_call(&self) -> bool {
        0 <= self.call_index < i32::MAX && self.oplog@.len() <= i32::MAX
    }

    /// Position of the logged call of `name` at the current call counter, if any.
    fn replay_position(&self, name: &str) -> (r: bool)
        requires
            self.can_call(),
        ensures
            r == replays(self.oplog@, self.call_index as int, name@),
    {
        let k = self.call_index as usize;
        k < self.oplog.len() && same_text(self.oplog[k].api_name.as_str(), name)
    }

    /// Answers the guest's clock read (`host_get_time`), replaying a logged read.
    pub fn host_get_time(&mut self, now: i64) -> (r: i64)
        requires
            old(self).can_call(),
        ensures
            final(self).call_index == old(self).call_index + 1,
            log_extends(old(self).oplog@, final(self).oplog@),
            time_call(old(self).oplog@, old(self).call_index as int, now, r, final(self).oplog@),
            final(self).instance_id == old(self).instance_id,
            final(self).page_hashes@ == old(self).page_hashes@,
            final(self).checkpoints@ == old(self).checkpoints@,
    {
        let replay = self.replay_position("host_get_time");
        let k = self.call_index as usize;
        self.call_index = self.call_index + 1;
        if replay {
            let text = lossy_string(self.oplog[k].response_payload.as_slice());
            return match parse_i64(text.as_str()) {
                Some(t) => t,
                None => 0,
            };
        }
        let response = decimal_string(now).as_str().as_bytes_vec();
        let entry = OplogEntry {
            call_index: self.call_index,
            api_name: String::from_str("host_get_time"),
            request_payload: Vec::new(),
            response_payload: response,
        };
        self.oplog.push(entry);
        now
    }

    /// Answers the guest's API call `api_name` with `request`, for a response
    /// buffer of `resp_max_len` bytes, replaying a logged call of the same API.
    pub fn host_call_api(&mut self, api_name: String, request: Vec<u8>, resp_max_len: i32) -> (r:
        HostReply)
        requires
            old(self).can_call(),
        ensures
            final(self).call_index == old(self).call_index + 1,
            log_extends(old(self).oplog@, final(self).oplog@),
            api_call(
                old(self).oplog@,
                old(self).call_index as int,
                api_name@,
                request@,
                resp_max_len,
                r,
                final(self).oplog@,
            ),
            final(self).instance_id == old(self).instance_id,
            final(self).page_hashes@ == old(self).page_hashes@,
            final(self).checkpoints@ == old(self).checkpoints@,
    {
        let replay = self.replay_position(api_name.as_str());
        let k = self.call_index as usize;
        self.call_index = self.call_index + 1;
        if replay {
            let payload = copy_bytes(self.oplog[k].response_payload.as_slice());
            if payload.len() > resp_max_len as usize {
                return HostReply::Status(-2);
            }
            return HostReply::Respond(payload);
        }
        if !same_text(api_name.as_str(), "test_api") {
            return HostReply::Status(-3);
        }
        let mut text = String::from_str("resp_for_");
        text.append(lossy_string(request.as_slice()).as_str());
        text.append("_call_");
        text.append(decimal_string(self.call_index as i64).as_str());
        let response = text.as_str().as_bytes_vec();
        if response.len() > resp_max_len as usize {
            return HostReply::Status(-2);
        }
        let reply = copy_bytes(response.as_slice());
        let entry = OplogEntry {
            call_index: self.call_index,
            api_name,
            request_payload: request,
            response_payload: response,
        };
        self.oplog.push(entry);
        HostReply::Respond(reply)
    }

    /// Takes a checkpoint of `memory`: stores the snapshot with the current length
    /// of the call log, and makes the memory's page hashes the current ones.
    pub fn checkpoint(&mut self, memory: Vec<u8>)
        requires
            old(self).oplog@.len() <= i32::MAX,
            memory@.len() <= max_memory_len(),
        ensures
            final(self).checkpoints@.len() == old(self).checkpoints@.len() + 1,
            forall|i: int|
                0 <= i < old(self).checkpoints@.len() ==> final(self).checkpoints@[i] == old(
                    self,
                ).checkpoints@[i],
            final(self).checkpoints@.last().memory@ == memory@,
            final(self).checkpoints@.last().oplog_len == old(self).oplog@.len(),
            hashes_of(final(self).page_hashes@, memory@),
            final(self).call_index == old(self).call_index,
            final(self).oplog@ == old(self).oplog@,
            final(self).instance_id == old(self).instance_id,
    {
        let (_, new_hashes) = calculate_deltas(memory.as_slice(), &self.page_hashes);
        let oplog_len = self.oplog.len() as i32;
        self.checkpoints.push(CheckpointData { memory, oplog_len });
        self.page_hashes = new_hashes;
    }
}

/// A copy of some bytes.
pub fn copy_bytes(data: &[u8]) -> (v: Vec<u8>)
    ensures
        v@ == data@,
{
    copy_range(data, 0, data.len())
}


/// Replay of an API call: a call answered live and logged at position `k` of the
/// log is, in a later run whose log holds that entry at `k`, answered from the log
/// with the same bytes, whatever the request, and the log stays as it is.
pub proof fn lemma_api_call_replayed(
    log: Seq<OplogEntry>,
    name: Seq<char>,
    request: Seq<u8>,
    max: i32,
    r1: HostReply,
    log1: Seq<OplogEntry>,
    later_log: Seq<OplogEntry>,
    request2: Seq<u8>,
    r2: HostReply,
    log2: Seq<OplogEntry>,
)
    requires
        api_call(log, log.len() as int, name, request, max, r1, log1),
        r1 is Respond,
        later_log.len() > log.len(),
        later_log[log.len() as int] == log1[log.len() as int],
        api_call(later_log, log.len() as int, name, request2, max, r2, log2),
    ensures
        r1 matches HostReply::Respond(b1) && r2 matches HostReply::Respond(b2) && b1@ == b2@,
        log2 == later_log,
{
    assert(!replays(log, log.len() as int, name));
}

/// Replay of the clock: a clock read answered live with `now` and logged at
/// position `k` is, in a later run whose log holds that entry at `k`, answered
/// with the same `now`.
pub proof fn lemma_time_replayed(
    log: Seq<OplogEntry>,
    now: i64,
    r1: i64,
    log1: Seq<OplogEntry>,
    later_log: Seq<OplogEntry>,
    now2: i64,
    r2: i64,
    log2: Seq<OplogEntry>,
)
    requires
        time_call(log, log.len() as int, now, r1, log1),
        later_log.len() > log.len(),
        later_log[log.len() as int] == log1[log.len() as int],
        time_call(later_log, log.len() as int, now2, r2, log2),
    ensures
        r1 == now,
        r2 == now,
        log2 == later_log,
{
    assert(!replays(log, log.len() as int, "host_get_time"@));
    let d = decimal(now as int);
    let p = encode_utf8(d);
    vstd::utf8::encode_utf8_valid_utf8(d);
    vstd::utf8::encode_utf8_decode_utf8(d);
    crate::text::lemma_decimal_parse_roundtrip(now);
    assert(later_log[log.len() as int].response_payload@ == p);
    assert(replays(later_log, log.len() as int, "host_get_time"@));
}

/// Over a whole run the call log only grows: if each host call leaves a log that
/// starts with the one before it (as every host call of `VMState` ensures), then
/// every log of the run starts with the log the run was handed.
pub proof fn lemma_log_grows_over_run(logs: Seq<Seq<OplogEntry>>)
    requires
        forall|i: int| 0 <= i < logs.len() - 1 ==> #[trigger] log_extends(logs[i], logs[i + 1]),
    ensures
        forall|i: int| 0 <= i < logs.len() ==> #[trigger] log_extends(logs[0], logs[i]),
    decreases logs.len(),
{
    if logs.len() > 1 {
        let front = logs.drop_last();
        assert forall|i: int| 0 <= i < front.len() - 1 implies #[trigger] log_extends(
            front[i],
            front[i + 1],
        ) by {
            assert(log_extends(logs[i], logs[i + 1]));
        }
        lemma_log_grows_over_run(front);
        assert forall|i: int| 0 <= i < logs.len() implies #[trigger] log_extends(logs[0], logs[i]) by {
            if i < logs.len() - 1 {
                assert(log_extends(front[0], front[i]));
            } else {
                let k = i - 1;
                assert(log_extends(front[0], front[k]));
                assert(log_extends(logs[k], logs[k + 1]));
                assert(logs[k + 1] == logs[i]);
            }
        }
    }
}

/// Replay within a run: while the log still starts with the log the run was
/// handed, an API call whose number falls inside that handed-in log and names
/// the API recorded there is answered with the recorded response (`-2` when it
/// does not fit the guest's buffer) and adds nothing to the log.
pub proof fn lemma_run_replays_api(
    initial: Seq<OplogEntry>,
    log: Seq<OplogEntry>,
    ci: int,
    name: Seq<char>,
    request: Seq<u8>,
    max: i32,
    r: HostReply,
    new_log: Seq<OplogEntry>,
)
    requires
        log_extends(initial, log),
        0 <= ci < initial.len(),
        initial[ci].api_name@ == name,
        api_call(log, ci, name, request, max, r, new_log),
    ensures
        new_log == log,
        log_extends(initial, new_log),
        if initial[ci].response_payload@.len() > max as usize {
            r == HostReply::Status(-2i32)
        } else {
            r matches HostReply::Respond(b) && b@ == initial[ci].response_payload@
        },
{
    assert(log[ci] == initial[ci]);
    assert(replays(log, ci, name));
}

/// Replay of the clock within a run: while the log still starts with the log the
/// run was handed, a clock read whose number falls inside that handed-in log at
/// a recorded clock read is answered with the recorded time (read as decimal
/// text, 0 when it is none) and adds nothing to the log.
pub proof fn lemma_run_replays_time(
    initial: Seq<OplogEntry>,
    log: Seq<OplogEntry>,
    ci: int,
    now: i64,
    r: i64,
    new_log: Seq<OplogEntry>,
)
    requires
        log_extends(initial, log),
        0 <= ci < initial.len(),
        initial[ci].api_name@ == "host_get_time"@,
        time_call(log, ci, now, r, new_log),
    ensures
        new_log == log,
        log_extends(initial, new_log),
        ({
            let p = initial[ci].response_payload@;
            let text = if vstd::utf8::valid_utf8(p) {
                vstd::utf8::decode_utf8(p)
            } else {
                utf8_lossy(p)
            };
            r == match parsed_i64(text) {
                Some(t) => t,
                None => 0,
            }
        }),
{
    assert(log[ci] == initial[ci]);
    assert(replays(log, ci, "host_get_time"@));
}

/// How an argument of the entry function is passed.
#[derive(Debug, PartialEq, Eq, Structural)]
pub enum ArgKind {
    I32,
    I64,
    Other,
}

/// An argument value for the entry function.
#[derive(Debug, PartialEq, Eq, Structural)]
pub enum ArgValue {
    I32(i32),
    I64(i64),
}

/// The arguments for an entry function whose parameters are of `kinds`: the
/// caller's parameters in order (zero where missing), each narrowed to an `i32`
/// for an `i32` parameter and reinterpreted as an `i64` otherwise.
pub fn entry_args(params: &[u64], kinds: &Vec<ArgKind>) -> (r: Vec<ArgValue>)
    ensures
        r@.len() == kinds@.len(),
        forall|i: int|
            0 <= i < kinds@.len() ==> {
                let p: u64 = if i < params@.len() {
                    params@[i]
                } else {
                    0
                };
                #[trigger] r@[i] == if kinds@[i] == ArgKind::I32 {
                    ArgValue::I32(p as i32)
                } else {
                    ArgValue::I64(p as i64)
                }
            },
{
    let mut r: Vec<ArgValue> = Vec::new();
    let mut i: usize = 0;
    while i < kinds.len()
        invariant
            i <= kinds@.len(),
            r@.len() == i,
            forall|j: int|
                0 <= j < i ==> {
                    let p: u64 = if j < params@.len() {
                        params@[j]
                    } else {
                        0
                    };
                    #[trigger] r@[j] == if kinds@[j] == ArgKind::I32 {
                        ArgValue::I32(p as i32)
                    } else {
                        ArgValue::I64(p as i64)
                    }
                },
        decreases kinds.len() - i,
    {
        let p: u64 = if i < params.len() {
            params[i]
        } else {
            0
        };
        let v = match kinds[i] {
            ArgKind::I32 => ArgValue::I32(p as i32),
            _ => ArgValue::I64(p as i64),
        };
        r.push(v);
        i = i + 1;
    }
    r
}

/// What the entry function's first result means.
#[derive(Debug, PartialEq, Eq, Structural)]
pub enum EntryOutcome {
    /// A negative status: the guest failed with this code.
    Failed(i32),
    /// A positive length: the guest left this many response bytes in the
    /// exchange buffer.
    Respond(usize),
    /// No response.
    Empty,
}

/// The meaning of the entry function's first result, if it is an `i32`.
pub fn entry_outcome(first_result: Option<i32>) -> (r: EntryOutcome)
    ensures
        r == match first_result {
            Some(len) => if len < 0 {
                EntryOutcome::Failed(len)
            } else if len > 0 {
                EntryOutcome::Respond(len as usize)
            } else {
                EntryOutcome::Empty
            },
            None => EntryOutcome::Empty,
        },
{
    match first_result {
        Some(len) => if len < 0 {
            EntryOutcome::Failed(len)
        } else if len > 0 {
            EntryOutcome::Respond(len as usize)
        } else {
            EntryOutcome::Empty
        },
        None => EntryOutcome::Empty,
    }
}

/// How many pages a memory of `current_pages` pages must grow by to hold
/// `len` bytes.
pub fn pages_to_grow(len: usize, current_pages: u64) -> (r: u64)
    ensures
        r == if page_count(len as int) > current_pages {
            page_count(len as int) - current_pages
        } else {
            0
        },
{
    let needed = num_pages(len) as u64;
    if needed > current_pages {
        needed - current_pages
    } else {
        0
    }
}

/// The page hashes a run starts from: those of the memory rebuilt from the base
/// snapshot and the deltas.
pub fn initial_page_hashes(base: &[u8], deltas: &HashMap<i32, Vec<u8>>) -> (r: (Vec<u8>, HashMap<i32, u64>))
    requires
        deltas_restorable(base@.len() as int, deltas@),
    ensures
        restored_from(r.0@, base@, deltas@),
        r.0@.len() <= max_memory_len() ==> hashes_of(r.1@, r.0@),
{
    let restored = restore_memory(base, deltas);
    let empty: HashMap<i32, u64> = HashMap::new();
    if (restored.len() as u64) <= 140_737_488_289_792u64 {
        let (_, hashes) = calculate_deltas(restored.as_slice(), &empty);
        (restored, hashes)
    } else {
        (restored, empty)
    }
}

/// The pages of the final memory that differ from the base snapshot (all pages
/// when there is no base).
pub fn final_deltas(base: &[u8], final_mem: &[u8]) -> (r: HashMap<i32, Vec<u8>>)
    requires
        base@.len() <= max_memory_len(),
        final_mem@.len() <= max_memory_len(),
    ensures
        base@.len() == 0 ==> deltas_of(r@, final_mem@, Map::empty()),
        base@.len() > 0 ==> exists|h: Map<i32, u64>| hashes_of(h, base@) && deltas_of(r@, final_mem@, h),
{
    let empty: HashMap<i32, u64> = HashMap::new();
    if base.len() == 0 {
        let (d, _) = calculate_deltas(final_mem, &empty);
        d
    } else {
        let (_, base_hashes) = calculate_deltas(base, &empty);
        let (d, _) = calculate_deltas(final_mem, &base_hashes);
        d
    }
}

} // verus!

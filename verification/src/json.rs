//! JSON values as the engine's process variables hold them.

use vstd::prelude::*;
use crate::text::same_text;

verus! {

/// A JSON value. A number is held as its JSON text.
#[derive(Debug, PartialEq)]
pub enum JsonValue {
    Null,
    Bool(bool),
    Number(String),
    Str(String),
    Array(Vec<JsonValue>),
    Object(Vec<(String, JsonValue)>),
}

/// The value bound to `key` in a list of named values: the first binding.
pub open spec fn lookup<V>(entries: Seq<(String, V)>, key: Seq<char>) -> Option<V>
    decreases entries.len(),
{
    if entries.len() == 0 {
        None
    } else if entries[0].0@ == key {
        Some(entries[0].1)
    } else {
        lookup(entries.drop_first(), key)
    }
}

/// The position of the first binding of `key`, if any.
pub fn position_of<V>(entries: &Vec<(String, V)>, key: &str) -> (r: Option<usize>)
    ensures
        r matches Some(i) ==> i < entries@.len() && entries@[i as int].0@ == key@ && forall|j: int|
            0 <= j < i ==> entries@[j].0@ != key@,
        r is None ==> forall|j: int| 0 <= j < entries@.len() ==> entries@[j].0@ != key@,
{
    let mut i: usize = 0;
    while i < entries.len()
        invariant
            i <= entries@.len(),
            forall|j: int| 0 <= j < i ==> entries@[j].0@ != key@,
        decreases entries.len() - i,
    {
        if same_text(entries[i].0.as_str(), key) {
            return Some(i);
        }
        i = i + 1;
    }
    None
}

proof fn lemma_lookup_first<V>(s: Seq<(String, V)>, i: int, key: Seq<char>)
    requires
        0 <= i < s.len(),
        s[i].0@ == key,
        forall|j: int| 0 <= j < i ==> s[j].0@ != key,
    ensures
        lookup(s, key) == Some(s[i].1),
    decreases i,
{
    if i > 0 {
        lemma_lookup_first(s.drop_first(), i - 1, key);
    }
}

proof fn lemma_lookup_absent<V>(s: Seq<(String, V)>, key: Seq<char>)
    requires
        forall|j: int| 0 <= j < s.len() ==> s[j].0@ != key,
    ensures
        lookup(s, key) is None,
    decreases s.len(),
{
    if s.len() > 0 {
        lemma_lookup_absent(s.drop_first(), key);
    }
}

/// The value bound to `key`, if any.
pub fn get_binding<'a, V>(entries: &'a Vec<(String, V)>, key: &str) -> (r: Option<&'a V>)
    ensures
        r matches Some(v) ==> lookup(entries@, key@) == Some(*v),
        r is None ==> lookup(entries@, key@) is None,
{
    match position_of(entries, key) {
        Some(i) => {
            proof {
                lemma_lookup_first(entries@, i as int, key@);
            }
            Some(&entries[i].1)
        },
        None => {
            proof {
                lemma_lookup_absent(entries@, key@);
            }
            None
        },
    }
}

/// Binds `key` to `value`: replaces the first binding of `key`, or appends one.
pub fn insert_binding<V>(entries: &mut Vec<(String, V)>, key: String, value: V)
    ensures
        lookup(final(entries)@, key@) == Some(value),
        forall|k: Seq<char>| k != key@ ==> lookup(final(entries)@, k) == lookup(old(entries)@, k),
{
    let ghost kv = key@;
    match position_of(entries, key.as_str()) {
        Some(i) => {
            let ghost before = entries@;
            entries.set(i, (key, value));
            proof {
                lemma_lookup_replace(before, i as int, kv, entries@[i as int]);
                assert(entries@ == before.update(i as int, entries@[i as int]));
            }
        },
        None => {
            let ghost before = entries@;
            entries.push((key, value));
            proof {
                lemma_lookup_append(before, kv, entries@.last());
                assert(entries@ == before.push(entries@.last()));
            }
        },
    }
}

proof fn lemma_lookup_replace<V>(s: Seq<(String, V)>, i: int, key: Seq<char>, e: (String, V))
    requires
        0 <= i < s.len(),
        s[i].0@ == key,
        e.0@ == key,
        forall|j: int| 0 <= j < i ==> s[j].0@ != key,
    ensures
        lookup(s.update(i, e), key) == Some(e.1),
        forall|k: Seq<char>| k != key ==> lookup(s.update(i, e), k) == lookup(s, k),
    decreases i,
{
    let u = s.update(i, e);
    if i == 0 {
        assert(u.drop_first() =~= s.drop_first());
    } else {
        assert(u.drop_first() =~= s.drop_first().update(i - 1, e));
        lemma_lookup_replace(s.drop_first(), i - 1, key, e);
    }
    assert forall|k: Seq<char>| k != key implies lookup(u, k) == lookup(s, k) by {
        if i > 0 {
            assert(u[0] == s[0]);
            assert(lookup(u.drop_first(), k) == lookup(s.drop_first(), k));
        } else {
            assert(u[0] == e);
            assert(u[0].0@ != k);
            assert(s[0].0@ != k);
            assert(lookup(u, k) == lookup(u.drop_first(), k));
            assert(lookup(s, k) == lookup(s.drop_first(), k));
        }
    }
}

proof fn lemma_lookup_append<V>(s: Seq<(String, V)>, key: Seq<char>, e: (String, V))
    requires
        e.0@ == key,
        forall|j: int| 0 <= j < s.len() ==> s[j].0@ != key,
    ensures
        lookup(s.push(e), key) == Some(e.1),
        forall|k: Seq<char>| k != key ==> lookup(s.push(e), k) == lookup(s, k),
    decreases s.len(),
{
    let u = s.push(e);
    if s.len() > 0 {
        assert(u.drop_first() =~= s.drop_first().push(e));
        lemma_lookup_append(s.drop_first(), key, e);
        assert(u[0] == s[0]);
    } else {
        assert(u.drop_first().len() == 0);
    }
    assert forall|k: Seq<char>| k != key implies lookup(u, k) == lookup(s, k) by {
        if s.len() > 0 {
            assert(u[0] == s[0]);
            assert(lookup(u.drop_first(), k) == lookup(s.drop_first(), k));
        } else {
            assert(u[0] == e);
            assert(u.drop_first().len() == 0);
            assert(lookup(u, k) == lookup(u.drop_first(), k));
        }
    }
}


/// Removing the first binding of `key` leaves every other key's value as it was.
pub proof fn lemma_lookup_remove_first<V>(s: Seq<(String, V)>, i: int, key: Seq<char>)
    requires
        0 <= i < s.len(),
        s[i].0@ == key,
        forall|j: int| 0 <= j < i ==> s[j].0@ != key,
    ensures
        forall|k: Seq<char>| k != key ==> lookup(s.remove(i), k) == lookup(s, k),
    decreases i,
{
    let u = s.remove(i);
    if i == 0 {
        assert(u =~= s.drop_first());
    } else {
        assert(u.drop_first() =~= s.drop_first().remove(i - 1));
        lemma_lookup_remove_first(s.drop_first(), i - 1, key);
    }
    assert forall|k: Seq<char>| k != key implies lookup(u, k) == lookup(s, k) by {
        if i > 0 {
            assert(u[0] == s[0]);
            assert(lookup(u.drop_first(), k) == lookup(s.drop_first(), k));
        } else {
            assert(s[0].0@ != k);
            assert(lookup(s, k) == lookup(s.drop_first(), k));
        }
    }
}

/// Removes and returns the value of the first binding of `key`, if any; the other
/// keys keep their values.
pub fn take_binding<V>(entries: &mut Vec<(String, V)>, key: &str) -> (r: Option<V>)
    ensures
        r == lookup(old(entries)@, key@),
        forall|k: Seq<char>| k != key@ ==> lookup(final(entries)@, k) == lookup(old(entries)@, k),
{
    match position_of(entries, key) {
        Some(i) => {
            proof {
                lemma_lookup_first(entries@, i as int, key@);
                lemma_lookup_remove_first(entries@, i as int, key@);
            }
            let (_, v) = entries.remove(i);
            Some(v)
        },
        None => {
            proof {
                lemma_lookup_absent(entries@, key@);
            }
            None
        },
    }
}

} // verus!

//! Character-level string operations used by the URL and key builders.

use vstd::prelude::*;

verus! {

/// Unicode `White_Space`, the set that `char::is_whitespace` tests.
pub open spec fn is_ws(c: char) -> bool {
    ||| c == '\t' || c == '\n' || c == '\u{0B}' || c == '\u{0C}' || c == '\r' || c == ' '
    ||| c == '\u{85}' || c == '\u{A0}' || c == '\u{1680}'
    ||| ('\u{2000}' <= c && c <= '\u{200A}')
    ||| c == '\u{2028}' || c == '\u{2029}' || c == '\u{202F}' || c == '\u{205F}'
    ||| c == '\u{3000}'
}

/// `s` without the leading characters that satisfy `p`.
pub open spec fn strip_start(s: Seq<char>, p: spec_fn(char) -> bool) -> Seq<char>
    decreases s.len(),
{
    if s.len() > 0 && p(s[0]) {
        strip_start(s.drop_first(), p)
    } else {
        s
    }
}

/// `s` without the trailing characters that satisfy `p`.
pub open spec fn strip_end(s: Seq<char>, p: spec_fn(char) -> bool) -> Seq<char>
    decreases s.len(),
{
    if s.len() > 0 && p(s.last()) {
        strip_end(s.drop_last(), p)
    } else {
        s
    }
}

/// `s` without the leading and trailing characters that satisfy `p`
/// (`str::trim_matches` with a character predicate).
pub open spec fn strip_both(s: Seq<char>, p: spec_fn(char) -> bool) -> Seq<char> {
    strip_end(strip_start(s, p), p)
}

/// The string without leading and trailing whitespace (`str::trim`).
pub open spec fn trim(s: Seq<char>) -> Seq<char> {
    strip_both(s, |c: char| is_ws(c))
}

/// A single or double quote.
pub open spec fn is_quote(c: char) -> bool {
    c == '\'' || c == '"'
}

/// The string without leading and trailing quotes.
pub open spec fn trim_quotes(s: Seq<char>) -> Seq<char> {
    strip_both(s, |c: char| is_quote(c))
}

pub fn is_ws_char(c: char) -> (r: bool)
    ensures
        r == is_ws(c),
{
    c == '\t' || c == '\n' || c == '\u{0B}' || c == '\u{0C}' || c == '\r' || c == ' '
        || c == '\u{85}' || c == '\u{A0}' || c == '\u{1680}'
        || ('\u{2000}' <= c && c <= '\u{200A}')
        || c == '\u{2028}' || c == '\u{2029}' || c == '\u{202F}' || c == '\u{205F}'
        || c == '\u{3000}'
}

/// The characters of a string, in order.
pub fn chars_of(s: &str) -> (v: Vec<char>)
    ensures
        v@ == s@,
{
    let n = s.unicode_len();
    let mut v: Vec<char> = Vec::new();
    let mut i: usize = 0;
    while i < n
        invariant
            n == s@.len(),
            i <= n,
            v@ == s@.subrange(0, i as int),
        decreases n - i,
    {
        v.push(s.get_char(i));
        i = i + 1;
    }
    v
}


/// Whether `pat` occurs in `s` at position `i`.
pub open spec fn occurs_at(s: Seq<char>, pat: Seq<char>, i: int) -> bool {
    0 <= i && i + pat.len() <= s.len() && s.subrange(i, i + pat.len()) == pat
}

/// Whether `pat` occurs anywhere in `s` (`str::contains`).
pub open spec fn contains(s: Seq<char>, pat: Seq<char>) -> bool {
    exists|i: int| occurs_at(s, pat, i)
}

/// Whether `s` ends with `suf` (`str::ends_with`).
pub open spec fn ends_with(s: Seq<char>, suf: Seq<char>) -> bool {
    suf.len() <= s.len() && s.subrange(s.len() - suf.len(), s.len() as int) == suf
}

/// Whether `s` starts with `pre` (`str::starts_with`).
pub open spec fn starts_with(s: Seq<char>, pre: Seq<char>) -> bool {
    pre.len() <= s.len() && s.subrange(0, pre.len() as int) == pre
}

/// `s` with every trailing repetition of the non-empty `suf` removed
/// (`str::trim_end_matches` with a string pattern).
pub open spec fn strip_suffixes(s: Seq<char>, suf: Seq<char>) -> Seq<char>
    decreases s.len(),
{
    if suf.len() > 0 && ends_with(s, suf) {
        strip_suffixes(s.subrange(0, s.len() - suf.len()), suf)
    } else {
        s
    }
}

/// Whether `pat` occurs in `s` exactly once.
pub open spec fn occurs_once(s: Seq<char>, pat: Seq<char>) -> bool {
    exists|k: int| occurs_at(s, pat, k) && forall|j: int| occurs_at(s, pat, j) ==> j == k
}

/// The position of the first occurrence of `pat` in `s` (meaningful when there is one).
pub open spec fn first_occ(s: Seq<char>, pat: Seq<char>) -> int {
    choose|k: int| occurs_at(s, pat, k) && forall|j: int| 0 <= j < k ==> !occurs_at(s, pat, j)
}

/// What follows the first occurrence of `pat` in `s`.
pub open spec fn after_first(s: Seq<char>, pat: Seq<char>) -> Seq<char> {
    s.subrange(first_occ(s, pat) + pat.len(), s.len() as int)
}

proof fn lemma_strip_start_at(s: Seq<char>, p: spec_fn(char) -> bool, k: int)
    requires
        0 <= k <= s.len(),
        forall|j: int| 0 <= j < k ==> p(s[j]),
        k == s.len() || !p(s[k]),
    ensures
        strip_start(s, p) == s.subrange(k, s.len() as int),
    decreases k,
{
    if k == 0 {
        assert(s.subrange(0, s.len() as int) =~= s);
    } else {
        let t = s.drop_first();
        assert forall|j: int| 0 <= j < k - 1 implies p(t[j]) by {
            assert(t[j] == s[j + 1]);
        }
        lemma_strip_start_at(t, p, k - 1);
        assert(t.subrange(k - 1, t.len() as int) =~= s.subrange(k, s.len() as int));
    }
}

proof fn lemma_strip_end_at(s: Seq<char>, p: spec_fn(char) -> bool, e: int)
    requires
        0 <= e <= s.len(),
        forall|j: int| e <= j < s.len() ==> p(s[j]),
        e == 0 || !p(s[e - 1]),
    ensures
        strip_end(s, p) == s.subrange(0, e),
    decreases s.len() - e,
{
    if e == s.len() {
        assert(s.subrange(0, e) =~= s);
    } else {
        let t = s.drop_last();
        assert forall|j: int| e <= j < t.len() implies p(t[j]) by {
            assert(t[j] == s[j]);
        }
        if e > 0 {
            assert(t[e - 1] == s[e - 1]);
        }
        lemma_strip_end_at(t, p, e);
        assert(t.subrange(0, e) =~= s.subrange(0, e));
    }
}

/// Given that `v[a..a2]` and `v[b2..b]` satisfy `p` and the characters just inside
/// `[a2, b2)` do not, `v[a2..b2]` is `v[a..b]` stripped of `p` on both ends.
proof fn lemma_strip_both_at(v: Seq<char>, p: spec_fn(char) -> bool, a: int, b: int, a2: int, b2: int)
    requires
        0 <= a <= a2 <= b2 <= b <= v.len(),
        forall|j: int| a <= j < a2 ==> p(v[j]),
        a2 == b || !p(v[a2]),
        forall|j: int| b2 <= j < b ==> p(v[j]),
        b2 == a2 || !p(v[b2 - 1]),
    ensures
        v.subrange(a2, b2) == strip_both(v.subrange(a, b), p),
{
    let s = v.subrange(a, b);
    assert forall|j: int| 0 <= j < a2 - a implies p(s[j]) by {
        assert(s[j] == v[a + j]);
    }
    if a2 < b {
        assert(s[a2 - a] == v[a2]);
    }
    lemma_strip_start_at(s, p, a2 - a);
    let t = s.subrange(a2 - a, s.len() as int);
    assert(t =~= v.subrange(a2, b));
    assert forall|j: int| b2 - a2 <= j < t.len() implies p(t[j]) by {
        assert(t[j] == v[a2 + j]);
    }
    if b2 > a2 {
        assert(t[b2 - a2 - 1] == v[b2 - 1]);
    }
    lemma_strip_end_at(t, p, b2 - a2);
    assert(t.subrange(0, b2 - a2) =~= v.subrange(a2, b2));
}

/// Whether `c` is a quote (when `quotes`) or whitespace (otherwise).
fn strippable(c: char, quotes: bool) -> (r: bool)
    ensures
        r == (if quotes {
            is_quote(c)
        } else {
            is_ws(c)
        }),
{
    if quotes {
        c == '\'' || c == '"'
    } else {
        is_ws_char(c)
    }
}

/// The bounds, within `[a, b)`, of `v[a..b]` without leading and trailing
/// whitespace (when `quotes` is false) or quotes (when it is true).
pub fn strip_bounds(v: &Vec<char>, a: usize, b: usize, quotes: bool) -> (r: (usize, usize))
    requires
        a <= b <= v.len(),
    ensures
        a <= r.0 <= r.1 <= b,
        !quotes ==> v@.subrange(r.0 as int, r.1 as int) == trim(v@.subrange(a as int, b as int)),
        quotes ==> v@.subrange(r.0 as int, r.1 as int) == trim_quotes(
            v@.subrange(a as int, b as int),
        ),
{
    let ghost p: spec_fn(char) -> bool = if quotes {
        |c: char| is_quote(c)
    } else {
        |c: char| is_ws(c)
    };
    let mut a2: usize = a;
    while a2 < b && strippable(v[a2], quotes)
        invariant
            a <= a2 <= b <= v.len(),
            p == (if quotes {
                |c: char| is_quote(c)
            } else {
                |c: char| is_ws(c)
            }),
            forall|j: int| a <= j < a2 ==> p(v@[j]),
        decreases b - a2,
    {
        a2 = a2 + 1;
    }
    let mut b2: usize = b;
    while b2 > a2 && strippable(v[b2 - 1], quotes)
        invariant
            a <= a2 <= b2 <= b <= v.len(),
            p == (if quotes {
                |c: char| is_quote(c)
            } else {
                |c: char| is_ws(c)
            }),
            forall|j: int| b2 <= j < b ==> p(v@[j]),
        decreases b2,
    {
        b2 = b2 - 1;
    }
    proof {
        lemma_strip_both_at(v@, p, a as int, b as int, a2 as int, b2 as int);
    }
    (a2, b2)
}

/// The bounds `[a, b)` of `v` that `str::trim` keeps.
pub fn trim_bounds(v: &Vec<char>) -> (r: (usize, usize))
    ensures
        r.0 <= r.1 <= v.len(),
        v@.subrange(r.0 as int, r.1 as int) == trim(v@),
{
    let r = strip_bounds(v, 0, v.len(), false);
    assert(v@.subrange(0, v@.len() as int) =~= v@);
    r
}

/// The end `e` such that `v[a..e]` is `v[a..b]` with every trailing repetition of the
/// non-empty `suf` removed.
pub fn strip_suffixes_end(v: &Vec<char>, a: usize, b: usize, suf: &Vec<char>) -> (e: usize)
    requires
        a <= b <= v.len(),
        suf.len() > 0,
    ensures
        a <= e <= b,
        v@.subrange(a as int, e as int) == strip_suffixes(v@.subrange(a as int, b as int), suf@),
{
    let mut e: usize = b;
    while e - a >= suf.len() && matches_at(v, suf, e - suf.len())
        invariant
            a <= e <= b <= v.len(),
            suf.len() > 0,
            strip_suffixes(v@.subrange(a as int, e as int), suf@) == strip_suffixes(
                v@.subrange(a as int, b as int),
                suf@,
            ),
        decreases e,
    {
        let ghost cur = v@.subrange(a as int, e as int);
        proof {
            let n = e - suf.len();
            assert(cur.subrange(cur.len() - suf.len(), cur.len() as int) =~= v@.subrange(
                n as int,
                n + suf.len(),
            ));
            assert(ends_with(cur, suf@));
            assert(cur.subrange(0, cur.len() - suf.len()) =~= v@.subrange(a as int, n as int));
        }
        e = e - suf.len();
    }
    proof {
        let cur = v@.subrange(a as int, e as int);
        if ends_with(cur, suf@) {
            let n = e - suf.len();
            assert(cur.subrange(cur.len() - suf.len(), cur.len() as int) =~= v@.subrange(
                n as int,
                n + suf.len(),
            ));
        }
    }
    e
}

/// The position of an occurrence of `pat` in `s` at or after `start`, if any.
pub fn find_from(s: &Vec<char>, pat: &Vec<char>, start: usize) -> (r: Option<usize>)
    ensures
        r matches Some(i) ==> start <= i && occurs_at(s@, pat@, i as int),
        r is None ==> forall|j: int| start <= j ==> !occurs_at(s@, pat@, j),
{
    if start > s.len() {
        return None;
    }
    let mut i: usize = start;
    while i < s.len()
        invariant
            start <= i <= s.len(),
            forall|j: int| start <= j < i ==> !occurs_at(s@, pat@, j),
        decreases s.len() - i,
    {
        if matches_at(s, pat, i) {
            return Some(i);
        }
        i = i + 1;
    }
    if matches_at(s, pat, i) {
        return Some(i);
    }
    None
}

/// Whether `s[i..i + pat.len()]` equals `pat`.
pub fn matches_at(s: &Vec<char>, pat: &Vec<char>, i: usize) -> (r: bool)
    ensures
        r == occurs_at(s@, pat@, i as int),
{
    if i > s.len() || pat.len() > s.len() - i {
        return false;
    }
    let mut j: usize = 0;
    while j < pat.len()
        invariant
            i + pat.len() <= s.len(),
            j <= pat.len(),
            forall|k: int| 0 <= k < j ==> s@[i + k] == pat@[k],
        decreases pat.len() - j,
    {
        if s[i + j] != pat[j] {
            assert(s@.subrange(i as int, i + pat.len())[j as int] != pat@[j as int]);
            return false;
        }
        j = j + 1;
    }
    assert(s@.subrange(i as int, i + pat.len()) =~= pat@);
    true
}

/// The first position at which `pat` occurs in `s`, if any.
pub fn find(s: &Vec<char>, pat: &Vec<char>) -> (r: Option<usize>)
    ensures
        r matches Some(i) ==> occurs_at(s@, pat@, i as int) && forall|j: int|
            0 <= j < i ==> !occurs_at(s@, pat@, j),
        r is None ==> !contains(s@, pat@),
{
    let mut i: usize = 0;
    while i < s.len()
        invariant
            i <= s.len(),
            forall|j: int| 0 <= j < i ==> !occurs_at(s@, pat@, j),
        decreases s.len() - i,
    {
        if matches_at(s, pat, i) {
            return Some(i);
        }
        i = i + 1;
    }
    if matches_at(s, pat, i) {
        return Some(i);
    }
    assert forall|j: int| !occurs_at(s@, pat@, j) by {
        if 0 <= j < i {
        } else if j > i {
        }
    }
    None
}


/// Whether two strings hold the same characters.
pub fn same_text(a: &str, b: &str) -> (r: bool)
    ensures
        r == (a@ == b@),
{
    let x = chars_of(a);
    let y = chars_of(b);
    if x.len() != y.len() {
        assert(x@.len() != y@.len());
        return false;
    }
    let mut i: usize = 0;
    while i < x.len()
        invariant
            x@ == a@,
            y@ == b@,
            x@.len() == y@.len(),
            i <= x@.len(),
            forall|j: int| 0 <= j < i ==> x@[j] == y@[j],
        decreases x.len() - i,
    {
        if x[i] != y[i] {
            assert(x@[i as int] != y@[i as int]);
            return false;
        }
        i = i + 1;
    }
    assert(x@ =~= y@);
    true
}


/// Whether `s` starts with `pre`.
pub fn has_prefix(s: &str, pre: &str) -> (r: bool)
    ensures
        r == starts_with(s@, pre@),
{
    let x = chars_of(s);
    let y = chars_of(pre);
    if y.len() > x.len() {
        return false;
    }
    let r = matches_at(&x, &y, 0);
    proof {
        if r {
            assert(occurs_at(x@, y@, 0));
        } else {
            assert(!(x@.subrange(0, y@.len() as int) == y@));
        }
    }
    r
}

/// Whether `s` ends with `suf`.
pub fn has_suffix(s: &str, suf: &str) -> (r: bool)
    ensures
        r == ends_with(s@, suf@),
{
    let x = chars_of(s);
    let y = chars_of(suf);
    if y.len() > x.len() {
        return false;
    }
    matches_at(&x, &y, x.len() - y.len())
}


/// The ASCII digit for `d < 10`.
pub open spec fn digit_char(d: int) -> char {
    if d == 0 {
        '0'
    } else if d == 1 {
        '1'
    } else if d == 2 {
        '2'
    } else if d == 3 {
        '3'
    } else if d == 4 {
        '4'
    } else if d == 5 {
        '5'
    } else if d == 6 {
        '6'
    } else if d == 7 {
        '7'
    } else if d == 8 {
        '8'
    } else {
        '9'
    }
}

/// The decimal digits of `n`, most significant first, without leading zeros.
pub open spec fn digits(n: nat) -> Seq<char>
    decreases n,
{
    if n < 10 {
        seq![digit_char(n as int)]
    } else {
        digits(n / 10).push(digit_char((n % 10) as int))
    }
}

/// The decimal text of an integer, with a leading `-` when it is negative (what
/// `to_string` gives for an integer).
pub open spec fn decimal(n: int) -> Seq<char> {
    if n < 0 {
        seq!['-'] + digits((-n) as nat)
    } else {
        digits(n as nat)
    }
}

/// Whether `c` is an ASCII digit.
pub open spec fn is_digit(c: char) -> bool {
    '0' <= c && c <= '9'
}

/// The value of a string of ASCII digits.
pub open spec fn digits_value(s: Seq<char>) -> nat
    decreases s.len(),
{
    if s.len() == 0 {
        0
    } else {
        digits_value(s.drop_last()) * 10 + ((s.last() as u32) - ('0' as u32)) as nat
    }
}

/// `s` without a leading `+` or `-`.
pub open spec fn unsigned_part(s: Seq<char>) -> Seq<char> {
    if s.len() > 0 && (s[0] == '-' || s[0] == '+') {
        s.drop_first()
    } else {
        s
    }
}

/// Whether `s` is one or more ASCII digits.
pub open spec fn all_digits(s: Seq<char>) -> bool {
    s.len() > 0 && forall|i: int| 0 <= i < s.len() ==> #[trigger] is_digit(s[i])
}

/// What `str::parse::<i64>` gives: an optional `+` or `-` followed by one or more
/// ASCII digits whose value fits in an `i64`.
pub open spec fn parsed_i64(s: Seq<char>) -> Option<i64> {
    let ds = unsigned_part(s);
    if !all_digits(ds) {
        None
    } else {
        let v: int = if s[0] == '-' {
            -(digits_value(ds) as int)
        } else {
            digits_value(ds) as int
        };
        if i64::MIN <= v <= i64::MAX {
            Some(v as i64)
        } else {
            None
        }
    }
}

fn digit_str(d: u64) -> (r: &'static str)
    requires
        d < 10,
    ensures
        r@ == seq![digit_char(d as int)],
{
    proof {
        reveal_strlit("0");
        reveal_strlit("1");
        reveal_strlit("2");
        reveal_strlit("3");
        reveal_strlit("4");
        reveal_strlit("5");
        reveal_strlit("6");
        reveal_strlit("7");
        reveal_strlit("8");
        reveal_strlit("9");
    }
    if d == 0 {
        "0"
    } else if d == 1 {
        "1"
    } else if d == 2 {
        "2"
    } else if d == 3 {
        "3"
    } else if d == 4 {
        "4"
    } else if d == 5 {
        "5"
    } else if d == 6 {
        "6"
    } else if d == 7 {
        "7"
    } else if d == 8 {
        "8"
    } else {
        "9"
    }
}

/// The decimal digits of `n`.
pub fn digits_string(n: u64) -> (r: String)
    ensures
        r@ == digits(n as nat),
    decreases n,
{
    if n < 10 {
        String::from_str(digit_str(n))
    } else {
        let mut s = digits_string(n / 10);
        s.append(digit_str(n % 10));
        s
    }
}

/// The decimal text of `n` (`i64::to_string`).
pub fn decimal_string(n: i64) -> (r: String)
    ensures
        r@ == decimal(n as int),
{
    if n < 0 {
        let m: u64 = if n == i64::MIN {
            9223372036854775808u64
        } else {
            (-n) as u64
        };
        let mut s = String::from_str("-");
        proof {
            reveal_strlit("-");
        }
        s.append(digits_string(m).as_str());
        s
    } else {
        digits_string(n as u64)
    }
}

/// Parses a decimal integer the way `str::parse::<i64>` does.
pub fn parse_i64(s: &str) -> (r: Option<i64>)
    ensures
        r == parsed_i64(s@),
{
    let v = chars_of(s);
    let neg = v.len() > 0 && v[0] == '-';
    let start: usize = if v.len() > 0 && (v[0] == '-' || v[0] == '+') {
        1
    } else {
        0
    };
    let ghost ds = unsigned_part(v@);
    assert(ds =~= v@.subrange(start as int, v@.len() as int));
    if start >= v.len() {
        return None;
    }
    let bound: u128 = if neg {
        9223372036854775808
    } else {
        9223372036854775807
    };
    let mut acc: u128 = 0;
    let mut i: usize = start;
    while i < v.len()
        invariant
            v@ == s@,
            neg == (v@.len() > 0 && v@[0] == '-'),
            ds == unsigned_part(s@),
            bound == (if neg {
                9223372036854775808u128
            } else {
                9223372036854775807u128
            }),
            start <= i <= v@.len(),
            ds == v@.subrange(start as int, v@.len() as int),
            forall|j: int| start <= j < i ==> is_digit(v@[j]),
            acc == digits_value(v@.subrange(start as int, i as int)),
            acc <= bound,
            bound <= 9223372036854775808,
        decreases v.len() - i,
    {
        let c = v[i];
        if !('0' <= c && c <= '9') {
            assert(!is_digit(ds[i - start]));
            assert(!all_digits(ds));
            return None;
        }
        let d = (c as u32 - '0' as u32) as u128;
        proof {
            assert(v@.subrange(start as int, i + 1).drop_last() =~= v@.subrange(
                start as int,
                i as int,
            ));
        }
        acc = acc * 10 + d;
        if acc > bound {
            proof {
                assert(v@.subrange(start as int, i + 1) =~= ds.subrange(0, i + 1 - start));
                if all_digits(ds) {
                    lemma_digits_value_grows(ds, i + 1 - start);
                }
            }
            return None;
        }
        i = i + 1;
    }
    assert(v@.subrange(start as int, i as int) =~= ds);
    if neg {
        if acc == 9223372036854775808 {
            Some(i64::MIN)
        } else {
            Some(-(acc as i64))
        }
    } else {
        Some(acc as i64)
    }
}

/// A longer run of digits is worth at least as much as its prefix.
pub(crate) proof fn lemma_digits_value_grows(s: Seq<char>, k: int)
    requires
        0 <= k <= s.len(),
        forall|i: int| 0 <= i < s.len() ==> is_digit(s[i]),
    ensures
        digits_value(s.subrange(0, k)) <= digits_value(s),
    decreases s.len() - k,
{
    if k < s.len() {
        lemma_digits_value_grows(s.drop_last(), k);
        assert(s.drop_last().subrange(0, k) =~= s.subrange(0, k));
    } else {
        assert(s.subrange(0, k) =~= s);
    }
}


proof fn lemma_digits_roundtrip(m: nat)
    ensures
        all_digits(digits(m)),
        digits_value(digits(m)) == m,
        digits(m)[0] != '-' && digits(m)[0] != '+',
    decreases m,
{
    lemma_digit_char_value((m % 10) as int);
    if m >= 10 {
        lemma_digits_roundtrip(m / 10);
        let d = digits(m / 10);
        let e = d.push(digit_char((m % 10) as int));
        assert(e.drop_last() =~= d);
        assert(e[0] == d[0]);
        assert((m / 10) * 10 + m % 10 == m) by (nonlinear_arith);
        assert(digits(m) == e);
        assert(e.last() == digit_char((m % 10) as int));
        assert(digits_value(e) == digits_value(d) * 10 + ((e.last() as u32) - ('0' as u32)) as nat);
        assert(digits_value(d) == m / 10);
        assert(is_digit(e.last()));
        assert forall|i: int| 0 <= i < e.len() implies #[trigger] is_digit(e[i]) by {
            if i < d.len() {
                assert(e[i] == d[i]);
            }
        }
    } else {
        lemma_digit_char_value(m as int);
        let e = digits(m);
        assert(e.drop_last() =~= Seq::<char>::empty());
        assert(digits_value(e.drop_last()) == 0);
        assert(e.last() == digit_char(m as int));
    }
}

pub(crate) proof fn lemma_digit_char_value(d: int)
    requires
        0 <= d < 10,
    ensures
        is_digit(digit_char(d)),
        (digit_char(d) as u32) - ('0' as u32) == d,
        digit_char(d) != '-' && digit_char(d) != '+',
{
}

/// Reading back the decimal text of an `i64` gives that `i64`.
pub proof fn lemma_decimal_parse_roundtrip(n: i64)
    ensures
        parsed_i64(decimal(n as int)) == Some(n),
{
    if n < 0 {
        let m = (-(n as int)) as nat;
        lemma_digits_roundtrip(m);
        let t = seq!['-'] + digits(m);
        assert(t.drop_first() =~= digits(m));
    } else {
        lemma_digits_roundtrip(n as nat);
    }
}


/// Whether every character of `s` is ASCII.
pub open spec fn is_ascii_text(s: Seq<char>) -> bool {
    forall|i: int| 0 <= i < s.len() ==> (#[trigger] s[i] as u32) < 128
}

/// An ASCII upper-case letter made lower-case; any other character kept.
pub open spec fn ascii_lower(c: char) -> char {
    if 'A' <= c && c <= 'Z' {
        ((c as u32) + 32) as char
    } else {
        c
    }
}

/// An ASCII lower-case letter made upper-case; any other character kept.
pub open spec fn ascii_upper(c: char) -> char {
    if 'a' <= c && c <= 'z' {
        ((c as u32) - 32) as char
    } else {
        c
    }
}

/// `s` with its ASCII upper-case letters made lower-case.
pub open spec fn ascii_lowered(s: Seq<char>) -> Seq<char> {
    Seq::new(s.len(), |i: int| ascii_lower(s[i]))
}

/// `s` with its ASCII lower-case letters made upper-case.
pub open spec fn ascii_uppered(s: Seq<char>) -> Seq<char> {
    Seq::new(s.len(), |i: int| ascii_upper(s[i]))
}

/// What `String::from_utf8_lossy` gives for bytes: their UTF-8 decoding, with each
/// invalid sequence replaced by U+FFFD.
pub uninterp spec fn utf8_lossy(bytes: Seq<u8>) -> Seq<char>;

/// Decodes bytes as UTF-8 with `String::from_utf8_lossy`, replacing invalid
/// sequences; the result is named by `utf8_lossy`, and valid UTF-8 decodes exactly.
#[verifier::external_body]
pub(crate) fn lossy_string(bytes: &[u8]) -> (r: String)
    ensures
        r@ == utf8_lossy(bytes@),
        vstd::utf8::valid_utf8(bytes@) ==> r@ == vstd::utf8::decode_utf8(bytes@),
{
    String::from_utf8_lossy(bytes).into_owned()
}

} // verus!

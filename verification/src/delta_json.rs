//! Memory deltas as JSON carries them: an object from page numbers to page
//! bytes, each written as a base64 string, an array of byte values, or null.

use vstd::prelude::*;
use base64::Engine;
use crate::json::JsonValue;
use crate::text::{all_digits, chars_of, decimal, digit_char, digits, digits_value, is_digit, lemma_digit_char_value, lemma_digits_value_grows, trim, trim_bounds};
use std::collections::HashMap;

verus! {

/// What `base64::engine::general_purpose::STANDARD.decode` gives for the bytes of
/// a string: the decoded bytes, or the text of its `DecodeError`.
pub uninterp spec fn base64_decoded(text: Seq<char>) -> Result<Seq<u8>, Seq<char>>;

/// Decodes standard, padded base64 with `STANDARD.decode`; the result is named by
/// `base64_decoded`.
#[verifier::external_body]
fn base64_decode(text: &str) -> (r: Result<Vec<u8>, String>)
    ensures
        base64_decoded(text@) == match r {
            Ok(v) => Ok::<Seq<u8>, Seq<char>>(v@),
            Err(e) => Err::<Seq<u8>, Seq<char>>(e@),
        },
{
    match base64::engine::general_purpose::STANDARD.decode(text) {
        Ok(v) => Ok(v),
        Err(e) => Err(e.to_string()),
    }
}

/// Why a page number could not be read (the kinds of `std::num::IntErrorKind`
/// that parsing a decimal integer can give).
#[derive(Debug, PartialEq, Eq, Structural)]
pub enum IntParseError {
    Empty,
    InvalidDigit,
    PosOverflow,
    NegOverflow,
}

/// The progress of reading digits left to right: the value so far, or the first
/// failure.
pub enum DigitScan {
    Value(nat),
    Invalid,
    Overflow,
}

/// Reads `ds` left to right: a non-digit is invalid, a value beyond `bound`
/// overflows, whichever comes first.
pub open spec fn digit_scan(ds: Seq<char>, bound: nat) -> DigitScan
    decreases ds.len(),
{
    if ds.len() == 0 {
        DigitScan::Value(0)
    } else {
        match digit_scan(ds.drop_last(), bound) {
            DigitScan::Value(v) => {
                let c = ds.last();
                if !is_digit(c) {
                    DigitScan::Invalid
                } else if v * 10 + ((c as u32) - ('0' as u32)) > bound {
                    DigitScan::Overflow
                } else {
                    DigitScan::Value(v * 10 + ((c as u32) - ('0' as u32)) as nat)
                }
            },
            other => other,
        }
    }
}

/// What `str::parse::<i32>` gives: an optional sign and at least one digit,
/// read left to right; the first non-digit or overflow is the error.
pub open spec fn parsed_i32(s: Seq<char>) -> Result<i32, IntParseError> {
    if s.len() == 0 {
        Err(IntParseError::Empty)
    } else {
        let neg = s[0] == '-';
        let ds = if s[0] == '-' || s[0] == '+' {
            s.drop_first()
        } else {
            s
        };
        let bound: nat = if neg {
            0x8000_0000
        } else {
            0x7fff_ffff
        };
        if ds.len() == 0 {
            Err(IntParseError::InvalidDigit)
        } else {
            match digit_scan(ds, bound) {
                DigitScan::Value(v) => Ok(
                    if neg {
                        (-(v as int)) as i32
                    } else {
                        v as i32
                    },
                ),
                DigitScan::Invalid => Err(IntParseError::InvalidDigit),
                DigitScan::Overflow => Err(
                    if neg {
                        IntParseError::NegOverflow
                    } else {
                        IntParseError::PosOverflow
                    },
                ),
            }
        }
    }
}

/// The message of a parse error (the `Display` of `ParseIntError`).
pub open spec fn int_error_text(e: IntParseError) -> Seq<char> {
    match e {
        IntParseError::Empty => "cannot parse integer from empty string"@,
        IntParseError::InvalidDigit => "invalid digit found in string"@,
        IntParseError::PosOverflow => "number too large to fit in target type"@,
        IntParseError::NegOverflow => "number too small to fit in target type"@,
    }
}

/// The message of a parse error.
pub fn int_error_message(e: &IntParseError) -> (r: String)
    ensures
        r@ == int_error_text(*e),
{
    match e {
        IntParseError::Empty => String::from_str("cannot parse integer from empty string"),
        IntParseError::InvalidDigit => String::from_str("invalid digit found in string"),
        IntParseError::PosOverflow => String::from_str("number too large to fit in target type"),
        IntParseError::NegOverflow => String::from_str("number too small to fit in target type"),
    }
}

/// Parses a decimal `i32` the way `str::parse::<i32>` does.
pub fn parse_i32(s: &str) -> (r: Result<i32, IntParseError>)
    ensures
        r == parsed_i32(s@),
{
    let v = chars_of(s);
    if v.len() == 0 {
        return Err(IntParseError::Empty);
    }
    let neg = v[0] == '-';
    let start: usize = if v[0] == '-' || v[0] == '+' {
        1
    } else {
        0
    };
    let ghost ds = if v@[0] == '-' || v@[0] == '+' {
        v@.drop_first()
    } else {
        v@
    };
    assert(ds =~= v@.subrange(start as int, v@.len() as int));
    if start >= v.len() {
        return Err(IntParseError::InvalidDigit);
    }
    let bound: u64 = if neg {
        0x8000_0000
    } else {
        0x7fff_ffff
    };
    let mut acc: u64 = 0;
    let mut i: usize = start;
    while i < v.len()
        invariant
            v@ == s@,
            v@.len() > 0,
            neg == (v@[0] == '-'),
            bound == (if neg {
                0x8000_0000u64
            } else {
                0x7fff_ffffu64
            }),
            ds == (if v@[0] == '-' || v@[0] == '+' {
                v@.drop_first()
            } else {
                v@
            }),
            start <= i <= v@.len(),
            ds == v@.subrange(start as int, v@.len() as int),
            bound <= 0x8000_0000,
            acc <= bound,
            digit_scan(v@.subrange(start as int, i as int), bound as nat) == DigitScan::Value(
                acc as nat,
            ),
        decreases v.len() - i,
    {
        let ghost pre = v@.subrange(start as int, i as int);
        let ghost next = v@.subrange(start as int, i + 1);
        assert(next.drop_last() =~= pre);
        let c = v[i];
        if !('0' <= c && c <= '9') {
            proof {
                lemma_scan_stops(ds, i + 1 - start, bound as nat);
                assert(ds.subrange(0, i + 1 - start) =~= next);
            }
            return Err(IntParseError::InvalidDigit);
        }
        let d = (c as u32 - '0' as u32) as u64;
        if acc * 10 + d > bound {
            proof {
                lemma_scan_stops(ds, i + 1 - start, bound as nat);
                assert(ds.subrange(0, i + 1 - start) =~= next);
            }
            if neg {
                return Err(IntParseError::NegOverflow);
            } else {
                return Err(IntParseError::PosOverflow);
            }
        }
        acc = acc * 10 + d;
        i = i + 1;
    }
    assert(v@.subrange(start as int, i as int) =~= ds);
    if neg {
        if acc == 0x8000_0000 {
            Ok(i32::MIN)
        } else {
            Ok(-(acc as i32))
        }
    } else {
        Ok(acc as i32)
    }
}

/// Once a prefix of the digits fails, the whole fails the same way.
proof fn lemma_scan_stops(ds: Seq<char>, k: int, bound: nat)
    requires
        0 <= k <= ds.len(),
    ensures
        !(digit_scan(ds.subrange(0, k), bound) is Value) ==> digit_scan(ds, bound) == digit_scan(
            ds.subrange(0, k),
            bound,
        ),
    decreases ds.len() - k,
{
    if k < ds.len() {
        lemma_scan_stops(ds.drop_last(), k, bound);
        assert(ds.drop_last().subrange(0, k) =~= ds.subrange(0, k));
    } else {
        assert(ds.subrange(0, k) =~= ds);
    }
}

/// What `serde_json::Value::as_u64` gives for a number written `text`: its value
/// when it is a non-negative integer that fits in a `u64`.
pub open spec fn number_as_u64(text: Seq<char>) -> Option<u64> {
    if all_digits(text) && digits_value(text) <= u64::MAX {
        Some(digits_value(text) as u64)
    } else {
        None
    }
}

/// The value of a JSON number as a `u64`, when it is one.
fn number_u64(text: &str) -> (r: Option<u64>)
    ensures
        r == number_as_u64(text@),
{
    let v = chars_of(text);
    if v.len() == 0 {
        return None;
    }
    let mut acc: u128 = 0;
    let mut i: usize = 0;
    while i < v.len()
        invariant
            v@ == text@,
            i <= v@.len(),
            forall|j: int| 0 <= j < i ==> is_digit(v@[j]),
            acc == digits_value(v@.subrange(0, i as int)),
            acc <= u64::MAX,
        decreases v.len() - i,
    {
        assert(v@.subrange(0, i + 1).drop_last() =~= v@.subrange(0, i as int));
        let c = v[i];
        if !('0' <= c && c <= '9') {
            assert(!is_digit(v@[i as int]));
            return None;
        }
        acc = acc * 10 + (c as u32 - '0' as u32) as u128;
        if acc > 0xffff_ffff_ffff_ffff {
            proof {
                if all_digits(v@) {
                    lemma_digits_value_grows(v@, i + 1);
                }
            }
            return None;
        }
        i = i + 1;
    }
    assert(v@.subrange(0, i as int) =~= v@);
    Some(acc as u64)
}

/// The bytes that an array of JSON values stands for: each must be a number that
/// `as_u64` reads, taken modulo 256 (`as u8`).
pub open spec fn array_bytes(items: Seq<JsonValue>) -> Option<Seq<u8>>
    decreases items.len(),
{
    if items.len() == 0 {
        Some(Seq::empty())
    } else {
        match (array_bytes(items.drop_last()), items.last()) {
            (Some(b), JsonValue::Number(t)) => match number_as_u64(t@) {
                Some(n) => Some(b.push((n % 256) as u8)),
                None => None,
            },
            _ => None,
        }
    }
}

/// The page bytes that a JSON value stands for: a string is trimmed and, unless
/// empty, base64-decoded; an array lists byte values; null is no bytes; anything
/// else is an error.
pub open spec fn delta_bytes(v: JsonValue) -> Result<Seq<u8>, Seq<char>> {
    match v {
        JsonValue::Str(s) => if trim(s@).len() == 0 {
            Ok(Seq::empty())
        } else {
            match base64_decoded(trim(s@)) {
                Ok(b) => Ok(b),
                Err(e) => Err("failed to decode base64: "@ + e),
            }
        },
        JsonValue::Array(items) => match array_bytes(items@) {
            Some(b) => Ok(b),
            None => Err("expected integer array for bytes"@),
        },
        JsonValue::Null => Ok(Seq::empty()),
        _ => Err("expected string or array for bytes"@),
    }
}

/// The page bytes that a JSON value stands for (see `delta_bytes`).
pub fn decode_delta_value(v: &JsonValue) -> (r: Result<Vec<u8>, String>)
    ensures
        delta_bytes(*v) == match r {
            Ok(b) => Ok::<Seq<u8>, Seq<char>>(b@),
            Err(e) => Err::<Seq<u8>, Seq<char>>(e@),
        },
{
    match v {
        JsonValue::Str(s) => {
            let c = chars_of(s.as_str());
            let (a, b) = trim_bounds(&c);
            let t = s.as_str().substring_char(a, b);
            if a == b {
                return Ok(Vec::new());
            }
            match base64_decode(t) {
                Ok(bytes) => Ok(bytes),
                Err(e) => {
                    let mut m = String::from_str("failed to decode base64: ");
                    m.append(e.as_str());
                    Err(m)
                },
            }
        },
        JsonValue::Array(items) => {
            let mut out: Vec<u8> = Vec::new();
            let mut i: usize = 0;
            while i < items.len()
                invariant
                    *v == JsonValue::Array(*items),
                    i <= items@.len(),
                    array_bytes(items@.take(i as int)) == Some(out@),
                decreases items.len() - i,
            {
                assert(items@.take(i + 1).drop_last() =~= items@.take(i as int));
                let n = match &items[i] {
                    JsonValue::Number(t) => number_u64(t.as_str()),
                    _ => None,
                };
                match n {
                    Some(n) => {
                        out.push((n % 256) as u8);
                    },
                    None => {
                        proof {
                            assert(items@.take(i + 1).last() == items@[i as int]);
                            lemma_array_stops(items@, i + 1);
                        }
                        return Err(String::from_str("expected integer array for bytes"));
                    },
                }
                i = i + 1;
            }
            assert(items@.take(i as int) =~= items@);
            Ok(out)
        },
        JsonValue::Null => Ok(Vec::new()),
        _ => Err(String::from_str("expected string or array for bytes")),
    }
}

/// Once a prefix of the items is not a list of bytes, neither is the whole.
proof fn lemma_array_stops(items: Seq<JsonValue>, k: int)
    requires
        0 <= k <= items.len(),
        array_bytes(items.take(k)) is None,
    ensures
        array_bytes(items) is None,
    decreases items.len() - k,
{
    if k < items.len() {
        assert(items.drop_last().take(k) =~= items.take(k));
        lemma_array_stops(items.drop_last(), k);
    } else {
        assert(items.take(k) =~= items);
    }
}

/// The page number that a JSON object key stands for, or the error message.
pub open spec fn delta_key(key: Seq<char>) -> Result<i32, Seq<char>> {
    match parsed_i32(key) {
        Ok(n) => Ok(n),
        Err(e) => Err("invalid map key: "@ + int_error_text(e)),
    }
}

/// The page number that a JSON object key stands for (see `delta_key`).
pub fn decode_delta_key(key: &str) -> (r: Result<i32, String>)
    ensures
        delta_key(key@) == match r {
            Ok(n) => Ok::<i32, Seq<char>>(n),
            Err(e) => Err::<i32, Seq<char>>(e@),
        },
{
    match parse_i32(key) {
        Ok(n) => Ok(n),
        Err(e) => {
            let mut m = String::from_str("invalid map key: ");
            m.append(int_error_message(&e).as_str());
            Err(m)
        },
    }
}

/// The deltas that the members of a JSON object stand for, read in order: the
/// first bad key or value is the error; a later page number replaces an earlier
/// one.
pub open spec fn deltas_from(entries: Seq<(String, JsonValue)>) -> Result<Map<i32, Seq<u8>>, Seq<char>>
    decreases entries.len(),
{
    if entries.len() == 0 {
        Ok(Map::empty())
    } else {
        match deltas_from(entries.drop_last()) {
            Ok(m) => match delta_key(entries.last().0@) {
                Ok(k) => match delta_bytes(entries.last().1) {
                    Ok(b) => Ok(m.insert(k, b)),
                    Err(e) => Err(e),
                },
                Err(e) => Err(e),
            },
            Err(e) => Err(e),
        }
    }
}

/// The view of a map of deltas.
pub open spec fn deltas_view(m: Map<i32, Vec<u8>>) -> Map<i32, Seq<u8>> {
    Map::new(|k: i32| m.dom().contains(k), |k: i32| m[k]@)
}

/// The deltas that the members of a JSON object stand for (see `deltas_from`).
pub fn decode_deltas(entries: &Vec<(String, JsonValue)>) -> (r: Result<HashMap<i32, Vec<u8>>, String>)
    ensures
        deltas_from(entries@) == match r {
            Ok(m) => Ok::<Map<i32, Seq<u8>>, Seq<char>>(deltas_view(m@)),
            Err(e) => Err::<Map<i32, Seq<u8>>, Seq<char>>(e@),
        },
{
    let mut m: HashMap<i32, Vec<u8>> = HashMap::new();
    let mut i: usize = 0;
    assert(deltas_view(m@) =~= Map::<i32, Seq<u8>>::empty());
    while i < entries.len()
        invariant
            i <= entries@.len(),
            deltas_from(entries@.take(i as int)) == Ok::<Map<i32, Seq<u8>>, Seq<char>>(
                deltas_view(m@),
            ),
        decreases entries.len() - i,
    {
        assert(entries@.take(i + 1).drop_last() =~= entries@.take(i as int));
        let k = match decode_delta_key(entries[i].0.as_str()) {
            Ok(k) => k,
            Err(e) => {
                proof {
                    lemma_deltas_stop(entries@, i + 1);
                }
                return Err(e);
            },
        };
        let b = match decode_delta_value(&entries[i].1) {
            Ok(b) => b,
            Err(e) => {
                proof {
                    lemma_deltas_stop(entries@, i + 1);
                }
                return Err(e);
            },
        };
        let ghost before = m@;
        let ghost bv = b@;
        m.insert(k, b);
        assert(deltas_view(m@) =~= deltas_view(before).insert(k, bv));
        i = i + 1;
    }
    assert(entries@.take(i as int) =~= entries@);
    Ok(m)
}

/// Once a prefix of the members fails, the whole fails the same way.
proof fn lemma_deltas_stop(entries: Seq<(String, JsonValue)>, k: int)
    requires
        0 <= k <= entries.len(),
        deltas_from(entries.take(k)) is Err,
    ensures
        deltas_from(entries) == deltas_from(entries.take(k)),
    decreases entries.len() - k,
{
    if k < entries.len() {
        assert(entries.drop_last().take(k) =~= entries.take(k));
        lemma_deltas_stop(entries.drop_last(), k);
    } else {
        assert(entries.take(k) =~= entries);
    }
}

/// The decimal digits of a number within the bound read back as that number.
proof fn lemma_scan_digits(m: nat, bound: nat)
    requires
        m <= bound,
    ensures
        digit_scan(digits(m), bound) == DigitScan::Value(m),
        digits(m).len() > 0,
        digits(m)[0] != '-' && digits(m)[0] != '+',
    decreases m,
{
    lemma_digit_char_value((m % 10) as int);
    if m >= 10 {
        lemma_scan_digits(m / 10, bound);
        let d = digits(m / 10);
        let e = d.push(digit_char((m % 10) as int));
        assert(e.drop_last() =~= d);
        assert(e[0] == d[0]);
        assert((m / 10) * 10 + m % 10 == m) by (nonlinear_arith);
        assert(digits(m) == e);
        assert(e.last() == digit_char((m % 10) as int));
        assert(digit_scan(e.drop_last(), bound) == DigitScan::Value(m / 10));
    } else {
        let e = digits(m);
        assert(e.drop_last() =~= Seq::<char>::empty());
        assert(digit_scan(e.drop_last(), bound) == DigitScan::Value(0));
        assert(e.last() == digit_char(m as int));
    }
}

/// A page number written as an object key (its decimal text, as JSON writes
/// integer keys) reads back as that page number.
pub proof fn lemma_key_roundtrip(page: i32)
    ensures
        delta_key(decimal(page as int)) == Ok::<i32, Seq<char>>(page),
{
    if page < 0 {
        let m = (-(page as int)) as nat;
        lemma_scan_digits(m, 0x8000_0000);
        let t = seq!['-'] + digits(m);
        assert(t.drop_first() =~= digits(m));
        assert(t[0] == '-');
    } else {
        lemma_scan_digits(page as nat, 0x7fff_ffff);
    }
}

} // verus!

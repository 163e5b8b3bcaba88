//! DMN decision tables: which rules of a table match, and how the hit policy turns
//! the matching rules into the decision's outputs.

use vstd::prelude::*;
use crate::json::{get_binding, insert_binding, lookup, take_binding, JsonValue};
use crate::text::{ascii_upper, ascii_uppered, chars_of, digits, digits_string, is_ascii_text, matches_at, occurs_at, same_text, starts_with, strip_bounds, trim, trim_quotes};

verus! {

/// A decision table: its inputs (columns read from the variables), outputs, rules
/// and hit policy.
pub struct DmnTable {
    pub id: String,
    pub hit_policy: String,
    pub inputs: Vec<DmnInput>,
    pub outputs: Vec<DmnOutput>,
    pub rules: Vec<DmnRule>,
}

/// An input column: the variable it reads and its declared type.
pub struct DmnInput {
    pub expression: String,
    pub input_type: String,
}

/// An output column: its name and declared type.
pub struct DmnOutput {
    pub name: String,
    pub output_type: String,
}

/// A rule: one entry per input column and one per output column.
pub struct DmnRule {
    pub inputs: Vec<String>,
    pub outputs: Vec<String>,
}


/// The comparison an input entry of a rule makes.
#[derive(Debug, PartialEq, Eq, Structural)]
pub enum TestKind {
    /// `-` or empty: any value matches.
    Any,
    /// `<= x`
    AtMost,
    /// `>= x`
    AtLeast,
    /// `< x`
    Below,
    /// `> x`
    Above,
    /// `!= x`: the value's text differs from `x` (an entry `<> x` begins with `<`
    /// and is read as `< ...`).
    NotEqual,
    /// `x`: the value's text is `x`.
    Equal,
}

/// An input entry of a rule, taken apart: the comparison and its operand.
#[derive(Debug)]
pub struct EntryTest {
    pub kind: TestKind,
    pub operand: String,
}

/// What an input entry tests: the entry is trimmed; `-` or nothing matches any
/// value; `<=`, `>=`, `<`, `>` (checked in that order) compare numerically with the
/// trimmed rest; `!=` (and `<>`, which the `<` test already takes) compares the
/// text with the trimmed rest, stripped of quotes; anything else is compared as
/// text, stripped of quotes.
pub open spec fn entry_test(entry: Seq<char>) -> (TestKind, Seq<char>) {
    let e = trim(entry);
    if e.len() == 0 || e == "-"@ {
        (TestKind::Any, Seq::empty())
    } else if starts_with(e, "<="@) {
        (TestKind::AtMost, trim(e.subrange(2, e.len() as int)))
    } else if starts_with(e, ">="@) {
        (TestKind::AtLeast, trim(e.subrange(2, e.len() as int)))
    } else if starts_with(e, "<"@) {
        (TestKind::Below, trim(e.subrange(1, e.len() as int)))
    } else if starts_with(e, ">"@) {
        (TestKind::Above, trim(e.subrange(1, e.len() as int)))
    } else if starts_with(e, "!="@) || starts_with(e, "<>"@) {
        (TestKind::NotEqual, trim_quotes(trim(e.subrange(2, e.len() as int))))
    } else {
        (TestKind::Equal, trim_quotes(e))
    }
}

/// Whether `v[a..b]` starts with `pat`.
fn starts_at(v: &Vec<char>, a: usize, b: usize, pat: &str) -> (r: bool)
    requires
        a <= b <= v@.len(),
    ensures
        r == starts_with(v@.subrange(a as int, b as int), pat@),
{
    let p = chars_of(pat);
    if p.len() > b - a {
        return false;
    }
    let r = matches_at(v, &p, a);
    proof {
        let e = v@.subrange(a as int, b as int);
        assert(e.subrange(0, p@.len() as int) =~= v@.subrange(a as int, a + p@.len()));
    }
    r
}

/// Takes an input entry of a rule apart into its comparison and operand.
pub fn classify_entry(entry: &str) -> (r: EntryTest)
    ensures
        r.kind == entry_test(entry@).0,
        r.operand@ == entry_test(entry@).1,
        trim(entry@).len() == 0 ==> r.kind == TestKind::Any,
{
    let v = chars_of(entry);
    let (a, b) = strip_bounds(&v, 0, v.len(), false);
    assert(v@.subrange(0, v@.len() as int) =~= v@);
    let ghost e = v@.subrange(a as int, b as int);
    proof {
        reveal_strlit("-");
        reveal_strlit("<=");
        reveal_strlit(">=");
        reveal_strlit("<");
        reveal_strlit(">");
        reveal_strlit("!=");
        reveal_strlit("<>");
    }
    if b == a || (b - a == 1 && v[a] == '-') {
        proof {
            if b - a == 1 {
                assert(e =~= "-"@);
            }
        }
        return EntryTest { kind: TestKind::Any, operand: String::new() };
    }
    assert(e != "-"@ || (b - a == 1 && v@[a as int] == '-'));
    let (kind, skip) = if starts_at(&v, a, b, "<=") {
        (TestKind::AtMost, 2usize)
    } else if starts_at(&v, a, b, ">=") {
        (TestKind::AtLeast, 2usize)
    } else if starts_at(&v, a, b, "<") {
        (TestKind::Below, 1usize)
    } else if starts_at(&v, a, b, ">") {
        (TestKind::Above, 1usize)
    } else if starts_at(&v, a, b, "!=") || starts_at(&v, a, b, "<>") {
        (TestKind::NotEqual, 2usize)
    } else {
        (TestKind::Equal, 0usize)
    };
    let (c, d) = strip_bounds(&v, a + skip, b, false);
    proof {
        assert(e.subrange(skip as int, e.len() as int) =~= v@.subrange(a + skip, b as int));
    }
    let (c, d) = if kind == TestKind::NotEqual {
        strip_bounds(&v, c, d, true)
    } else if kind == TestKind::Equal {
        strip_bounds(&v, a, b, true)
    } else {
        (c, d)
    };
    let operand = String::from_str(entry.substring_char(c, d));
    EntryTest { kind, operand }
}


/// Whether a value whose text is `value` (trimmed before comparing) passes a
/// non-numeric test; `None` for the numeric tests, which compare the value and
/// the operand as floating-point numbers.
pub open spec fn textual_outcome(kind: TestKind, operand: Seq<char>, value: Seq<char>) -> Option<bool> {
    match kind {
        TestKind::Any => Some(true),
        TestKind::NotEqual => Some(trim(value) != operand),
        TestKind::Equal => Some(trim(value) == operand),
        _ => None,
    }
}

/// Whether a value whose text is `value` passes `test`, when the test is not
/// numeric.
pub fn textual_match(test: &EntryTest, value: &str) -> (r: Option<bool>)
    ensures
        r == textual_outcome(test.kind, test.operand@, value@),
{
    match test.kind {
        TestKind::Any => Some(true),
        TestKind::NotEqual => Some(!same_text(trim_str(value), test.operand.as_str())),
        TestKind::Equal => Some(same_text(trim_str(value), test.operand.as_str())),
        _ => None,
    }
}

/// `s` without leading and trailing whitespace.
pub fn trim_str(s: &str) -> (r: &str)
    ensures
        r@ == trim(s@),
{
    let v = chars_of(s);
    let (a, b) = strip_bounds(&v, 0, v.len(), false);
    assert(v@.subrange(0, v@.len() as int) =~= v@);
    s.substring_char(a, b)
}

/// Why a decision table could not be evaluated.
#[derive(Debug)]
pub enum DmnError {
    /// A rule has `got` input entries where the table has `expected` inputs.
    InputCountMismatch { expected: usize, got: usize },
    /// The UNIQUE hit policy saw this many matching rules.
    UniqueViolated(usize),
    /// A rule has `got` output entries where the table has `expected` outputs.
    OutputCountMismatch { expected: usize, got: usize },
    /// The (upper-cased) hit policy is not one the engine knows.
    UnsupportedPolicy(String),
}

/// The message of a decision error.
pub open spec fn dmn_error_text(e: DmnError) -> Seq<char> {
    match e {
        DmnError::InputCountMismatch { expected, got } => "rule has mismatched inputs count: expected "@
            + digits(expected as nat) + ", got "@ + digits(got as nat),
        DmnError::UniqueViolated(n) => "hit policy UNIQUE violated: multiple rules matched ("@
            + digits(n as nat) + ")"@,
        DmnError::OutputCountMismatch { expected, got } => "outputs count mismatch: expected "@
            + digits(expected as nat) + ", got "@ + digits(got as nat),
        DmnError::UnsupportedPolicy(p) => "hit policy "@ + p@ + " is not supported"@,
    }
}

/// `a`, the decimal text of `x`, `b`, the decimal text of `y`.
fn counts_text(a: &str, x: usize, b: &str, y: usize) -> (r: String)
    ensures
        r@ == a@ + digits(x as nat) + b@ + digits(y as nat),
{
    let mut s = String::from_str(a);
    s.append(digits_string(x as u64).as_str());
    s.append(b);
    s.append(digits_string(y as u64).as_str());
    s
}

impl DmnError {
    /// The error's message (see `dmn_error_text`).
    pub fn message(&self) -> (r: String)
        ensures
            r@ == dmn_error_text(*self),
    {
        match self {
            DmnError::InputCountMismatch { expected, got } => counts_text(
                "rule has mismatched inputs count: expected ",
                *expected,
                ", got ",
                *got,
            ),
            DmnError::UniqueViolated(n) => {
                let mut s = String::from_str("hit policy UNIQUE violated: multiple rules matched (");
                s.append(digits_string(*n as u64).as_str());
                s.append(")");
                s
            },
            DmnError::OutputCountMismatch { expected, got } => counts_text(
                "outputs count mismatch: expected ",
                *expected,
                ", got ",
                *got,
            ),
            DmnError::UnsupportedPolicy(p) => {
                let mut s = String::from_str("hit policy ");
                s.append(p.as_str());
                s.append(" is not supported");
                s
            },
        }
    }
}

/// The first rule whose number of input entries differs from the table's number
/// of inputs: its position, if there is one.
pub open spec fn first_misshapen(table: DmnTable, i: int) -> Option<int>
    decreases table.rules@.len() - i,
{
    if i < 0 || i >= table.rules@.len() {
        None
    } else if table.rules@[i].inputs@.len() != table.inputs@.len() {
        Some(i)
    } else {
        first_misshapen(table, i + 1)
    }
}

/// The error for the first rule whose number of input entries differs from the
/// table's number of inputs, if there is one.
pub fn rule_shape_error(table: &DmnTable) -> (r: Option<DmnError>)
    ensures
        match first_misshapen(*table, 0) {
            Some(i) => r matches Some(DmnError::InputCountMismatch { expected, got }) && expected
                == table.inputs@.len() && got == table.rules@[i].inputs@.len(),
            None => r is None,
        },
{
    let mut i: usize = 0;
    while i < table.rules.len()
        invariant
            i <= table.rules@.len(),
            first_misshapen(*table, 0) == first_misshapen(*table, i as int),
        decreases table.rules.len() - i,
    {
        if table.rules[i].inputs.len() != table.inputs.len() {
            return Some(
                DmnError::InputCountMismatch {
                    expected: table.inputs.len(),
                    got: table.rules[i].inputs.len(),
                },
            );
        }
        i = i + 1;
    }
    None
}

/// What `str::to_uppercase` returns for a string: its characters mapped by the
/// Unicode `Uppercase` mapping, which can change the length.
pub uninterp spec fn uppercase(s: Seq<char>) -> Seq<char>;

/// Calls `str::to_uppercase`; the result is named by `uppercase`. On ASCII text
/// the Unicode mapping upper-cases the letters `a`-`z` and keeps every other
/// character.
#[verifier::external_body]
fn to_uppercase(s: &str) -> (r: String)
    ensures
        r@ == uppercase(s@),
        is_ascii_text(s@) ==> r@.len() == s@.len() && forall|i: int|
            0 <= i < s@.len() ==> #[trigger] r@[i] == ascii_upper(s@[i]),
{
    s.to_uppercase()
}

/// Upper-cases with `to_uppercase`; on ASCII text that is `ascii_uppered`.
fn upper(s: &str) -> (r: String)
    ensures
        r@ == uppercase(s@),
        is_ascii_text(s@) ==> uppercase(s@) == ascii_uppered(s@),
{
    let r = to_uppercase(s);
    proof {
        if is_ascii_text(s@) {
            assert(r@ =~= ascii_uppered(s@));
        }
    }
    r
}

/// How the matching rules of a table become its result.
#[derive(Debug, PartialEq, Eq, Structural)]
pub enum HitPolicy {
    /// The outputs of the first matching rule.
    First,
    /// For each output, the list of its values over all matching rules.
    Collect,
}

/// The policy name in effect: the upper-cased hit policy, `UNIQUE` when empty.
pub open spec fn policy_name(hit_policy: Seq<char>) -> Seq<char> {
    if uppercase(hit_policy).len() == 0 {
        "UNIQUE"@
    } else {
        uppercase(hit_policy)
    }
}

/// Applies the hit policy to `matched` (at least one) matching rules: UNIQUE
/// takes the single match and fails on more; FIRST and ANY take the first;
/// COLLECT gathers all; any other policy is an error.
pub fn resolve_hit_policy(hit_policy: &str, matched: usize) -> (r: Result<HitPolicy, DmnError>)
    ensures
        ({
            let p = policy_name(hit_policy@);
            if p == "UNIQUE"@ {
                if matched > 1 {
                    r matches Err(DmnError::UniqueViolated(n)) && n == matched
                } else {
                    r == Ok::<HitPolicy, DmnError>(HitPolicy::First)
                }
            } else if p == "FIRST"@ || p == "ANY"@ {
                r == Ok::<HitPolicy, DmnError>(HitPolicy::First)
            } else if p == "COLLECT"@ {
                r == Ok::<HitPolicy, DmnError>(HitPolicy::Collect)
            } else {
                r matches Err(DmnError::UnsupportedPolicy(name)) && name@ == p
            }
        }),
        is_ascii_text(hit_policy@) ==> uppercase(hit_policy@) == ascii_uppered(hit_policy@),
{
    let up = upper(hit_policy);
    let policy = if up.as_str().unicode_len() == 0 {
        String::from_str("UNIQUE")
    } else {
        up
    };
    if same_text(policy.as_str(), "UNIQUE") {
        if matched > 1 {
            Err(DmnError::UniqueViolated(matched))
        } else {
            Ok(HitPolicy::First)
        }
    } else if same_text(policy.as_str(), "FIRST") || same_text(policy.as_str(), "ANY") {
        Ok(HitPolicy::First)
    } else if same_text(policy.as_str(), "COLLECT") {
        Ok(HitPolicy::Collect)
    } else {
        Err(DmnError::UnsupportedPolicy(policy))
    }
}

/// An output entry, taken apart: a boolean literal, or the text that is either a
/// number or a string.
#[derive(Debug)]
pub enum OutputLiteral {
    Bool(bool),
    Text(String),
}

/// The text of an output entry: trimmed, then stripped of quotes.
pub open spec fn output_text(entry: Seq<char>) -> Seq<char> {
    trim_quotes(trim(entry))
}

/// Takes an output entry apart: `true` and `false` are booleans, any other text is
/// kept (a number if it reads as one, else a string).
pub fn classify_output(entry: &str) -> (r: OutputLiteral)
    ensures
        output_text(entry@) == "true"@ ==> r == OutputLiteral::Bool(true),
        output_text(entry@) == "false"@ ==> r == OutputLiteral::Bool(false),
        output_text(entry@) != "true"@ && output_text(entry@) != "false"@ ==> (r matches OutputLiteral::Text(t)
            && t@ == output_text(entry@)),
{
    let v = chars_of(entry);
    let (a, b) = strip_bounds(&v, 0, v.len(), false);
    assert(v@.subrange(0, v@.len() as int) =~= v@);
    let (c, d) = strip_bounds(&v, a, b, true);
    let text = entry.substring_char(c, d);
    proof {
        reveal_strlit("true");
        reveal_strlit("false");
        assert("true"@.len() == 4);
        assert("false"@.len() == 5);
        assert("true"@ != "false"@);
    }
    if same_text(text, "true") {
        OutputLiteral::Bool(true)
    } else if same_text(text, "false") {
        OutputLiteral::Bool(false)
    } else {
        OutputLiteral::Text(String::from_str(text))
    }
}

/// Binds each output's name to the value in the same position, in order (a later
/// output with the same name replaces an earlier one); fails when the counts differ.
pub fn build_output_map(outputs: &Vec<DmnOutput>, values: Vec<JsonValue>) -> (r: Result<
    Vec<(String, JsonValue)>,
    DmnError,
>)
    ensures
        outputs@.len() != values@.len() ==> (r matches Err(
            DmnError::OutputCountMismatch { expected, got },
        ) && expected == outputs@.len() && got == values@.len()),
        outputs@.len() == values@.len() ==> (r matches Ok(m) && forall|k: Seq<char>|
            #[trigger] lookup(m@, k) == last_output_value(outputs@, values@, k)),
{
    if outputs.len() != values.len() {
        return Err(DmnError::OutputCountMismatch { expected: outputs.len(), got: values.len() });
    }
    let mut m: Vec<(String, JsonValue)> = Vec::new();
    let mut rest = values;
    let mut i: usize = 0;
    while i < outputs.len()
        invariant
            outputs@.len() == values@.len(),
            i <= outputs@.len(),
            rest@ == values@.subrange(i as int, values@.len() as int),
            forall|k: Seq<char>| #[trigger]
                lookup(m@, k) == last_output_value(
                    outputs@.take(i as int),
                    values@.take(i as int),
                    k,
                ),
        decreases outputs.len() - i,
    {
        let v = rest.remove(0);
        assert(v == values@[i as int]);
        let name = String::from_str(outputs[i].name.as_str());
        insert_binding(&mut m, name, v);
        proof {
            assert(outputs@.take(i + 1).drop_last() =~= outputs@.take(i as int));
            assert(values@.take(i + 1).drop_last() =~= values@.take(i as int));
            assert(rest@ =~= values@.subrange(i + 1, values@.len() as int));
        }
        i = i + 1;
    }
    proof {
        assert(outputs@.take(outputs@.len() as int) =~= outputs@);
        assert(values@.take(values@.len() as int) =~= values@);
    }
    Ok(m)
}

/// The value that the last output named `k` has among `values`.
pub open spec fn last_output_value(outputs: Seq<DmnOutput>, values: Seq<JsonValue>, k: Seq<char>) -> Option<
    JsonValue,
>
    decreases outputs.len(),
{
    if outputs.len() == 0 || values.len() != outputs.len() {
        None
    } else if outputs.last().name@ == k {
        Some(values.last())
    } else {
        last_output_value(outputs.drop_last(), values.drop_last(), k)
    }
}


/// The values that a list of output maps holds for `k`, in order.
pub open spec fn column(maps: Seq<Vec<(String, JsonValue)>>, k: Seq<char>) -> Seq<JsonValue>
    decreases maps.len(),
{
    if maps.len() == 0 {
        Seq::empty()
    } else {
        column(maps.drop_last(), k) + match lookup(maps.last()@, k) {
            Some(v) => seq![v],
            None => Seq::empty(),
        }
    }
}

/// Whether some output is named `k`.
pub open spec fn is_output_name(outputs: Seq<DmnOutput>, k: Seq<char>) -> bool {
    exists|i: int| 0 <= i < outputs.len() && outputs[i].name@ == k
}

/// Whether one of the first `i` outputs is named `k`.
pub open spec fn named_in_prefix(outputs: Seq<DmnOutput>, i: int, k: Seq<char>) -> bool {
    exists|j: int| 0 <= j < i && outputs[j].name@ == k
}

/// Whether one of `names` is `k`.
pub open spec fn named_in(names: Seq<String>, k: Seq<char>) -> bool {
    exists|a: int| 0 <= a < names.len() && names[a]@ == k
}

/// The COLLECT result of the output maps of the matching rules: each output name
/// bound to the list of its values over the rules, in order.
pub fn collect_outputs(outputs: &Vec<DmnOutput>, maps: Vec<Vec<(String, JsonValue)>>) -> (r: Vec<
    (String, JsonValue),
>)
    ensures
        forall|k: Seq<char>|
            is_output_name(outputs@, k) ==> (#[trigger] lookup(r@, k) matches Some(
                JsonValue::Array(a),
            ) && a@ == column(maps@, k)),
        forall|k: Seq<char>| !is_output_name(outputs@, k) ==> #[trigger] lookup(r@, k) is None,
{
    // the distinct output names, in order of first appearance, with empty columns
    let mut names: Vec<String> = Vec::new();
    let mut cols: Vec<Vec<JsonValue>> = Vec::new();
    let mut i: usize = 0;
    while i < outputs.len()
        invariant
            i <= outputs@.len(),
            names@.len() == cols@.len(),
            forall|a: int, b: int| 0 <= a < b < names@.len() ==> names@[a]@ != names@[b]@,
            forall|k: Seq<char>| #[trigger]
                named_in_prefix(outputs@, i as int, k) <==> named_in(names@, k),
            forall|a: int| 0 <= a < cols@.len() ==> cols@[a]@ == Seq::<JsonValue>::empty(),
        decreases outputs.len() - i,
    {
        let mut seen = false;
        let mut a: usize = 0;
        while a < names.len()
            invariant
                i < outputs@.len(),
                a <= names@.len(),
                seen <==> exists|b: int| 0 <= b < a && names@[b]@ == outputs@[i as int].name@,
            decreases names.len() - a,
        {
            if same_text(names[a].as_str(), outputs[i].name.as_str()) {
                seen = true;
            }
            a = a + 1;
        }
        let ghost old_names = names@;
        let ghost ni = outputs@[i as int].name@;
        if !seen {
            names.push(String::from_str(outputs[i].name.as_str()));
            cols.push(Vec::new());
        }
        proof {
            assert(forall|x: int| 0 <= x < old_names.len() ==> names@[x] == old_names[x]);
            assert(named_in(names@, ni)) by {
                if seen {
                    let b = choose|b: int| 0 <= b < a && old_names[b]@ == ni;
                    assert(names@[b]@ == ni);
                } else {
                    assert(names@[names@.len() - 1]@ == ni);
                }
            }
            assert forall|k: Seq<char>| #[trigger]
                named_in_prefix(outputs@, i + 1, k) <==> named_in(names@, k) by {
                if named_in_prefix(outputs@, i + 1, k) {
                    let j = choose|j: int| 0 <= j < i + 1 && outputs@[j].name@ == k;
                    if j < i {
                        assert(named_in_prefix(outputs@, i as int, k));
                        assert(named_in(old_names, k));
                        let b = choose|b: int| 0 <= b < old_names.len() && old_names[b]@ == k;
                        assert(names@[b]@ == k);
                    }
                }
                if named_in(names@, k) {
                    let b = choose|b: int| 0 <= b < names@.len() && names@[b]@ == k;
                    if b < old_names.len() {
                        assert(old_names[b]@ == k);
                        assert(named_in(old_names, k));
                        assert(named_in_prefix(outputs@, i as int, k));
                        let j = choose|j: int| 0 <= j < i && outputs@[j].name@ == k;
                        assert(outputs@[j].name@ == k);
                    } else {
                        assert(outputs@[i as int].name@ == k);
                    }
                }
            }
            if !seen {
                assert forall|x: int, y: int| 0 <= x < y < names@.len() implies names@[x]@
                    != names@[y]@ by {
                    if y == names@.len() - 1 {
                        assert(!(names@[x]@ == ni));
                    }
                }
            }
        }
        i = i + 1;
    }
    // move each rule's values into the columns
    let ghost all = maps@;
    let mut rest = maps;
    let mut r: usize = 0;
    assert(all.len() == rest.len() as nat);
    while rest.len() > 0
        invariant
            names@.len() == cols@.len(),
            forall|x: int, y: int| 0 <= x < y < names@.len() ==> names@[x]@ != names@[y]@,
            forall|k: Seq<char>| #[trigger]
                named_in_prefix(outputs@, outputs@.len() as int, k) <==> named_in(names@, k),
            all.len() <= usize::MAX,
            r + rest@.len() == all.len(),
            rest@ == all.subrange(r as int, all.len() as int),
            forall|a: int| 0 <= a < cols@.len() ==> cols@[a]@ == column(all.take(r as int), names@[a]@),
        decreases rest.len(),
    {
        let mut m = rest.remove(0);
        let ghost m0 = m@;
        assert(m0 == all[r as int]@);
        let ghost cols0 = cols@;
        let mut a: usize = 0;
        while a < names.len()
            invariant
                names@.len() == cols@.len(),
                cols0.len() == cols@.len(),
                a <= names@.len(),
                forall|x: int, y: int| 0 <= x < y < names@.len() ==> names@[x]@ != names@[y]@,
                forall|b: int|
                    a <= b < names@.len() ==> lookup(m@, names@[b]@) == lookup(m0, names@[b]@),
                forall|b: int| a <= b < cols@.len() ==> cols@[b] == cols0[b],
                forall|b: int|
                    0 <= b < a ==> cols@[b]@ == cols0[b]@ + match lookup(m0, names@[b]@) {
                        Some(v) => seq![v],
                        None => Seq::<JsonValue>::empty(),
                    },
            decreases names.len() - a,
        {
            let got = take_binding(&mut m, names[a].as_str());
            let ghost before = cols@;
            let mut col = cols.remove(a);
            match got {
                Some(v) => {
                    col.push(v);
                },
                None => {},
            }
            cols.insert(a, col);
            proof {
                assert forall|b: int| 0 <= b < cols@.len() && b != a implies cols@[b] == before[b] by {
                }
            }
            a = a + 1;
        }
        proof {
            assert(all.take(r + 1).drop_last() =~= all.take(r as int));
            assert(all.take(r + 1).last() == all[r as int]);
            assert(rest@ =~= all.subrange(r + 1, all.len() as int));
        }
        r = r + 1;
    }
    proof {
        assert(all.take(all.len() as int) =~= all);
    }
    // bind each name to its column
    let mut result: Vec<(String, JsonValue)> = Vec::new();
    let ghost names0 = names@;
    let ghost cols1 = cols@;
    assert forall|a: int| 0 <= a < cols1.len() implies cols1[a]@ == column(all, names0[a]@) by {
        assert(cols1[a]@ == column(all.take(all.len() as int), names0[a]@));
    }
    let mut c: usize = 0;
    assert(names0.len() == names.len() as nat);
    while names.len() > 0
        invariant
            names@.len() == cols@.len(),
            cols1.len() == names0.len(),
            forall|x: int, y: int| 0 <= x < y < names0.len() ==> names0[x]@ != names0[y]@,
            forall|k: Seq<char>| #[trigger]
                named_in_prefix(outputs@, outputs@.len() as int, k) <==> named_in(names0, k),
            forall|a: int| 0 <= a < cols1.len() ==> cols1[a]@ == column(all, names0[a]@),
            names0.len() <= usize::MAX,
            c + names@.len() == names0.len(),
            names@ == names0.subrange(c as int, names0.len() as int),
            cols@ == cols1.subrange(c as int, cols1.len() as int),
            result@.len() == c,
            forall|x: int| 0 <= x < c ==> result@[x].0@ == names0[x]@,
            forall|x: int| 0 <= x < c ==> result@[x].1 == JsonValue::Array(cols1[x]),
        decreases names.len(),
    {
        let n = names.remove(0);
        let col = cols.remove(0);
        assert(col == cols1[c as int]);
        assert(n == names0[c as int]);
        result.push((n, JsonValue::Array(col)));
        proof {
            assert(names@ =~= names0.subrange(c + 1, names0.len() as int));
            assert(cols@ =~= cols1.subrange(c + 1, cols1.len() as int));
        }
        c = c + 1;
    }
    proof {
        assert forall|k: Seq<char>| is_output_name(outputs@, k) implies (#[trigger] lookup(
            result@,
            k,
        ) matches Some(JsonValue::Array(a)) && a@ == column(all, k)) by {
            let w = choose|i: int| 0 <= i < outputs@.len() && outputs@[i].name@ == k;
            assert(named_in_prefix(outputs@, outputs@.len() as int, k));
            assert(named_in(names0, k));
            let a = choose|a: int| 0 <= a < names0.len() && names0[a]@ == k;
            assert forall|x: int, y: int| 0 <= x < y < result@.len() implies result@[x].0@
                != result@[y].0@ by {
                assert(names0[x]@ != names0[y]@);
            }
            lemma_lookup_distinct(result@, a, k);
            assert(result@[a].1 == JsonValue::Array(cols1[a]));
            assert(cols1[a]@ == column(all, k));
        }
        assert forall|k: Seq<char>| !is_output_name(outputs@, k) implies #[trigger] lookup(
            result@,
            k,
        ) is None by {
            assert(!named_in_prefix(outputs@, outputs@.len() as int, k));
            assert(!named_in(names0, k));
            assert forall|x: int| 0 <= x < result@.len() implies result@[x].0@ != k by {
                if result@[x].0@ == k {
                    assert(names0[x]@ == k);
                }
            }
            lemma_lookup_missing(result@, k);
        }
    }
    result
}

proof fn lemma_lookup_distinct(s: Seq<(String, JsonValue)>, a: int, k: Seq<char>)
    requires
        0 <= a < s.len(),
        s[a].0@ == k,
        forall|x: int, y: int| 0 <= x < y < s.len() ==> s[x].0@ != s[y].0@,
    ensures
        lookup(s, k) == Some(s[a].1),
    decreases a,
{
    if a > 0 {
        assert(s[0].0@ != k);
        lemma_lookup_distinct(s.drop_first(), a - 1, k);
    }
}

proof fn lemma_lookup_missing(s: Seq<(String, JsonValue)>, k: Seq<char>)
    requires
        forall|x: int| 0 <= x < s.len() ==> s[x].0@ != k,
    ensures
        lookup(s, k) is None,
    decreases s.len(),
{
    if s.len() > 0 {
        lemma_lookup_missing(s.drop_first(), k);
    }
}


/// How many rules matched.
pub open spec fn count_matched(matched: Seq<bool>) -> nat
    decreases matched.len(),
{
    if matched.len() == 0 {
        0
    } else {
        count_matched(matched.drop_last()) + if matched.last() {
            1nat
        } else {
            0nat
        }
    }
}

/// The first matching rule at or after `i` (the number of rules if none).
pub open spec fn first_matched(matched: Seq<bool>, i: int) -> int
    decreases matched.len() - i,
{
    if i < 0 || i >= matched.len() {
        matched.len() as int
    } else if matched[i] {
        i
    } else {
        first_matched(matched, i + 1)
    }
}

/// The first matching rule at or after `i` whose output entries do not fit the
/// output columns.
pub open spec fn first_bad_output(table: DmnTable, matched: Seq<bool>, i: int) -> Option<int>
    decreases table.rules@.len() - i,
{
    if i < 0 || i >= table.rules@.len() || i >= matched.len() {
        None
    } else if matched[i] && table.rules@[i].outputs@.len() != table.outputs@.len() {
        Some(i)
    } else {
        first_bad_output(table, matched, i + 1)
    }
}

/// The values that output `k` takes in the matching rules among the first `n`, in
/// rule order.
pub open spec fn collected(
    outputs: Seq<DmnOutput>,
    values: Seq<Vec<JsonValue>>,
    matched: Seq<bool>,
    n: int,
    k: Seq<char>,
) -> Seq<JsonValue>
    decreases n,
{
    if n <= 0 {
        Seq::empty()
    } else {
        collected(outputs, values, matched, n - 1, k) + if matched[n - 1] {
            match last_output_value(outputs, values[n - 1]@, k) {
                Some(v) => seq![v],
                None => Seq::empty(),
            }
        } else {
            Seq::empty()
        }
    }
}

/// What a decision table decides, given which rules matched and the values of
/// each rule's output entries: a rule with the wrong number of input entries is
/// an error; no match gives no outputs; otherwise the hit policy decides (see
/// `resolve_hit_policy`): a single-hit policy takes the outputs of the first
/// matching rule, COLLECT gathers each output's values over all matching rules
/// into an array, and a matching rule with the wrong number of output entries is
/// an error.
pub open spec fn decided(
    table: DmnTable,
    matched: Seq<bool>,
    values: Seq<Vec<JsonValue>>,
    r: Result<Option<Vec<(String, JsonValue)>>, DmnError>,
) -> bool {
    let n = count_matched(matched);
    let p = policy_name(table.hit_policy@);
    match first_misshapen(table, 0) {
        Some(i) => r matches Err(DmnError::InputCountMismatch { expected, got }) && expected
            == table.inputs@.len() && got == table.rules@[i].inputs@.len(),
        None => if n == 0 {
            r matches Ok(None)
        } else if p == "UNIQUE"@ && n > 1 {
            r matches Err(DmnError::UniqueViolated(c)) && c == n
        } else if p == "UNIQUE"@ || p == "FIRST"@ || p == "ANY"@ {
            let j = first_matched(matched, 0);
            if table.rules@[j].outputs@.len() != table.outputs@.len() {
                r matches Err(DmnError::OutputCountMismatch { expected, got }) && expected
                    == table.outputs@.len() && got == table.rules@[j].outputs@.len()
            } else {
                r matches Ok(Some(m)) && forall|k: Seq<char>|
                    #[trigger] lookup(m@, k) == last_output_value(table.outputs@, values[j]@, k)
            }
        } else if p == "COLLECT"@ {
            match first_bad_output(table, matched, 0) {
                Some(j) => r matches Err(DmnError::OutputCountMismatch { expected, got })
                    && expected == table.outputs@.len() && got
                    == table.rules@[j].outputs@.len(),
                None => r matches Ok(Some(m)) && (forall|k: Seq<char>|
                    is_output_name(table.outputs@, k) ==> (#[trigger] lookup(m@, k) matches Some(
                        JsonValue::Array(a),
                    ) && a@ == collected(
                        table.outputs@,
                        values,
                        matched,
                        table.rules@.len() as int,
                        k,
                    ))) && (forall|k: Seq<char>|
                    !is_output_name(table.outputs@, k) ==> #[trigger] lookup(m@, k) is None),
            }
        } else {
            r matches Err(DmnError::UnsupportedPolicy(name)) && name@ == p
        },
    }
}

proof fn lemma_count_step(matched: Seq<bool>, i: int)
    requires
        0 <= i < matched.len(),
    ensures
        count_matched(matched.take(i + 1)) == count_matched(matched.take(i)) + if matched[i] {
            1nat
        } else {
            0nat
        },
{
    assert(matched.take(i + 1).drop_last() =~= matched.take(i));
}

proof fn lemma_first_matched_none(matched: Seq<bool>, i: int)
    requires
        0 <= i <= matched.len(),
        forall|j: int| 0 <= j < i ==> !matched[j],
    ensures
        first_matched(matched, 0) == first_matched(matched, i),
    decreases i,
{
    if i > 0 {
        lemma_first_matched_none(matched, i - 1);
    }
}

proof fn lemma_count_zero(matched: Seq<bool>)
    requires
        forall|j: int| 0 <= j < matched.len() ==> !matched[j],
    ensures
        count_matched(matched) == 0,
    decreases matched.len(),
{
    if matched.len() > 0 {
        lemma_count_zero(matched.drop_last());
    }
}

/// Decides a table (see `decided`), given for each rule whether it matched and
/// the values of its output entries.
pub fn evaluate(table: &DmnTable, matched: &Vec<bool>, values: Vec<Vec<JsonValue>>) -> (r:
    Result<Option<Vec<(String, JsonValue)>>, DmnError>)
    requires
        matched@.len() == table.rules@.len(),
        values@.len() == table.rules@.len(),
        forall|i: int|
            0 <= i < values@.len() ==> #[trigger] values@[i]@.len() == table.rules@[i].outputs@.len(),
    ensures
        decided(*table, matched@, values@, r),
        first_misshapen(*table, 0) is None && count_matched(matched@) > 0 && is_ascii_text(
            table.hit_policy@,
        ) ==> uppercase(table.hit_policy@) == ascii_uppered(table.hit_policy@),
{
    match rule_shape_error(table) {
        Some(e) => {
            return Err(e);
        },
        None => {},
    }
    let mut n: usize = 0;
    let mut i: usize = 0;
    while i < matched.len()
        invariant
            i <= matched@.len(),
            n == count_matched(matched@.take(i as int)),
            n <= i,
        decreases matched.len() - i,
    {
        proof {
            lemma_count_step(matched@, i as int);
        }
        if matched[i] {
            n = n + 1;
        }
        i = i + 1;
    }
    assert(matched@.take(matched@.len() as int) =~= matched@);
    if n == 0 {
        return Ok(None);
    }
    let policy = match resolve_hit_policy(table.hit_policy.as_str(), n) {
        Ok(p) => p,
        Err(e) => {
            return Err(e);
        },
    };
    proof {
        reveal_strlit("UNIQUE");
        reveal_strlit("FIRST");
        reveal_strlit("ANY");
        reveal_strlit("COLLECT");
    }
    let ghost all = values@;
    let mut rest = values;
    match policy {
        HitPolicy::First => {
            let mut j: usize = 0;
            while j < matched.len() && !matched[j]
                invariant
                    is_ascii_text(table.hit_policy@) ==> uppercase(table.hit_policy@)
                        == ascii_uppered(table.hit_policy@),
                    j <= matched@.len(),
                    rest@ == all.subrange(j as int, all.len() as int),
                    all.len() == matched@.len(),
                    forall|q: int| 0 <= q < j ==> !matched@[q],
                decreases matched.len() - j,
            {
                rest.remove(0);
                j = j + 1;
                assert(rest@ =~= all.subrange(j as int, all.len() as int));
            }
            proof {
                lemma_first_matched_none(matched@, j as int);
                if j == matched@.len() {
                    lemma_count_zero(matched@);
                }
            }
            let vals = rest.remove(0);
            match build_output_map(&table.outputs, vals) {
                Ok(m) => Ok(Some(m)),
                Err(e) => Err(e),
            }
        },
        HitPolicy::Collect => {
            assert(policy_name(table.hit_policy@) == "COLLECT"@);
            let mut maps: Vec<Vec<(String, JsonValue)>> = Vec::new();
            let mut q: usize = 0;
            while q < matched.len()
                invariant
                    is_ascii_text(table.hit_policy@) ==> uppercase(table.hit_policy@)
                        == ascii_uppered(table.hit_policy@),
                    q <= matched@.len(),
                    all.len() == matched@.len(),
                    matched@.len() == table.rules@.len(),
                    count_matched(matched@) > 0,
                    policy_name(table.hit_policy@) == "COLLECT"@,
                    first_misshapen(*table, 0) is None,
                    forall|x: int|
                        0 <= x < all.len() ==> #[trigger] all[x]@.len()
                            == table.rules@[x].outputs@.len(),
                    rest@ == all.subrange(q as int, all.len() as int),
                    first_bad_output(*table, matched@, 0) == first_bad_output(
                        *table,
                        matched@,
                        q as int,
                    ),
                    forall|k: Seq<char>| #[trigger]
                        column(maps@, k) == collected(table.outputs@, all, matched@, q as int, k),
                decreases matched.len() - q,
            {
                let vals = rest.remove(0);
                assert(vals == all[q as int]);
                assert(vals@.len() == table.rules@[q as int].outputs@.len());
                if matched[q] {
                    match build_output_map(&table.outputs, vals) {
                        Ok(m) => {
                            let ghost before = maps@;
                            let ghost mm = m@;
                            maps.push(m);
                            proof {
                                assert forall|k: Seq<char>| #[trigger]
                                    column(maps@, k) == collected(
                                        table.outputs@,
                                        all,
                                        matched@,
                                        q + 1,
                                        k,
                                    ) by {
                                    assert(maps@.drop_last() =~= before);
                                    assert(lookup(mm, k) == last_output_value(
                                        table.outputs@,
                                        all[q as int]@,
                                        k,
                                    ));
                                    assert(maps@.last()@ == mm);
                                    assert(column(before, k) == collected(
                                        table.outputs@,
                                        all,
                                        matched@,
                                        q as int,
                                        k,
                                    ));
                                }
                            }
                        },
                        Err(e) => {
                            proof {
                                reveal_strlit("UNIQUE");
                                reveal_strlit("FIRST");
                                reveal_strlit("ANY");
                                reveal_strlit("COLLECT");
                                assert(first_bad_output(*table, matched@, q as int) == Some(q as int));
                                assert("UNIQUE"@.len() != "COLLECT"@.len());
                                assert("FIRST"@.len() != "COLLECT"@.len());
                                assert("ANY"@.len() != "COLLECT"@.len());
                            }
                            return Err(e);
                        },
                    }
                } else {
                    proof {
                        assert forall|k: Seq<char>| #[trigger]
                            column(maps@, k) == collected(
                                table.outputs@,
                                all,
                                matched@,
                                q + 1,
                                k,
                            ) by {
                            assert(collected(table.outputs@, all, matched@, q + 1, k) =~= collected(
                                table.outputs@,
                                all,
                                matched@,
                                q as int,
                                k,
                            ));
                        }
                    }
                }
                q = q + 1;
                assert(rest@ =~= all.subrange(q as int, all.len() as int));
            }
            let out = collect_outputs(&table.outputs, maps);
            Ok(Some(out))
        },
    }
}

/// The text an input entry compares a variable's value with: nothing for a
/// missing or null value, `true`/`false` for a boolean, a number's JSON text, a
/// string itself. Arrays and objects (`None` here) compare by their JSON text.
pub open spec fn scalar_text(v: Option<JsonValue>) -> Option<Seq<char>> {
    match v {
        None => Some(Seq::empty()),
        Some(JsonValue::Null) => Some(Seq::empty()),
        Some(JsonValue::Bool(b)) => Some(if b { "true"@ } else { "false"@ }),
        Some(JsonValue::Number(n)) => Some(n@),
        Some(JsonValue::Str(s)) => Some(s@),
        _ => None,
    }
}

/// The text of the value bound to `name` in the variables, for comparison with
/// an input entry (see `scalar_text`).
pub fn value_text(variables: &Vec<(String, JsonValue)>, name: &str) -> (r: Option<String>)
    ensures
        r matches Some(t) ==> scalar_text(lookup(variables@, name@)) == Some(t@),
        r is None ==> scalar_text(lookup(variables@, name@)) is None,
{
    match get_binding(variables, name) {
        None => Some(String::new()),
        Some(JsonValue::Null) => Some(String::new()),
        Some(JsonValue::Bool(b)) => {
            if *b {
                Some(String::from_str("true"))
            } else {
                Some(String::from_str("false"))
            }
        },
        Some(JsonValue::Number(n)) => Some(n.clone()),
        Some(JsonValue::Str(s)) => Some(s.clone()),
        _ => None,
    }
}

/// Blank entry law: an input entry that is empty (or only white space) tests
/// nothing: its test is `Any`, and every value passes it.
pub proof fn law_blank_entry_matches_any_value(entry: Seq<char>, test: EntryTest, value: Seq<char>)
    requires
        test.kind == entry_test(entry).0,
        test.operand@ == entry_test(entry).1,
        trim(entry).len() == 0,
    ensures
        test.kind == TestKind::Any,
        textual_outcome(test.kind, test.operand@, value) == Some(true),
{
}

/// `first_matched` from `i` is the lowest matching rule at or after `i`, or the
/// number of rules when none matches there.
proof fn lemma_first_matched_lowest(matched: Seq<bool>, i: int)
    requires
        0 <= i <= matched.len(),
    ensures
        i <= first_matched(matched, i) <= matched.len(),
        first_matched(matched, i) < matched.len() ==> matched[first_matched(matched, i)],
        forall|q: int| i <= q < first_matched(matched, i) ==> !matched[q],
    decreases matched.len() - i,
{
    if i < matched.len() && !matched[i] {
        lemma_first_matched_lowest(matched, i + 1);
    }
}

/// Single-hit law: under FIRST, ANY (and UNIQUE, when it succeeds) the outputs
/// are those of the lowest-numbered matching rule: it matched, and no rule
/// before it did.
pub proof fn law_single_hit_uses_first_match(
    table: DmnTable,
    matched: Seq<bool>,
    values: Seq<Vec<JsonValue>>,
    m: Vec<(String, JsonValue)>,
)
    requires
        decided(
            table,
            matched,
            values,
            Ok::<Option<Vec<(String, JsonValue)>>, DmnError>(Some(m)),
        ),
        policy_name(table.hit_policy@) == "FIRST"@ || policy_name(table.hit_policy@) == "ANY"@
            || policy_name(table.hit_policy@) == "UNIQUE"@,
    ensures
        exists|j: int|
            0 <= j < matched.len() && matched[j] && (forall|q: int| 0 <= q < j ==> !matched[q])
                && forall|k: Seq<char>|
                #[trigger] lookup(m@, k) == last_output_value(table.outputs@, values[j]@, k),
{
    lemma_first_matched_lowest(matched, 0);
    let j = first_matched(matched, 0);
    if j == matched.len() {
        lemma_count_zero(matched);
    }
    assert(matched[j]);
}

/// More than one rule matched exactly when two different rules matched.
proof fn lemma_count_two(matched: Seq<bool>)
    ensures
        count_matched(matched) > 1 <==> exists|i: int, j: int|
            0 <= i < j < matched.len() && matched[i] && matched[j],
        count_matched(matched) > 0 <==> exists|i: int| 0 <= i < matched.len() && matched[i],
    decreases matched.len(),
{
    if matched.len() > 0 {
        let f = matched.drop_last();
        lemma_count_two(f);
        let n = matched.len() - 1;
        if exists|i: int, j: int| 0 <= i < j < f.len() && f[i] && f[j] {
            let (i, j) = choose|i: int, j: int| 0 <= i < j < f.len() && f[i] && f[j];
            assert(matched[i] && matched[j]);
        }
        if exists|i: int| 0 <= i < f.len() && f[i] {
            let i = choose|i: int| 0 <= i < f.len() && f[i];
            assert(matched[i]);
        }
        if exists|i: int, j: int| 0 <= i < j < matched.len() && matched[i] && matched[j] {
            let (i, j) = choose|i: int, j: int| 0 <= i < j < matched.len() && matched[i] && matched[j];
            if j < n {
                assert(f[i] && f[j]);
            } else {
                assert(f[i]);
            }
        }
        if exists|i: int| 0 <= i < matched.len() && matched[i] {
            let i = choose|i: int| 0 <= i < matched.len() && matched[i];
            if i < n {
                assert(f[i]);
            }
        }
    }
}

/// UNIQUE law: with well-formed rules, a UNIQUE table fails exactly when two
/// different rules match, and gives no outputs exactly when none matches.
pub proof fn law_unique_rejects_two_matches(
    table: DmnTable,
    matched: Seq<bool>,
    values: Seq<Vec<JsonValue>>,
    r: Result<Option<Vec<(String, JsonValue)>>, DmnError>,
)
    requires
        decided(table, matched, values, r),
        first_misshapen(table, 0) is None,
        policy_name(table.hit_policy@) == "UNIQUE"@,
    ensures
        (r matches Err(DmnError::UniqueViolated(_))) <==> exists|i: int, j: int|
            0 <= i < j < matched.len() && matched[i] && matched[j],
        (r matches Ok(None)) <==> forall|i: int| 0 <= i < matched.len() ==> !matched[i],
{
    lemma_count_two(matched);
}

} // verus!

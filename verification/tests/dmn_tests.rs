use wasmee::dmn::{
    classify_entry, classify_output, evaluate, resolve_hit_policy, textual_match, value_text, DmnError,
    DmnInput, DmnOutput, DmnRule, DmnTable, HitPolicy, OutputLiteral, TestKind,
};
use wasmee::json::JsonValue;

fn strings(v: &[&str]) -> Vec<String> {
    v.iter().map(|s| s.to_string()).collect()
}

fn table(policy: &str, inputs: &[&str], outputs: &[&str], rules: &[(&[&str], &[&str])]) -> DmnTable {
    DmnTable {
        id: "t".to_string(),
        hit_policy: policy.to_string(),
        inputs: inputs
            .iter()
            .map(|e| DmnInput { expression: e.to_string(), input_type: "string".to_string() })
            .collect(),
        outputs: outputs
            .iter()
            .map(|n| DmnOutput { name: n.to_string(), output_type: "string".to_string() })
            .collect(),
        rules: rules.iter().map(|(i, o)| DmnRule { inputs: strings(i), outputs: strings(o) }).collect(),
    }
}

fn text(s: &str) -> JsonValue {
    JsonValue::Str(s.to_string())
}

fn values_of(t: &DmnTable) -> Vec<Vec<JsonValue>> {
    t.rules
        .iter()
        .map(|r| {
            r.outputs
                .iter()
                .map(|e| match classify_output(e) {
                    OutputLiteral::Bool(b) => JsonValue::Bool(b),
                    OutputLiteral::Text(t) => JsonValue::Str(t),
                })
                .collect()
        })
        .collect()
}

fn get<'a>(m: &'a [(String, JsonValue)], k: &str) -> Option<&'a JsonValue> {
    m.iter().find(|(n, _)| n == k).map(|(_, v)| v)
}

#[test]
fn input_entries_are_classified() {
    let t = classify_entry("  - ");
    assert_eq!(t.kind, TestKind::Any);
    let t = classify_entry("<= 10");
    assert_eq!((t.kind, t.operand.as_str()), (TestKind::AtMost, "10"));
    let t = classify_entry(">=5");
    assert_eq!((t.kind, t.operand.as_str()), (TestKind::AtLeast, "5"));
    let t = classify_entry("< 3");
    assert_eq!((t.kind, t.operand.as_str()), (TestKind::Below, "3"));
    let t = classify_entry(">3");
    assert_eq!((t.kind, t.operand.as_str()), (TestKind::Above, "3"));
    let t = classify_entry("!= 'gold'");
    assert_eq!((t.kind, t.operand.as_str()), (TestKind::NotEqual, "gold"));
    // `<>` begins with `<`, which is tested first.
    let t = classify_entry("<> \"gold\"");
    assert_eq!((t.kind, t.operand.as_str()), (TestKind::Below, "> \"gold\""));
    let t = classify_entry(" \"silver\" ");
    assert_eq!((t.kind, t.operand.as_str()), (TestKind::Equal, "silver"));
}

#[test]
fn textual_entries_compare_trimmed_text() {
    assert_eq!(textual_match(&classify_entry("'gold'"), " gold "), Some(true));
    assert_eq!(textual_match(&classify_entry("!= gold"), "gold"), Some(false));
    assert_eq!(textual_match(&classify_entry("-"), "anything"), Some(true));
    assert_eq!(textual_match(&classify_entry("< 3"), "2"), None);
}

#[test]
fn hit_policies() {
    assert_eq!(resolve_hit_policy("", 1).unwrap(), HitPolicy::First);
    assert!(matches!(resolve_hit_policy("unique", 2), Err(DmnError::UniqueViolated(2))));
    assert_eq!(resolve_hit_policy("first", 3).unwrap(), HitPolicy::First);
    assert_eq!(resolve_hit_policy("Any", 3).unwrap(), HitPolicy::First);
    assert_eq!(resolve_hit_policy("collect", 3).unwrap(), HitPolicy::Collect);
    match resolve_hit_policy("priority", 1) {
        Err(DmnError::UnsupportedPolicy(p)) => assert_eq!(p, "PRIORITY"),
        other => panic!("unexpected {:?}", other),
    }
}

#[test]
fn output_literals() {
    assert!(matches!(classify_output(" 'true' "), OutputLiteral::Bool(true)));
    assert!(matches!(classify_output("false"), OutputLiteral::Bool(false)));
    match classify_output("\"approved\"") {
        OutputLiteral::Text(t) => assert_eq!(t, "approved"),
        other => panic!("unexpected {:?}", other),
    }
}

#[test]
fn unique_takes_the_single_match() {
    let t = table("UNIQUE", &["tier"], &["discount", "ok"], &[(&["gold"], &["'high'", "true"]), (&["silver"], &["low", "false"])]);
    let r = evaluate(&t, &vec![true, false], values_of(&t)).unwrap().unwrap();
    assert_eq!(get(&r, "discount"), Some(&text("high")));
    assert_eq!(get(&r, "ok"), Some(&JsonValue::Bool(true)));
    assert!(matches!(
        evaluate(&t, &vec![true, true], values_of(&t)),
        Err(DmnError::UniqueViolated(2))
    ));
    assert!(evaluate(&t, &vec![false, false], values_of(&t)).unwrap().is_none());
}

#[test]
fn first_takes_the_first_match() {
    let t = table("FIRST", &["x"], &["out"], &[(&["a"], &["one"]), (&["-"], &["two"])]);
    let r = evaluate(&t, &vec![false, true], values_of(&t)).unwrap().unwrap();
    assert_eq!(get(&r, "out"), Some(&text("two")));
}

#[test]
fn collect_gathers_every_match() {
    let t = table("COLLECT", &["x"], &["out"], &[(&["a"], &["one"]), (&["b"], &["two"]), (&["-"], &["three"])]);
    let r = evaluate(&t, &vec![true, false, true], values_of(&t)).unwrap().unwrap();
    assert_eq!(r.len(), 1);
    assert_eq!(get(&r, "out"), Some(&JsonValue::Array(vec![text("one"), text("three")])));
}

#[test]
fn decision_errors() {
    let t = table("FIRST", &["x", "y"], &["out"], &[(&["a", "b"], &["one"]), (&["a"], &["two"])]);
    assert!(matches!(
        evaluate(&t, &vec![true, false], values_of(&t)),
        Err(DmnError::InputCountMismatch { expected: 2, got: 1 })
    ));
    let t = table("FIRST", &["x"], &["out", "more"], &[(&["a"], &["one"])]);
    assert!(matches!(
        evaluate(&t, &vec![true], values_of(&t)),
        Err(DmnError::OutputCountMismatch { expected: 2, got: 1 })
    ));
    let t = table("COLLECT", &["x"], &["out"], &[(&["a"], &["one"]), (&["a"], &["two", "three"])]);
    assert!(matches!(
        evaluate(&t, &vec![true, true], values_of(&t)),
        Err(DmnError::OutputCountMismatch { expected: 1, got: 2 })
    ));
    let t = table("RULE ORDER", &["x"], &["out"], &[(&["a"], &["one"])]);
    assert!(matches!(evaluate(&t, &vec![true], values_of(&t)), Err(DmnError::UnsupportedPolicy(_))));
}

#[test]
fn value_texts() {
    let vars = vec![
        ("n".to_string(), JsonValue::Number("12.5".to_string())),
        ("b".to_string(), JsonValue::Bool(false)),
        ("s".to_string(), text("gold")),
        ("z".to_string(), JsonValue::Null),
        ("a".to_string(), JsonValue::Array(vec![])),
    ];
    assert_eq!(value_text(&vars, "n"), Some("12.5".to_string()));
    assert_eq!(value_text(&vars, "b"), Some("false".to_string()));
    assert_eq!(value_text(&vars, "s"), Some("gold".to_string()));
    assert_eq!(value_text(&vars, "z"), Some(String::new()));
    assert_eq!(value_text(&vars, "missing"), Some(String::new()));
    assert_eq!(value_text(&vars, "a"), None);
}

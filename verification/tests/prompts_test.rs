use detert_silence::prompts::{
    extract_json_object, finalise_verdict, parse_active_rules, parse_voice_decision,
    persona_for_level, RawDecision, PERSONAS,
};
use detert_silence::world::{Expression, Motive};

#[test]
fn parses_canonical_voice() {
    let v = parse_voice_decision(r#"{"decision": "voice", "motive": null, "active_rules": []}"#);
    assert_eq!(v.expression, Expression::Voice);
    assert_eq!(v.motive, None);
    assert!(v.active_rules.is_empty());
    assert!(!v.parse_failed);
}

#[test]
fn parses_silence_with_rules() {
    let v = parse_voice_decision(
        r#"{"decision":"silence","motive":"defensive","active_rules":["need_data","career_consq"]}"#,
    );
    assert_eq!(v.expression, Expression::Silence);
    assert_eq!(v.motive, Some(Motive::Defensive));
    assert_eq!(v.active_rules, vec![1u8, 4u8]);
    assert!(!v.parse_failed);
}

#[test]
fn tolerates_surrounding_text() {
    let v = parse_voice_decision(
        r#"Here you go: {"decision":"silence","motive":"prosocial","active_rules":["no_embarrass"]}. Done."#,
    );
    assert_eq!(v.expression, Expression::Silence);
    assert_eq!(v.motive, Some(Motive::Prosocial));
    assert_eq!(v.active_rules, vec![3u8]);
}

#[test]
fn dedups_and_sorts_rules() {
    let v = parse_voice_decision(
        r#"{"decision":"silence","motive":"acquiescent","active_rules":["career_consq","need_data","need_data"]}"#,
    );
    assert_eq!(v.active_rules, vec![1u8, 4u8]);
}

#[test]
fn unknown_decision_falls_back() {
    let v = parse_voice_decision(r#"{"decision":"???","motive":"as","active_rules":[]}"#);
    assert!(v.parse_failed);
    assert_eq!(v.expression, Expression::Silence);
}

#[test]
fn silence_without_motive_flags_parse_failed() {
    let v = parse_voice_decision(r#"{"decision":"silence","active_rules":["need_data"]}"#);
    assert!(v.parse_failed);
    assert_eq!(v.active_rules, vec![1u8]);
}

#[test]
fn no_json_falls_back() {
    let v = parse_voice_decision("no json here");
    assert!(v.parse_failed);
    assert_eq!(v.expression, Expression::Silence);
}

#[test]
fn personas_by_level() {
    assert_eq!(persona_for_level(0), PERSONAS[0]);
    assert_eq!(persona_for_level(5), PERSONAS[2]);
}

#[test]
fn personas_each_band() {
    assert_eq!(persona_for_level(1), PERSONAS[1]);
    assert_eq!(persona_for_level(2), PERSONAS[2]);
    assert_eq!(persona_for_level(255), PERSONAS[2]);
}

#[test]
fn extracts_first_balanced_object() {
    assert_eq!(
        extract_json_object(r#"x {"a": {"b": 1}} y {"c": 2}"#),
        Some(r#"{"a": {"b": 1}}"#.to_string())
    );
    // Braces and escaped quotes inside strings do not count.
    assert_eq!(
        extract_json_object(r#"pre {"a": "}{ \" }"} post"#),
        Some(r#"{"a": "}{ \" }"}"#.to_string())
    );
    // Multi-byte characters before and inside the object are kept whole.
    assert_eq!(
        extract_json_object("é {\"ψ\": \"ι\"} ρ"),
        Some("{\"ψ\": \"ι\"}".to_string())
    );
    assert_eq!(extract_json_object("{ unbalanced"), None);
    assert_eq!(extract_json_object("} { }"), Some("{ }".to_string()));
    assert_eq!(extract_json_object(""), None);
}

#[test]
fn active_rule_aliases() {
    let labels: Vec<String> = [
        " Target-Id ",
        "needdata",
        "NO_BYPASS",
        "noembarrass",
        "career_consequences",
        "unknown",
        "target_id",
    ]
    .iter()
    .map(|s| s.to_string())
    .collect();
    assert_eq!(parse_active_rules(&labels), vec![0, 1, 2, 3, 4]);
    let none: Vec<String> = vec!["career".to_string()];
    assert!(parse_active_rules(&none).is_empty());
}

#[test]
fn finalise_verdict_cases() {
    let raw = RawDecision {
        decision: Some(" Speak_Up ".to_string()),
        motive: Some("defensive".to_string()),
        active_rules: vec!["need_data".to_string()],
    };
    let v = finalise_verdict(raw);
    assert_eq!(v.expression, Expression::Voice);
    assert_eq!(v.motive, None);
    assert!(v.active_rules.is_empty());
    assert!(!v.parse_failed);

    let raw = RawDecision {
        decision: Some("WITHHOLD".to_string()),
        motive: Some("qs".to_string()),
        active_rules: vec!["no-bypass".to_string(), "bogus".to_string()],
    };
    let v = finalise_verdict(raw);
    assert_eq!(v.expression, Expression::Silence);
    assert_eq!(v.motive, Some(Motive::Defensive));
    assert_eq!(v.active_rules, vec![2]);
    assert!(!v.parse_failed);

    let raw = RawDecision { decision: None, motive: None, active_rules: vec![] };
    let v = finalise_verdict(raw);
    assert_eq!(v.expression, Expression::Silence);
    assert!(v.parse_failed);
}

#[test]
fn lenient_json_fields() {
    // A non-string decision is no decision.
    let v = parse_voice_decision(r#"{"decision": 3, "motive": "ps"}"#);
    assert!(v.parse_failed);
    assert_eq!(v.expression, Expression::Silence);
    // Non-string rule entries are skipped; a non-array is no rules.
    let v = parse_voice_decision(
        r#"{"decision":"silent","motive":"PS","active_rules":[1, "no_bypass", null]}"#,
    );
    assert_eq!(v.motive, Some(Motive::Prosocial));
    assert_eq!(v.active_rules, vec![2]);
    assert!(!v.parse_failed);
    let v = parse_voice_decision(r#"{"decision":"silent","motive":"as","active_rules":"need_data"}"#);
    assert_eq!(v.motive, Some(Motive::Acquiescent));
    assert!(v.active_rules.is_empty());
    // An object that is not valid JSON falls back.
    let v = parse_voice_decision(r#"{"decision": voice}"#);
    assert!(v.parse_failed);
    assert_eq!(v.expression, Expression::Silence);
}

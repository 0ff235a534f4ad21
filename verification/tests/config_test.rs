use detert_silence::config::{
    decision_mechanism, parse_llm_mode, parse_llm_modes, parse_network_kind, DecisionMechanism,
    LlmMode, NetworkKind, OrgShape,
};

#[test]
fn parse_llm_mode_variants() {
    assert_eq!(parse_llm_mode("llm").unwrap(), LlmMode::Llm);
    assert_eq!(parse_llm_mode("rule").unwrap(), LlmMode::Rule);
    assert_eq!(parse_llm_mode("RULE_NO_IVT").unwrap(), LlmMode::RuleNoIvt);
    assert!(parse_llm_mode("bogus").is_err());
}

#[test]
fn ivt_active_flags() {
    assert!(LlmMode::Rule.ivt_active());
    assert!(LlmMode::Llm.ivt_active());
    assert!(!LlmMode::RuleNoIvt.ivt_active());
}

#[test]
fn parse_network_kind_variants() {
    assert_eq!(
        parse_network_kind("watts-strogatz").unwrap(),
        NetworkKind::WattsStrogatz
    );
    assert_eq!(parse_network_kind("ER").unwrap(), NetworkKind::ErdosRenyi);
    assert_eq!(
        parse_network_kind("ba").unwrap(),
        NetworkKind::BarabasiAlbert
    );
}

#[test]
fn llm_mode_aliases_and_white_space() {
    assert_eq!(parse_llm_mode("  Ollama\t").unwrap(), LlmMode::Llm);
    assert_eq!(parse_llm_mode("openai").unwrap(), LlmMode::Llm);
    assert_eq!(parse_llm_mode("Logit").unwrap(), LlmMode::Rule);
    assert_eq!(parse_llm_mode("rules").unwrap(), LlmMode::Rule);
    assert_eq!(parse_llm_mode("rule-no-ivt").unwrap(), LlmMode::RuleNoIvt);
    assert_eq!(parse_llm_mode("no_ivt").unwrap(), LlmMode::RuleNoIvt);
    assert_eq!(parse_llm_mode("\u{3000}ABLATION\n").unwrap(), LlmMode::RuleNoIvt);
    assert!(parse_llm_mode("rule no ivt").is_err());
    assert!(parse_llm_mode("").is_err());
}

#[test]
fn llm_mode_error_message() {
    assert_eq!(
        parse_llm_mode("bogus").unwrap_err(),
        "invalid llm-mode: \"bogus\" (llm / rule / rule_no_ivt)"
    );
    assert_eq!(
        parse_llm_mode(" x ").unwrap_err(),
        "invalid llm-mode: \" x \" (llm / rule / rule_no_ivt)"
    );
}

#[test]
fn llm_mode_labels_round_trip() {
    for m in [LlmMode::Llm, LlmMode::Rule, LlmMode::RuleNoIvt] {
        assert_eq!(parse_llm_mode(m.label()).unwrap(), m);
    }
    assert_eq!(LlmMode::RuleNoIvt.label(), "rule_no_ivt");
    assert!(LlmMode::Llm.is_llm());
    assert!(!LlmMode::Rule.is_llm());
    assert!(!LlmMode::RuleNoIvt.is_llm());
}

#[test]
fn network_kind_aliases_and_error() {
    assert_eq!(parse_network_kind(" WS ").unwrap(), NetworkKind::WattsStrogatz);
    assert_eq!(parse_network_kind("small-world").unwrap(), NetworkKind::WattsStrogatz);
    assert_eq!(parse_network_kind("erdos_renyi").unwrap(), NetworkKind::ErdosRenyi);
    assert_eq!(parse_network_kind("Scale-Free").unwrap(), NetworkKind::BarabasiAlbert);
    assert_eq!(
        parse_network_kind("grid").unwrap_err(),
        "invalid network kind: \"grid\" (watts-strogatz / erdos-renyi / barabasi-albert)"
    );
}

#[test]
fn org_shape_headcount_and_slots() {
    let shape = OrgShape { n_teams: 2, team_size: 3, n_levels: 2, headcount: None };
    assert_eq!(shape.n_employees(), 6);
    assert_eq!(
        shape.employee_slots(),
        vec![(0, 0), (0, 1), (0, 0), (1, 1), (1, 0), (1, 1)]
    );
    let flat = OrgShape { n_teams: 1, team_size: 2, n_levels: 0, headcount: None };
    assert_eq!(flat.employee_slots(), vec![(0, 0), (0, 0)]);
    let empty = OrgShape { n_teams: 3, team_size: 0, n_levels: 3, headcount: None };
    assert_eq!(empty.n_employees(), 0);
    assert!(empty.employee_slots().is_empty());
    let huge = OrgShape { n_teams: usize::MAX, team_size: 2, n_levels: 1, headcount: None };
    assert_eq!(huge.n_employees(), usize::MAX);
}

#[test]
fn org_shape_from_headcount() {
    assert_eq!(
        OrgShape::with_headcount(Some(200), 8, 25, 3),
        OrgShape { n_teams: 8, team_size: 25, n_levels: 3, headcount: Some(200) }
    );
    // The headcount is exact: the last team holds the remainder.
    let shape = OrgShape::with_headcount(Some(10), 8, 4, 3);
    assert_eq!(shape.n_teams, 3);
    assert_eq!(shape.team_size, 4);
    assert_eq!(shape.n_employees(), 10);
    let slots = shape.employee_slots();
    assert_eq!(slots.len(), 10);
    assert_eq!(slots[9], (2, 0));
    assert_eq!(OrgShape::with_headcount(Some(201), 8, 25, 3).n_teams, 9);
    assert_eq!(OrgShape::with_headcount(Some(201), 8, 25, 3).n_employees(), 201);
    let none = OrgShape::with_headcount(Some(0), 8, 25, 3);
    assert_eq!(none.n_teams, 1);
    assert_eq!(none.n_employees(), 0);
    assert!(none.employee_slots().is_empty());
    // Empty teams cannot hold a headcount: the team count is kept.
    let kept = OrgShape::with_headcount(Some(10), 8, 0, 3);
    assert_eq!(kept.n_teams, 8);
    assert_eq!(kept.headcount, None);
    assert_eq!(
        OrgShape::with_headcount(None, 4, 5, 2),
        OrgShape { n_teams: 4, team_size: 5, n_levels: 2, headcount: None }
    );
    assert_eq!(OrgShape::with_headcount(Some(usize::MAX), 1, 1, 1).n_teams, usize::MAX);
}

#[test]
fn mode_lists() {
    assert_eq!(
        parse_llm_modes("rule,rule_no_ivt").unwrap(),
        vec![LlmMode::Rule, LlmMode::RuleNoIvt]
    );
    assert_eq!(
        parse_llm_modes(" llm,, Rule  ablation,").unwrap(),
        vec![LlmMode::Llm, LlmMode::Rule, LlmMode::RuleNoIvt]
    );
    assert!(parse_llm_modes(" , ").unwrap().is_empty());
    assert_eq!(
        parse_llm_modes("rule,bogus,also_bad").unwrap_err(),
        "invalid llm-mode: \"bogus\" (llm / rule / rule_no_ivt)"
    );
}

#[test]
fn decision_mechanism_per_mode() {
    assert_eq!(
        decision_mechanism(LlmMode::Rule, false).unwrap(),
        DecisionMechanism::Rule { ivt_active: true }
    );
    assert_eq!(
        decision_mechanism(LlmMode::RuleNoIvt, true).unwrap(),
        DecisionMechanism::Rule { ivt_active: false }
    );
    assert_eq!(decision_mechanism(LlmMode::Llm, true).unwrap(), DecisionMechanism::Llm);
    assert_eq!(
        decision_mechanism(LlmMode::Llm, false).unwrap_err(),
        "LLM mode selected but no client supplied"
    );
}

use detert_silence::world::{
    neighbour_silence_ratio, neighbour_voice_ratio, EmployeeState, Expression, IvtRule, Motive,
    Rate,
};

#[test]
fn ivt_rule_ids_round_trip() {
    for r in IvtRule::ALL {
        assert_eq!(IvtRule::from_id(r.id()), Some(r));
    }
    assert_eq!(IvtRule::from_id(5), None);
}

#[test]
fn ivt_rule_labels_unique() {
    let mut seen = std::collections::HashSet::new();
    for r in IvtRule::ALL {
        assert!(seen.insert(r.label()));
    }
}

#[test]
fn motive_parse_round_trips() {
    for m in [Motive::Acquiescent, Motive::Defensive, Motive::Prosocial] {
        assert_eq!(Motive::parse(m.label()), Some(m));
    }
}

#[test]
fn neighbour_ratios_isolated_is_zero() {
    let staff: Vec<EmployeeState> = (0..4).map(|_| EmployeeState::neutral(0, false)).collect();
    let isolated: Vec<usize> = Vec::new();
    let s = neighbour_silence_ratio(&staff, &isolated);
    let v = neighbour_voice_ratio(&staff, &isolated);
    assert_eq!(s, Rate { count: 0, total: 0 });
    assert_eq!(v, Rate { count: 0, total: 0 });
}

#[test]
fn ivt_rule_ids_and_labels() {
    let ids: Vec<u8> = IvtRule::ALL.iter().map(|r| r.id()).collect();
    assert_eq!(ids, vec![0, 1, 2, 3, 4]);
    let labels: Vec<&str> = IvtRule::ALL.iter().map(|r| r.label()).collect();
    assert_eq!(
        labels,
        vec!["target_id", "need_data", "no_bypass", "no_embarrass", "career_consq"]
    );
    assert_eq!(IvtRule::from_id(3), Some(IvtRule::NoEmbarrass));
    assert_eq!(IvtRule::from_id(255), None);
}

#[test]
fn motive_aliases() {
    assert_eq!(Motive::parse("AS"), Some(Motive::Acquiescent));
    assert_eq!(Motive::parse(" quiescent "), Some(Motive::Defensive));
    assert_eq!(Motive::parse("qs"), Some(Motive::Defensive));
    assert_eq!(Motive::parse("Ps"), Some(Motive::Prosocial));
    assert_eq!(Motive::parse("angry"), None);
    assert_eq!(Motive::parse(""), None);
}

#[test]
fn expression_labels() {
    assert_eq!(Expression::Voice.label(), "voice");
    assert_eq!(Expression::Silence.label(), "silence");
    assert_eq!(Expression::Neutral.label(), "neutral");
}

#[test]
fn neighbour_ratios_count_by_index() {
    let mut staff: Vec<EmployeeState> = (0..4).map(|_| EmployeeState::neutral(0, false)).collect();
    staff[1].expression = Expression::Silence;
    staff[2].expression = Expression::Silence;
    staff[3].expression = Expression::Voice;
    // Index 9 is outside the population: it counts in the total only.
    let nbs = vec![1, 2, 3, 9];
    assert_eq!(neighbour_silence_ratio(&staff, &nbs), Rate { count: 2, total: 4 });
    assert_eq!(neighbour_voice_ratio(&staff, &nbs), Rate { count: 1, total: 4 });
}

#[test]
fn neutral_employee_has_no_rules() {
    let e = EmployeeState::neutral(3, true);
    assert_eq!(e.team, 3);
    assert!(e.has_concern);
    assert_eq!(e.expression, Expression::Neutral);
    assert_eq!(e.motive, None);
    assert!(e.last_active_rules.is_empty());
}

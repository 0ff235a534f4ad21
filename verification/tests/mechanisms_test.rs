use detert_silence::mechanisms::{
    apply_verdicts, fired_rules, rule_verdict, silence_motive, team_voice_shares, ClimateSilence,
    PrefalseCascade, SilenceSpiral,
};
use detert_silence::prompts::parse_voice_decision;
use detert_silence::world::{EmployeeState, Expression, Motive, Rate};

#[test]
fn motive_of_rule_silence() {
    assert_eq!(silence_motive(true, true), Motive::Defensive);
    assert_eq!(silence_motive(false, true), Motive::Prosocial);
    assert_eq!(silence_motive(false, false), Motive::Acquiescent);
}

#[test]
fn fired_rules_in_id_order() {
    assert_eq!(fired_rules([false, true, false, false, true]), vec![1, 4]);
    assert_eq!(fired_rules([true; 5]), vec![0, 1, 2, 3, 4]);
    assert!(fired_rules([false; 5]).is_empty());
}

#[test]
fn ablated_rule_verdict_fires_nothing() {
    let v = rule_verdict(false, Motive::Defensive, false, [true; 5]);
    assert_eq!(v.expression, Expression::Silence);
    assert_eq!(v.motive, Some(Motive::Defensive));
    assert!(v.active_rules.is_empty());
    let v = rule_verdict(false, Motive::Prosocial, true, [false, false, true, true, false]);
    assert_eq!(v.active_rules, vec![2, 3]);
    let v = rule_verdict(true, Motive::Prosocial, true, [true; 5]);
    assert_eq!(v.expression, Expression::Voice);
    assert_eq!(v.motive, None);
    assert!(v.active_rules.is_empty());
    assert!(!v.parse_failed);
}

#[test]
fn verdicts_apply_to_everyone() {
    let staff = vec![EmployeeState::neutral(0, true), EmployeeState::neutral(1, false)];
    let verdicts = vec![
        parse_voice_decision(r#"{"decision":"silence","motive":"as","active_rules":["need_data"]}"#),
        parse_voice_decision(r#"{"decision":"voice"}"#),
    ];
    let next = apply_verdicts(&staff, &verdicts);
    assert_eq!(next[0].team, 0);
    assert!(next[0].has_concern);
    assert_eq!(next[0].expression, Expression::Silence);
    assert_eq!(next[0].motive, Some(Motive::Acquiescent));
    assert_eq!(next[0].last_active_rules, vec![1]);
    assert_eq!(next[1].team, 1);
    assert_eq!(next[1].expression, Expression::Voice);
    assert!(next[1].last_active_rules.is_empty());
}

#[test]
fn cascade_flips_only_falsely_silent() {
    let mut staff = vec![
        EmployeeState::neutral(0, false),
        EmployeeState::neutral(0, true),
        EmployeeState::neutral(0, false),
        EmployeeState::neutral(0, false),
    ];
    for e in staff.iter_mut().take(3) {
        e.expression = Expression::Silence;
        e.motive = Some(Motive::Defensive);
        e.last_active_rules = vec![1, 4];
    }
    let next = PrefalseCascade::cascade(&staff, &[true, true, false, true]);
    // Falsely silent and above threshold: flips.
    assert_eq!(next[0].expression, Expression::Voice);
    assert_eq!(next[0].motive, None);
    assert!(next[0].last_active_rules.is_empty());
    // Holds a concern: stays silent.
    assert_eq!(next[1].expression, Expression::Silence);
    assert_eq!(next[1].last_active_rules, vec![1, 4]);
    // Below threshold: stays silent.
    assert_eq!(next[2].expression, Expression::Silence);
    // Not silent: unchanged.
    assert_eq!(next[3].expression, Expression::Neutral);
}

#[test]
fn spiral_and_climate() {
    let mut staff: Vec<EmployeeState> = (0..3).map(|i| EmployeeState::neutral(i % 2, true)).collect();
    staff[0].expression = Expression::Silence;
    staff[1].expression = Expression::Voice;
    staff[2].expression = Expression::Silence;
    let nbs = vec![vec![1, 2], vec![0, 2], vec![]];
    let rho = SilenceSpiral::perceived_silence(&staff, &nbs);
    assert_eq!(
        rho,
        vec![Rate { count: 1, total: 2 }, Rate { count: 2, total: 2 }, Rate { count: 0, total: 0 }]
    );
    let (whole, per_team) = ClimateSilence::measure(&staff, 2);
    assert_eq!(whole, Rate { count: 2, total: 3 });
    assert_eq!(per_team, vec![Rate { count: 2, total: 2 }, Rate { count: 0, total: 1 }]);
    // The teams partition the organisation.
    assert_eq!(per_team.iter().map(|r| r.count).sum::<usize>(), whole.count);
    assert_eq!(per_team.iter().map(|r| r.total).sum::<usize>(), whole.total);
    let shares = team_voice_shares(&staff, 2);
    assert_eq!(shares, vec![Rate { count: 0, total: 2 }, Rate { count: 1, total: 1 }]);
}

use detert_silence::metrics::{
    climate_of_silence, ever_silent_fraction, ivt_rule_activation_mix, max_offdiag_cooccurrence,
    rule_cooccurrence, silence_rate, team_climates, upward_silence_rate,
};
use detert_silence::world::{EmployeeState, Expression, Rate};

fn value(r: Rate) -> f64 {
    if r.total == 0 {
        0.0
    } else {
        r.count as f64 / r.total as f64
    }
}

fn mini_world(exprs: &[Expression], rules: &[Vec<u8>]) -> Vec<EmployeeState> {
    assert_eq!(exprs.len(), rules.len());
    let mut staff = Vec::new();
    for (i, &x) in exprs.iter().enumerate() {
        let mut e = EmployeeState::neutral(0, true);
        e.expression = x;
        e.last_active_rules = rules[i].clone();
        staff.push(e);
    }
    staff
}

#[test]
fn upward_silence_counts_disagreeing_silent() {
    let w = mini_world(&[Expression::Silence, Expression::Voice], &[vec![1], vec![]]);
    assert!((value(upward_silence_rate(&w)) - 0.5).abs() < 1e-12);
}

#[test]
fn activation_mix_counts_rules() {
    let w = mini_world(&[Expression::Silence, Expression::Silence], &[vec![1, 4], vec![1]]);
    let mix = ivt_rule_activation_mix(&w);
    assert!((value(mix[1]) - 1.0).abs() < 1e-12);
    assert!((value(mix[4]) - 0.5).abs() < 1e-12);
    assert_eq!(value(mix[0]), 0.0);
}

#[test]
fn cooccurrence_offdiag_below_diag() {
    let w = mini_world(&[Expression::Silence, Expression::Silence], &[vec![1, 4], vec![1]]);
    let mat = rule_cooccurrence(&w);
    let cell = |r: usize, s: usize| value(Rate { count: mat.counts[r][s], total: mat.total });
    assert!((cell(1, 1) - 1.0).abs() < 1e-12);
    assert!((cell(1, 4) - 0.5).abs() < 1e-12);
    assert!(value(max_offdiag_cooccurrence(&mat)) <= cell(1, 1));
}

#[test]
fn ever_silent_fraction_basic() {
    assert!((value(ever_silent_fraction(&[true, false, true, false])) - 0.5).abs() < 1e-12);
}

#[test]
fn rates_of_a_mixed_population() {
    let mut w = mini_world(
        &[Expression::Silence, Expression::Silence, Expression::Voice, Expression::Neutral],
        &[vec![], vec![], vec![], vec![]],
    );
    w[1].has_concern = false;
    assert_eq!(silence_rate(&w), Rate { count: 2, total: 4 });
    assert_eq!(upward_silence_rate(&w), Rate { count: 1, total: 4 });
    assert_eq!(climate_of_silence(&w), Rate { count: 1, total: 4 });
    assert_eq!(silence_rate(&[]), Rate { count: 0, total: 0 });
    assert_eq!(value(silence_rate(&[])), 0.0);
}

#[test]
fn team_climates_per_team() {
    let mut w = mini_world(
        &[Expression::Silence, Expression::Voice, Expression::Silence],
        &[vec![], vec![], vec![]],
    );
    w[1].team = 1;
    w[2].team = 1;
    let c = team_climates(&w, 3);
    assert_eq!(
        c,
        vec![
            Rate { count: 1, total: 1 },
            Rate { count: 1, total: 2 },
            Rate { count: 0, total: 0 }
        ]
    );
}

#[test]
fn cooccurrence_counts_pairs() {
    let w = mini_world(
        &[Expression::Silence, Expression::Silence, Expression::Silence],
        &[vec![0, 2, 3], vec![2, 3], vec![4]],
    );
    let mat = rule_cooccurrence(&w);
    assert_eq!(mat.total, 3);
    assert_eq!(mat.counts[2][3], 2);
    assert_eq!(mat.counts[3][2], 2);
    assert_eq!(mat.counts[0][2], 1);
    assert_eq!(mat.counts[4][4], 1);
    assert_eq!(mat.counts[0][4], 0);
    assert_eq!(max_offdiag_cooccurrence(&mat), Rate { count: 2, total: 3 });
    let mix = ivt_rule_activation_mix(&w);
    assert_eq!(mix[2], Rate { count: 2, total: 3 });
    // Rule ids outside 0..5 are never counted.
    let odd = mini_world(&[Expression::Silence], &[vec![7, 1]]);
    assert_eq!(ivt_rule_activation_mix(&odd)[1], Rate { count: 1, total: 1 });
}

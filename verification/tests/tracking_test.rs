use detert_silence::tracking::{
    motive_column, rule_labels_joined, AgentHistory, ConvergenceTracker, CONVERGENCE_WINDOW,
};
use detert_silence::world::{EmployeeState, Expression, Motive};

#[test]
fn convergence_needs_a_full_window() {
    let mut c = ConvergenceTracker::new();
    for t in 1..=4 {
        c.observe(t, true);
        assert_eq!(c.convergence_step, None);
    }
    c.observe(5, false);
    assert_eq!(c.stable_streak, 0);
    for t in 6..6 + CONVERGENCE_WINDOW {
        c.observe(t, true);
    }
    assert_eq!(c.convergence_step, Some(10));
    // Once settled, later steps change nothing.
    c.observe(11, false);
    assert_eq!(c.convergence_step, Some(10));
    assert_eq!(c.stable_streak, CONVERGENCE_WINDOW);
}

#[test]
fn agent_history_counts_steps() {
    let mut h = AgentHistory::new();
    let mut e = EmployeeState::neutral(0, true);
    h.record(&e);
    e.expression = Expression::Silence;
    h.record(&e);
    h.record(&e);
    e.expression = Expression::Voice;
    h.record(&e);
    assert_eq!(
        h,
        AgentHistory { ever_silent: true, silent_steps: 2, voice_steps: 1, observed_steps: 4 }
    );
}

#[test]
fn agent_row_columns() {
    assert_eq!(rule_labels_joined(&[1, 4]), "need_data|career_consq");
    assert_eq!(rule_labels_joined(&[9, 0, 7]), "target_id");
    assert_eq!(rule_labels_joined(&[]), "");
    assert_eq!(motive_column(Some(Motive::Prosocial)), "prosocial");
    assert_eq!(motive_column(None), "-");
}

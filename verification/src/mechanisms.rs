//! The discrete half of the step mechanisms.
//!
//! Each step the driver draws the continuous quantities (logits, uniforms,
//! thresholds) and hands this module what they decide; the state updates
//! themselves are here:
//!
//! - the rule-based voice decision: silence motive and the fired rule set;
//! - the synchronous application of a step's verdicts to every employee;
//! - the perceived-silence ratios of the silence spiral;
//! - the preference-falsification cascade;
//! - the per-team voice shares of the knowledge stock;
//! - the climate of silence, whole-organisation and per team.

use vstd::prelude::*;

use crate::metrics::{
    activation_count, climate_of_silence, no_rules_no_activation, pair_count, tally, tally_of,
    team_climates, teams_within, Tally,
};
use crate::prompts::{verdict_wf, VoiceDecisionVerdict};
use crate::world::{
    employee_wf, is_rule_id_set, neighbour_silence_ratio, neighbours_with, EmployeeState,
    Expression, Motive, Rate,
};

verus! {

// ------------------------------------------------------------------------- //
// Rule-based voice decision
// ------------------------------------------------------------------------- //

/// The motive of a rule-based silence: defensive when fearful, prosocial when
/// the supervisor is open, acquiescent otherwise.
pub open spec fn motive_for(fearful: bool, supervisor_open: bool) -> Motive {
    if fearful {
        Motive::Defensive
    } else if supervisor_open {
        Motive::Prosocial
    } else {
        Motive::Acquiescent
    }
}

/// Fear decides first: a silence is defensive exactly when the employee is
/// fearful, whatever the supervisor's openness; a silence without fear is
/// prosocial exactly when the supervisor is open, and acquiescent exactly when
/// not.
pub proof fn motive_follows_fear_then_openness(fearful: bool, supervisor_open: bool)
    ensures
        motive_for(fearful, supervisor_open) == Motive::Defensive <==> fearful,
        motive_for(fearful, supervisor_open) == Motive::Prosocial <==> !fearful
            && supervisor_open,
        motive_for(fearful, supervisor_open) == Motive::Acquiescent <==> !fearful
            && !supervisor_open,
        motive_for(true, supervisor_open) == motive_for(true, !supervisor_open),
{
}

/// The motive of a rule-based silence (`fearful`: fear above one half;
/// `supervisor_open`: supervisor openness above 0.2).
pub fn silence_motive(fearful: bool, supervisor_open: bool) -> (m: Motive)
    ensures
        m == motive_for(fearful, supervisor_open),
        fearful ==> m == Motive::Defensive,
        !fearful && supervisor_open ==> m == Motive::Prosocial,
        !fearful && !supervisor_open ==> m == Motive::Acquiescent,
{
    if fearful {
        Motive::Defensive
    } else if supervisor_open {
        Motive::Prosocial
    } else {
        Motive::Acquiescent
    }
}

/// The rules that fired, in id order: rule `id` fired when `fires[id]`.
pub fn fired_rules(fires: [bool; 5]) -> (r: Vec<u8>)
    ensures
        is_rule_id_set(r@),
        forall|id: u8| r@.contains(id) <==> id < 5 && fires[id as int],
{
    let mut out: Vec<u8> = Vec::new();
    let mut id: u8 = 0;
    while id < 5
        invariant
            id <= 5,
            is_rule_id_set(out@),
            forall|i: int| 0 <= i < out@.len() ==> out@[i] < id,
            forall|x: u8| out@.contains(x) <==> x < id && fires[x as int],
        decreases 5 - id,
    {
        let ghost before = out@;
        if fires[id as usize] {
            out.push(id);
            proof {
                assert(out@ == before.push(id));
                assert forall|x: u8| out@.contains(x) <==> x < id + 1 && fires[x as int] by {
                    if x == id {
                        assert(out@[before.len() as int] == x);
                    } else if out@.contains(x) {
                        let i = choose|i: int| 0 <= i < out@.len() && out@[i] == x;
                        assert(before[i] == x);
                    } else if x < id && fires[x as int] {
                        let i = choose|i: int| 0 <= i < before.len() && before[i] == x;
                        assert(out@[i] == x);
                    }
                }
            }
        }
        id = id + 1;
    }
    out
}

/// The rule-based verdict of one employee: voice carries no motive and no
/// rules; silence carries its motive and, unless the implicit-voice-theory
/// layer is switched off, the rules that fired.
pub fn rule_verdict(voiced: bool, motive: Motive, ivt_active: bool, fires: [bool; 5]) -> (v:
    VoiceDecisionVerdict)
    ensures
        !v.parse_failed,
        verdict_wf(v),
        voiced ==> v.expression == Expression::Voice && v.motive is None
            && v.active_rules@.len() == 0,
        !voiced ==> v.expression == Expression::Silence && v.motive == Some(motive),
        !voiced && ivt_active ==> forall|id: u8|
            v.active_rules@.contains(id) <==> id < 5 && fires[id as int],
        !ivt_active ==> v.active_rules@.len() == 0,
{
    if voiced {
        VoiceDecisionVerdict {
            expression: Expression::Voice,
            motive: None,
            active_rules: Vec::new(),
            parse_failed: false,
        }
    } else {
        let active_rules = if ivt_active {
            fired_rules(fires)
        } else {
            Vec::new()
        };
        VoiceDecisionVerdict {
            expression: Expression::Silence,
            motive: Some(motive),
            active_rules,
            parse_failed: false,
        }
    }
}

/// The state of `e` after verdict `v`.
pub open spec fn after_verdict(e: EmployeeState, v: VoiceDecisionVerdict, out: EmployeeState) -> bool {
    &&& out.team == e.team
    &&& out.has_concern == e.has_concern
    &&& out.expression == v.expression
    &&& out.motive == v.motive
    &&& out.last_active_rules@ == v.active_rules@
}

/// Apply a step's verdicts to every employee at once (verdict `i` to employee
/// `i`), all read from the same snapshot.
pub fn apply_verdicts(staff: &[EmployeeState], verdicts: &[VoiceDecisionVerdict]) -> (r: Vec<
    EmployeeState,
>)
    requires
        staff@.len() == verdicts@.len(),
    ensures
        r@.len() == staff@.len(),
        forall|i: int| 0 <= i < staff@.len() ==> after_verdict(staff@[i], verdicts@[i], #[trigger] r@[i]),
        (forall|i: int| 0 <= i < verdicts@.len() ==> verdict_wf(#[trigger] verdicts@[i])) ==> forall|i: int|
            0 <= i < r@.len() ==> employee_wf(#[trigger] r@[i]),
{
    let mut out: Vec<EmployeeState> = Vec::new();
    let mut i: usize = 0;
    while i < staff.len()
        invariant
            staff@.len() == verdicts@.len(),
            i <= staff.len(),
            out@.len() == i,
            forall|j: int| 0 <= j < i ==> after_verdict(staff@[j], verdicts@[j], #[trigger] out@[j]),
        decreases staff.len() - i,
    {
        let v = &verdicts[i];
        let e = EmployeeState {
            team: staff[i].team,
            expression: v.expression,
            motive: v.motive,
            has_concern: staff[i].has_concern,
            last_active_rules: v.active_rules.clone(),
        };
        assert(e.last_active_rules@ =~= v.active_rules@);
        out.push(e);
        i = i + 1;
    }
    out
}

/// Applying a step's verdicts moves nobody between teams, and afterwards the
/// silent employees are exactly as many as the verdicts that decide silence.
pub proof fn applied_verdicts_keep_teams(
    staff: Seq<EmployeeState>,
    verdicts: Seq<VoiceDecisionVerdict>,
    after: Seq<EmployeeState>,
    k: usize,
)
    requires
        verdicts.len() == staff.len(),
        after.len() == staff.len(),
        forall|i: int| 0 <= i < staff.len() ==> after_verdict(staff[i], verdicts[i], #[trigger] after[i]),
    ensures
        tally_of(after, Tally::Member(k)) == tally_of(staff, Tally::Member(k)),
        tally_of(after, Tally::Silent) == verdicts.filter(
            |v: VoiceDecisionVerdict| v.expression == Expression::Silence,
        ).len(),
    decreases staff.len(),
{
    if staff.len() > 0 {
        let n = staff.len() - 1;
        assert forall|i: int| 0 <= i < staff.drop_last().len() implies after_verdict(
            staff.drop_last()[i],
            verdicts.drop_last()[i],
            #[trigger] after.drop_last()[i],
        ) by {
            assert(after_verdict(staff[i], verdicts[i], after[i]));
        }
        applied_verdicts_keep_teams(staff.drop_last(), verdicts.drop_last(), after.drop_last(), k);
        assert(after_verdict(staff[n], verdicts[n], after[n]));
        assert(staff.last() == staff[n]);
        assert(after.last() == after[n]);
        assert(verdicts.last() == verdicts[n]);
        reveal_with_fuel(Seq::filter, 1);
    }
}

// ------------------------------------------------------------------------- //
// Silence spiral
// ------------------------------------------------------------------------- //

/// Perceived silence: each employee's share of silent network neighbours.
pub struct SilenceSpiral;

impl SilenceSpiral {
    /// The perceived-silence ratio of every employee, read from one snapshot
    /// (`neighbours[i]` lists employee `i`'s neighbours by index).
    pub fn perceived_silence(staff: &[EmployeeState], neighbours: &[Vec<usize>]) -> (r: Vec<Rate>)
        ensures
            r@.len() == neighbours@.len(),
            forall|i: int|
                0 <= i < neighbours@.len() ==> #[trigger] r@[i].count == neighbours_with(
                    staff@,
                    neighbours@[i]@,
                    Expression::Silence,
                ) && r@[i].total == neighbours@[i]@.len(),
    {
        let mut out: Vec<Rate> = Vec::new();
        let mut i: usize = 0;
        while i < neighbours.len()
            invariant
                i <= neighbours.len(),
                out@.len() == i,
                forall|j: int|
                    0 <= j < i ==> #[trigger] out@[j].count == neighbours_with(
                        staff@,
                        neighbours@[j]@,
                        Expression::Silence,
                    ) && out@[j].total == neighbours@[j]@.len(),
            decreases neighbours.len() - i,
        {
            let nb = neighbours[i].as_slice();
            assert(nb@ == neighbours@[i as int]@);
            let rate = neighbour_silence_ratio(staff, nb);
            let ghost before = out@;
            out.push(rate);
            assert forall|j: int| 0 <= j < i + 1 implies #[trigger] out@[j].count == neighbours_with(
                staff@,
                neighbours@[j]@,
                Expression::Silence,
            ) && out@[j].total == neighbours@[j]@.len() by {
                if j < i {
                    assert(out@[j] == before[j]);
                }
            }
            i = i + 1;
        }
        out
    }
}

// ------------------------------------------------------------------------- //
// Preference-falsification cascade
// ------------------------------------------------------------------------- //

/// A silent employee who does not privately disagree flips to voice once the
/// share of voicing neighbours exceeds the employee's threshold.
pub struct PrefalseCascade;

/// Whether `e` flips in the cascade.
pub open spec fn flips(e: EmployeeState, voice_exceeds_threshold: bool) -> bool {
    e.expression == Expression::Silence && !e.has_concern && voice_exceeds_threshold
}

/// `o` is `e` after one round of the cascade.
pub open spec fn cascaded(e: EmployeeState, voice_exceeds_threshold: bool, o: EmployeeState) -> bool {
    &&& o.team == e.team
    &&& o.has_concern == e.has_concern
    &&& if flips(e, voice_exceeds_threshold) {
        o.expression == Expression::Voice && o.motive is None && o.last_active_rules@.len() == 0
    } else {
        o.expression == e.expression && o.motive == e.motive && o.last_active_rules@
            == e.last_active_rules@
    }
}

impl PrefalseCascade {
    /// One round of the cascade over a snapshot (`voice_exceeds_threshold[i]`:
    /// employee `i`'s voicing-neighbour share is above its threshold).
    /// Flipped employees voice with no motive and no rules; the rest are
    /// unchanged.
    pub fn cascade(staff: &[EmployeeState], voice_exceeds_threshold: &[bool]) -> (r: Vec<
        EmployeeState,
    >)
        requires
            staff@.len() == voice_exceeds_threshold@.len(),
        ensures
            r@.len() == staff@.len(),
            forall|i: int|
                0 <= i < staff@.len() ==> cascaded(staff@[i], voice_exceeds_threshold@[i], #[trigger] r@[i]),
            (forall|i: int| 0 <= i < staff@.len() ==> employee_wf(#[trigger] staff@[i])) ==> forall|
                i: int,
            |
                0 <= i < r@.len() ==> employee_wf(#[trigger] r@[i]),
    {
        let mut out: Vec<EmployeeState> = Vec::new();
        let mut i: usize = 0;
        while i < staff.len()
            invariant
                staff@.len() == voice_exceeds_threshold@.len(),
                i <= staff.len(),
                out@.len() == i,
                forall|j: int|
                    0 <= j < i ==> cascaded(staff@[j], voice_exceeds_threshold@[j], #[trigger] out@[j]),
            decreases staff.len() - i,
        {
            let e = &staff[i];
            let flip = e.expression == Expression::Silence && !e.has_concern
                && voice_exceeds_threshold[i];
            let o = if flip {
                EmployeeState {
                    team: e.team,
                    expression: Expression::Voice,
                    motive: None,
                    has_concern: e.has_concern,
                    last_active_rules: Vec::new(),
                }
            } else {
                let rules = e.last_active_rules.clone();
                assert(rules@ =~= e.last_active_rules@);
                EmployeeState {
                    team: e.team,
                    expression: e.expression,
                    motive: e.motive,
                    has_concern: e.has_concern,
                    last_active_rules: rules,
                }
            };
            out.push(o);
            i = i + 1;
        }
        out
    }
}

/// The cascade exempts the genuinely self-censoring: a round leaves the
/// number of employees silent with an upward concern (the climate of silence)
/// unchanged, never makes more employees silent, and keeps every team's
/// membership.
pub proof fn cascade_exempts_upward_silence(
    staff: Seq<EmployeeState>,
    exceeds: Seq<bool>,
    after: Seq<EmployeeState>,
    k: usize,
)
    requires
        exceeds.len() == staff.len(),
        after.len() == staff.len(),
        forall|i: int| 0 <= i < staff.len() ==> cascaded(staff[i], exceeds[i], #[trigger] after[i]),
    ensures
        tally_of(after, Tally::UpwardSilent) == tally_of(staff, Tally::UpwardSilent),
        tally_of(after, Tally::Silent) <= tally_of(staff, Tally::Silent),
        tally_of(after, Tally::Member(k)) == tally_of(staff, Tally::Member(k)),
    decreases staff.len(),
{
    if staff.len() > 0 {
        let n = staff.len() - 1;
        assert forall|i: int| 0 <= i < staff.drop_last().len() implies cascaded(
            staff.drop_last()[i],
            exceeds.drop_last()[i],
            #[trigger] after.drop_last()[i],
        ) by {
            assert(cascaded(staff[i], exceeds[i], after[i]));
        }
        cascade_exempts_upward_silence(staff.drop_last(), exceeds.drop_last(), after.drop_last(), k);
        assert(cascaded(staff[n], exceeds[n], after[n]));
        assert(staff.last() == staff[n]);
        assert(after.last() == after[n]);
    }
}

/// A decision step of the ablated mode fires no rule: when every verdict of
/// the step carries no rules (as every ablated rule verdict does), the
/// employees carry none after the verdicts are applied and the cascade has
/// run, so no rule is active and no pair of rules co-occurs.
pub proof fn ablated_step_fires_no_rules(
    staff: Seq<EmployeeState>,
    verdicts: Seq<VoiceDecisionVerdict>,
    decided: Seq<EmployeeState>,
    exceeds: Seq<bool>,
    after: Seq<EmployeeState>,
    r: u8,
    s: u8,
)
    requires
        verdicts.len() == staff.len(),
        decided.len() == staff.len(),
        exceeds.len() == staff.len(),
        after.len() == staff.len(),
        forall|i: int| 0 <= i < verdicts.len() ==> (#[trigger] verdicts[i]).active_rules@.len() == 0,
        forall|i: int| 0 <= i < staff.len() ==> after_verdict(staff[i], verdicts[i], #[trigger] decided[i]),
        forall|i: int| 0 <= i < staff.len() ==> cascaded(decided[i], exceeds[i], #[trigger] after[i]),
    ensures
        forall|i: int| 0 <= i < after.len() ==> (#[trigger] after[i]).last_active_rules@.len() == 0,
        activation_count(after, r) == 0,
        pair_count(after, r, s) == 0,
{
    assert forall|i: int| 0 <= i < after.len() implies (#[trigger] after[i]).last_active_rules@.len()
        == 0 by {
        assert(after_verdict(staff[i], verdicts[i], decided[i]));
        assert(cascaded(decided[i], exceeds[i], after[i]));
        assert(verdicts[i].active_rules@.len() == 0);
    }
    no_rules_no_activation(after, r, s);
}

// ------------------------------------------------------------------------- //
// Knowledge stock and climate
// ------------------------------------------------------------------------- //

/// Each team's voicing members out of its members (the contribution to the
/// team's knowledge stock).
pub fn team_voice_shares(staff: &[EmployeeState], n_teams: usize) -> (r: Vec<Rate>)
    requires
        teams_within(staff@, n_teams),
    ensures
        r@.len() == n_teams,
        forall|k: int|
            0 <= k < n_teams ==> #[trigger] r@[k].count == tally_of(staff@, Tally::VoiceMember(k as usize))
                && r@[k].total == tally_of(staff@, Tally::Member(k as usize)),
{
    let mut out: Vec<Rate> = Vec::new();
    let mut k: usize = 0;
    while k < n_teams
        invariant
            k <= n_teams,
            out@.len() == k,
            forall|j: int|
                0 <= j < k ==> #[trigger] out@[j].count == tally_of(staff@, Tally::VoiceMember(j as usize))
                    && out@[j].total == tally_of(staff@, Tally::Member(j as usize)),
        decreases n_teams - k,
    {
        let count = tally(staff, Tally::VoiceMember(k));
        let total = tally(staff, Tally::Member(k));
        let ghost before = out@;
        out.push(Rate { count, total });
        assert forall|j: int| 0 <= j < k + 1 implies #[trigger] out@[j].count == tally_of(
            staff@,
            Tally::VoiceMember(j as usize),
        ) && out@[j].total == tally_of(staff@, Tally::Member(j as usize)) by {
            if j < k {
                assert(out@[j] == before[j]);
            } else {
                assert(j as usize == k);
            }
        }
        k = k + 1;
    }
    out
}

/// The organisation's climate of silence, whole and per team.
pub struct ClimateSilence;

impl ClimateSilence {
    /// The climate after a step: upward silence over the whole organisation,
    /// and per team.
    pub fn measure(staff: &[EmployeeState], n_teams: usize) -> (r: (Rate, Vec<Rate>))
        requires
            teams_within(staff@, n_teams),
        ensures
            r.0.count == tally_of(staff@, Tally::UpwardSilent),
            r.0.total == staff@.len(),
            r.1@.len() == n_teams,
            forall|k: int|
                0 <= k < n_teams ==> #[trigger] r.1@[k].count == tally_of(
                    staff@,
                    Tally::UpwardSilentMember(k as usize),
                ) && r.1@[k].total == tally_of(staff@, Tally::Member(k as usize)),
    {
        (climate_of_silence(staff), team_climates(staff, n_teams))
    }
}

} // verus!

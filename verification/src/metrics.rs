//! Population counts behind the model's reported rates.
//!
//! Every rate of the model is a count over employees divided by a population
//! size; here each is returned as a [`Rate`] (count and total), so that what
//! is counted is exact and the division is left to the reader.
//!
//! - upward silence: silent employees who hold an upward concern;
//! - rule activation: how often each rule appears among the latest decisions;
//! - rule co-occurrence: how often two rules appear together;
//! - ever-silent fraction: employees who were silent at some step.

use vstd::prelude::*;

use crate::world::{employee_wf, is_rule_id_set, EmployeeState, Expression, Rate};

verus! {

/// What an employee is counted for.
#[derive(Clone, Copy, PartialEq, Eq, Debug, Structural)]
pub enum Tally {
    /// Silent.
    Silent,
    /// Silent while holding an upward concern.
    UpwardSilent,
    /// Member of the given team.
    Member(usize),
    /// Member of the given team, silent while holding an upward concern.
    UpwardSilentMember(usize),
    /// Member of the given team, voicing.
    VoiceMember(usize),
}

/// Whether employee `e` is counted for `q`.
pub open spec fn counted(e: EmployeeState, q: Tally) -> bool {
    match q {
        Tally::Silent => e.expression == Expression::Silence,
        Tally::UpwardSilent => e.expression == Expression::Silence && e.has_concern,
        Tally::Member(k) => e.team == k,
        Tally::UpwardSilentMember(k) => e.team == k && e.expression == Expression::Silence
            && e.has_concern,
        Tally::VoiceMember(k) => e.team == k && e.expression == Expression::Voice,
    }
}

/// How many of `staff` are counted for `q`.
pub open spec fn tally_of(staff: Seq<EmployeeState>, q: Tally) -> nat
    decreases staff.len(),
{
    if staff.len() == 0 {
        0
    } else {
        tally_of(staff.drop_last(), q) + if counted(staff.last(), q) {
            1nat
        } else {
            0nat
        }
    }
}

/// A tally never exceeds the population, and a narrower tally never exceeds
/// a wider one.
pub proof fn lemma_tally_bounds(staff: Seq<EmployeeState>, q: Tally, wider: Tally)
    requires
        forall|e: EmployeeState| counted(e, q) ==> counted(e, wider),
    ensures
        tally_of(staff, q) <= tally_of(staff, wider),
        tally_of(staff, wider) <= staff.len(),
    decreases staff.len(),
{
    if staff.len() > 0 {
        lemma_tally_bounds(staff.drop_last(), q, wider);
    }
}

fn is_counted(e: &EmployeeState, q: Tally) -> (b: bool)
    ensures
        b == counted(*e, q),
{
    match q {
        Tally::Silent => e.expression == Expression::Silence,
        Tally::UpwardSilent => e.expression == Expression::Silence && e.has_concern,
        Tally::Member(k) => e.team == k,
        Tally::UpwardSilentMember(k) => e.team == k && e.expression == Expression::Silence
            && e.has_concern,
        Tally::VoiceMember(k) => e.team == k && e.expression == Expression::Voice,
    }
}

/// Count the employees counted for `q`.
pub fn tally(staff: &[EmployeeState], q: Tally) -> (r: usize)
    ensures
        r == tally_of(staff@, q),
        r <= staff@.len(),
{
    let mut count: usize = 0;
    let mut i: usize = 0;
    while i < staff.len()
        invariant
            i <= staff.len(),
            count == tally_of(staff@.take(i as int), q),
            count <= i,
        decreases staff.len() - i,
    {
        assert(staff@.take(i + 1).drop_last() =~= staff@.take(i as int));
        if is_counted(&staff[i], q) {
            count = count + 1;
        }
        i = i + 1;
    }
    assert(staff@.take(staff.len() as int) =~= staff@);
    count
}

/// Fraction of employees in `Silence`.
pub fn silence_rate(staff: &[EmployeeState]) -> (r: Rate)
    ensures
        r.count == tally_of(staff@, Tally::Silent),
        r.total == staff@.len(),
{
    Rate { count: tally(staff, Tally::Silent), total: staff.len() }
}

/// Upward silence: employees who hold an upward concern yet stay silent, out
/// of all employees.
pub fn upward_silence_rate(staff: &[EmployeeState]) -> (r: Rate)
    ensures
        r.count == tally_of(staff@, Tally::UpwardSilent),
        r.total == staff@.len(),
{
    Rate { count: tally(staff, Tally::UpwardSilent), total: staff.len() }
}

/// Climate of silence: the same population measure as upward silence, kept as
/// the aggregate the next step observes.
pub fn climate_of_silence(staff: &[EmployeeState]) -> (r: Rate)
    ensures
        r.count == tally_of(staff@, Tally::UpwardSilent),
        r.total == staff@.len(),
{
    upward_silence_rate(staff)
}

/// Every employee belongs to one of `n_teams` teams.
pub open spec fn teams_within(staff: Seq<EmployeeState>, n_teams: usize) -> bool {
    forall|i: int| 0 <= i < staff.len() ==> #[trigger] staff[i].team < n_teams
}

/// Per-team climate of silence: in each team, the members silent while
/// holding an upward concern, out of the team's members.
pub fn team_climates(staff: &[EmployeeState], n_teams: usize) -> (r: Vec<Rate>)
    requires
        teams_within(staff@, n_teams),
    ensures
        r@.len() == n_teams,
        forall|k: int|
            0 <= k < n_teams ==> #[trigger] r@[k].count == tally_of(
                staff@,
                Tally::UpwardSilentMember(k as usize),
            ) && r@[k].total == tally_of(staff@, Tally::Member(k as usize)),
{
    let mut out: Vec<Rate> = Vec::new();
    let mut k: usize = 0;
    while k < n_teams
        invariant
            k <= n_teams,
            out@.len() == k,
            forall|j: int|
                0 <= j < k ==> #[trigger] out@[j].count == tally_of(
                    staff@,
                    Tally::UpwardSilentMember(j as usize),
                ) && out@[j].total == tally_of(staff@, Tally::Member(j as usize)),
        decreases n_teams - k,
    {
        let count = tally(staff, Tally::UpwardSilentMember(k));
        let total = tally(staff, Tally::Member(k));
        let ghost before = out@;
        out.push(Rate { count, total });
        assert forall|j: int| 0 <= j < k + 1 implies #[trigger] out@[j].count == tally_of(
            staff@,
            Tally::UpwardSilentMember(j as usize),
        ) && out@[j].total == tally_of(staff@, Tally::Member(j as usize)) by {
            if j < k {
                assert(out@[j] == before[j]);
            } else {
                assert(j as usize == k);
            }
        }
        k = k + 1;
    }
    out
}

// ------------------------------------------------------------------------- //
// Rule activation and co-occurrence
// ------------------------------------------------------------------------- //

/// How many times `id` occurs in `ids`.
pub open spec fn occurrences(ids: Seq<u8>, id: u8) -> nat
    decreases ids.len(),
{
    if ids.len() == 0 {
        0
    } else {
        occurrences(ids.drop_last(), id) + if ids.last() == id {
            1nat
        } else {
            0nat
        }
    }
}

/// How many times rule `r` fired over all employees' latest decisions.
pub open spec fn activation_count(staff: Seq<EmployeeState>, r: u8) -> nat
    decreases staff.len(),
{
    if staff.len() == 0 {
        0
    } else {
        activation_count(staff.drop_last(), r) + occurrences(staff.last().last_active_rules@, r)
    }
}

/// How many ordered pairs of fired rules `(r, s)` there are, summed over
/// employees.
pub open spec fn pair_count(staff: Seq<EmployeeState>, r: u8, s: u8) -> nat
    decreases staff.len(),
{
    if staff.len() == 0 {
        0
    } else {
        pair_count(staff.drop_last(), r, s) + occurrences(staff.last().last_active_rules@, r)
            * occurrences(staff.last().last_active_rules@, s)
    }
}

proof fn lemma_occurrences_bounded(ids: Seq<u8>, id: u8)
    ensures
        occurrences(ids, id) <= ids.len(),
    decreases ids.len(),
{
    if ids.len() > 0 {
        lemma_occurrences_bounded(ids.drop_last(), id);
    }
}

proof fn lemma_activation_prefix(staff: Seq<EmployeeState>, i: int, r: u8)
    requires
        0 <= i <= staff.len(),
    ensures
        activation_count(staff.take(i), r) <= activation_count(staff, r),
    decreases staff.len(),
{
    if i < staff.len() {
        assert(staff.drop_last().take(i) =~= staff.take(i));
        lemma_activation_prefix(staff.drop_last(), i, r);
    } else {
        assert(staff.take(i) =~= staff);
    }
}

proof fn lemma_pair_prefix(staff: Seq<EmployeeState>, i: int, r: u8, s: u8)
    requires
        0 <= i <= staff.len(),
    ensures
        pair_count(staff.take(i), r, s) <= pair_count(staff, r, s),
    decreases staff.len(),
{
    if i < staff.len() {
        assert(staff.drop_last().take(i) =~= staff.take(i));
        lemma_pair_prefix(staff.drop_last(), i, r, s);
    } else {
        assert(staff.take(i) =~= staff);
    }
}

fn count_occurrences(ids: &Vec<u8>, id: u8) -> (r: usize)
    ensures
        r == occurrences(ids@, id),
{
    let mut count: usize = 0;
    let mut i: usize = 0;
    while i < ids.len()
        invariant
            i <= ids.len(),
            count == occurrences(ids@.take(i as int), id),
            count <= i,
        decreases ids.len() - i,
    {
        assert(ids@.take(i + 1).drop_last() =~= ids@.take(i as int));
        if ids[i] == id {
            count = count + 1;
        }
        i = i + 1;
    }
    assert(ids@.take(ids.len() as int) =~= ids@);
    count
}

fn activation_of(staff: &[EmployeeState], r: u8) -> (c: usize)
    requires
        activation_count(staff@, r) <= usize::MAX,
    ensures
        c == activation_count(staff@, r),
{
    let mut count: usize = 0;
    let mut i: usize = 0;
    while i < staff.len()
        invariant
            i <= staff.len(),
            activation_count(staff@, r) <= usize::MAX,
            count == activation_count(staff@.take(i as int), r),
        decreases staff.len() - i,
    {
        assert(staff@.take(i + 1).drop_last() =~= staff@.take(i as int));
        proof {
            lemma_activation_prefix(staff@, i + 1, r);
        }
        let m = count_occurrences(&staff[i].last_active_rules, r);
        count = count + m;
        i = i + 1;
    }
    assert(staff@.take(staff.len() as int) =~= staff@);
    count
}

fn pair_of(staff: &[EmployeeState], r: u8, s: u8) -> (c: usize)
    requires
        pair_count(staff@, r, s) <= usize::MAX,
    ensures
        c == pair_count(staff@, r, s),
{
    let mut count: usize = 0;
    let mut i: usize = 0;
    while i < staff.len()
        invariant
            i <= staff.len(),
            pair_count(staff@, r, s) <= usize::MAX,
            count == pair_count(staff@.take(i as int), r, s),
        decreases staff.len() - i,
    {
        assert(staff@.take(i + 1).drop_last() =~= staff@.take(i as int));
        proof {
            lemma_pair_prefix(staff@, i + 1, r, s);
        }
        let a = count_occurrences(&staff[i].last_active_rules, r);
        let b = count_occurrences(&staff[i].last_active_rules, s);
        assert(a * b <= usize::MAX);
        count = count + a * b;
        i = i + 1;
    }
    assert(staff@.take(staff.len() as int) =~= staff@);
    count
}

/// No rule fires more often than the counters can hold.
pub open spec fn activation_fits(staff: Seq<EmployeeState>) -> bool {
    forall|r: u8| r < 5 ==> #[trigger] activation_count(staff, r) <= usize::MAX
}

/// No pair of rules fires together more often than the counters can hold.
pub open spec fn pairs_fit(staff: Seq<EmployeeState>) -> bool {
    forall|r: u8, s: u8| r < 5 && s < 5 ==> #[trigger] pair_count(staff, r, s) <= usize::MAX
}

/// Per-rule activation: for each rule id `0..5`, how many times it fired in
/// the employees' latest decisions, out of all employees.
pub fn ivt_rule_activation_mix(staff: &[EmployeeState]) -> (r: [Rate; 5])
    requires
        activation_fits(staff@),
    ensures
        forall|k: int|
            0 <= k < 5 ==> #[trigger] r[k].count == activation_count(staff@, k as u8) && r[k].total
                == staff@.len(),
{
    let n = staff.len();
    let r0 = Rate { count: activation_of(staff, 0), total: n };
    let r1 = Rate { count: activation_of(staff, 1), total: n };
    let r2 = Rate { count: activation_of(staff, 2), total: n };
    let r3 = Rate { count: activation_of(staff, 3), total: n };
    let r4 = Rate { count: activation_of(staff, 4), total: n };
    let out = [r0, r1, r2, r3, r4];
    assert forall|k: int| 0 <= k < 5 implies #[trigger] out[k].count == activation_count(
        staff@,
        k as u8,
    ) && out[k].total == staff@.len() by {
        if k == 0 {
        } else if k == 1 {
        } else if k == 2 {
        } else if k == 3 {
        } else {
        }
    }
    out
}

/// Joint firing counts of every ordered pair of rules, over a population.
#[derive(Clone, Copy, Debug)]
pub struct Cooccurrence {
    pub counts: [[usize; 5]; 5],
    pub total: usize,
}

fn cooccurrence_row(staff: &[EmployeeState], r: u8) -> (row: [usize; 5])
    requires
        r < 5,
        pairs_fit(staff@),
    ensures
        forall|s: int| 0 <= s < 5 ==> #[trigger] row[s] == pair_count(staff@, r, s as u8),
{
    let c0 = pair_of(staff, r, 0);
    let c1 = pair_of(staff, r, 1);
    let c2 = pair_of(staff, r, 2);
    let c3 = pair_of(staff, r, 3);
    let c4 = pair_of(staff, r, 4);
    let row = [c0, c1, c2, c3, c4];
    assert forall|s: int| 0 <= s < 5 implies #[trigger] row[s] == pair_count(staff@, r, s as u8) by {
        if s == 0 {
        } else if s == 1 {
        } else if s == 2 {
        } else if s == 3 {
        } else {
        }
    }
    row
}

/// Joint firing counts: entry `(r, s)` counts, over employees, the ordered
/// pairs of fired rules equal to `(r, s)`; the diagonal counts each rule's own
/// firings when no rule is listed twice.  The total is the population size.
pub fn rule_cooccurrence(staff: &[EmployeeState]) -> (m: Cooccurrence)
    requires
        pairs_fit(staff@),
    ensures
        m.total == staff@.len(),
        forall|r: int, s: int|
            0 <= r < 5 && 0 <= s < 5 ==> #[trigger] m.counts[r][s] == pair_count(
                staff@,
                r as u8,
                s as u8,
            ),
{
    let row0 = cooccurrence_row(staff, 0);
    let row1 = cooccurrence_row(staff, 1);
    let row2 = cooccurrence_row(staff, 2);
    let row3 = cooccurrence_row(staff, 3);
    let row4 = cooccurrence_row(staff, 4);
    let m = Cooccurrence { counts: [row0, row1, row2, row3, row4], total: staff.len() };
    assert forall|r: int, s: int| 0 <= r < 5 && 0 <= s < 5 implies #[trigger] m.counts[r][s]
        == pair_count(staff@, r as u8, s as u8) by {
        if r == 0 {
        } else if r == 1 {
        } else if r == 2 {
        } else if r == 3 {
        } else {
        }
    }
    m
}

/// The largest off-diagonal joint count (the discriminant-validity
/// statistic), out of the matrix's total.
pub fn max_offdiag_cooccurrence(m: &Cooccurrence) -> (r: Rate)
    ensures
        r.total == m.total,
        forall|a: int, b: int| 0 <= a < 5 && 0 <= b < 5 && a != b ==> #[trigger] m.counts[a][b] <= r.count,
        r.count == 0 || exists|a: int, b: int|
            0 <= a < 5 && 0 <= b < 5 && a != b && #[trigger] m.counts[a][b] == r.count,
{
    let mut best: usize = 0;
    let mut a: usize = 0;
    while a < 5
        invariant
            a <= 5,
            forall|x: int, y: int| 0 <= x < a && 0 <= y < 5 && x != y ==> #[trigger] m.counts[x][y] <= best,
            best == 0 || exists|x: int, y: int|
                0 <= x < 5 && 0 <= y < 5 && x != y && #[trigger] m.counts[x][y] == best,
        decreases 5 - a,
    {
        let mut b: usize = 0;
        while b < 5
            invariant
                a < 5,
                b <= 5,
                forall|x: int, y: int| 0 <= x < a && 0 <= y < 5 && x != y ==> #[trigger] m.counts[x][y] <= best,
                forall|y: int| 0 <= y < b && a != y ==> #[trigger] m.counts[a as int][y] <= best,
                best == 0 || exists|x: int, y: int|
                    0 <= x < 5 && 0 <= y < 5 && x != y && #[trigger] m.counts[x][y] == best,
            decreases 5 - b,
        {
            if a != b && m.counts[a][b] > best {
                best = m.counts[a][b];
            }
            b = b + 1;
        }
        a = a + 1;
    }
    Rate { count: best, total: m.total }
}

// ------------------------------------------------------------------------- //
// What the counts obey
// ------------------------------------------------------------------------- //

/// Upward silence never exceeds silence, which never exceeds the population.
pub proof fn upward_silence_within_silence(staff: Seq<EmployeeState>)
    ensures
        tally_of(staff, Tally::UpwardSilent) <= tally_of(staff, Tally::Silent),
        tally_of(staff, Tally::Silent) <= staff.len(),
{
    lemma_tally_bounds(staff, Tally::UpwardSilent, Tally::Silent);
}

/// Within a team, upward silence never exceeds the team's size.
pub proof fn team_climate_within_team(staff: Seq<EmployeeState>, k: usize)
    ensures
        tally_of(staff, Tally::UpwardSilentMember(k)) <= tally_of(staff, Tally::Member(k)),
        tally_of(staff, Tally::VoiceMember(k)) <= tally_of(staff, Tally::Member(k)),
        tally_of(staff, Tally::Member(k)) <= staff.len(),
{
    lemma_tally_bounds(staff, Tally::UpwardSilentMember(k), Tally::Member(k));
    lemma_tally_bounds(staff, Tally::VoiceMember(k), Tally::Member(k));
}

/// The per-team tallies of teams `0..k`, summed: upward-silent members when
/// `upward`, all members otherwise.
pub open spec fn teams_total(staff: Seq<EmployeeState>, k: nat, upward: bool) -> nat
    decreases k,
{
    if k == 0 {
        0
    } else {
        let j = (k - 1) as usize;
        teams_total(staff, (k - 1) as nat, upward) + tally_of(
            staff,
            if upward {
                Tally::UpwardSilentMember(j)
            } else {
                Tally::Member(j)
            },
        )
    }
}

proof fn lemma_teams_total_last(staff: Seq<EmployeeState>, k: nat, upward: bool)
    requires
        staff.len() > 0,
        k <= usize::MAX + 1,
    ensures
        teams_total(staff, k, upward) == teams_total(staff.drop_last(), k, upward) + if staff.last().team
            < k && (!upward || counted(staff.last(), Tally::UpwardSilent)) {
            1nat
        } else {
            0nat
        },
    decreases k,
{
    if k > 0 {
        lemma_teams_total_last(staff, (k - 1) as nat, upward);
    }
}

proof fn lemma_teams_total_empty(staff: Seq<EmployeeState>, k: nat, upward: bool)
    requires
        staff.len() == 0,
    ensures
        teams_total(staff, k, upward) == 0,
    decreases k,
{
    if k > 0 {
        lemma_teams_total_empty(staff, (k - 1) as nat, upward);
    }
}

/// The teams partition the organisation: summed over teams, the per-team
/// climate counts give the whole organisation's upward silence, and the team
/// sizes give the headcount.
pub proof fn team_climates_partition(staff: Seq<EmployeeState>, n_teams: usize)
    requires
        teams_within(staff, n_teams),
    ensures
        teams_total(staff, n_teams as nat, true) == tally_of(staff, Tally::UpwardSilent),
        teams_total(staff, n_teams as nat, false) == staff.len(),
    decreases staff.len(),
{
    if staff.len() > 0 {
        let init = staff.drop_last();
        assert forall|i: int| 0 <= i < init.len() implies #[trigger] init[i].team < n_teams by {
            assert(init[i] == staff[i]);
        }
        team_climates_partition(init, n_teams);
        lemma_teams_total_last(staff, n_teams as nat, true);
        lemma_teams_total_last(staff, n_teams as nat, false);
        assert(staff[staff.len() - 1].team < n_teams);
    } else {
        lemma_teams_total_empty(staff, n_teams as nat, true);
        lemma_teams_total_empty(staff, n_teams as nat, false);
    }
}

proof fn lemma_occurrences_absent(ids: Seq<u8>, id: u8)
    requires
        forall|i: int| 0 <= i < ids.len() ==> ids[i] != id,
    ensures
        occurrences(ids, id) == 0,
    decreases ids.len(),
{
    if ids.len() > 0 {
        lemma_occurrences_absent(ids.drop_last(), id);
    }
}

proof fn lemma_occurrences_at_most_one(ids: Seq<u8>, id: u8)
    requires
        is_rule_id_set(ids),
    ensures
        occurrences(ids, id) <= 1,
    decreases ids.len(),
{
    if ids.len() > 0 {
        let init = ids.drop_last();
        lemma_occurrences_at_most_one(init, id);
        if ids.last() == id {
            assert forall|i: int| 0 <= i < init.len() implies init[i] != id by {
                assert(ids[i] < ids[ids.len() - 1]);
            }
            lemma_occurrences_absent(init, id);
        }
    }
}

/// Every employee keeps the state invariant.
pub open spec fn all_wf(staff: Seq<EmployeeState>) -> bool {
    forall|i: int| 0 <= i < staff.len() ==> employee_wf(#[trigger] staff[i])
}

/// In a population that keeps the state invariant, a rule fires at most once
/// per employee, so its activation never exceeds the population; a rule's
/// co-occurrence with itself is its activation; and two rules never fire
/// together more often than either fires alone (the off-diagonal of the
/// co-occurrence matrix is bounded by its diagonal).
pub proof fn rule_counts_bounded(staff: Seq<EmployeeState>, r: u8, s: u8)
    requires
        all_wf(staff),
    ensures
        activation_count(staff, r) <= staff.len(),
        pair_count(staff, r, r) == activation_count(staff, r),
        pair_count(staff, r, s) <= activation_count(staff, r),
        pair_count(staff, r, s) <= activation_count(staff, s),
    decreases staff.len(),
{
    if staff.len() > 0 {
        let init = staff.drop_last();
        assert forall|i: int| 0 <= i < init.len() implies employee_wf(#[trigger] init[i]) by {
            assert(init[i] == staff[i]);
        }
        rule_counts_bounded(init, r, s);
        let ids = staff.last().last_active_rules@;
        assert(employee_wf(staff[staff.len() - 1]));
        lemma_occurrences_at_most_one(ids, r);
        lemma_occurrences_at_most_one(ids, s);
        let a = occurrences(ids, r);
        let b = occurrences(ids, s);
        assert(a * b <= a && a * b <= b && a * a == a) by (nonlinear_arith)
            requires
                a <= 1,
                b <= 1,
        ;
    }
}

/// The co-occurrence counts are symmetric: rules `r` and `s` fire together
/// as often as `s` and `r`.
pub proof fn cooccurrence_symmetric(staff: Seq<EmployeeState>, r: u8, s: u8)
    ensures
        pair_count(staff, r, s) == pair_count(staff, s, r),
    decreases staff.len(),
{
    if staff.len() > 0 {
        cooccurrence_symmetric(staff.drop_last(), r, s);
        let ids = staff.last().last_active_rules@;
        let a = occurrences(ids, r);
        let b = occurrences(ids, s);
        assert(a * b == b * a) by (nonlinear_arith);
    }
}

/// A population that keeps the state invariant fits every counter.
pub proof fn wf_counts_fit(staff: Seq<EmployeeState>)
    requires
        all_wf(staff),
        staff.len() <= usize::MAX,
    ensures
        activation_fits(staff),
        pairs_fit(staff),
{
    assert forall|r: u8| r < 5 implies #[trigger] activation_count(staff, r) <= usize::MAX by {
        rule_counts_bounded(staff, r, r);
    }
    assert forall|r: u8, s: u8| r < 5 && s < 5 implies #[trigger] pair_count(staff, r, s)
        <= usize::MAX by {
        rule_counts_bounded(staff, r, s);
    }
}

/// When no employee has an active rule, no rule is active and no pair of
/// rules co-occurs.
pub proof fn no_rules_no_activation(staff: Seq<EmployeeState>, r: u8, s: u8)
    requires
        forall|i: int| 0 <= i < staff.len() ==> (#[trigger] staff[i]).last_active_rules@.len() == 0,
    ensures
        activation_count(staff, r) == 0,
        pair_count(staff, r, s) == 0,
    decreases staff.len(),
{
    if staff.len() > 0 {
        let init = staff.drop_last();
        assert forall|i: int| 0 <= i < init.len() implies (#[trigger] init[i]).last_active_rules@.len()
            == 0 by {
            assert(init[i] == staff[i]);
        }
        no_rules_no_activation(init, r, s);
        let ids = staff[staff.len() - 1].last_active_rules@;
        assert(ids.len() == 0);
        assert(occurrences(ids, r) == 0);
        assert(occurrences(ids, s) == 0);
    }
}

proof fn lemma_occurrences_present(ids: Seq<u8>, id: u8)
    requires
        ids.contains(id),
    ensures
        occurrences(ids, id) >= 1,
    decreases ids.len(),
{
    if ids.last() != id {
        let i = choose|i: int| 0 <= i < ids.len() && ids[i] == id;
        assert(i < ids.len() - 1);
        assert(ids.drop_last()[i] == id);
        lemma_occurrences_present(ids.drop_last(), id);
    }
}

/// A rule's occurrences in a list are the entries equal to it; in a rule-id
/// set that is one when the rule is listed and none otherwise.
pub proof fn occurrences_count_equal_entries(ids: Seq<u8>, id: u8)
    ensures
        occurrences(ids, id) == ids.filter(|x: u8| x == id).len(),
        is_rule_id_set(ids) ==> occurrences(ids, id) == if ids.contains(id) {
            1nat
        } else {
            0nat
        },
    decreases ids.len(),
{
    if ids.len() > 0 {
        occurrences_count_equal_entries(ids.drop_last(), id);
        reveal_with_fuel(Seq::filter, 1);
    }
    if is_rule_id_set(ids) {
        lemma_occurrences_at_most_one(ids, id);
        if ids.contains(id) {
            lemma_occurrences_present(ids, id);
        } else {
            assert forall|i: int| 0 <= i < ids.len() implies ids[i] != id by {
                if ids[i] == id {
                    assert(ids.contains(id));
                }
            }
            lemma_occurrences_absent(ids, id);
        }
    }
}

/// Over a population that keeps the state invariant, a rule's activation
/// count is the number of employees whose latest decision lists it, and the
/// joint count of two rules the number of employees that list both.
pub proof fn activation_counts_employees_listing(staff: Seq<EmployeeState>, r: u8, s: u8)
    requires
        all_wf(staff),
    ensures
        activation_count(staff, r) == staff.filter(
            |e: EmployeeState| e.last_active_rules@.contains(r),
        ).len(),
        pair_count(staff, r, s) == staff.filter(
            |e: EmployeeState| e.last_active_rules@.contains(r) && e.last_active_rules@.contains(s),
        ).len(),
    decreases staff.len(),
{
    if staff.len() > 0 {
        let init = staff.drop_last();
        assert forall|i: int| 0 <= i < init.len() implies employee_wf(#[trigger] init[i]) by {
            assert(init[i] == staff[i]);
        }
        activation_counts_employees_listing(init, r, s);
        let ids = staff.last().last_active_rules@;
        assert(employee_wf(staff[staff.len() - 1]));
        occurrences_count_equal_entries(ids, r);
        occurrences_count_equal_entries(ids, s);
        reveal_with_fuel(Seq::filter, 1);
    }
}

/// Each tally counts exactly the employees it names: the silent ones, the
/// silent ones holding an upward concern, a team's members, a team's members
/// silent with an upward concern, and a team's voicing members.
pub proof fn tallies_count_their_employees(staff: Seq<EmployeeState>, k: usize)
    ensures
        tally_of(staff, Tally::Silent) == staff.filter(
            |e: EmployeeState| e.expression == Expression::Silence,
        ).len(),
        tally_of(staff, Tally::UpwardSilent) == staff.filter(
            |e: EmployeeState| e.expression == Expression::Silence && e.has_concern,
        ).len(),
        tally_of(staff, Tally::Member(k)) == staff.filter(|e: EmployeeState| e.team == k).len(),
        tally_of(staff, Tally::UpwardSilentMember(k)) == staff.filter(
            |e: EmployeeState| e.team == k && e.expression == Expression::Silence && e.has_concern,
        ).len(),
        tally_of(staff, Tally::VoiceMember(k)) == staff.filter(
            |e: EmployeeState| e.team == k && e.expression == Expression::Voice,
        ).len(),
    decreases staff.len(),
{
    if staff.len() > 0 {
        tallies_count_their_employees(staff.drop_last(), k);
        reveal_with_fuel(Seq::filter, 1);
    }
}

// ------------------------------------------------------------------------- //
// Ever-silent fraction
// ------------------------------------------------------------------------- //

/// How many entries of `ever` are set.
pub open spec fn set_count(ever: Seq<bool>) -> nat
    decreases ever.len(),
{
    if ever.len() == 0 {
        0
    } else {
        set_count(ever.drop_last()) + if ever.last() {
            1nat
        } else {
            0nat
        }
    }
}

/// The ever-silent count is the number of set flags: it is the length of the
/// flags filtered to the set ones, it adds up over concatenation, all-set
/// flags count fully and all-clear flags count nothing.
pub proof fn set_count_counts_set_flags(a: Seq<bool>, b: Seq<bool>)
    ensures
        set_count(a) == a.filter(|x: bool| x).len(),
        set_count(a + b) == set_count(a) + set_count(b),
        (forall|i: int| 0 <= i < a.len() ==> a[i]) ==> set_count(a) == a.len(),
        (forall|i: int| 0 <= i < a.len() ==> !a[i]) ==> set_count(a) == 0,
        set_count(a) <= a.len(),
    decreases a.len() + b.len(),
{
    if b.len() > 0 {
        assert((a + b).drop_last() =~= a + b.drop_last());
        set_count_counts_set_flags(a, b.drop_last());
    } else {
        assert(a + b =~= a);
        if a.len() > 0 {
            set_count_counts_set_flags(a.drop_last(), b);
            reveal_with_fuel(Seq::filter, 1);
            if forall|i: int| 0 <= i < a.len() ==> a[i] {
                assert forall|i: int| 0 <= i < a.drop_last().len() implies a.drop_last()[i] by {
                    assert(a[i]);
                }
                assert(a[a.len() - 1]);
            }
            if forall|i: int| 0 <= i < a.len() ==> !a[i] {
                assert forall|i: int| 0 <= i < a.drop_last().len() implies !a.drop_last()[i] by {
                    assert(!a[i]);
                }
                assert(!a[a.len() - 1]);
            }
        }
    }
}

/// Fraction of employees flagged as ever silent.
pub fn ever_silent_fraction(ever: &[bool]) -> (r: Rate)
    ensures
        r.count == set_count(ever@),
        r.count == ever@.filter(|x: bool| x).len(),
        r.total == ever@.len(),
        r.count <= r.total,
{
    proof {
        set_count_counts_set_flags(ever@, Seq::empty());
    }
    let mut count: usize = 0;
    let mut i: usize = 0;
    while i < ever.len()
        invariant
            i <= ever.len(),
            count == set_count(ever@.take(i as int)),
            count <= i,
        decreases ever.len() - i,
    {
        assert(ever@.take(i + 1).drop_last() =~= ever@.take(i as int));
        if ever[i] {
            count = count + 1;
        }
        i = i + 1;
    }
    assert(ever@.take(ever.len() as int) =~= ever@);
    Rate { count, total: ever.len() }
}

} // verus!

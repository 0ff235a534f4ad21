//! What a run keeps across steps: when the climate of silence settled, and
//! each employee's history of silence and voice; and the per-agent row text.

use vstd::prelude::*;

use crate::world::{
    motive_label, rule_label, rule_of_id, EmployeeState, Expression, IvtRule,
    Motive,
};

verus! {

/// Consecutive steps the climate must stay within tolerance to count as
/// settled.
pub const CONVERGENCE_WINDOW: u64 = 5;

/// Tracks the first step at which the climate of silence has stayed within
/// tolerance for `CONVERGENCE_WINDOW` consecutive steps.
#[derive(Clone, Copy, PartialEq, Eq, Debug, Structural)]
pub struct ConvergenceTracker {
    pub stable_streak: u64,
    pub convergence_step: Option<u64>,
}

impl ConvergenceTracker {
    /// Before settling, the streak is shorter than the window.
    pub open spec fn wf(self) -> bool {
        self.convergence_step is None ==> self.stable_streak < CONVERGENCE_WINDOW
    }

    /// Nothing observed yet.
    pub fn new() -> (r: ConvergenceTracker)
        ensures
            r.stable_streak == 0,
            r.convergence_step is None,
            r.wf(),
    {
        ConvergenceTracker { stable_streak: 0, convergence_step: None }
    }

    /// Observe step `t`: `within_tolerance` when the climate moved less than
    /// the tolerance since the previous step.  Once settled, the tracker
    /// never changes again.
    pub fn observe(&mut self, t: u64, within_tolerance: bool)
        requires
            old(self).wf(),
        ensures
            final(self).wf(),
            old(self).convergence_step is Some ==> *final(self) == *old(self),
            old(self).convergence_step is None && !within_tolerance ==> final(self).stable_streak
                == 0 && final(self).convergence_step is None,
            old(self).convergence_step is None && within_tolerance ==> final(self).stable_streak
                == old(self).stable_streak + 1 && final(self).convergence_step == if old(
                self,
            ).stable_streak + 1 >= CONVERGENCE_WINDOW {
                Some(t)
            } else {
                None
            },
    {
        if self.convergence_step.is_none() {
            if within_tolerance {
                self.stable_streak = self.stable_streak + 1;
                if self.stable_streak >= CONVERGENCE_WINDOW {
                    self.convergence_step = Some(t);
                }
            } else {
                self.stable_streak = 0;
            }
        }
    }
}

/// One employee's history over a run.
#[derive(Clone, Copy, PartialEq, Eq, Debug, Structural)]
pub struct AgentHistory {
    /// Silent at some observed step.
    pub ever_silent: bool,
    /// Steps observed silent.
    pub silent_steps: u64,
    /// Steps observed voicing.
    pub voice_steps: u64,
    /// Steps observed.
    pub observed_steps: u64,
}

impl AgentHistory {
    /// Counts never exceed the steps observed.
    pub open spec fn wf(self) -> bool {
        &&& self.silent_steps + self.voice_steps <= self.observed_steps
        &&& self.ever_silent <==> self.silent_steps > 0
    }

    /// Nothing observed yet.
    pub fn new() -> (r: AgentHistory)
        ensures
            r.wf(),
            r.observed_steps == 0,
    {
        AgentHistory { ever_silent: false, silent_steps: 0, voice_steps: 0, observed_steps: 0 }
    }

    /// Record one observed step of employee `e`.
    pub fn record(&mut self, e: &EmployeeState)
        requires
            old(self).wf(),
            old(self).observed_steps < u64::MAX,
        ensures
            final(self).wf(),
            final(self).observed_steps == old(self).observed_steps + 1,
            final(self).silent_steps == old(self).silent_steps + if e.expression
                == Expression::Silence {
                1u64
            } else {
                0u64
            },
            final(self).voice_steps == old(self).voice_steps + if e.expression == Expression::Voice {
                1u64
            } else {
                0u64
            },
            final(self).ever_silent == (old(self).ever_silent || e.expression == Expression::Silence),
    {
        self.observed_steps = self.observed_steps + 1;
        match e.expression {
            Expression::Silence => {
                self.ever_silent = true;
                self.silent_steps = self.silent_steps + 1;
            },
            Expression::Voice => {
                self.voice_steps = self.voice_steps + 1;
            },
            Expression::Neutral => {},
        }
    }
}

// ------------------------------------------------------------------------- //
// Per-agent row text
// ------------------------------------------------------------------------- //

/// The labels of the ids that name rules, in order (other ids are dropped).
pub open spec fn rule_labels_of(ids: Seq<u8>) -> Seq<Seq<char>>
    decreases ids.len(),
{
    if ids.len() == 0 {
        Seq::empty()
    } else {
        let rest = rule_labels_of(ids.drop_last());
        match rule_of_id(ids.last()) {
            Some(r) => rest.push(rule_label(r)),
            None => rest,
        }
    }
}

/// `words` joined with `|`.
pub open spec fn joined(words: Seq<Seq<char>>) -> Seq<char>
    decreases words.len(),
{
    if words.len() == 0 {
        Seq::empty()
    } else if words.len() == 1 {
        words[0]
    } else {
        joined(words.drop_last()) + "|"@ + words.last()
    }
}

/// The active rules of an agent row: the labels of the rule ids, joined with
/// `|`.
pub fn rule_labels_joined(ids: &[u8]) -> (r: String)
    ensures
        r@ == joined(rule_labels_of(ids@)),
{
    let mut out = String::new();
    let mut any = false;
    let mut i: usize = 0;
    assert(ids@.take(0) =~= Seq::<u8>::empty());
    while i < ids.len()
        invariant
            i <= ids.len(),
            out@ == joined(rule_labels_of(ids@.take(i as int))),
            any == (rule_labels_of(ids@.take(i as int)).len() > 0),
        decreases ids.len() - i,
    {
        let ghost before = rule_labels_of(ids@.take(i as int));
        assert(ids@.take(i + 1).drop_last() =~= ids@.take(i as int));
        match IvtRule::from_id(ids[i]) {
            Some(rule) => {
                let label = rule.label();
                if any {
                    out.append("|");
                }
                out.append(label);
                proof {
                    assert(rule_labels_of(ids@.take(i + 1)) == before.push(rule_label(rule)));
                    assert(before.push(rule_label(rule)).drop_last() =~= before);
                    if before.len() == 0 {
                        assert(out@ =~= rule_label(rule));
                    }
                }
                any = true;
            },
            None => {},
        }
        i = i + 1;
    }
    assert(ids@.take(ids.len() as int) =~= ids@);
    out
}

/// The motive column of an agent row: the motive's label, `-` when none.
pub fn motive_column(m: Option<Motive>) -> (r: &'static str)
    ensures
        r@ == match m {
            Some(x) => motive_label(x),
            None => "-"@,
        },
{
    match m {
        Some(x) => x.label(),
        None => "-",
    }
}

} // verus!

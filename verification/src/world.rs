//! The model's vocabularies: the five implicit voice theory rules, the three
//! silence motives and the public expression of an employee.

use vstd::prelude::*;

use crate::text::{lemma_normalised_plain, normalise, normalised, spells};

verus! {

/// The five implicit voice theory rules, in canonical order.
#[derive(Clone, Copy, PartialEq, Eq, Debug, Hash, Structural)]
pub enum IvtRule {
    /// Presumed target identification: the boss takes input as a personal attack.
    TargetId,
    /// Solid data or a finished solution is needed before speaking.
    NeedData,
    /// The boss must not be bypassed upward.
    NoBypass,
    /// The boss must not be embarrassed in public.
    NoEmbarrass,
    /// Speaking up has negative career consequences.
    CareerConsq,
}

/// The stable id `0..5` of a rule.
pub open spec fn rule_id(r: IvtRule) -> u8 {
    match r {
        IvtRule::TargetId => 0,
        IvtRule::NeedData => 1,
        IvtRule::NoBypass => 2,
        IvtRule::NoEmbarrass => 3,
        IvtRule::CareerConsq => 4,
    }
}

/// The rule with id `id`, if `id < 5`.
pub open spec fn rule_of_id(id: u8) -> Option<IvtRule> {
    if id == 0 {
        Some(IvtRule::TargetId)
    } else if id == 1 {
        Some(IvtRule::NeedData)
    } else if id == 2 {
        Some(IvtRule::NoBypass)
    } else if id == 3 {
        Some(IvtRule::NoEmbarrass)
    } else if id == 4 {
        Some(IvtRule::CareerConsq)
    } else {
        None
    }
}

/// The stable snake_case label of a rule.
pub open spec fn rule_label(r: IvtRule) -> Seq<char> {
    match r {
        IvtRule::TargetId => "target_id"@,
        IvtRule::NeedData => "need_data"@,
        IvtRule::NoBypass => "no_bypass"@,
        IvtRule::NoEmbarrass => "no_embarrass"@,
        IvtRule::CareerConsq => "career_consq"@,
    }
}

impl IvtRule {
    /// All five rules in canonical (id) order.
    pub const ALL: [IvtRule; 5] = [
        IvtRule::TargetId,
        IvtRule::NeedData,
        IvtRule::NoBypass,
        IvtRule::NoEmbarrass,
        IvtRule::CareerConsq,
    ];

    /// Stable rule id `0..5`.
    pub fn id(&self) -> (r: u8)
        ensures
            r == rule_id(*self),
    {
        match self {
            IvtRule::TargetId => 0,
            IvtRule::NeedData => 1,
            IvtRule::NoBypass => 2,
            IvtRule::NoEmbarrass => 3,
            IvtRule::CareerConsq => 4,
        }
    }

    /// The rule with a given id (`None` out of range).
    pub fn from_id(id: u8) -> (r: Option<IvtRule>)
        ensures
            r == rule_of_id(id),
    {
        if id == 0 {
            Some(IvtRule::TargetId)
        } else if id == 1 {
            Some(IvtRule::NeedData)
        } else if id == 2 {
            Some(IvtRule::NoBypass)
        } else if id == 3 {
            Some(IvtRule::NoEmbarrass)
        } else if id == 4 {
            Some(IvtRule::CareerConsq)
        } else {
            None
        }
    }

    /// Stable snake_case label.
    pub fn label(&self) -> (r: &'static str)
        ensures
            r@ == rule_label(*self),
    {
        match self {
            IvtRule::TargetId => "target_id",
            IvtRule::NeedData => "need_data",
            IvtRule::NoBypass => "no_bypass",
            IvtRule::NoEmbarrass => "no_embarrass",
            IvtRule::CareerConsq => "career_consq",
        }
    }
}

/// Ids and rules are in one-to-one correspondence: a rule's id names it back,
/// every id below 5 names a rule whose id it is, and no other id names one.
pub proof fn ivt_rule_id_round_trip(r: IvtRule, id: u8)
    ensures
        rule_of_id(rule_id(r)) == Some(r),
        rule_id(r) < 5,
        id < 5 ==> rule_of_id(id) is Some && rule_id(rule_of_id(id)->0) == id,
        id >= 5 ==> rule_of_id(id) is None,
{
}

/// Distinct rules carry distinct labels.
pub proof fn ivt_rule_labels_distinct(r1: IvtRule, r2: IvtRule)
    ensures
        r1 != r2 ==> rule_label(r1) != rule_label(r2),
{
    reveal_strlit("target_id");
    reveal_strlit("need_data");
    reveal_strlit("no_bypass");
    reveal_strlit("no_embarrass");
    reveal_strlit("career_consq");
    if r1 != r2 {
        let a = rule_label(r1);
        let b = rule_label(r2);
        if a.len() == b.len() {
            if a[0] == b[0] {
                assert(a[1] != b[1]);
            } else {
                assert(a[0] != b[0]);
            }
        }
    }
}

/// Silence motive (`None` when the employee voices).
#[derive(Clone, Copy, PartialEq, Eq, Debug, Hash, Structural)]
pub enum Motive {
    /// Resigned withdrawal.
    Acquiescent,
    /// Fear-based self-protective withholding.
    Defensive,
    /// Other-protective withholding.
    Prosocial,
}

/// The stable lowercase label of a motive.
pub open spec fn motive_label(m: Motive) -> Seq<char> {
    match m {
        Motive::Acquiescent => "acquiescent"@,
        Motive::Defensive => "defensive"@,
        Motive::Prosocial => "prosocial"@,
    }
}

/// The motive a normalised word names, if any.
pub open spec fn motive_of_word(w: Seq<char>) -> Option<Motive> {
    if w == "acquiescent"@ || w == "as"@ {
        Some(Motive::Acquiescent)
    } else if w == "defensive"@ || w == "quiescent"@ || w == "qs"@ {
        Some(Motive::Defensive)
    } else if w == "prosocial"@ || w == "ps"@ {
        Some(Motive::Prosocial)
    } else {
        None
    }
}

impl Motive {
    /// Stable lowercase label.
    pub fn label(&self) -> (r: &'static str)
        ensures
            r@ == motive_label(*self),
    {
        match self {
            Motive::Acquiescent => "acquiescent",
            Motive::Defensive => "defensive",
            Motive::Prosocial => "prosocial",
        }
    }

    /// Parse a motive label (white space ignored, ASCII case folded).
    pub fn parse(s: &str) -> (r: Option<Motive>)
        ensures
            r == motive_of_word(normalised(s@)),
    {
        let w = normalise(s);
        if spells(&w, "acquiescent") || spells(&w, "as") {
            Some(Motive::Acquiescent)
        } else if spells(&w, "defensive") || spells(&w, "quiescent") || spells(&w, "qs") {
            Some(Motive::Defensive)
        } else if spells(&w, "prosocial") || spells(&w, "ps") {
            Some(Motive::Prosocial)
        } else {
            None
        }
    }
}

/// The words that name each silence motive, its label first.
pub open spec fn motive_words(k: Motive) -> Seq<Seq<char>> {
    match k {
        Motive::Acquiescent => seq!["acquiescent"@, "as"@],
        Motive::Defensive => seq!["defensive"@, "quiescent"@, "qs"@],
        Motive::Prosocial => seq!["prosocial"@, "ps"@],
    }
}

/// Each word of a motive names that motive, and a word names a motive only when it is one of that motive's words.
pub proof fn motive_words_name_their_motive(k: Motive, w: Seq<char>)
    ensures
        motive_words(k).contains(w) ==> motive_of_word(normalised(w)) == Some(k),
        motive_of_word(w) == Some(k) ==> motive_words(k).contains(w),
{
    reveal_strlit("acquiescent");
    reveal_strlit("as");
    reveal_strlit("defensive");
    reveal_strlit("prosocial");
    reveal_strlit("ps");
    reveal_strlit("qs");
    reveal_strlit("quiescent");
    let ws = motive_words(k);
    if ws.contains(w) {
        let i = choose|i: int| 0 <= i < ws.len() && ws[i] == w;
        match k {
            Motive::Acquiescent => {
                if i == 0 {
                    lemma_normalised_plain("acquiescent"@);
                    assert(motive_of_word("acquiescent"@) == Some(Motive::Acquiescent));
                } else if i == 1 {
                    lemma_normalised_plain("as"@);
                    assert(motive_of_word("as"@) == Some(Motive::Acquiescent));
                }
            },
            Motive::Defensive => {
                if i == 0 {
                    lemma_normalised_plain("defensive"@);
                    assert(motive_of_word("defensive"@) == Some(Motive::Defensive));
                } else if i == 1 {
                    lemma_normalised_plain("quiescent"@);
                    assert(motive_of_word("quiescent"@) == Some(Motive::Defensive));
                } else if i == 2 {
                    lemma_normalised_plain("qs"@);
                    assert(motive_of_word("qs"@) == Some(Motive::Defensive));
                }
            },
            Motive::Prosocial => {
                if i == 0 {
                    lemma_normalised_plain("prosocial"@);
                    assert(motive_of_word("prosocial"@) == Some(Motive::Prosocial));
                } else if i == 1 {
                    lemma_normalised_plain("ps"@);
                    assert(motive_of_word("ps"@) == Some(Motive::Prosocial));
                }
            },
        }
    }
    if motive_of_word(w) == Some(k) {
        match k {
            Motive::Acquiescent => {
                if w == "acquiescent"@ {
                    assert(ws[0] == w);
                } else if w == "as"@ {
                    assert(ws[1] == w);
                }
            },
            Motive::Defensive => {
                if w == "defensive"@ {
                    assert(ws[0] == w);
                } else if w == "quiescent"@ {
                    assert(ws[1] == w);
                } else if w == "qs"@ {
                    assert(ws[2] == w);
                }
            },
            Motive::Prosocial => {
                if w == "prosocial"@ {
                    assert(ws[0] == w);
                } else if w == "ps"@ {
                    assert(ws[1] == w);
                }
            },
        }
    }
}

/// Every motive's label parses back to that motive.
pub proof fn motive_label_round_trip(m: Motive)
    ensures
        motive_of_word(normalised(motive_label(m))) == Some(m),
{
    reveal_strlit("acquiescent");
    reveal_strlit("defensive");
    reveal_strlit("prosocial");
    reveal_strlit("as");
    reveal_strlit("quiescent");
    reveal_strlit("qs");
    lemma_normalised_plain(motive_label(m));
    let w = motive_label(m);
    if m != Motive::Acquiescent {
        assert(w != "acquiescent"@ && w != "as"@) by {
            assert(w.len() == 9);
        }
    }
    if m == Motive::Prosocial {
        assert(w != "defensive"@ && w != "quiescent"@ && w != "qs"@) by {
            assert(w[0] == 'p');
        }
    }
}

/// Public expression of an employee at a step.
#[derive(Clone, Copy, PartialEq, Eq, Debug, Structural)]
pub enum Expression {
    Voice,
    Silence,
    Neutral,
}

/// The stable lowercase label of an expression.
pub open spec fn expression_label(e: Expression) -> Seq<char> {
    match e {
        Expression::Voice => "voice"@,
        Expression::Silence => "silence"@,
        Expression::Neutral => "neutral"@,
    }
}

impl Expression {
    /// Stable lowercase label.
    pub fn label(&self) -> (r: &'static str)
        ensures
            r@ == expression_label(*self),
    {
        match self {
            Expression::Voice => "voice",
            Expression::Silence => "silence",
            Expression::Neutral => "neutral",
        }
    }
}

// ------------------------------------------------------------------------- //
// Discrete employee state
// ------------------------------------------------------------------------- //

/// The discrete part of one employee's state: team, public expression,
/// silence motive, whether the employee privately holds an upward concern
/// (a negative private stance), and the rules behind the latest decision.
/// The continuous attributes (fear, psychological safety, IVT strength,
/// thresholds) are kept by the simulation driver beside it.
#[derive(Debug)]
pub struct EmployeeState {
    pub team: usize,
    pub expression: Expression,
    pub motive: Option<Motive>,
    pub has_concern: bool,
    pub last_active_rules: Vec<u8>,
}

/// `ids` is strictly increasing and every id names a rule.
pub open spec fn is_rule_id_set(ids: Seq<u8>) -> bool {
    &&& forall|i: int, j: int| 0 <= i < j < ids.len() ==> ids[i] < ids[j]
    &&& forall|i: int| 0 <= i < ids.len() ==> ids[i] < 5
}

/// The invariant every decision keeps: the active rules form a rule-id set,
/// and only a silent employee carries a motive or active rules.
pub open spec fn employee_wf(e: EmployeeState) -> bool {
    &&& is_rule_id_set(e.last_active_rules@)
    &&& e.expression != Expression::Silence ==> e.motive is None && e.last_active_rules@.len() == 0
}

impl EmployeeState {
    /// A newly hired employee: no expression yet, no motive, no rules fired.
    pub fn neutral(team: usize, has_concern: bool) -> (e: EmployeeState)
        ensures
            e.team == team,
            e.has_concern == has_concern,
            e.expression == Expression::Neutral,
            e.motive is None,
            e.last_active_rules@.len() == 0,
            employee_wf(e),
    {
        EmployeeState {
            team,
            expression: Expression::Neutral,
            motive: None,
            has_concern,
            last_active_rules: Vec::new(),
        }
    }
}

/// A count out of a total; `count / total`, read as 0 when the total is 0.
#[derive(Clone, Copy, PartialEq, Eq, Debug, Structural)]
pub struct Rate {
    pub count: usize,
    pub total: usize,
}

/// How many of `neighbours` index a staff member with expression `x`.
pub open spec fn neighbours_with(staff: Seq<EmployeeState>, neighbours: Seq<usize>, x: Expression) -> nat
    decreases neighbours.len(),
{
    if neighbours.len() == 0 {
        0
    } else {
        let nb = neighbours.last();
        neighbours_with(staff, neighbours.drop_last(), x) + if nb < staff.len() && staff[nb as int].expression == x {
            1nat
        } else {
            0nat
        }
    }
}

proof fn lemma_neighbours_with_bounded(staff: Seq<EmployeeState>, neighbours: Seq<usize>, x: Expression)
    ensures
        neighbours_with(staff, neighbours, x) <= neighbours.len(),
    decreases neighbours.len(),
{
    if neighbours.len() > 0 {
        lemma_neighbours_with_bounded(staff, neighbours.drop_last(), x);
    }
}

/// The neighbour count is the number of neighbours that index a staff member
/// with the given expression: the length of the neighbours filtered to those;
/// it adds up over concatenation; neighbours that are out of range or show
/// another expression never count, and neighbours that all show it count
/// fully.
pub proof fn neighbours_with_counts_matching(
    staff: Seq<EmployeeState>,
    a: Seq<usize>,
    b: Seq<usize>,
    x: Expression,
)
    ensures
        neighbours_with(staff, a, x) == a.filter(
            |nb: usize| nb < staff.len() && staff[nb as int].expression == x,
        ).len(),
        neighbours_with(staff, a + b, x) == neighbours_with(staff, a, x) + neighbours_with(
            staff,
            b,
            x,
        ),
        (forall|k: int| 0 <= k < a.len() ==> a[k] >= staff.len() || staff[a[k] as int].expression != x)
            ==> neighbours_with(staff, a, x) == 0,
        (forall|k: int| 0 <= k < a.len() ==> a[k] < staff.len() && staff[a[k] as int].expression == x)
            ==> neighbours_with(staff, a, x) == a.len(),
    decreases a.len() + b.len(),
{
    if b.len() > 0 {
        assert((a + b).drop_last() =~= a + b.drop_last());
        neighbours_with_counts_matching(staff, a, b.drop_last(), x);
    } else {
        assert(a + b =~= a);
        if a.len() > 0 {
            let init = a.drop_last();
            neighbours_with_counts_matching(staff, init, b, x);
            reveal_with_fuel(Seq::filter, 1);
            if forall|k: int| 0 <= k < a.len() ==> a[k] >= staff.len() || staff[a[k] as int].expression != x {
                assert forall|k: int| 0 <= k < init.len() implies init[k] >= staff.len() || staff[init[k] as int].expression != x by {
                    assert(init[k] == a[k]);
                }
                assert(a[a.len() - 1] >= staff.len() || staff[a[a.len() - 1] as int].expression != x);
            }
            if forall|k: int| 0 <= k < a.len() ==> a[k] < staff.len() && staff[a[k] as int].expression == x {
                assert forall|k: int| 0 <= k < init.len() implies init[k] < staff.len() && staff[init[k] as int].expression == x by {
                    assert(init[k] == a[k]);
                }
                assert(a[a.len() - 1] < staff.len() && staff[a[a.len() - 1] as int].expression == x);
            }
        }
    }
}

fn count_neighbours_with(staff: &[EmployeeState], neighbours: &[usize], x: Expression) -> (r: usize)
    ensures
        r == neighbours_with(staff@, neighbours@, x),
{
    let mut count: usize = 0;
    let mut i: usize = 0;
    while i < neighbours.len()
        invariant
            i <= neighbours.len(),
            count == neighbours_with(staff@, neighbours@.take(i as int), x),
            count <= i,
        decreases neighbours.len() - i,
    {
        assert(neighbours@.take(i + 1).drop_last() =~= neighbours@.take(i as int));
        let nb = neighbours[i];
        if nb < staff.len() && staff[nb].expression == x {
            count = count + 1;
        }
        i = i + 1;
    }
    assert(neighbours@.take(neighbours.len() as int) =~= neighbours@);
    count
}

/// Perceived-silence ratio over an employee's network neighbours (given by
/// index): silent neighbours out of all neighbours; an isolated employee gets
/// the empty rate, read as 0.
pub fn neighbour_silence_ratio(staff: &[EmployeeState], neighbours: &[usize]) -> (r: Rate)
    ensures
        r.count == neighbours_with(staff@, neighbours@, Expression::Silence),
        r.count == neighbours@.filter(
            |nb: usize| nb < staff@.len() && staff@[nb as int].expression == Expression::Silence,
        ).len(),
        r.total == neighbours@.len(),
        r.count <= r.total,
{
    proof {
        lemma_neighbours_with_bounded(staff@, neighbours@, Expression::Silence);
        neighbours_with_counts_matching(staff@, neighbours@, Seq::empty(), Expression::Silence);
    }
    Rate { count: count_neighbours_with(staff, neighbours, Expression::Silence), total: neighbours.len() }
}

/// Voice ratio over an employee's network neighbours (given by index).
pub fn neighbour_voice_ratio(staff: &[EmployeeState], neighbours: &[usize]) -> (r: Rate)
    ensures
        r.count == neighbours_with(staff@, neighbours@, Expression::Voice),
        r.count == neighbours@.filter(
            |nb: usize| nb < staff@.len() && staff@[nb as int].expression == Expression::Voice,
        ).len(),
        r.total == neighbours@.len(),
        r.count <= r.total,
{
    proof {
        lemma_neighbours_with_bounded(staff@, neighbours@, Expression::Voice);
        neighbours_with_counts_matching(staff@, neighbours@, Seq::empty(), Expression::Voice);
    }
    Rate { count: count_neighbours_with(staff, neighbours, Expression::Voice), total: neighbours.len() }
}

} // verus!

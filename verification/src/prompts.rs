//! The language-model layer of the voice decision: personas, and the reader
//! that turns a free-text reply into a verdict.
//!
//! A reply is read leniently: the first balanced `{...}` object is cut out of
//! the text, its `decision`, `motive` and `active_rules` fields are read, and
//! labels are compared after trimming and ASCII case folding.  Anything that
//! cannot be read falls back to `Silence` with no motive and no rules, flagged
//! as a parse failure.

use vstd::prelude::*;

use crate::text::{chars_of, lemma_normalised_plain, normalise, normalised, spells};
use crate::world::{is_rule_id_set, motive_of_word, rule_id, rule_label, Expression, IvtRule, Motive};

verus! {

/// Short, second-person description of each rule, in canonical id order.
pub const RULE_DESCRIPTIONS: [&'static str; 5] = [
    "your boss will take any upward input as a personal attack and identify you as the critic",
    "you must have solid data or a finished solution before it is acceptable to speak up",
    "you must never go over your direct supervisor's head to a higher level",
    "you must never say anything that could embarrass your boss in front of others",
    "speaking up will damage your promotion, evaluation, or standing",
];

/// Personas by hierarchical level band (low / mid / senior).
pub const PERSONAS: [&'static str; 3] = [
    "a junior front-line employee with little positional power",
    "a mid-level employee with some tenure and a direct supervisor above you",
    "a senior employee close to leadership but still reporting upward",
];

/// The persona band of a level: levels above 2 share the senior band.
pub open spec fn persona_band(level: u8) -> int {
    if level < 2 {
        level as int
    } else {
        2
    }
}

/// Persona string for an employee level.
pub fn persona_for_level(level: u8) -> (r: &'static str)
    ensures
        r == PERSONAS[persona_band(level)],
{
    let band: usize = if level < 2 {
        level as usize
    } else {
        2
    };
    PERSONAS[band]
}

// ------------------------------------------------------------------------- //
// Cutting the JSON object out of a reply
// ------------------------------------------------------------------------- //

/// The first index at or after `i` that holds `c`.
pub open spec fn first_index_from(s: Seq<char>, c: char, i: int) -> Option<int>
    decreases s.len() - i,
{
    if i < 0 || i >= s.len() {
        None
    } else if s[i] == c {
        Some(i)
    } else {
        first_index_from(s, c, i + 1)
    }
}

/// Scanning `s` from `i` with brace depth `depth`, inside a string literal or
/// not, just after a backslash or not: the index of the `}` that brings the
/// depth back to zero.  Braces inside string literals do not count, and a
/// backslash inside a string literal escapes the next character.
pub open spec fn closing_brace(s: Seq<char>, i: int, depth: int, in_str: bool, esc: bool) -> Option<
    int,
>
    decreases s.len() - i,
{
    if i < 0 || i >= s.len() {
        None
    } else if in_str {
        if esc {
            closing_brace(s, i + 1, depth, true, false)
        } else if s[i] == '\\' {
            closing_brace(s, i + 1, depth, true, true)
        } else if s[i] == '"' {
            closing_brace(s, i + 1, depth, false, false)
        } else {
            closing_brace(s, i + 1, depth, true, false)
        }
    } else if s[i] == '"' {
        closing_brace(s, i + 1, depth, true, false)
    } else if s[i] == '{' {
        closing_brace(s, i + 1, depth + 1, false, false)
    } else if s[i] == '}' {
        if depth - 1 == 0 {
            Some(i)
        } else {
            closing_brace(s, i + 1, depth - 1, false, false)
        }
    } else {
        closing_brace(s, i + 1, depth, false, false)
    }
}

/// The first and last index of the first balanced `{...}` object in `s`.
pub open spec fn json_span(s: Seq<char>) -> Option<(int, int)> {
    match first_index_from(s, '{', 0) {
        None => None,
        Some(a) => match closing_brace(s, a, 0, false, false) {
            None => None,
            Some(b) => Some((a, b)),
        },
    }
}

/// The first balanced `{...}` object of `s`, if there is one.
pub open spec fn json_object_of(s: Seq<char>) -> Option<Seq<char>> {
    match json_span(s) {
        None => None,
        Some((a, b)) => Some(s.subrange(a, b + 1)),
    }
}

proof fn lemma_first_index_skips(s: Seq<char>, c: char, i: int, m: int)
    requires
        0 <= i <= m < s.len(),
        s[m] == c,
        forall|k: int| i <= k < m ==> s[k] != c,
    ensures
        first_index_from(s, c, i) == Some(m),
    decreases m - i,
{
    if i < m {
        lemma_first_index_skips(s, c, i + 1, m);
    }
}

proof fn lemma_closing_skips_plain(s: Seq<char>, i: int, j: int, depth: int)
    requires
        0 <= i <= j <= s.len(),
        forall|k: int| i <= k < j ==> s[k] != '{' && s[k] != '}' && s[k] != '"',
    ensures
        closing_brace(s, i, depth, false, false) == closing_brace(s, j, depth, false, false),
    decreases j - i,
{
    if i < j {
        lemma_closing_skips_plain(s, i + 1, j, depth);
    }
}

proof fn lemma_closing_skips_string(s: Seq<char>, i: int, j: int, depth: int)
    requires
        0 <= i <= j <= s.len(),
        forall|k: int| i <= k < j ==> s[k] != '"' && s[k] != '\\',
    ensures
        closing_brace(s, i, depth, true, false) == closing_brace(s, j, depth, true, false),
    decreases j - i,
{
    if i < j {
        lemma_closing_skips_string(s, i + 1, j, depth);
    }
}

/// The object cut out of a reply is the first `{` and what follows it up to
/// the brace that balances it: text before the first `{` is skipped, braces
/// inside string literals do not count, an escaped quote does not end a
/// string literal, and text after the closing brace is left out.
pub proof fn json_object_is_first_balanced_object(
    pre: Seq<char>,
    b1: Seq<char>,
    q1: Seq<char>,
    x: char,
    q2: Seq<char>,
    b2: Seq<char>,
    post: Seq<char>,
)
    requires
        forall|k: int| 0 <= k < pre.len() ==> pre[k] != '{',
        forall|k: int| 0 <= k < b1.len() ==> b1[k] != '{' && b1[k] != '}' && b1[k] != '"',
        forall|k: int| 0 <= k < b2.len() ==> b2[k] != '{' && b2[k] != '}' && b2[k] != '"',
        forall|k: int| 0 <= k < q1.len() ==> q1[k] != '"' && q1[k] != '\\',
        forall|k: int| 0 <= k < q2.len() ==> q2[k] != '"' && q2[k] != '\\',
    ensures
        json_object_of(pre + (seq!['{'] + b1 + seq!['}']) + post) == Some(seq!['{'] + b1 + seq!['}']),
        json_object_of(
            pre + (seq!['{'] + b1 + seq!['"'] + q1 + seq!['\\', x] + q2 + seq!['"'] + b2 + seq!['}'])
                + post,
        ) == Some(seq!['{'] + b1 + seq!['"'] + q1 + seq!['\\', x] + q2 + seq!['"'] + b2 + seq!['}']),
{
    let p = pre.len() as int;
    // A plain object.
    let obj = seq!['{'] + b1 + seq!['}'];
    let s = pre + obj + post;
    let e = p + 1 + b1.len();
    assert(s[p] == '{');
    assert forall|k: int| 0 <= k < p implies s[k] != '{' by {
        assert(s[k] == pre[k]);
    }
    lemma_first_index_skips(s, '{', 0, p);
    assert forall|k: int| p + 1 <= k < e implies s[k] != '{' && s[k] != '}' && s[k] != '"' by {
        assert(s[k] == b1[k - p - 1]);
    }
    lemma_closing_skips_plain(s, p + 1, e, 1);
    assert(s[e] == '}');
    assert(s.subrange(p, e + 1) =~= obj);
    // An object holding a string literal with an escaped character.
    let obj2 = seq!['{'] + b1 + seq!['"'] + q1 + seq!['\\', x] + q2 + seq!['"'] + b2 + seq!['}'];
    let t = pre + obj2 + post;
    let a = p + 1 + b1.len();
    let b = a + 1 + q1.len();
    let c = b + 2 + q2.len();
    let d = c + 1 + b2.len();
    assert(obj2.len() == d - p + 1);
    assert(t[p] == '{');
    assert forall|k: int| 0 <= k < p implies t[k] != '{' by {
        assert(t[k] == pre[k]);
    }
    lemma_first_index_skips(t, '{', 0, p);
    assert forall|k: int| p + 1 <= k < a implies t[k] != '{' && t[k] != '}' && t[k] != '"' by {
        assert(t[k] == b1[k - p - 1]);
    }
    lemma_closing_skips_plain(t, p + 1, a, 1);
    assert(t[a] == '"');
    assert forall|k: int| a + 1 <= k < b implies t[k] != '"' && t[k] != '\\' by {
        assert(t[k] == q1[k - a - 1]);
    }
    lemma_closing_skips_string(t, a + 1, b, 1);
    assert(t[b] == '\\');
    assert(t[b + 1] == x);
    assert forall|k: int| b + 2 <= k < c implies t[k] != '"' && t[k] != '\\' by {
        assert(t[k] == q2[k - b - 2]);
    }
    lemma_closing_skips_string(t, b + 2, c, 1);
    assert(t[c] == '"');
    assert forall|k: int| c + 1 <= k < d implies t[k] != '{' && t[k] != '}' && t[k] != '"' by {
        assert(t[k] == b2[k - c - 1]);
    }
    lemma_closing_skips_plain(t, c + 1, d, 1);
    assert(t[d] == '}');
    assert(closing_brace(t, d, 1, false, false) == Some(d));
    assert(closing_brace(t, c, 1, true, false) == closing_brace(t, c + 1, 1, false, false));
    assert(closing_brace(t, b + 1, 1, true, true) == closing_brace(t, b + 2, 1, true, false));
    assert(closing_brace(t, b, 1, true, false) == closing_brace(t, b + 1, 1, true, true));
    assert(closing_brace(t, a, 1, false, false) == closing_brace(t, a + 1, 1, true, false));
    assert(closing_brace(t, p, 0, false, false) == closing_brace(t, p + 1, 1, false, false));
    assert(closing_brace(t, p, 0, false, false) == Some(d));
    assert(json_span(t) == Some((p, d)));
    assert(t.subrange(p, d + 1) =~= obj2);
}

/// Cut the first balanced `{...}` object out of `text`.
pub fn extract_json_object(text: &str) -> (r: Option<String>)
    ensures
        match r {
            None => json_object_of(text@) is None,
            Some(o) => json_object_of(text@) == Some(o@),
        },
{
    let cs = chars_of(text);
    let n = cs.len();
    let ghost s = text@;
    let mut start: usize = 0;
    while start < n && cs[start] != '{'
        invariant
            cs@ == s,
            n == s.len(),
            start <= n,
            first_index_from(s, '{', 0) == first_index_from(s, '{', start as int),
        decreases n - start,
    {
        start = start + 1;
    }
    if start == n {
        return None;
    }
    let mut i: usize = start;
    let mut depth: usize = 0;
    let mut in_str = false;
    let mut esc = false;
    while i < n
        invariant
            cs@ == s,
            s == text@,
            n == s.len(),
            start < n,
            s[start as int] == '{',
            start <= i <= n,
            depth <= i - start,
            i > start ==> depth >= 1,
            i == start ==> depth == 0 && !in_str && !esc,
            !in_str ==> !esc,
            json_span(s) == match closing_brace(s, i as int, depth as int, in_str, esc) {
                None => None,
                Some(b) => Some((start as int, b)),
            },
        decreases n - i,
    {
        let c = cs[i];
        if in_str {
            if esc {
                esc = false;
            } else if c == '\\' {
                esc = true;
            } else if c == '"' {
                in_str = false;
            }
        } else if c == '"' {
            in_str = true;
        } else if c == '{' {
            depth = depth + 1;
        } else if c == '}' {
            if depth == 1 {
                let piece = text.substring_char(start, i + 1);
                return Some(piece.to_owned());
            }
            depth = depth - 1;
        }
        i = i + 1;
    }
    None
}

// ------------------------------------------------------------------------- //
// Rule labels
// ------------------------------------------------------------------------- //

/// The rule id a normalised label names, if any.
pub open spec fn rule_id_of_word(w: Seq<char>) -> Option<u8> {
    if w == "target_id"@ || w == "target-id"@ || w == "targetid"@ {
        Some(0u8)
    } else if w == "need_data"@ || w == "need-data"@ || w == "needdata"@ {
        Some(1u8)
    } else if w == "no_bypass"@ || w == "no-bypass"@ || w == "nobypass"@ {
        Some(2u8)
    } else if w == "no_embarrass"@ || w == "no-embarrass"@ || w == "noembarrass"@ {
        Some(3u8)
    } else if w == "career_consq"@ || w == "career-consq"@ || w == "career_consequences"@ {
        Some(4u8)
    } else {
        None
    }
}

/// Every rule's own label, read in a reply, names that rule's id.
pub proof fn rule_label_round_trip(k: IvtRule)
    ensures
        rule_id_of_word(normalised(rule_label(k))) == Some(rule_id(k)),
{
    let w = rule_label(k);
    assert(rule_words(k)[0] == w);
    assert(rule_words(k).contains(w));
    rule_words_name_their_rule(k, w);
}

/// The words that name each implicit voice theory rule in a reply, its label first.
pub open spec fn rule_words(k: IvtRule) -> Seq<Seq<char>> {
    match k {
        IvtRule::TargetId => seq!["target_id"@, "target-id"@, "targetid"@],
        IvtRule::NeedData => seq!["need_data"@, "need-data"@, "needdata"@],
        IvtRule::NoBypass => seq!["no_bypass"@, "no-bypass"@, "nobypass"@],
        IvtRule::NoEmbarrass => seq!["no_embarrass"@, "no-embarrass"@, "noembarrass"@],
        IvtRule::CareerConsq => seq!["career_consq"@, "career-consq"@, "career_consequences"@],
    }
}

/// Each word of a rule names that rule's id, and a word names a rule's id only when it is one of that rule's words.
pub proof fn rule_words_name_their_rule(k: IvtRule, w: Seq<char>)
    ensures
        rule_words(k).contains(w) ==> rule_id_of_word(normalised(w)) == Some(rule_id(k)),
        rule_id_of_word(w) == Some(rule_id(k)) ==> rule_words(k).contains(w),
{
    reveal_strlit("career-consq");
    reveal_strlit("career_consequences");
    reveal_strlit("career_consq");
    reveal_strlit("need-data");
    reveal_strlit("need_data");
    reveal_strlit("needdata");
    reveal_strlit("no-bypass");
    reveal_strlit("no-embarrass");
    reveal_strlit("no_bypass");
    reveal_strlit("no_embarrass");
    reveal_strlit("nobypass");
    reveal_strlit("noembarrass");
    reveal_strlit("target-id");
    reveal_strlit("target_id");
    reveal_strlit("targetid");
    let ws = rule_words(k);
    if ws.contains(w) {
        let i = choose|i: int| 0 <= i < ws.len() && ws[i] == w;
        match k {
            IvtRule::TargetId => {
                if i == 0 {
                    lemma_normalised_plain("target_id"@);
                    assert(rule_id_of_word("target_id"@) == Some(rule_id(IvtRule::TargetId)));
                } else if i == 1 {
                    lemma_normalised_plain("target-id"@);
                    assert(rule_id_of_word("target-id"@) == Some(rule_id(IvtRule::TargetId)));
                } else if i == 2 {
                    lemma_normalised_plain("targetid"@);
                    assert(rule_id_of_word("targetid"@) == Some(rule_id(IvtRule::TargetId)));
                }
            },
            IvtRule::NeedData => {
                if i == 0 {
                    lemma_normalised_plain("need_data"@);
                    assert(rule_id_of_word("need_data"@) == Some(rule_id(IvtRule::NeedData)));
                } else if i == 1 {
                    lemma_normalised_plain("need-data"@);
                    assert(rule_id_of_word("need-data"@) == Some(rule_id(IvtRule::NeedData)));
                } else if i == 2 {
                    lemma_normalised_plain("needdata"@);
                    assert(rule_id_of_word("needdata"@) == Some(rule_id(IvtRule::NeedData)));
                }
            },
            IvtRule::NoBypass => {
                if i == 0 {
                    lemma_normalised_plain("no_bypass"@);
                    assert(rule_id_of_word("no_bypass"@) == Some(rule_id(IvtRule::NoBypass)));
                } else if i == 1 {
                    lemma_normalised_plain("no-bypass"@);
                    assert(rule_id_of_word("no-bypass"@) == Some(rule_id(IvtRule::NoBypass)));
                } else if i == 2 {
                    lemma_normalised_plain("nobypass"@);
                    assert(rule_id_of_word("nobypass"@) == Some(rule_id(IvtRule::NoBypass)));
                }
            },
            IvtRule::NoEmbarrass => {
                if i == 0 {
                    lemma_normalised_plain("no_embarrass"@);
                    assert(rule_id_of_word("no_embarrass"@) == Some(rule_id(IvtRule::NoEmbarrass)));
                } else if i == 1 {
                    lemma_normalised_plain("no-embarrass"@);
                    assert(rule_id_of_word("no-embarrass"@) == Some(rule_id(IvtRule::NoEmbarrass)));
                } else if i == 2 {
                    lemma_normalised_plain("noembarrass"@);
                    assert(rule_id_of_word("noembarrass"@) == Some(rule_id(IvtRule::NoEmbarrass)));
                }
            },
            IvtRule::CareerConsq => {
                if i == 0 {
                    lemma_normalised_plain("career_consq"@);
                    assert(rule_id_of_word("career_consq"@) == Some(rule_id(IvtRule::CareerConsq)));
                } else if i == 1 {
                    lemma_normalised_plain("career-consq"@);
                    assert(rule_id_of_word("career-consq"@) == Some(rule_id(IvtRule::CareerConsq)));
                } else if i == 2 {
                    lemma_normalised_plain("career_consequences"@);
                    assert(rule_id_of_word("career_consequences"@) == Some(rule_id(IvtRule::CareerConsq)));
                }
            },
        }
    }
    if rule_id_of_word(w) == Some(rule_id(k)) {
        match k {
            IvtRule::TargetId => {
                if w == "target_id"@ {
                    assert(ws[0] == w);
                } else if w == "target-id"@ {
                    assert(ws[1] == w);
                } else if w == "targetid"@ {
                    assert(ws[2] == w);
                }
            },
            IvtRule::NeedData => {
                if w == "need_data"@ {
                    assert(ws[0] == w);
                } else if w == "need-data"@ {
                    assert(ws[1] == w);
                } else if w == "needdata"@ {
                    assert(ws[2] == w);
                }
            },
            IvtRule::NoBypass => {
                if w == "no_bypass"@ {
                    assert(ws[0] == w);
                } else if w == "no-bypass"@ {
                    assert(ws[1] == w);
                } else if w == "nobypass"@ {
                    assert(ws[2] == w);
                }
            },
            IvtRule::NoEmbarrass => {
                if w == "no_embarrass"@ {
                    assert(ws[0] == w);
                } else if w == "no-embarrass"@ {
                    assert(ws[1] == w);
                } else if w == "noembarrass"@ {
                    assert(ws[2] == w);
                }
            },
            IvtRule::CareerConsq => {
                if w == "career_consq"@ {
                    assert(ws[0] == w);
                } else if w == "career-consq"@ {
                    assert(ws[1] == w);
                } else if w == "career_consequences"@ {
                    assert(ws[2] == w);
                }
            },
        }
    }
}

/// Whether one of `labels` names rule `id`.
pub open spec fn names_rule(labels: Seq<Seq<char>>, id: u8) -> bool {
    exists|k: int| 0 <= k < labels.len() && rule_id_of_word(normalised(#[trigger] labels[k])) == Some(id)
}

/// `ids` lists, in strictly increasing order and once each, exactly the rules
/// that `labels` name.
pub open spec fn is_rule_set_of(ids: Seq<u8>, labels: Seq<Seq<char>>) -> bool {
    &&& forall|i: int, j: int| 0 <= i < j < ids.len() ==> ids[i] < ids[j]
    &&& forall|id: u8| ids.contains(id) <==> names_rule(labels, id)
}

/// The characters of each string.
pub open spec fn strings_view(v: Seq<String>) -> Seq<Seq<char>> {
    v.map_values(|s: String| s@)
}

fn rule_id_of(w: &Vec<char>) -> (r: Option<u8>)
    ensures
        r == rule_id_of_word(w@),
{
    if spells(w, "target_id") || spells(w, "target-id") || spells(w, "targetid") {
        Some(0)
    } else if spells(w, "need_data") || spells(w, "need-data") || spells(w, "needdata") {
        Some(1)
    } else if spells(w, "no_bypass") || spells(w, "no-bypass") || spells(w, "nobypass") {
        Some(2)
    } else if spells(w, "no_embarrass") || spells(w, "no-embarrass") || spells(w, "noembarrass") {
        Some(3)
    } else if spells(w, "career_consq") || spells(w, "career-consq") || spells(
        w,
        "career_consequences",
    ) {
        Some(4)
    } else {
        None
    }
}

/// The rule ids named by `labels`, sorted and without repetition; labels that
/// name no rule are ignored.
pub fn parse_active_rules(labels: &[String]) -> (r: Vec<u8>)
    ensures
        is_rule_set_of(r@, strings_view(labels@)),
{
    let ghost ls = strings_view(labels@);
    let mut present: Vec<bool> = vec![false, false, false, false, false];
    let mut k: usize = 0;
    while k < labels.len()
        invariant
            ls == strings_view(labels@),
            k <= labels.len(),
            present@.len() == 5,
            forall|id: u8|
                id < 5 ==> (present@[id as int] <==> exists|j: int|
                    0 <= j < k && rule_id_of_word(normalised(#[trigger] ls[j])) == Some(id)),
        decreases labels.len() - k,
    {
        let w = normalise(labels[k].as_str());
        let id = rule_id_of(&w);
        match id {
            Some(i) => {
                present.set(i as usize, true);
            },
            None => {},
        }
        assert forall|id: u8| id < 5 implies (present@[id as int] <==> exists|j: int|
            0 <= j < k + 1 && rule_id_of_word(normalised(#[trigger] ls[j])) == Some(id)) by {
            if rule_id_of_word(normalised(ls[k as int])) == Some(id) {
                assert(0 <= k < k + 1);
            }
        }
        k = k + 1;
    }
    let mut out: Vec<u8> = Vec::new();
    let mut id: u8 = 0;
    while id < 5
        invariant
            id <= 5,
            present@.len() == 5,
            ls == strings_view(labels@),
            k == labels.len(),
            forall|x: u8|
                x < 5 ==> (present@[x as int] <==> exists|j: int|
                    0 <= j < k && rule_id_of_word(normalised(#[trigger] ls[j])) == Some(x)),
            forall|i: int| 0 <= i < out@.len() ==> out@[i] < id,
            forall|i: int, j: int| 0 <= i < j < out@.len() ==> out@[i] < out@[j],
            forall|x: u8| x < id ==> (out@.contains(x) <==> present@[x as int]),
            forall|x: u8| x >= id ==> !out@.contains(x),
        decreases 5 - id,
    {
        let ghost before = out@;
        if present[id as usize] {
            out.push(id);
            proof {
                assert(out@ == before.push(id));
                assert forall|x: u8| x < id + 1 implies (out@.contains(x) <==> present@[x as int]) by {
                    if x == id {
                        assert(out@[before.len() as int] == x);
                    } else {
                        if out@.contains(x) {
                            let i = choose|i: int| 0 <= i < out@.len() && out@[i] == x;
                            assert(i < before.len());
                            assert(before.contains(x));
                        }
                        if before.contains(x) {
                            let i = choose|i: int| 0 <= i < before.len() && before[i] == x;
                            assert(out@[i] == x);
                        }
                    }
                }
                assert forall|x: u8| x >= id + 1 implies !out@.contains(x) by {
                    if out@.contains(x) {
                        let i = choose|i: int| 0 <= i < out@.len() && out@[i] == x;
                        if i < before.len() {
                            assert(before.contains(x));
                        }
                    }
                }
            }
        }
        id = id + 1;
    }
    assert forall|x: u8| out@.contains(x) <==> names_rule(ls, x) by {
        if names_rule(ls, x) {
            let j = choose|j: int| 0 <= j < ls.len() && rule_id_of_word(normalised(#[trigger] ls[j])) == Some(x);
            assert(x < 5);
        }
    }
    out
}

// ------------------------------------------------------------------------- //
// Verdicts
// ------------------------------------------------------------------------- //

/// The verdict read from one reply.
#[derive(Debug, Clone, PartialEq)]
pub struct VoiceDecisionVerdict {
    pub expression: Expression,
    pub motive: Option<Motive>,
    /// Rule ids `0..5` the reply reported as active.
    pub active_rules: Vec<u8>,
    /// Set when the reply could not be read and the verdict is the fallback.
    pub parse_failed: bool,
}

/// The fallback: silence, no motive, no rules, flagged as failed.
pub open spec fn is_fallback(v: VoiceDecisionVerdict) -> bool {
    &&& v.expression == Expression::Silence
    &&& v.motive is None
    &&& v.active_rules@.len() == 0
    &&& v.parse_failed
}

fn fallback_verdict() -> (r: VoiceDecisionVerdict)
    ensures
        is_fallback(r),
{
    VoiceDecisionVerdict {
        expression: Expression::Silence,
        motive: None,
        active_rules: Vec::new(),
        parse_failed: true,
    }
}

/// The invariant every verdict keeps: its rules form a rule-id set, and only
/// a silence verdict carries a motive or rules.
pub open spec fn verdict_wf(v: VoiceDecisionVerdict) -> bool {
    &&& is_rule_id_set(v.active_rules@)
    &&& v.expression != Expression::Silence ==> v.motive is None && v.active_rules@.len() == 0
}

/// A rule set named by labels is a rule-id set.
pub proof fn lemma_rule_set_is_id_set(ids: Seq<u8>, labels: Seq<Seq<char>>)
    requires
        is_rule_set_of(ids, labels),
    ensures
        is_rule_id_set(ids),
{
    assert forall|i: int| 0 <= i < ids.len() implies ids[i] < 5 by {
        assert(ids.contains(ids[i]));
        let k = choose|k: int| 0 <= k < labels.len() && rule_id_of_word(normalised(#[trigger] labels[k])) == Some(ids[i]);
    }
}

/// Every verdict for a reply keeps the verdict invariant.
pub proof fn lemma_verdict_for_wf(
    v: VoiceDecisionVerdict,
    decision: Option<Seq<char>>,
    motive: Option<Seq<char>>,
    labels: Seq<Seq<char>>,
)
    requires
        is_verdict_for(v, decision, motive, labels),
    ensures
        verdict_wf(v),
{
    match decided_expression(decision) {
        None => {},
        Some(Expression::Voice) => {},
        Some(_) => {
            lemma_rule_set_is_id_set(v.active_rules@, labels);
        },
    }
}

/// The three fields of a reply, as strings.
pub struct RawDecision {
    pub decision: Option<String>,
    pub motive: Option<String>,
    pub active_rules: Vec<String>,
}

/// The characters of an optional string.
pub open spec fn opt_view(o: Option<String>) -> Option<Seq<char>> {
    match o {
        Some(s) => Some(s@),
        None => None,
    }
}

/// The expression a normalised decision word names, if any.
pub open spec fn expression_of_word(w: Seq<char>) -> Option<Expression> {
    if w == "voice"@ || w == "speak"@ || w == "speak_up"@ {
        Some(Expression::Voice)
    } else if w == "silence"@ || w == "silent"@ || w == "withhold"@ {
        Some(Expression::Silence)
    } else {
        None
    }
}

/// The words that decide each expression in a reply's `decision` field (none decides `Neutral`).
pub open spec fn decision_words(k: Expression) -> Seq<Seq<char>> {
    match k {
        Expression::Voice => seq!["voice"@, "speak"@, "speak_up"@],
        Expression::Silence => seq!["silence"@, "silent"@, "withhold"@],
        Expression::Neutral => Seq::empty(),
    }
}

/// Each decision word of an expression decides that expression, and a word decides an expression only when it is one of its decision words.
pub proof fn decision_words_name_their_expression(k: Expression, w: Seq<char>)
    ensures
        decision_words(k).contains(w) ==> expression_of_word(normalised(w)) == Some(k),
        expression_of_word(w) == Some(k) ==> decision_words(k).contains(w),
{
    reveal_strlit("silence");
    reveal_strlit("silent");
    reveal_strlit("speak");
    reveal_strlit("speak_up");
    reveal_strlit("voice");
    reveal_strlit("withhold");
    let ws = decision_words(k);
    if ws.contains(w) {
        let i = choose|i: int| 0 <= i < ws.len() && ws[i] == w;
        match k {
            Expression::Voice => {
                if i == 0 {
                    lemma_normalised_plain("voice"@);
                    assert(expression_of_word("voice"@) == Some(Expression::Voice));
                } else if i == 1 {
                    lemma_normalised_plain("speak"@);
                    assert(expression_of_word("speak"@) == Some(Expression::Voice));
                } else if i == 2 {
                    lemma_normalised_plain("speak_up"@);
                    assert(expression_of_word("speak_up"@) == Some(Expression::Voice));
                }
            },
            Expression::Silence => {
                if i == 0 {
                    lemma_normalised_plain("silence"@);
                    assert(expression_of_word("silence"@) == Some(Expression::Silence));
                } else if i == 1 {
                    lemma_normalised_plain("silent"@);
                    assert(expression_of_word("silent"@) == Some(Expression::Silence));
                } else if i == 2 {
                    lemma_normalised_plain("withhold"@);
                    assert(expression_of_word("withhold"@) == Some(Expression::Silence));
                }
            },
            Expression::Neutral => {
            },
        }
    }
    if expression_of_word(w) == Some(k) {
        match k {
            Expression::Voice => {
                if w == "voice"@ {
                    assert(ws[0] == w);
                } else if w == "speak"@ {
                    assert(ws[1] == w);
                } else if w == "speak_up"@ {
                    assert(ws[2] == w);
                }
            },
            Expression::Silence => {
                if w == "silence"@ {
                    assert(ws[0] == w);
                } else if w == "silent"@ {
                    assert(ws[1] == w);
                } else if w == "withhold"@ {
                    assert(ws[2] == w);
                }
            },
            Expression::Neutral => {
            },
        }
    }
}

/// The expression a reply's `decision` field decides, if any.
pub open spec fn decided_expression(decision: Option<Seq<char>>) -> Option<Expression> {
    match decision {
        Some(w) => expression_of_word(normalised(w)),
        None => None,
    }
}

/// The motive a reply's `motive` field names, if any.
pub open spec fn motive_of_reply(motive: Option<Seq<char>>) -> Option<Motive> {
    match motive {
        Some(w) => motive_of_word(normalised(w)),
        None => None,
    }
}

/// `v` is the verdict for a reply with these fields: an unreadable decision
/// gives the fallback; voice carries no motive and no rules; silence carries
/// the named motive and rules, and counts as a failure exactly when the motive
/// is missing or unknown.
pub open spec fn is_verdict_for(
    v: VoiceDecisionVerdict,
    decision: Option<Seq<char>>,
    motive: Option<Seq<char>>,
    labels: Seq<Seq<char>>,
) -> bool {
    match decided_expression(decision) {
        None => is_fallback(v),
        Some(Expression::Voice) => {
            &&& v.expression == Expression::Voice
            &&& v.motive is None
            &&& v.active_rules@.len() == 0
            &&& !v.parse_failed
        },
        Some(_) => {
            &&& v.expression == Expression::Silence
            &&& v.motive == motive_of_reply(motive)
            &&& is_rule_set_of(v.active_rules@, labels)
            &&& v.parse_failed == (v.motive is None)
        },
    }
}

/// Turn the fields of a reply into a verdict.
pub fn finalise_verdict(raw: RawDecision) -> (r: VoiceDecisionVerdict)
    ensures
        is_verdict_for(r, opt_view(raw.decision), opt_view(raw.motive), strings_view(raw.active_rules@)),
{
    let expression = match &raw.decision {
        None => {
            return fallback_verdict();
        },
        Some(d) => {
            let w = normalise(d.as_str());
            if spells(&w, "voice") || spells(&w, "speak") || spells(&w, "speak_up") {
                Expression::Voice
            } else if spells(&w, "silence") || spells(&w, "silent") || spells(&w, "withhold") {
                Expression::Silence
            } else {
                return fallback_verdict();
            }
        },
    };
    if expression == Expression::Voice {
        return VoiceDecisionVerdict {
            expression,
            motive: None,
            active_rules: Vec::new(),
            parse_failed: false,
        };
    }
    let motive = match &raw.motive {
        Some(m) => Motive::parse(m.as_str()),
        None => None,
    };
    let active_rules = parse_active_rules(raw.active_rules.as_slice());
    let parse_failed = motive.is_none();
    VoiceDecisionVerdict { expression, motive, active_rules, parse_failed }
}

// ------------------------------------------------------------------------- //
// Reading the JSON object
// ------------------------------------------------------------------------- //

/// The `decision` and `motive` fields of a JSON object when they are strings,
/// and its `active_rules` field when it is an array (each element kept when it
/// is a string).
pub struct JsonDecision {
    pub decision: Option<String>,
    pub motive: Option<String>,
    pub active_rules: Option<Vec<Option<String>>>,
}

/// The characters of each optional string.
pub open spec fn opt_strings_view(v: Seq<Option<String>>) -> Seq<Option<Seq<char>>> {
    v.map_values(|o: Option<String>| opt_view(o))
}

impl View for JsonDecision {
    type V = (Option<Seq<char>>, Option<Seq<char>>, Option<Seq<Option<Seq<char>>>>);

    open spec fn view(&self) -> Self::V {
        (
            opt_view(self.decision),
            opt_view(self.motive),
            match self.active_rules {
                Some(v) => Some(opt_strings_view(v@)),
                None => None,
            },
        )
    }
}

/// What `serde_json` reads from a JSON text into a `serde_json::Value`: `None`
/// when that parse fails (text that is not valid JSON, a number beyond the
/// `f64` range, or nesting deeper than 128 levels); otherwise the `decision`
/// and `motive` members when they are strings,
/// and the `active_rules` member when it is an array, element by element
/// (`None` for an element that is not a string).
pub uninterp spec fn json_decision_fields(json: Seq<char>) -> Option<
    (Option<Seq<char>>, Option<Seq<char>>, Option<Seq<Option<Seq<char>>>>),
>;

/// Parses `json` with `serde_json::from_str::<serde_json::Value>` and reads the
/// three members with `Value::get`, `Value::as_str` and `Value::as_array`.
/// The contract claims only that the result is the value `json_decision_fields`
/// names for the text: a function of the text alone.
#[verifier::external_body]
fn read_decision_fields(json: &str) -> (r: Option<JsonDecision>)
    ensures
        match r {
            None => json_decision_fields(json@) is None,
            Some(d) => json_decision_fields(json@) == Some(d@),
        },
{
    let v: serde_json::Value = serde_json::from_str(json).ok()?;
    let decision = v.get("decision").and_then(serde_json::Value::as_str).map(String::from);
    let motive = v.get("motive").and_then(serde_json::Value::as_str).map(String::from);
    let active_rules = v.get("active_rules").and_then(serde_json::Value::as_array).map(
        |items| items.iter().map(|x| x.as_str().map(String::from)).collect(),
    );
    Some(JsonDecision { decision, motive, active_rules })
}

/// The strings among `v`, in order.
pub open spec fn present_strings(v: Seq<Option<Seq<char>>>) -> Seq<Seq<char>>
    decreases v.len(),
{
    if v.len() == 0 {
        Seq::empty()
    } else {
        let rest = present_strings(v.drop_last());
        match v.last() {
            Some(s) => rest.push(s),
            None => rest,
        }
    }
}

/// The rule labels of a reply: the string elements of its `active_rules`
/// array, none when it has no such array.
pub open spec fn reply_labels(active_rules: Option<Seq<Option<Seq<char>>>>) -> Seq<Seq<char>> {
    match active_rules {
        Some(v) => present_strings(v),
        None => Seq::empty(),
    }
}

/// The reply fields as plain strings: the rule labels are the string elements
/// of the `active_rules` array, in order.
pub fn raw_decision_of(fields: JsonDecision) -> (r: RawDecision)
    ensures
        opt_view(r.decision) == fields@.0,
        opt_view(r.motive) == fields@.1,
        strings_view(r.active_rules@) == reply_labels(fields@.2),
{
    let ghost view = fields@;
    let JsonDecision { decision, motive, active_rules } = fields;
    let mut labels: Vec<String> = Vec::new();
    match active_rules {
        None => {
            assert(strings_view(labels@) =~= Seq::<Seq<char>>::empty());
        },
        Some(items) => {
            let ghost ov = opt_strings_view(items@);
            let mut i: usize = 0;
            assert(ov.take(0) =~= Seq::<Option<Seq<char>>>::empty());
            assert(strings_view(labels@) =~= Seq::<Seq<char>>::empty());
            while i < items.len()
                invariant
                    ov == opt_strings_view(items@),
                    i <= items.len(),
                    strings_view(labels@) == present_strings(ov.take(i as int)),
                decreases items.len() - i,
            {
                assert(ov.take(i + 1).drop_last() =~= ov.take(i as int));
                match &items[i] {
                    Some(s) => {
                        labels.push(s.clone());
                        assert(strings_view(labels@) =~= present_strings(ov.take(i as int)).push(
                            s@,
                        ));
                    },
                    None => {},
                }
                i = i + 1;
            }
            assert(ov.take(items.len() as int) =~= ov);
        },
    }
    RawDecision { decision, motive, active_rules: labels }
}

/// Read a reply into a decision. The first balanced `{...}` object of the text
/// is parsed as JSON and its fields decide the verdict; a reply with no such
/// object, or whose object is not valid JSON, gets the fallback.
pub fn parse_voice_decision(text: &str) -> (r: VoiceDecisionVerdict)
    ensures
        match json_object_of(text@) {
            None => is_fallback(r),
            Some(o) => match json_decision_fields(o) {
                None => is_fallback(r),
                Some(f) => is_verdict_for(r, f.0, f.1, reply_labels(f.2)),
            },
        },
        verdict_wf(r),
{
    let json = match extract_json_object(text) {
        None => {
            return fallback_verdict();
        },
        Some(j) => j,
    };
    match read_decision_fields(json.as_str()) {
        None => fallback_verdict(),
        Some(fields) => {
            let raw = raw_decision_of(fields);
            let ghost d = opt_view(raw.decision);
            let ghost m = opt_view(raw.motive);
            let ghost ls = strings_view(raw.active_rules@);
            let v = finalise_verdict(raw);
            proof {
                lemma_verdict_for_wf(v, d, m, ls);
            }
            v
        },
    }
}

} // verus!

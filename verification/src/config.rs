//! Run-level vocabulary: the decision-mode switch, the network family, and the
//! integer shape of the organisation (teams × team size, hierarchy levels).

use vstd::prelude::*;

use crate::text::{chars_of, lemma_normalised_plain, normalise, normalised, spells};

verus! {

/// Which decision mechanism a run wires (exactly one per run).
#[derive(Clone, Copy, PartialEq, Eq, Debug, Structural)]
pub enum LlmMode {
    /// The language model decides voice / silence after reflecting on the rules.
    Llm,
    /// The voice logit with the implicit-voice-theory term.
    Rule,
    /// The same logit with the implicit-voice-theory term switched off.
    RuleNoIvt,
}

/// The stable snake_case label of a mode.
pub open spec fn llm_mode_label(m: LlmMode) -> Seq<char> {
    match m {
        LlmMode::Llm => "llm"@,
        LlmMode::Rule => "rule"@,
        LlmMode::RuleNoIvt => "rule_no_ivt"@,
    }
}

/// The mode a normalised word names, if any.
pub open spec fn llm_mode_of_word(w: Seq<char>) -> Option<LlmMode> {
    if w == "llm"@ || w == "ollama"@ || w == "openai"@ {
        Some(LlmMode::Llm)
    } else if w == "rule"@ || w == "rules"@ || w == "logit"@ {
        Some(LlmMode::Rule)
    } else if w == "rule_no_ivt"@ || w == "rule-no-ivt"@ || w == "no_ivt"@ || w == "ablation"@ {
        Some(LlmMode::RuleNoIvt)
    } else {
        None
    }
}

/// The message of a rejected mode word.
pub open spec fn llm_mode_error(s: Seq<char>) -> Seq<char> {
    "invalid llm-mode: \""@ + s + "\" (llm / rule / rule_no_ivt)"@
}

impl LlmMode {
    /// Stable snake_case label (CSV / JSON / directory friendly).
    pub fn label(&self) -> (r: &'static str)
        ensures
            r@ == llm_mode_label(*self),
    {
        match self {
            LlmMode::Llm => "llm",
            LlmMode::Rule => "rule",
            LlmMode::RuleNoIvt => "rule_no_ivt",
        }
    }

    /// Whether this mode reaches the language-model layer.
    pub fn is_llm(&self) -> (b: bool)
        ensures
            b == (*self == LlmMode::Llm),
    {
        matches!(self, LlmMode::Llm)
    }

    /// Whether the implicit-voice-theory logit term is active (false only for
    /// the ablation).
    pub fn ivt_active(&self) -> (b: bool)
        ensures
            b == (*self != LlmMode::RuleNoIvt),
    {
        !matches!(self, LlmMode::RuleNoIvt)
    }
}

/// Every mode's label is a word that names that mode.
pub proof fn llm_mode_label_round_trip(m: LlmMode)
    ensures
        llm_mode_of_word(normalised(llm_mode_label(m))) == Some(m),
{
    reveal_strlit("llm");
    reveal_strlit("ollama");
    reveal_strlit("openai");
    reveal_strlit("rule");
    reveal_strlit("rules");
    reveal_strlit("logit");
    reveal_strlit("rule_no_ivt");
    lemma_normalised_plain(llm_mode_label(m));
    let w = llm_mode_label(m);
    if m != LlmMode::Llm {
        assert(w != "llm"@ && w != "ollama"@ && w != "openai"@) by {
            assert(w[0] == 'r');
        }
    }
    if m == LlmMode::RuleNoIvt {
        assert(w.len() == 11);
        assert(w != "rule"@ && w != "rules"@ && w != "logit"@);
    }
}

/// The full name of each network family, as the parse error lists them.
pub open spec fn network_kind_name(k: NetworkKind) -> Seq<char> {
    match k {
        NetworkKind::WattsStrogatz => "watts-strogatz"@,
        NetworkKind::ErdosRenyi => "erdos-renyi"@,
        NetworkKind::BarabasiAlbert => "barabasi-albert"@,
    }
}

/// Every network family's full name parses back to that family.
pub proof fn network_kind_name_round_trip(k: NetworkKind)
    ensures
        network_kind_of_word(normalised(network_kind_name(k))) == Some(k),
{
    let w = network_kind_name(k);
    assert(network_kind_words(k)[1] == w);
    assert(network_kind_words(k).contains(w));
    network_kind_words_name_their_family(k, w);
}

/// The words that name each network family: its short form, its full name,
/// then one more name for it.
pub open spec fn network_kind_words(k: NetworkKind) -> Seq<Seq<char>> {
    match k {
        NetworkKind::WattsStrogatz => seq!["ws"@, "watts-strogatz"@, "small-world"@],
        NetworkKind::ErdosRenyi => seq!["er"@, "erdos-renyi"@, "erdos_renyi"@],
        NetworkKind::BarabasiAlbert => seq!["ba"@, "barabasi-albert"@, "scale-free"@],
    }
}

/// Each word of a network family names that family, and a word names a family only when it is one of that family's words.
pub proof fn network_kind_words_name_their_family(k: NetworkKind, w: Seq<char>)
    ensures
        network_kind_words(k).contains(w) ==> network_kind_of_word(normalised(w)) == Some(k),
        network_kind_of_word(w) == Some(k) ==> network_kind_words(k).contains(w),
{
    reveal_strlit("ba");
    reveal_strlit("barabasi-albert");
    reveal_strlit("er");
    reveal_strlit("erdos-renyi");
    reveal_strlit("erdos_renyi");
    reveal_strlit("scale-free");
    reveal_strlit("small-world");
    reveal_strlit("watts-strogatz");
    reveal_strlit("ws");
    let ws = network_kind_words(k);
    if ws.contains(w) {
        let i = choose|i: int| 0 <= i < ws.len() && ws[i] == w;
        match k {
            NetworkKind::WattsStrogatz => {
                if i == 0 {
                    lemma_normalised_plain("ws"@);
                    assert(network_kind_of_word("ws"@) == Some(NetworkKind::WattsStrogatz));
                } else if i == 1 {
                    lemma_normalised_plain("watts-strogatz"@);
                    assert(network_kind_of_word("watts-strogatz"@) == Some(NetworkKind::WattsStrogatz));
                } else if i == 2 {
                    lemma_normalised_plain("small-world"@);
                    assert(network_kind_of_word("small-world"@) == Some(NetworkKind::WattsStrogatz));
                }
            },
            NetworkKind::ErdosRenyi => {
                if i == 0 {
                    lemma_normalised_plain("er"@);
                    assert(network_kind_of_word("er"@) == Some(NetworkKind::ErdosRenyi));
                } else if i == 1 {
                    lemma_normalised_plain("erdos-renyi"@);
                    assert(network_kind_of_word("erdos-renyi"@) == Some(NetworkKind::ErdosRenyi));
                } else if i == 2 {
                    lemma_normalised_plain("erdos_renyi"@);
                    assert(network_kind_of_word("erdos_renyi"@) == Some(NetworkKind::ErdosRenyi));
                }
            },
            NetworkKind::BarabasiAlbert => {
                if i == 0 {
                    lemma_normalised_plain("ba"@);
                    assert(network_kind_of_word("ba"@) == Some(NetworkKind::BarabasiAlbert));
                } else if i == 1 {
                    lemma_normalised_plain("barabasi-albert"@);
                    assert(network_kind_of_word("barabasi-albert"@) == Some(NetworkKind::BarabasiAlbert));
                } else if i == 2 {
                    lemma_normalised_plain("scale-free"@);
                    assert(network_kind_of_word("scale-free"@) == Some(NetworkKind::BarabasiAlbert));
                }
            },
        }
    }
    if network_kind_of_word(w) == Some(k) {
        match k {
            NetworkKind::WattsStrogatz => {
                if w == "ws"@ {
                    assert(ws[0] == w);
                } else if w == "watts-strogatz"@ {
                    assert(ws[1] == w);
                } else if w == "small-world"@ {
                    assert(ws[2] == w);
                }
            },
            NetworkKind::ErdosRenyi => {
                if w == "er"@ {
                    assert(ws[0] == w);
                } else if w == "erdos-renyi"@ {
                    assert(ws[1] == w);
                } else if w == "erdos_renyi"@ {
                    assert(ws[2] == w);
                }
            },
            NetworkKind::BarabasiAlbert => {
                if w == "ba"@ {
                    assert(ws[0] == w);
                } else if w == "barabasi-albert"@ {
                    assert(ws[1] == w);
                } else if w == "scale-free"@ {
                    assert(ws[2] == w);
                }
            },
        }
    }
}

/// The words that name each decision mode, its label first.
pub open spec fn llm_mode_words(k: LlmMode) -> Seq<Seq<char>> {
    match k {
        LlmMode::Llm => seq!["llm"@, "ollama"@, "openai"@],
        LlmMode::Rule => seq!["rule"@, "rules"@, "logit"@],
        LlmMode::RuleNoIvt => seq!["rule_no_ivt"@, "rule-no-ivt"@, "no_ivt"@, "ablation"@],
    }
}

/// Each word of a decision mode names that mode, and a word names a mode only when it is one of that mode's words.
pub proof fn llm_mode_words_name_their_mode(k: LlmMode, w: Seq<char>)
    ensures
        llm_mode_words(k).contains(w) ==> llm_mode_of_word(normalised(w)) == Some(k),
        llm_mode_of_word(w) == Some(k) ==> llm_mode_words(k).contains(w),
{
    reveal_strlit("ablation");
    reveal_strlit("llm");
    reveal_strlit("logit");
    reveal_strlit("no_ivt");
    reveal_strlit("ollama");
    reveal_strlit("openai");
    reveal_strlit("rule");
    reveal_strlit("rule-no-ivt");
    reveal_strlit("rule_no_ivt");
    reveal_strlit("rules");
    let ws = llm_mode_words(k);
    if ws.contains(w) {
        let i = choose|i: int| 0 <= i < ws.len() && ws[i] == w;
        match k {
            LlmMode::Llm => {
                if i == 0 {
                    lemma_normalised_plain("llm"@);
                    assert(llm_mode_of_word("llm"@) == Some(LlmMode::Llm));
                } else if i == 1 {
                    lemma_normalised_plain("ollama"@);
                    assert(llm_mode_of_word("ollama"@) == Some(LlmMode::Llm));
                } else if i == 2 {
                    lemma_normalised_plain("openai"@);
                    assert(llm_mode_of_word("openai"@) == Some(LlmMode::Llm));
                }
            },
            LlmMode::Rule => {
                if i == 0 {
                    lemma_normalised_plain("rule"@);
                    assert(llm_mode_of_word("rule"@) == Some(LlmMode::Rule));
                } else if i == 1 {
                    lemma_normalised_plain("rules"@);
                    assert(llm_mode_of_word("rules"@) == Some(LlmMode::Rule));
                } else if i == 2 {
                    lemma_normalised_plain("logit"@);
                    assert(llm_mode_of_word("logit"@) == Some(LlmMode::Rule));
                }
            },
            LlmMode::RuleNoIvt => {
                if i == 0 {
                    lemma_normalised_plain("rule_no_ivt"@);
                    assert(llm_mode_of_word("rule_no_ivt"@) == Some(LlmMode::RuleNoIvt));
                } else if i == 1 {
                    lemma_normalised_plain("rule-no-ivt"@);
                    assert(llm_mode_of_word("rule-no-ivt"@) == Some(LlmMode::RuleNoIvt));
                } else if i == 2 {
                    lemma_normalised_plain("no_ivt"@);
                    assert(llm_mode_of_word("no_ivt"@) == Some(LlmMode::RuleNoIvt));
                } else if i == 3 {
                    lemma_normalised_plain("ablation"@);
                    assert(llm_mode_of_word("ablation"@) == Some(LlmMode::RuleNoIvt));
                }
            },
        }
    }
    if llm_mode_of_word(w) == Some(k) {
        match k {
            LlmMode::Llm => {
                if w == "llm"@ {
                    assert(ws[0] == w);
                } else if w == "ollama"@ {
                    assert(ws[1] == w);
                } else if w == "openai"@ {
                    assert(ws[2] == w);
                }
            },
            LlmMode::Rule => {
                if w == "rule"@ {
                    assert(ws[0] == w);
                } else if w == "rules"@ {
                    assert(ws[1] == w);
                } else if w == "logit"@ {
                    assert(ws[2] == w);
                }
            },
            LlmMode::RuleNoIvt => {
                if w == "rule_no_ivt"@ {
                    assert(ws[0] == w);
                } else if w == "rule-no-ivt"@ {
                    assert(ws[1] == w);
                } else if w == "no_ivt"@ {
                    assert(ws[2] == w);
                } else if w == "ablation"@ {
                    assert(ws[3] == w);
                }
            },
        }
    }
}

/// Parse a decision mode from a command-line word: surrounding white space is
/// ignored and ASCII case is folded.
pub fn parse_llm_mode(s: &str) -> (r: Result<LlmMode, String>)
    ensures
        match r {
            Ok(m) => llm_mode_of_word(normalised(s@)) == Some(m),
            Err(e) => llm_mode_of_word(normalised(s@)) is None && e@ == llm_mode_error(s@),
        },
{
    let w = normalise(s);
    if spells(&w, "llm") || spells(&w, "ollama") || spells(&w, "openai") {
        Ok(LlmMode::Llm)
    } else if spells(&w, "rule") || spells(&w, "rules") || spells(&w, "logit") {
        Ok(LlmMode::Rule)
    } else if spells(&w, "rule_no_ivt") || spells(&w, "rule-no-ivt") || spells(&w, "no_ivt")
        || spells(&w, "ablation") {
        Ok(LlmMode::RuleNoIvt)
    } else {
        let mut e = String::from_str("invalid llm-mode: \"");
        e.append(s);
        e.append("\" (llm / rule / rule_no_ivt)");
        Err(e)
    }
}

/// Whether `c` separates the words of a mode list.
pub open spec fn is_mode_separator(c: char) -> bool {
    c == ',' || c == ' '
}

/// The non-empty pieces of `s` from index `start` on, where `s[start..i]`
/// holds no separator: pieces are separated by commas or spaces.
pub open spec fn pieces_from(s: Seq<char>, start: int, i: int) -> Seq<Seq<char>>
    decreases s.len() - i,
{
    if i < start || i >= s.len() {
        if start < i <= s.len() {
            seq![s.subrange(start, i)]
        } else {
            Seq::empty()
        }
    } else if is_mode_separator(s[i]) {
        (if i > start {
            seq![s.subrange(start, i)]
        } else {
            Seq::empty()
        }) + pieces_from(s, i + 1, i + 1)
    } else {
        pieces_from(s, start, i + 1)
    }
}

/// The non-empty comma- or space-separated pieces of `s`.
pub open spec fn mode_pieces(s: Seq<char>) -> Seq<Seq<char>> {
    pieces_from(s, 0, 0)
}

proof fn lemma_pieces_shift(p: Seq<char>, b: Seq<char>, st: int, j: int)
    requires
        0 <= st <= j <= b.len(),
    ensures
        pieces_from(p + b, p.len() + st, p.len() + j) == pieces_from(b, st, j),
    decreases b.len() - j,
{
    let s = p + b;
    let m = p.len() as int;
    if j < b.len() {
        assert(s[m + j] == b[j]);
        if is_mode_separator(b[j]) {
            assert(s.subrange(m + st, m + j) =~= b.subrange(st, j));
            lemma_pieces_shift(p, b, j + 1, j + 1);
        } else {
            lemma_pieces_shift(p, b, st, j + 1);
        }
    } else {
        assert(s.subrange(m + st, m + j) =~= b.subrange(st, j));
    }
}

proof fn lemma_pieces_split(a: Seq<char>, c: char, b: Seq<char>, st: int, i: int)
    requires
        is_mode_separator(c),
        0 <= st <= i <= a.len(),
    ensures
        pieces_from(a.push(c) + b, st, i) == pieces_from(a, st, i) + pieces_from(b, 0, 0),
    decreases a.len() - i,
{
    let s = a.push(c) + b;
    assert(s.subrange(st, i) =~= a.subrange(st, i));
    if i == a.len() {
        assert(s[i] == c);
        lemma_pieces_shift(a.push(c), b, 0, 0);
    } else {
        assert(s[i] == a[i]);
        if is_mode_separator(a[i]) {
            lemma_pieces_split(a, c, b, i + 1, i + 1);
            let head: Seq<Seq<char>> = if i > st {
                seq![a.subrange(st, i)]
            } else {
                Seq::empty()
            };
            assert(head + (pieces_from(a, i + 1, i + 1) + pieces_from(b, 0, 0)) =~= (head
                + pieces_from(a, i + 1, i + 1)) + pieces_from(b, 0, 0));
        } else {
            lemma_pieces_split(a, c, b, st, i + 1);
        }
    }
}

proof fn lemma_pieces_clean(s: Seq<char>, st: int, i: int)
    requires
        0 <= st <= i <= s.len(),
        forall|k: int| st <= k < i ==> !is_mode_separator(#[trigger] s[k]),
    ensures
        forall|j: int| 0 <= j < pieces_from(s, st, i).len() ==> (#[trigger] pieces_from(s, st, i)[j]).len()
            > 0 && forall|k: int| 0 <= k < pieces_from(s, st, i)[j].len() ==> !is_mode_separator(
            pieces_from(s, st, i)[j][k],
        ),
        (st == 0 && s.len() > 0 && forall|k: int| 0 <= k < s.len() ==> !is_mode_separator(
            #[trigger] s[k],
        )) ==> pieces_from(s, st, i) == seq![s],
    decreases s.len() - i,
{
    if i < s.len() {
        if is_mode_separator(s[i]) {
            lemma_pieces_clean(s, i + 1, i + 1);
            let head: Seq<Seq<char>> = if i > st {
                seq![s.subrange(st, i)]
            } else {
                Seq::empty()
            };
            let rest = pieces_from(s, i + 1, i + 1);
            assert(pieces_from(s, st, i) == head + rest);
            assert forall|j: int| 0 <= j < (head + rest).len() implies (#[trigger] (head + rest)[j]).len() > 0
                && forall|k: int| 0 <= k < (head + rest)[j].len() ==> !is_mode_separator(
                (head + rest)[j][k],
            ) by {
                if j < head.len() {
                    assert((head + rest)[j] == s.subrange(st, i));
                    assert forall|k: int| 0 <= k < (head + rest)[j].len() implies !is_mode_separator(
                        (head + rest)[j][k],
                    ) by {
                        assert(s.subrange(st, i)[k] == s[st + k]);
                    }
                } else {
                    assert((head + rest)[j] == rest[j - head.len()]);
                }
            }
            if st == 0 && s.len() > 0 && forall|k: int| 0 <= k < s.len() ==> !is_mode_separator(
                #[trigger] s[k],
            ) {
                assert(!is_mode_separator(s[i]));
            }
        } else {
            lemma_pieces_clean(s, st, i + 1);
            assert(pieces_from(s, st, i) == pieces_from(s, st, i + 1));
        }
    } else {
        let ps = pieces_from(s, st, i);
        if st < i {
            assert(ps == seq![s.subrange(st, i)]);
            assert forall|j: int| 0 <= j < ps.len() implies (#[trigger] ps[j]).len() > 0 && forall|
                k: int,
            | 0 <= k < ps[j].len() ==> !is_mode_separator(ps[j][k]) by {
                assert(ps[j] == s.subrange(st, i));
                assert forall|k: int| 0 <= k < ps[j].len() implies !is_mode_separator(ps[j][k]) by {
                    assert(s.subrange(st, i)[k] == s[st + k]);
                }
            }
        } else {
            assert(ps.len() == 0);
        }
        if st == 0 && s.len() > 0 {
            assert(s.subrange(0, i) =~= s);
        }
    }
}

/// A list of decision modes splits at every comma and every space: the
/// pieces on either side of one are the pieces of each side; every piece is
/// non-empty and holds neither a comma nor a space; and a non-empty word
/// without either is its own single piece.
pub proof fn mode_pieces_split_at_commas_and_spaces(a: Seq<char>, c: char, b: Seq<char>)
    ensures
        (c == ',' || c == ' ') ==> mode_pieces(a.push(c) + b) == mode_pieces(a) + mode_pieces(b),
        forall|j: int| 0 <= j < mode_pieces(a).len() ==> (#[trigger] mode_pieces(a)[j]).len() > 0
            && forall|k: int| 0 <= k < mode_pieces(a)[j].len() ==> mode_pieces(a)[j][k] != ','
            && mode_pieces(a)[j][k] != ' ',
        (a.len() > 0 && forall|k: int| 0 <= k < a.len() ==> #[trigger] a[k] != ',' && a[k] != ' ')
            ==> mode_pieces(a) == seq![a],
{
    if c == ',' || c == ' ' {
        lemma_pieces_split(a, c, b, 0, 0);
    }
    lemma_pieces_clean(a, 0, 0);
    assert forall|j: int| 0 <= j < mode_pieces(a).len() implies (#[trigger] mode_pieces(a)[j]).len()
        > 0 && forall|k: int| 0 <= k < mode_pieces(a)[j].len() ==> mode_pieces(a)[j][k] != ','
        && mode_pieces(a)[j][k] != ' ' by {
        assert forall|k: int| 0 <= k < mode_pieces(a)[j].len() implies mode_pieces(a)[j][k] != ','
            && mode_pieces(a)[j][k] != ' ' by {
            assert(!is_mode_separator(mode_pieces(a)[j][k]));
        }
    }
    if a.len() > 0 && forall|k: int| 0 <= k < a.len() ==> #[trigger] a[k] != ',' && a[k] != ' ' {
        assert forall|k: int| 0 <= k < a.len() implies !is_mode_separator(#[trigger] a[k]) by {
            assert(a[k] != ',' && a[k] != ' ');
        }
    }
}

/// Parse a comma- or space-separated list of decision modes: every non-empty
/// piece must name a mode; otherwise the error of the first piece that does
/// not.
pub fn parse_llm_modes(s: &str) -> (r: Result<Vec<LlmMode>, String>)
    ensures
        match r {
            Ok(v) => {
                &&& v@.len() == mode_pieces(s@).len()
                &&& forall|j: int|
                    0 <= j < v@.len() ==> llm_mode_of_word(normalised(#[trigger] mode_pieces(s@)[j]))
                        == Some(v@[j])
            },
            Err(e) => exists|k: int|
                0 <= k < mode_pieces(s@).len() && (forall|j: int|
                    0 <= j < k ==> #[trigger] llm_mode_of_word(normalised(mode_pieces(s@)[j])) is Some)
                    && llm_mode_of_word(normalised(mode_pieces(s@)[k])) is None && e@
                    == llm_mode_error(mode_pieces(s@)[k]),
        },
{
    let cs = chars_of(s);
    let n = cs.len();
    let ghost all = mode_pieces(s@);
    let ghost mut done: Seq<Seq<char>> = Seq::empty();
    let mut modes: Vec<LlmMode> = Vec::new();
    let mut start: usize = 0;
    let mut i: usize = 0;
    while i < n
        invariant
            cs@ == s@,
            n == s@.len(),
            all == mode_pieces(s@),
            start <= i <= n,
            modes@.len() == done.len(),
            forall|j: int|
                0 <= j < done.len() ==> llm_mode_of_word(normalised(#[trigger] done[j])) == Some(
                    modes@[j],
                ),
            done + pieces_from(s@, start as int, i as int) == all,
        decreases n - i,
    {
        if cs[i] == ',' || cs[i] == ' ' {
            if i > start {
                let piece = s.substring_char(start, i);
                let ghost p = s@.subrange(start as int, i as int);
                proof {
                    assert(pieces_from(s@, start as int, i as int) == seq![p] + pieces_from(
                        s@,
                        i + 1,
                        i + 1,
                    ));
                    assert(all == done + (seq![p] + pieces_from(s@, i + 1, i + 1)));
                    assert(all[done.len() as int] == p);
                }
                match parse_llm_mode(piece) {
                    Ok(m) => {
                        modes.push(m);
                        proof {
                            assert(done.push(p) + pieces_from(s@, i + 1, i + 1) =~= done + (seq![p]
                                + pieces_from(s@, i + 1, i + 1)));
                            done = done.push(p);
                        }
                    },
                    Err(e) => {
                        proof {
                            let k = done.len() as int;
                            assert forall|j: int| 0 <= j < k implies #[trigger] llm_mode_of_word(
                                normalised(all[j]),
                            ) is Some by {
                                assert(all[j] == done[j]);
                            }
                        }
                        return Err(e);
                    },
                }
            } else {
                proof {
                    assert(pieces_from(s@, start as int, i as int) == Seq::<Seq<char>>::empty()
                        + pieces_from(s@, i + 1, i + 1));
                    assert(Seq::<Seq<char>>::empty() + pieces_from(s@, i + 1, i + 1) =~= pieces_from(
                        s@,
                        i + 1,
                        i + 1,
                    ));
                }
            }
            start = i + 1;
        }
        i = i + 1;
    }
    if n > start {
        let piece = s.substring_char(start, n);
        let ghost p = s@.subrange(start as int, n as int);
        proof {
            assert(pieces_from(s@, start as int, n as int) == seq![p]);
            assert(all == done.push(p));
            assert(all[done.len() as int] == p);
        }
        match parse_llm_mode(piece) {
            Ok(m) => {
                modes.push(m);
                proof {
                    done = done.push(p);
                }
            },
            Err(e) => {
                proof {
                    let k = done.len() as int;
                    assert forall|j: int| 0 <= j < k implies #[trigger] llm_mode_of_word(
                        normalised(all[j]),
                    ) is Some by {
                        assert(all[j] == done[j]);
                    }
                }
                return Err(e);
            },
        }
    } else {
        assert(pieces_from(s@, start as int, n as int) =~= Seq::<Seq<char>>::empty());
        assert(done =~= all);
    }
    Ok(modes)
}

/// The decision mechanism a run wires.
#[derive(Clone, Copy, PartialEq, Eq, Debug, Structural)]
pub enum DecisionMechanism {
    /// The voice logit, with or without the implicit-voice-theory term.
    Rule { ivt_active: bool },
    /// The language model.
    Llm,
}

/// The mechanism for `mode`: the logit with the IVT term for `rule`, without
/// it for `rule_no_ivt`, and the language model for `llm`, which needs a
/// client.
pub fn decision_mechanism(mode: LlmMode, client_supplied: bool) -> (r: Result<
    DecisionMechanism,
    String,
>)
    ensures
        match mode {
            LlmMode::Rule => r == Ok::<DecisionMechanism, String>(
                DecisionMechanism::Rule { ivt_active: true },
            ),
            LlmMode::RuleNoIvt => r == Ok::<DecisionMechanism, String>(
                DecisionMechanism::Rule { ivt_active: false },
            ),
            LlmMode::Llm => if client_supplied {
                r == Ok::<DecisionMechanism, String>(DecisionMechanism::Llm)
            } else {
                r matches Err(e) && e@ == "LLM mode selected but no client supplied"@
            },
        },
{
    match mode {
        LlmMode::Rule => Ok(DecisionMechanism::Rule { ivt_active: true }),
        LlmMode::RuleNoIvt => Ok(DecisionMechanism::Rule { ivt_active: false }),
        LlmMode::Llm => if client_supplied {
            Ok(DecisionMechanism::Llm)
        } else {
            Err(String::from_str("LLM mode selected but no client supplied"))
        },
    }
}

/// Inter-employee network family.
#[derive(Clone, Copy, PartialEq, Eq, Debug, Structural)]
pub enum NetworkKind {
    /// Watts–Strogatz small world (the default).
    WattsStrogatz,
    /// Erdős–Rényi G(n, p).
    ErdosRenyi,
    /// Barabási–Albert preferential attachment.
    BarabasiAlbert,
}

/// The network family a normalised word names, if any.
pub open spec fn network_kind_of_word(w: Seq<char>) -> Option<NetworkKind> {
    if w == "ws"@ || w == "watts-strogatz"@ || w == "small-world"@ {
        Some(NetworkKind::WattsStrogatz)
    } else if w == "er"@ || w == "erdos-renyi"@ || w == "erdos_renyi"@ {
        Some(NetworkKind::ErdosRenyi)
    } else if w == "ba"@ || w == "barabasi-albert"@ || w == "scale-free"@ {
        Some(NetworkKind::BarabasiAlbert)
    } else {
        None
    }
}

/// The message of a rejected network word.
pub open spec fn network_kind_error(s: Seq<char>) -> Seq<char> {
    "invalid network kind: \""@ + s + "\" (watts-strogatz / erdos-renyi / barabasi-albert)"@
}

/// Parse a network family from a command-line word (white space ignored,
/// ASCII case folded).
pub fn parse_network_kind(s: &str) -> (r: Result<NetworkKind, String>)
    ensures
        match r {
            Ok(k) => network_kind_of_word(normalised(s@)) == Some(k),
            Err(e) => network_kind_of_word(normalised(s@)) is None && e@ == network_kind_error(
                s@,
            ),
        },
{
    let w = normalise(s);
    if spells(&w, "ws") || spells(&w, "watts-strogatz") || spells(&w, "small-world") {
        Ok(NetworkKind::WattsStrogatz)
    } else if spells(&w, "er") || spells(&w, "erdos-renyi") || spells(&w, "erdos_renyi") {
        Ok(NetworkKind::ErdosRenyi)
    } else if spells(&w, "ba") || spells(&w, "barabasi-albert") || spells(&w, "scale-free") {
        Ok(NetworkKind::BarabasiAlbert)
    } else {
        let mut e = String::from_str("invalid network kind: \"");
        e.append(s);
        e.append("\" (watts-strogatz / erdos-renyi / barabasi-albert)");
        Err(e)
    }
}

/// The integer shape of an organisation: teams of `team_size`, a number of
/// hierarchy levels, and optionally an explicit headcount (the last team then
/// holds what remains).
#[derive(Clone, Copy, PartialEq, Eq, Debug, Structural)]
pub struct OrgShape {
    pub n_teams: usize,
    pub team_size: usize,
    /// Number of hierarchy levels (employee `i` sits on level `i % n_levels`).
    pub n_levels: u8,
    /// Total number of employees when given explicitly; otherwise every team
    /// is full.
    pub headcount: Option<usize>,
}

/// `n_teams × team_size`, saturated at `usize::MAX`.
pub open spec fn full_headcount(n_teams: usize, team_size: usize) -> nat {
    if n_teams * team_size <= usize::MAX {
        (n_teams * team_size) as nat
    } else {
        usize::MAX as nat
    }
}

/// The number of levels employees cycle through (at least one).
pub open spec fn level_cycle(n_levels: u8) -> nat {
    if n_levels == 0 {
        1
    } else {
        n_levels as nat
    }
}

/// `n / d` rounded up.
pub open spec fn div_ceil(n: usize, d: usize) -> int {
    if n % d == 0 {
        (n / d) as int
    } else {
        (n / d) as int + 1
    }
}

proof fn lemma_team_in_range(i: usize, n_teams: usize, team_size: usize)
    requires
        team_size > 0,
        i < n_teams * team_size,
    ensures
        i / team_size < n_teams,
{
    assert(i / team_size < n_teams) by (nonlinear_arith)
        requires
            team_size > 0,
            i < n_teams * team_size,
            0 <= i,
    ;
}

proof fn lemma_div_ceil_covers(x: usize, d: usize)
    requires
        d > 0,
    ensures
        x <= div_ceil(x, d) * d,
{
    let q = x / d;
    let r = x % d;
    assert(x == q * d + r && 0 <= r < d) by (nonlinear_arith)
        requires
            d > 0,
            q == x / d,
            r == x % d,
    ;
    if r == 0 {
    } else {
        assert(x <= (q + 1) * d) by (nonlinear_arith)
            requires
                x == q * d + r,
                r < d,
        ;
    }
}

impl OrgShape {
    /// An explicit headcount fits in the teams.
    pub open spec fn wf(self) -> bool {
        self.headcount matches Some(n) ==> self.team_size > 0 && n <= self.n_teams * self.team_size
    }

    /// The number of employees of the shape.
    pub open spec fn size(self) -> nat {
        match self.headcount {
            Some(n) => n as nat,
            None => full_headcount(self.n_teams, self.team_size),
        }
    }

    /// The shape asked for on the command line: when a headcount `n` is given
    /// (and teams are not empty), exactly `n` employees in as many teams of
    /// `team_size` as it takes to hold them (at least one team; the last one
    /// holds the remainder); otherwise `n_teams` full teams.
    pub fn with_headcount(n: Option<usize>, n_teams: usize, team_size: usize, n_levels: u8) -> (r:
        OrgShape)
        ensures
            r.wf(),
            r.team_size == team_size,
            r.n_levels == n_levels,
            match n {
                Some(x) if team_size > 0 => {
                    &&& r.headcount == Some(x)
                    &&& r.size() == x
                    &&& r.n_teams == if div_ceil(x, team_size) == 0 {
                        1
                    } else {
                        div_ceil(x, team_size)
                    }
                },
                _ => r.n_teams == n_teams && r.headcount is None,
            },
    {
        match n {
            Some(x) if team_size > 0 => {
                let q = x / team_size;
                let c = if x % team_size == 0 {
                    q
                } else {
                    assert(team_size >= 2);
                    assert(q <= x / 2) by (nonlinear_arith)
                        requires
                            team_size >= 2,
                            q == x / team_size,
                    ;
                    q + 1
                };
                let teams = if c == 0 {
                    1
                } else {
                    c
                };
                proof {
                    lemma_div_ceil_covers(x, team_size);
                    assert(x <= teams * team_size) by (nonlinear_arith)
                        requires
                            x <= c * team_size,
                            c <= teams,
                            team_size > 0,
                    ;
                }
                OrgShape { n_teams: teams, team_size, n_levels, headcount: Some(x) }
            },
            _ => OrgShape { n_teams, team_size, n_levels, headcount: None },
        }
    }

    /// Total number of employees: the explicit headcount, or full teams
    /// (saturating).
    pub fn n_employees(&self) -> (n: usize)
        ensures
            n == self.size(),
    {
        match self.headcount {
            Some(n) => n,
            None => match self.n_teams.checked_mul(self.team_size) {
                Some(n) => n,
                None => usize::MAX,
            },
        }
    }

    /// Team and level of every employee, in order: teams are filled one after
    /// the other and levels cycle.  Every employee lands in an existing team
    /// and on an existing level.
    pub fn employee_slots(&self) -> (r: Vec<(usize, u8)>)
        requires
            self.wf(),
        ensures
            r@.len() == self.size(),
            forall|i: int|
                0 <= i < r@.len() ==> {
                    &&& #[trigger] r@[i].0 == i / (self.team_size as int)
                    &&& r@[i].1 == i % (level_cycle(self.n_levels) as int)
                    &&& r@[i].0 < self.n_teams
                    &&& r@[i].1 < level_cycle(self.n_levels)
                },
    {
        let n = self.n_employees();
        let cycle: usize = if self.n_levels == 0 {
            1
        } else {
            self.n_levels as usize
        };
        let mut out: Vec<(usize, u8)> = Vec::new();
        let mut i: usize = 0;
        while i < n
            invariant
                self.wf(),
                n == self.size(),
                cycle == level_cycle(self.n_levels),
                1 <= cycle <= 255,
                i <= n,
                out@.len() == i,
                forall|j: int|
                    0 <= j < i ==> {
                        &&& #[trigger] out@[j].0 == j / (self.team_size as int)
                        &&& out@[j].1 == j % (cycle as int)
                        &&& out@[j].0 < self.n_teams
                        &&& out@[j].1 < cycle
                    },
            decreases n - i,
        {
            assert(self.team_size > 0 && i < self.n_teams * self.team_size) by {
                if self.headcount is None {
                    if self.team_size == 0 {
                        assert(self.n_teams * self.team_size == 0);
                    }
                }
            }
            proof {
                lemma_team_in_range(i, self.n_teams, self.team_size);
            }
            let team = i / self.team_size;
            assert(i % cycle < cycle);
            let level = (i % cycle) as u8;
            assert(level == i % cycle);
            let ghost before = out@;
            out.push((team, level));
            assert forall|j: int| 0 <= j < i + 1 implies {
                &&& #[trigger] out@[j].0 == j / (self.team_size as int)
                &&& out@[j].1 == j % (cycle as int)
                &&& out@[j].0 < self.n_teams
                &&& out@[j].1 < cycle
            } by {
                if j < i {
                    assert(out@[j] == before[j]);
                }
            }
            i = i + 1;
        }
        out
    }
}

} // verus!

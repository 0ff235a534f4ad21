# detert_silence

An agent-based model of employee silence after Detert & Edmondson (2011),
*Implicit Voice Theories*: employees on an organisational network decide each
step whether to voice an upward concern or to stay silent, and five implicit
voice theory rules (`target_id`, `need_data`, `no_bypass`, `no_embarrass`,
`career_consq`) explain the silence.  A run wires exactly one decision mode:
a language model (`llm`), the voice logit with the IVT term (`rule`), or the
same logit without it (`rule_no_ivt`).

## Layout

- `src/` — the library, written in Verus and proved:
  - `text` — label normalisation (trim white space, fold ASCII case);
  - `config` — decision modes, network families, the organisation's shape;
  - `world` — rules, motives, expressions, the discrete employee state,
    neighbour ratios;
  - `prompts` — personas and the reader of language-model replies;
  - `metrics` — the counts behind every reported rate, and what they obey;
  - `mechanisms` — the discrete half of each step (verdicts, the silence
    spiral, the preference-falsification cascade, team shares, climate);
  - `tracking` — convergence and per-agent histories, agent-row text.
- `tests/` — tests of the library.
- `app/` — the command-line program: the socsim engine, the continuous
  attributes (fear, psychological safety, IVT strength), random draws, the
  language-model client and file output.

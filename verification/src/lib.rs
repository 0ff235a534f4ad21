//! Implicit Voice Theory silence model: the discrete, verified core.
//!
//! Employees decide each step whether to voice an upward concern or to stay
//! silent; five implicit voice theory rules explain the silence.  This crate
//! holds the parts of the model that are about words, identifiers, counts and
//! state updates: the decision-mode and network-kind parsers, the rule /
//! motive / expression vocabularies, the reader of the language-model verdict,
//! the population counts behind every reported rate, and the discrete half of
//! the step mechanisms.  The continuous attributes (fear, psychological
//! safety, IVT strength) and the simulation driver live beside it.

pub mod text;
pub mod config;
pub mod world;
pub mod prompts;
pub mod metrics;
pub mod mechanisms;
pub mod tracking;

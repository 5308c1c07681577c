//! Four-part harmonisation of a figured bass by population-based search.
//!
//! `music_theory` models pitches, keys and figures; `scoring` states the
//! voice-leading fitness of a chord sequence; `machine_learning` draws valid
//! voicings, mutates them and evolves populations of candidate realisations.
pub mod machine_learning;
pub mod music_theory;
pub mod scoring;

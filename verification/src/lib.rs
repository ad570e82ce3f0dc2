//! A generic engine for bracket tournaments: stable match identities,
//! participant and score tracking per match, and a format-independent
//! scoring protocol with pluggable per-format rules.

pub mod codec;
pub mod duel;
pub mod game;

//! Evaluation engine for a puzzle game whose grid of gate symbols forms a
//! quantum circuit: column operators, state evolution and measurement checks,
//! all in exact arithmetic over Z[ω] (ω = e^{iπ/4}) scaled by powers of √2,
//! with the proof that evolution conserves total probability.
pub mod amplitude;
pub mod compare;
pub mod conservation;
pub mod gate;
pub mod grid;
pub mod measure;
pub mod objective;
pub mod operator;
pub mod state;

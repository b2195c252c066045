//! Grounding strategies.
pub mod rule;

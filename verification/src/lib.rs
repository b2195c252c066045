//! Grounding of natural-language requirement statements into the task
//! vocabulary (system signature) of a plan.
pub mod text;
pub mod order;
pub mod types;
pub mod grounders;
pub mod parse;
pub mod suggest;
pub mod check;

//! Verified core of the SHARK calculator: tokenising, bracket completion,
//! textual rewriting and the decisions that drive evaluation.

pub mod text;
pub mod brackets;
pub mod numparse;
pub mod pattern;
pub mod tokens;
pub mod format;
pub mod steps;
pub mod evaluate;
pub mod functions;
pub mod display;
pub mod alias;
pub mod equation;
pub mod poly;
pub mod format_laws;

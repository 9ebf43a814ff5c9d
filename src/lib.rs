//! A book builder's text engine: rule-driven rewriting of document chunks,
//! a variable store filled from regex captures, and placeholder expansion.

pub mod pattern;
pub mod rules;
pub mod store;
pub mod structure;
pub mod substitute;
pub mod laws;
pub mod page;
pub mod order;

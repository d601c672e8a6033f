//! From a table of bars and a model's outputs to signals.
pub mod records;
pub mod signal;

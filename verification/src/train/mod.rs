//! What training takes from labelled bars, in which order, and when it ends.
pub mod progress;
pub mod sampling;
pub mod targets;

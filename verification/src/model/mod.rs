//! The shape of the model.
pub mod multi_tf;

//! Chan-theory labelling of candlestick data.
pub mod infer;
pub mod label;
pub mod model;
pub mod number;
pub mod single;
pub mod table;
pub mod text;
pub mod time;
pub mod train;

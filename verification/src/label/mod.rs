//! Labelling candlesticks with the structures of Chan theory.
pub mod bsp;
pub mod bsp_laws;
pub mod csv_reader;
pub mod czsc;
pub mod czsc_label;
pub mod freq;
pub mod outlook;
pub mod parquet_out;
pub mod replay;
pub mod replay_laws;

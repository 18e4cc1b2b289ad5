//! A USD/JPY conversion library: amount-argument parsing, exchange-rate
//! handling with an injectable override and a two-endpoint fallback, exact
//! rational conversion both ways, and the rendering of the report lines.
//! Amounts and rates are held as exact decimals, so every step is stated
//! and checked without rounding error.

pub mod amount;
pub mod chars;
pub mod cli;
pub mod convert;
pub mod decimal;
pub mod rat;
pub mod rate;
pub mod render;

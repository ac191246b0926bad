//! A verified inventory library for a small command-line food manager.
//!
//! The library keeps an id-keyed store of food records, parses and writes the
//! flat comma-separated text format the tool persists to, and decides, for
//! each command of the tool, how the store changes and what is shown.

pub mod codec;
pub mod dispatch;
pub mod numbers;
pub mod store;
pub mod text;

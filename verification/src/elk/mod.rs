//! Elk-simulation tables.

pub mod presets;

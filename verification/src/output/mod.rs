//! Machine-readable output.

pub mod csv;
pub mod json;

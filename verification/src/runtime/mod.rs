//! The runtime that generated code calls.
pub mod checks;
pub mod effects;
pub mod handler;
pub mod laws;
pub mod memory;
pub mod runtime_utils;
pub mod types;

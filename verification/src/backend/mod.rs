//! What the code generator has to know.
pub mod common;

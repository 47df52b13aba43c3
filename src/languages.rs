//! Language-specific scanners that report identifiers and functions.
pub mod clike;
pub mod parsing;
pub mod rustlike;

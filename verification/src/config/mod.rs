//! Build configuration files.
pub mod hiero;

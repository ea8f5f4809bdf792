//! Errors of process creation as the loader reports them.
pub mod error;

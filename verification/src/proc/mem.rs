//! The memory of a process.
pub mod layout;

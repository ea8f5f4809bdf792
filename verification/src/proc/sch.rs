//! Schedulers.
pub mod smooth;

//! Peripherals the kernel drives itself.
pub mod aclint;

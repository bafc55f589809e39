//! The hypervisor process and its memory.
pub mod memory;

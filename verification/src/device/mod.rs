//! Devices that vmsh provides to a guest.
pub mod mmio;

//! Virtio devices that vmsh emulates for a guest, and where their MMIO
//! registers lie in the guest's physical address space.
pub mod virtio;

use vstd::prelude::*;

use crate::kvm::allocator::{mmio_range_new, MmioRange};

verus! {

/// The first physical address above 4 GiB.
pub const FIRST_ADDR_PAST_32BITS: u64 = 0x1_0000_0000;

/// The size of the hole below 4 GiB that holds MMIO devices.
pub const MEM_32BIT_GAP_SIZE: u64 = 0x3000_0000;

/// The start of the memory area reserved for MMIO devices.
pub const MMIO_MEM_START: u64 = FIRST_ADDR_PAST_32BITS - MEM_32BIT_GAP_SIZE;

/// MMIO space of one device.
pub const DEVICE_MAX_MEM: u64 = 0x1000;

/// Where the registers of the block device start.
pub const BLOCK_MEM_START: u64 = MMIO_MEM_START;

/// Where the registers of the console start.
pub const CONSOLE_MEM_START: u64 = BLOCK_MEM_START + DEVICE_MAX_MEM;

/// The end of the MMIO space of the devices.
pub const MMIO_MEM_STOP: u64 = CONSOLE_MEM_START + DEVICE_MAX_MEM;

/// The interrupt line that both devices signal.
pub const DEVICE_GSI: u32 = 5;

/// Where a device's registers lie and which interrupt line it signals.
#[derive(Clone, Copy, Debug, PartialEq, Eq, Structural)]
pub struct MmioConfig {
    pub range: MmioRange,
    pub gsi: u32,
}

/// The MMIO configuration of the block device and of the console: one page
/// of registers each, one after the other from `MMIO_MEM_START`, both on
/// interrupt line `DEVICE_GSI`.
pub fn device_mmio_configs() -> (r: (MmioConfig, MmioConfig))
    ensures
        r.0 == (MmioConfig { range: MmioRange { base: BLOCK_MEM_START, size: DEVICE_MAX_MEM }, gsi: DEVICE_GSI }),
        r.1 == (MmioConfig { range: MmioRange { base: CONSOLE_MEM_START, size: DEVICE_MAX_MEM }, gsi: DEVICE_GSI }),
        r.0.range.base + r.0.range.size == r.1.range.base,
        r.1.range.base + r.1.range.size == MMIO_MEM_STOP,
{
    let (block_base, block_size) = match mmio_range_new(BLOCK_MEM_START, DEVICE_MAX_MEM) {
        Some(x) => x,
        None => {
            assert(false);
            (0, 0)
        },
    };
    let (console_base, console_size) = match mmio_range_new(CONSOLE_MEM_START, DEVICE_MAX_MEM) {
        Some(x) => x,
        None => {
            assert(false);
            (0, 0)
        },
    };
    (
        MmioConfig { range: MmioRange { base: block_base, size: block_size }, gsi: DEVICE_GSI },
        MmioConfig { range: MmioRange { base: console_base, size: console_size }, gsi: DEVICE_GSI },
    )
}

} // verus!

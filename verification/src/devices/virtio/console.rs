//! The virtio console device: the features it offers and its
//! configuration space.
use vstd::bytes::{spec_u16_to_le_bytes, spec_u32_to_le_bytes, u16_to_le_bytes, u32_to_le_bytes};
use vstd::prelude::*;

use crate::devices::virtio::{VIRTIO_F_IN_ORDER, VIRTIO_F_RING_EVENT_IDX, VIRTIO_F_VERSION_1};

verus! {

/// Console device ID as defined by the standard.
pub const CONSOLE_DEVICE_ID: u32 = 3;
/// Feature bit: the configuration space holds the console size.
pub const VIRTIO_CONSOLE_F_SIZE: u64 = 0;
/// Queue of the input the guest receives.
pub const RX_QUEUE_IDX: u16 = 0;
/// Queue of the output the guest sends.
pub const TX_QUEUE_IDX: u16 = 1;

/// The features the console offers: version 1, buffers used in order,
/// event indices and the console size.
pub open spec fn console_features_spec() -> u64 {
    (1u64 << VIRTIO_F_VERSION_1) | (1u64 << VIRTIO_F_IN_ORDER) | (1u64 << VIRTIO_F_RING_EVENT_IDX) | (1u64
        << VIRTIO_CONSOLE_F_SIZE)
}

/// The features the console offers.
pub fn console_device_features() -> (r: u64)
    ensures
        r == console_features_spec(),
{
    1u64 << VIRTIO_F_VERSION_1 | 1u64 << VIRTIO_F_IN_ORDER | 1u64 << VIRTIO_F_RING_EVENT_IDX | 1u64 << VIRTIO_CONSOLE_F_SIZE
}

/// The configuration space of the console (`struct virtio_console_config`,
/// packed, little endian): 80 columns, 24 rows, two ports, and an empty
/// emergency write register.
pub open spec fn console_config_spec() -> Seq<u8> {
    spec_u16_to_le_bytes(80) + spec_u16_to_le_bytes(24) + spec_u32_to_le_bytes(2) + spec_u32_to_le_bytes(0)
}

/// The configuration space of the console; see `console_config_spec`.
pub fn build_config_space() -> (r: Vec<u8>)
    ensures
        r@ == console_config_spec(),
        r@.len() == 12,
{
    proof {
        vstd::bytes::lemma_auto_spec_u16_to_from_le_bytes();
        vstd::bytes::lemma_auto_spec_u32_to_from_le_bytes();
    }
    // columns of the screen
    let mut config = u16_to_le_bytes(80);
    // rows of the screen
    config.append(&mut u16_to_le_bytes(24));
    // most ports this device can hold
    config.append(&mut u32_to_le_bytes(2));
    // emergency write register
    config.append(&mut u32_to_le_bytes(0));
    config
}

} // verus!

//! The register layout of a virtio device on the MMIO transport.
use vstd::bytes::{spec_u32_to_le_bytes, u32_to_le_bytes};
use vstd::prelude::*;

verus! {

/// Required by the Virtio MMIO device register layout at offset 0 from base.
/// Turns out this is actually the ASCII sequence for "virt" (in little
/// endian ordering).
pub const MMIO_MAGIC_VALUE: u32 = 0x7472_6976;

/// Current version specified by the Virtio standard (legacy devices used 1
/// here).
pub const MMIO_VERSION: u32 = 2;

/// The standard says nothing about a vendor id for MMIO devices; crosvm and
/// Firecracker use 0.
pub const VENDOR_ID: u32 = 0;

/// Number of 32-bit registers of a device.
pub const MMIO_WORDS: usize = 64;

/// Index of `queue_num_max` among the registers.
pub const QUEUE_NUM_MAX_WORD: usize = 13;
/// Index of `status` among the registers.
pub const STATUS_WORD: usize = 28;
/// Index of `config_generation` among the registers.
pub const CONFIG_GENERATION_WORD: usize = 63;

/// The registers of a device as `MmioDeviceSpace::new` sets them: the magic
/// value, the version, the device id, the vendor id, the device features,
/// the largest queue size, the status and the config generation; every other
/// register is zero.
pub open spec fn initial_words(
    device_id: u32,
    device_features: u32,
    queue_num_max: u16,
    status: u8,
    config_generation: u8,
) -> Seq<u32> {
    Seq::new(
        MMIO_WORDS as nat,
        |i: int|
            if i == 0 {
                MMIO_MAGIC_VALUE
            } else if i == 1 {
                MMIO_VERSION
            } else if i == 2 {
                device_id
            } else if i == 3 {
                VENDOR_ID
            } else if i == 4 {
                device_features
            } else if i == QUEUE_NUM_MAX_WORD {
                queue_num_max as u32
            } else if i == STATUS_WORD {
                status as u32
            } else if i == CONFIG_GENERATION_WORD {
                config_generation as u32
            } else {
                0
            },
    )
}

/// The 256 bytes of registers of a virtio MMIO device, as 64 words in the
/// order of the specification: magic value, version, device id, vendor id,
/// device features and their selector, driver features and their selector,
/// queue selector, largest and current queue size, queue ready, queue
/// notify, interrupt status and acknowledge, status, the three queue
/// addresses split in low and high halves, and the config generation, with
/// reserved words between them.
#[derive(Copy, Clone, Debug)]
pub struct MmioDeviceSpace {
    words: [u32; 64],
}

/// The bytes of `words` in memory order.
pub open spec fn words_bytes(words: Seq<u32>) -> Seq<u8>
    decreases words.len(),
{
    if words.len() == 0 {
        Seq::empty()
    } else {
        words_bytes(words.drop_last()) + spec_u32_to_le_bytes(words.last())
    }
}

impl MmioDeviceSpace {
    /// The registers.
    pub closed spec fn words(&self) -> Seq<u32> {
        self.words@
    }

    /// The registers of a device with id `device_id`, features
    /// `device_features` (of the selected feature page), the largest size of
    /// its selected queue, its status and its config generation.
    pub fn new(device_id: u32, device_features: u32, queue_num_max: u16, status: u8, config_generation: u8) -> (r: MmioDeviceSpace)
        ensures
            r.words() == initial_words(device_id, device_features, queue_num_max, status, config_generation),
    {
        let words: [u32; 64] = [MMIO_MAGIC_VALUE, MMIO_VERSION, device_id, VENDOR_ID, device_features, 0, 0, 0, 0, 0, 0, 0, 0, queue_num_max as u32, 0, 0, 0, 0, 0, 0, 0, 0, 0, 0, 0, 0, 0, 0, status as u32, 0, 0, 0, 0, 0, 0, 0, 0, 0, 0, 0, 0, 0, 0, 0, 0, 0, 0, 0, 0, 0, 0, 0, 0, 0, 0, 0, 0, 0, 0, 0, 0, 0, 0, config_generation as u32];
        let r = MmioDeviceSpace { words };
        assert(r.words() =~= initial_words(device_id, device_features, queue_num_max, status, config_generation));
        r
    }

    /// The registers as they lie in memory (little endian).
    pub fn to_bytes(&self) -> (r: Vec<u8>)
        ensures
            r@ == words_bytes(self.words()),
            r@.len() == 4 * MMIO_WORDS,
    {
        proof {
            vstd::bytes::lemma_auto_spec_u32_to_from_le_bytes();
        }
        let mut out: Vec<u8> = Vec::new();
        let mut i: usize = 0;
        while i < MMIO_WORDS
            invariant
                i <= MMIO_WORDS,
                self.words@.len() == MMIO_WORDS,
                out@ == words_bytes(self.words@.take(i as int)),
                out@.len() == 4 * i,
            decreases MMIO_WORDS - i,
        {
            let ghost before = out@;
            out.append(&mut u32_to_le_bytes(self.words[i]));
            proof {
                let t = self.words@.take(i + 1);
                assert(t.drop_last() =~= self.words@.take(i as int));
                assert(t.last() == self.words@[i as int]);
            }
            i += 1;
        }
        assert(self.words@.take(MMIO_WORDS as int) =~= self.words@);
        out
    }
}

} // verus!

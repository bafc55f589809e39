//! The virtio block device: the features it offers, the checks on
//! activation, and the decisions taken for each request of the driver.
use vstd::prelude::*;

use crate::devices::virtio::{VIRTIO_F_IN_ORDER, VIRTIO_F_RING_EVENT_IDX, VIRTIO_F_VERSION_1};

verus! {

/// Device id of a block device.
pub const BLOCK_DEVICE_ID: u32 = 2;
/// Feature bit: the device is read-only.
pub const VIRTIO_BLK_F_RO: u64 = 5;
/// Feature bit: the device supports cache flushes.
pub const VIRTIO_BLK_F_FLUSH: u64 = 9;
/// Bits of the offset of a sector.
pub const SECTOR_SHIFT: u64 = 9;
/// Bytes of a sector.
pub const SECTOR_SIZE: u64 = 512;

/// The features a block device offers: version 1, buffers used in order and
/// event indices, with `RO` for a read-only device and `FLUSH` when flushes
/// are advertised.
pub open spec fn device_features_spec(read_only: bool, advertise_flush: bool) -> u64 {
    (1u64 << VIRTIO_F_VERSION_1) | (1u64 << VIRTIO_F_IN_ORDER) | (1u64 << VIRTIO_F_RING_EVENT_IDX) | (if read_only {
        1u64 << VIRTIO_BLK_F_RO
    } else {
        0
    }) | (if advertise_flush {
        1u64 << VIRTIO_BLK_F_FLUSH
    } else {
        0
    })
}

/// The features a block device offers; see `device_features_spec`.
pub fn device_features(read_only: bool, advertise_flush: bool) -> (r: u64)
    ensures
        r == device_features_spec(read_only, advertise_flush),
{
    let mut features: u64 = 1u64 << VIRTIO_F_VERSION_1 | 1u64 << VIRTIO_F_IN_ORDER | 1u64 << VIRTIO_F_RING_EVENT_IDX;
    let ro: u64 = if read_only {
        1u64 << VIRTIO_BLK_F_RO
    } else {
        0
    };
    let flush: u64 = if advertise_flush {
        1u64 << VIRTIO_BLK_F_FLUSH
    } else {
        0
    };
    features = features | ro;
    features = features | flush;
    features
}

/// Why a device refuses to be activated.
#[derive(Clone, Copy, Debug, PartialEq, Eq, Structural)]
pub enum ActivateError {
    /// The device is already active.
    AlreadyActivated,
    /// The driver did not accept version 1 (legacy drivers are not
    /// supported); the driver's features.
    BadFeatures(u64),
}

/// Checks that a device may be activated with the features the driver
/// accepted; on success, whether the queue uses event indices.
pub fn check_activation(device_activated: bool, driver_features: u64) -> (r: Result<bool, ActivateError>)
    ensures
        device_activated ==> r == Err::<bool, ActivateError>(ActivateError::AlreadyActivated),
        !device_activated && driver_features & (1u64 << VIRTIO_F_VERSION_1) == 0 ==> r == Err::<bool, ActivateError>(
            ActivateError::BadFeatures(driver_features),
        ),
        !device_activated && driver_features & (1u64 << VIRTIO_F_VERSION_1) != 0 ==> r == Ok::<bool, ActivateError>(
            driver_features & (1u64 << VIRTIO_F_RING_EVENT_IDX) != 0,
        ),
{
    if device_activated {
        return Err(ActivateError::AlreadyActivated);
    }
    // We do not support legacy drivers.
    if driver_features & (1u64 << VIRTIO_F_VERSION_1) == 0 {
        return Err(ActivateError::BadFeatures(driver_features));
    }
    Ok(driver_features & (1u64 << VIRTIO_F_RING_EVENT_IDX) != 0)
}

/// The features an activated block device works with: those the driver
/// accepted, with `RO` added for a read-only device.
pub fn activated_features(driver_features: u64, read_only: bool) -> (r: u64)
    ensures
        r == (if read_only {
            driver_features | (1u64 << VIRTIO_BLK_F_RO)
        } else {
            driver_features
        }),
{
    if read_only {
        driver_features | (1u64 << VIRTIO_BLK_F_RO)
    } else {
        driver_features
    }
}

/// The type of a block request.
#[derive(Clone, Copy, Debug, PartialEq, Eq, Structural)]
pub enum RequestType {
    /// Read from the disk into the driver's buffers.
    In,
    /// Write the driver's buffers to the disk.
    Out,
    /// Flush the disk.
    Flush,
    /// Any other type, handled by the generic executor.
    Other(u32),
}

/// Why a block request fails.
#[derive(Clone, Copy, Debug, PartialEq, Eq, Structural)]
pub enum BlockError {
    /// The request reaches beyond the disk.
    InvalidAccess,
    /// The request's data is not a whole number of sectors, or too long.
    InvalidDataLength,
    /// The request type is not supported.
    Unsupported,
    /// Moving the data or flushing failed.
    Io,
}

/// What to do for a block request.
#[derive(Clone, Copy, Debug, PartialEq, Eq, Structural)]
pub enum BlockOp {
    /// Copy `len` bytes at `offset` in the disk to the driver's buffers.
    Read { offset: u64, len: u64 },
    /// Copy `len` bytes of the driver's buffers to `offset` in the disk.
    Write { offset: u64, len: u64 },
    /// Flush `len` bytes at `offset` in the disk.
    Flush { offset: u64, len: u64 },
    /// Hand the request to the generic executor.
    Delegate,
}

/// Whether `count` sectors from `sector` lie on a disk of `disk_sectors`
/// sectors.
pub fn check_access(count: u64, sector: u64, disk_sectors: u64) -> (r: Result<(), BlockError>)
    ensures
        r is Ok <==> count + sector <= disk_sectors,
        r is Err ==> r == Err::<(), BlockError>(BlockError::InvalidAccess),
{
    let end = match count.checked_add(sector) {
        Some(e) => e,
        None => return Err(BlockError::InvalidAccess),
    };
    if end > disk_sectors {
        return Err(BlockError::InvalidAccess);
    }
    Ok(())
}

/// The operation for a request of `request_type` at `sector` with
/// `total_len` bytes of data, on a disk of `disk_sectors` sectors.
pub open spec fn plan_request_spec(request_type: RequestType, sector: u64, total_len: u64, disk_sectors: u64) -> Result<
    BlockOp,
    BlockError,
> {
    let offset = sector << SECTOR_SHIFT;
    let in_disk = total_len / SECTOR_SIZE + sector <= disk_sectors;
    match request_type {
        RequestType::In => if total_len % SECTOR_SIZE != 0 {
            Err(BlockError::InvalidDataLength)
        } else if !in_disk {
            Err(BlockError::InvalidAccess)
        } else if total_len > u32::MAX {
            Err(BlockError::InvalidDataLength)
        } else {
            Ok(BlockOp::Read { offset, len: total_len })
        },
        RequestType::Out => if total_len % SECTOR_SIZE != 0 {
            Err(BlockError::InvalidDataLength)
        } else if !in_disk {
            Err(BlockError::InvalidAccess)
        } else {
            Ok(BlockOp::Write { offset, len: total_len })
        },
        RequestType::Flush => if !in_disk {
            Err(BlockError::InvalidAccess)
        } else {
            Ok(BlockOp::Flush { offset, len: total_len })
        },
        RequestType::Other(_) => Ok(BlockOp::Delegate),
    }
}

/// The operation for a request of `request_type` at `sector` with
/// `total_len` bytes of data, on a disk of `disk_sectors` sectors: reads and
/// writes need whole sectors inside the disk (and reads at most 4 GiB, as
/// the byte count goes back to the driver in 32 bits); flushes need their
/// range inside the disk; other requests go to the generic executor.
pub fn plan_request(request_type: RequestType, sector: u64, total_len: u64, disk_sectors: u64) -> (r: Result<
    BlockOp,
    BlockError,
>)
    ensures
        r == plan_request_spec(request_type, sector, total_len, disk_sectors),
        sector * SECTOR_SIZE <= u64::MAX ==> match r {
            Ok(BlockOp::Read { offset, len }) => offset == sector * SECTOR_SIZE && len == total_len,
            Ok(BlockOp::Write { offset, len }) => offset == sector * SECTOR_SIZE && len == total_len,
            Ok(BlockOp::Flush { offset, len }) => offset == sector * SECTOR_SIZE && len == total_len,
            _ => true,
        },
{
    proof {
        if sector * SECTOR_SIZE <= u64::MAX {
            lemma_planned_access_inside_disk(request_type, sector, total_len, disk_sectors);
        }
    }
    let offset = sector << SECTOR_SHIFT;
    match request_type {
        RequestType::In => {
            if total_len % SECTOR_SIZE != 0 {
                return Err(BlockError::InvalidDataLength);
            }
            check_access(total_len / SECTOR_SIZE, sector, disk_sectors)?;
            // Total data length should fit in an u32 for further writing in the used ring.
            if total_len > u32::MAX as u64 {
                return Err(BlockError::InvalidDataLength);
            }
            Ok(BlockOp::Read { offset, len: total_len })
        },
        RequestType::Out => {
            if total_len % SECTOR_SIZE != 0 {
                return Err(BlockError::InvalidDataLength);
            }
            check_access(total_len / SECTOR_SIZE, sector, disk_sectors)?;
            Ok(BlockOp::Write { offset, len: total_len })
        },
        RequestType::Flush => {
            check_access(total_len / SECTOR_SIZE, sector, disk_sectors)?;
            Ok(BlockOp::Flush { offset, len: total_len })
        },
        RequestType::Other(_) => Ok(BlockOp::Delegate),
    }
}

/// A planned read, write or flush stays inside the disk: it starts at its
/// sector's byte offset, and a read or write ends at or before the disk's
/// last byte, as do the whole sectors of a flush.
pub proof fn lemma_planned_access_inside_disk(request_type: RequestType, sector: u64, total_len: u64, disk_sectors: u64)
    requires
        sector * SECTOR_SIZE <= u64::MAX,
    ensures
        match plan_request_spec(request_type, sector, total_len, disk_sectors) {
            Ok(BlockOp::Read { offset, len }) => offset == sector * SECTOR_SIZE && offset + len <= disk_sectors
                * SECTOR_SIZE,
            Ok(BlockOp::Write { offset, len }) => offset == sector * SECTOR_SIZE && offset + len <= disk_sectors
                * SECTOR_SIZE,
            Ok(BlockOp::Flush { offset, len }) => offset == sector * SECTOR_SIZE && offset + (len / SECTOR_SIZE)
                * SECTOR_SIZE <= disk_sectors * SECTOR_SIZE,
            _ => true,
        },
{
    vstd::bits::lemma_u64_pow2_no_overflow(9);
    assert(vstd::arithmetic::power2::pow2(9) == 512) by {
        vstd::arithmetic::power2::lemma2_to64();
    }
    vstd::bits::lemma_u64_shl_is_mul(sector, 9);
    let n = total_len / SECTOR_SIZE;
    assert(total_len % SECTOR_SIZE == 0 ==> total_len == n * SECTOR_SIZE) by (nonlinear_arith)
        requires n == total_len / SECTOR_SIZE;
    assert(n + sector <= disk_sectors ==> (sector * SECTOR_SIZE) + n * SECTOR_SIZE <= disk_sectors * SECTOR_SIZE)
        by (nonlinear_arith);
    assert((total_len / SECTOR_SIZE) * SECTOR_SIZE == n * SECTOR_SIZE);
}

/// `VIRTIO_BLK_S_OK`.
pub const VIRTIO_BLK_S_OK: u8 = 0;
/// `VIRTIO_BLK_S_IOERR`.
pub const VIRTIO_BLK_S_IOERR: u8 = 1;
/// `VIRTIO_BLK_S_UNSUPP`.
pub const VIRTIO_BLK_S_UNSUPP: u8 = 2;

/// The status byte and the used length to report for a request that
/// executed with `result` (the bytes it wrote to the driver's buffers): a
/// success counts the status byte as well, a failure reports only it.
pub fn completion(result: Result<u32, BlockError>) -> (r: (u8, u32))
    ensures
        match result {
            Ok(n) => r == (VIRTIO_BLK_S_OK, if n == u32::MAX { n } else { (n + 1) as u32 }),
            Err(BlockError::Unsupported) => r == (VIRTIO_BLK_S_UNSUPP, 1u32),
            Err(_) => r == (VIRTIO_BLK_S_IOERR, 1u32),
        },
{
    match result {
        Ok(n) => (VIRTIO_BLK_S_OK, n.saturating_add(1)),
        Err(BlockError::Unsupported) => (VIRTIO_BLK_S_UNSUPP, 1),
        Err(_) => (VIRTIO_BLK_S_IOERR, 1),
    }
}

} // verus!

//! Virtio over MMIO: constants of the transport, the signalling of used
//! queues, and the bookkeeping of interrupts that the driver has not
//! acknowledged.
use vstd::prelude::*;

use crate::kvm::allocator::MmioRange;

pub mod block;
pub mod console;


verus! {

/// The device uses event indices to suppress notifications.
pub const VIRTIO_F_RING_EVENT_IDX: u64 = 29;
/// The device follows version 1 of the specification.
pub const VIRTIO_F_VERSION_1: u64 = 32;
/// The device uses buffers in the order the driver made them available.
pub const VIRTIO_F_IN_ORDER: u64 = 35;

/// Bit of the interrupt status that tells the driver about used queue
/// events.
pub const VIRTIO_MMIO_INT_VRING: u8 = 0x01;

/// Offset of the register that the driver writes to notify the device about
/// available queue events.
pub const VIRTIO_MMIO_QUEUE_NOTIFY_OFFSET: u64 = 0x50;

/// Largest size of a queue.
pub const QUEUE_MAX_SIZE: u16 = 256;

/// How long an interrupt may stay unacknowledged before it is sent again,
/// in microseconds.
pub const INTERRUPT_ACK_TIMEOUT_US: u64 = 1000;

/// Where a virtio MMIO device lives: its MMIO range and its interrupt.
#[derive(Clone, Copy, Debug)]
pub struct MmioConfig {
    pub range: MmioRange,
    /// The interrupt assigned to the device.
    pub gsi: u32,
}

/// Signalling the driver about used events for the specified queue.
pub trait SignalUsedQueue {
    /// Tells the driver that queue `index` has used buffers.
    fn signal_used_queue(&self, index: u16);
}

/// The interrupt status after a queue was signalled to have used buffers:
/// the vring bit is set, the other bits stay as they were.
pub fn signal_used_queue_status(status: u8) -> (r: u8)
    ensures
        r == status | VIRTIO_MMIO_INT_VRING,
        r & VIRTIO_MMIO_INT_VRING == VIRTIO_MMIO_INT_VRING,
        r & !VIRTIO_MMIO_INT_VRING == status & !VIRTIO_MMIO_INT_VRING,
{
    assert((status | 1u8) & 1u8 == 1u8 && (status | 1u8) & !1u8 == status & !1u8) by (bit_vector);
    status | VIRTIO_MMIO_INT_VRING
}

/// Bookkeeping of the interrupts sent to the driver: when the last one was
/// sent, how many were sent, and how many had to be sent again because the
/// driver did not acknowledge them in time.
#[derive(Clone, Copy, Debug)]
pub struct IrqAckHandler {
    last_sent_us: u64,
    total_sent: usize,
    total_ack_timeouted: usize,
}

impl IrqAckHandler {
    /// When the last interrupt was sent, in microseconds.
    pub closed spec fn last_sent_spec(&self) -> u64 {
        self.last_sent_us
    }

    /// Interrupts sent.
    pub closed spec fn total_sent_spec(&self) -> usize {
        self.total_sent
    }

    /// Interrupts sent again after a timeout.
    pub closed spec fn total_ack_timeouted_spec(&self) -> usize {
        self.total_ack_timeouted
    }

    /// Bookkeeping that starts at time `now_us` with nothing sent.
    pub fn new(now_us: u64) -> (r: IrqAckHandler)
        ensures
            r.last_sent_spec() == now_us,
            r.total_sent_spec() == 0,
            r.total_ack_timeouted_spec() == 0,
    {
        IrqAckHandler { last_sent_us: now_us, total_sent: 0, total_ack_timeouted: 0 }
    }

    /// Must be called whenever a new irq is sent for which an ack is
    /// expected, with the time.
    pub fn irq_sent(&mut self, now_us: u64)
        requires
            old(self).total_sent_spec() < usize::MAX,
        ensures
            final(self).total_sent_spec() == old(self).total_sent_spec() + 1,
            final(self).last_sent_spec() == now_us,
            final(self).total_ack_timeouted_spec() == old(self).total_ack_timeouted_spec(),
    {
        self.total_sent += 1;
        self.last_sent_us = now_us;
    }

    /// Must be called regularly to handle ack timeouts: whether the
    /// interrupt has to be sent again at time `now_us`, because it is still
    /// unacknowledged (`unacked`) and the timeout has passed since it was
    /// sent.
    pub fn handle_timeouts(&self, now_us: u64, unacked: bool) -> (r: bool)
        ensures
            r == (unacked && now_us - self.last_sent_spec() >= INTERRUPT_ACK_TIMEOUT_US),
    {
        let passed = now_us.saturating_sub(self.last_sent_us);
        passed >= INTERRUPT_ACK_TIMEOUT_US && unacked
    }

    /// Counts an interrupt that was sent again after a timeout.
    pub fn ack_timeout_resent(&mut self)
        requires
            old(self).total_ack_timeouted_spec() < usize::MAX,
        ensures
            final(self).total_ack_timeouted_spec() == old(self).total_ack_timeouted_spec() + 1,
            final(self).total_sent_spec() == old(self).total_sent_spec(),
            final(self).last_sent_spec() == old(self).last_sent_spec(),
    {
        self.total_ack_timeouted += 1;
    }
}

} // verus!

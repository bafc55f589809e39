//! Talking to KVM: guest physical memory allocation, register layouts and the
//! ioregionfd wire protocol.
pub mod allocator;
pub mod cpus;
pub mod hypervisor;
pub mod ioctls;
pub mod kvm_ioregionfd;

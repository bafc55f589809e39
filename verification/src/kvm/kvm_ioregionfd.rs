//! Bindings for ioregionfd.
pub use crate::kvm::ioctls::{
    ioregionfd_cmd, ioregionfd_resp, kvm_ioregion, Cmd, Info, Size, KVM_CAP_IOREGIONFD, KVM_IOREGION_PIO,
    KVM_IOREGION_POSTED_WRITES, KVM_IOREGION_VALID_FLAG_MASK,
};

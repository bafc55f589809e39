//! KVM memory slots as the kernel keeps them: a range of guest frames and
//! the hypervisor memory that backs them.
use vstd::prelude::*;

use crate::page_math::page_size;

verus! {

/// A KVM memory slot: `npages` pages from guest frame `base_gfn`, backed by
/// hypervisor memory at `userspace_addr`.
#[derive(Clone, Copy, Debug)]
pub struct MemSlot {
    base_gfn: u64,
    npages: u64,
    userspace_addr: u64,
}

impl MemSlot {
    /// First guest frame.
    pub closed spec fn base_gfn_spec(&self) -> u64 {
        self.base_gfn
    }

    /// Number of pages.
    pub closed spec fn npages_spec(&self) -> u64 {
        self.npages
    }

    /// Hypervisor address of the first page.
    pub closed spec fn userspace_addr_spec(&self) -> u64 {
        self.userspace_addr
    }

    /// The slot of `npages` pages from guest frame `base_gfn`, backed at
    /// `userspace_addr`.
    pub fn new(base_gfn: u64, npages: u64, userspace_addr: u64) -> (r: MemSlot)
        ensures
            r.base_gfn_spec() == base_gfn,
            r.npages_spec() == npages,
            r.userspace_addr_spec() == userspace_addr,
    {
        MemSlot { base_gfn, npages, userspace_addr }
    }

    /// Hypervisor address where the slot starts.
    pub fn start(&self) -> (r: u64)
        ensures
            r == self.userspace_addr_spec(),
    {
        self.userspace_addr
    }

    /// Bytes of the slot, for pages of `ps` bytes (wrapping around at the
    /// end of the address space, as a release build does).
    pub fn size_with(&self, ps: u64) -> (r: u64)
        ensures
            r == self.npages_spec().wrapping_mul(ps),
    {
        self.npages.wrapping_mul(ps)
    }

    /// Bytes of the slot.
    pub fn size(&self) -> (r: u64)
        ensures
            exists|ps: u64| ps >= 1 && r == #[trigger] self.npages_spec().wrapping_mul(ps),
    {
        let ps = page_size() as u64;
        self.size_with(ps)
    }

    /// Hypervisor address where the slot ends, for pages of `ps` bytes.
    pub fn end_with(&self, ps: u64) -> (r: u64)
        ensures
            r == self.userspace_addr_spec().wrapping_add(self.npages_spec().wrapping_mul(ps)),
    {
        self.start().wrapping_add(self.size_with(ps))
    }

    /// Hypervisor address where the slot ends.
    pub fn end(&self) -> (r: u64)
        ensures
            exists|ps: u64| ps >= 1 && r == #[trigger] self.userspace_addr_spec().wrapping_add(self.npages_spec().wrapping_mul(ps)),
    {
        let ps = page_size() as u64;
        self.end_with(ps)
    }

    /// Guest physical address where the slot starts, for pages of `ps`
    /// bytes.
    pub fn physical_start_with(&self, ps: u64) -> (r: u64)
        ensures
            r == self.base_gfn_spec().wrapping_mul(ps),
    {
        self.base_gfn.wrapping_mul(ps)
    }

    /// Guest physical address where the slot starts.
    pub fn physical_start(&self) -> (r: u64)
        ensures
            exists|ps: u64| ps >= 1 && r == #[trigger] self.base_gfn_spec().wrapping_mul(ps),
    {
        let ps = page_size() as u64;
        self.physical_start_with(ps)
    }
}

} // verus!

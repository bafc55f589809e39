//! Memory mappings of the hypervisor process that back guest memory.
use vstd::prelude::*;

use crate::page_math::{compute_host_offset, host_offset_spec};
use crate::prot::ProtFlags;
use crate::sort::SortKey;

verus! {

/// A mapping in the hypervisor's address space (`start..end`) that backs
/// guest physical memory from `phys_addr` on.
#[derive(Clone, Copy, Debug, PartialEq, Eq, Structural)]
pub struct Mapping {
    pub start: usize,
    pub end: usize,
    pub phys_addr: usize,
    pub prot_flags: ProtFlags,
}

impl Mapping {
    /// A mapping whose size and guest physical range fit the address space.
    pub open spec fn wf(&self) -> bool {
        &&& self.start <= self.end
        &&& self.phys_addr + (self.end - self.start) <= usize::MAX
    }

    /// Bytes of the mapping.
    pub fn size(&self) -> (r: usize)
        requires
            self.start <= self.end,
        ensures
            r == self.end - self.start,
    {
        self.end - self.start
    }

    /// First guest physical address after the mapping.
    pub fn phys_end(&self) -> (r: usize)
        requires
            self.wf(),
        ensures
            r == self.phys_addr + (self.end - self.start),
    {
        self.phys_addr + self.size()
    }

    /// Offset from a guest physical address in the mapping to its host
    /// address.
    pub fn phys_to_host_offset(&self) -> (r: isize)
        requires
            self.phys_addr - self.start != isize::MAX + 1,
        ensures
            r == host_offset_spec(self.start, self.phys_addr),
            isize::MIN <= self.start - self.phys_addr <= isize::MAX ==> r == self.start - self.phys_addr,
    {
        compute_host_offset(self.start, self.phys_addr)
    }
}

impl SortKey for Mapping {
    open spec fn sort_key(&self) -> usize {
        self.phys_addr
    }

    /// Mappings sort by their guest physical address.
    fn key(&self) -> (r: usize) {
        self.phys_addr
    }
}

} // verus!

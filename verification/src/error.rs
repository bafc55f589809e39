//! Errors of the library.
use vstd::prelude::*;

verus! {

/// Everything that can go wrong in the library.
#[derive(Clone, Copy, Debug, PartialEq, Eq, Structural)]
pub enum Error {
    /// Reading another process's memory failed.
    RemoteRead,
    /// Reading another process's memory returned fewer bytes than asked for.
    ShortRead,
    /// Writing another process's memory failed.
    RemoteWrite,
    /// Writing another process's memory wrote fewer bytes than expected.
    ShortWrite,
    /// A physical address has no host address (it is outside the address space).
    InvalidAddress,
    /// An entry on the way to a page maps a huge page instead of a table.
    HugePageInPageTable,
    /// The page table already maps a page where a new one was to go.
    PageAlreadyMapped,
    /// New page tables would not fit below the end of the address space.
    OutOfAddressSpace,
    /// A mapping is empty, unaligned, or not physically contiguous with the
    /// one before it.
    InvalidMapping,
    /// The allocator has no room left below its last allocation.
    OutOfMemory,
    /// The guest has no memory slot.
    NoMemory,
    /// An allocation would overlap memory the guest already has.
    AllocationConflict,
    /// Two memory slots overlap but map to different host memory.
    OverlappingMemslots,
    /// The page table is not in any memory slot of the guest.
    NoPageTableMemory,
    /// A page table maps memory that no memory slot of the guest holds.
    NoMemslot,
    /// The vcpu is in user mode, where the kernel might not be mapped.
    UserMode,
    /// No mapping of the kernel was found in the page table.
    NoKernel,
    /// The kernel's exported symbol table was not found.
    NoKsymtab,
    /// A symbol name does not end inside the kernel image.
    UnterminatedSymbol,
    /// A symbol name is not valid UTF-8.
    InvalidSymbolName,
    /// A symbol address lies outside the address space.
    InvalidSymbolAddress,
    /// No readable kernel section holds the symbol strings.
    NoSymbolSection,
    /// A cpuid entry the allocator needs is missing.
    MissingCpuid,
    /// The guest is not a 64-bit guest.
    Not64Bit,
    /// The guest uses a virtual address width other than 48 bits.
    UnsupportedVirtualAddressWidth,
    /// An address width reported by cpuid is out of range.
    InvalidAddressWidth,
    /// A memory mapped I/O range is empty or does not fit in the address space.
    InvalidMmioRange,
    /// The machine's page size cannot be used for page tables.
    UnsupportedPageSize,
    /// The binary has no loadable segment.
    NoLoadableSections,
    /// A segment of the binary lies where no memory was allocated for it.
    UnallocatedLoadable,
    /// A relocation refers to an address outside every loaded segment.
    NoLoadableForRelocation,
    /// A relocation needs a kernel symbol that the kernel does not export.
    UnknownSymbol,
    /// A relocation would write outside its segment.
    RelocationOutOfBounds,
    /// The binary has a relocation of a type the loader does not handle.
    UnsupportedRelocation,
}

} // verus!

//! Allocation of guest physical memory for vmsh: memory is taken downwards
//! from the top of the guest's physical address space, above the memory the
//! guest already has.
use vstd::arithmetic::power2::pow2;
use vstd::prelude::*;

use crate::error::Error;
use crate::guest_mem::{GuestMem, MappedMemory};
use crate::kvm::ioctls::{kvm_cpuid2, kvm_cpuid_entry2, KVM_MAX_CPUID_ENTRIES};
use crate::page_math::{page_align, page_align_spec, page_size};
use crate::page_table::{
    all_wf, estimate_page_table_size_with, map_memory_error, map_memory_outcome, page_table_size_spec, PageTable, PhysAddr,
    VirtMem,
};
use crate::prot::ProtFlags;

verus! {

/// An interval of MMIO bus addresses: `size` addresses from `base`.
#[derive(Clone, Copy, Debug, PartialEq, Eq, Structural)]
pub struct MmioRange {
    pub base: u64,
    pub size: u64,
}

/// The base and size of the MMIO range of `size` addresses from `base`, if
/// it is valid.
///
/// Trusted: builds `vm_device::bus::MmioRange::new(MmioAddress(base), size)`
/// and reads back its `base()` and `size()`.  The crate's source returns
/// `Error::InvalidRange` exactly when `size` is zero or `base + size - 1`
/// overflows a `u64`, and otherwise a range that stores `base` and `size` as
/// given; the contract says that, with the error as `None`.
#[verifier::external_body]
pub(crate) fn mmio_range_new(base: u64, size: u64) -> (r: Option<(u64, u64)>)
    ensures
        r is Some <==> (size != 0 && base + (size - 1) <= u64::MAX),
        r matches Some(x) ==> x.0 == base && x.1 == size,
{
    vm_device::bus::MmioRange::new(vm_device::bus::MmioAddress(base), size).ok().map(|r| (r.base().0, r.size()))
}

/// cpuid leaf with the extended processor info and feature bits.
pub const EXTEND_CPU_INFO_FUNCTION: u32 = 0x80000001;
/// cpuid leaf with AMD's encrypted memory capabilities.
pub const ENCRYPTED_MEMORY_CAPABILITIES: u32 = 0x8000001f;
/// cpuid leaf with the physical and virtual address sizes.
pub const ADDRESS_SIZE_FUNCTION: u32 = 0x80000008;
/// `edx` bit of `EXTEND_CPU_INFO_FUNCTION` for 64-bit long mode.
pub const LONG_MODE: u32 = 0x2000_0000;

/// Physical address bits lost to SME or SEV memory encryption, from `eax`
/// and `ebx` of the host's cpuid leaf `ENCRYPTED_MEMORY_CAPABILITIES`.
pub open spec fn sme_sev_bits_spec(eax: u32, ebx: u32) -> u8 {
    if eax & 1 != 0 || eax & 2 != 0 {
        ((ebx >> 6) & 0x3f) as u8
    } else {
        0
    }
}

/// Physical address bits lost to SME or SEV memory encryption (AMD doc
/// 24594, rev. 3.32), from `eax` and `ebx` of the host's cpuid leaf
/// `ENCRYPTED_MEMORY_CAPABILITIES`: bit 0 is SME, bit 1 is SEV, and bits 6
/// to 11 of `ebx` hold the reduction.
pub fn sme_sev_bits(eax: u32, ebx: u32) -> (r: u8)
    ensures
        r == sme_sev_bits_spec(eax, ebx),
{
    if eax & 1 != 0 || eax & 2 != 0 {
        ((ebx >> 6) & 0x3f) as u8
    } else {
        0
    }
}

/// The first entry of `es` for cpuid leaf `function`.
pub open spec fn find_cpuid_spec(es: Seq<kvm_cpuid_entry2>, function: u32) -> Option<kvm_cpuid_entry2>
    decreases es.len(),
{
    if es.len() == 0 {
        None
    } else if es[0].function == function {
        Some(es[0])
    } else {
        find_cpuid_spec(es.drop_first(), function)
    }
}

fn find_cpuid(cpuid: &kvm_cpuid2, function: u32) -> (r: Option<kvm_cpuid_entry2>)
    ensures
        r == find_cpuid_spec(cpuid.entries@, function),
{
    let mut i: usize = 0;
    assert(cpuid.entries@.skip(0) =~= cpuid.entries@);
    while i < KVM_MAX_CPUID_ENTRIES
        invariant
            i <= KVM_MAX_CPUID_ENTRIES,
            cpuid.entries@.len() == KVM_MAX_CPUID_ENTRIES,
            find_cpuid_spec(cpuid.entries@.skip(i as int), function) == find_cpuid_spec(cpuid.entries@, function),
        decreases KVM_MAX_CPUID_ENTRIES - i,
    {
        let e = cpuid.entries[i];
        assert(cpuid.entries@.skip(i as int)[0] == e);
        assert(cpuid.entries@.skip(i as int).drop_first() =~= cpuid.entries@.skip(i + 1));
        if e.function == function {
            return Some(e);
        }
        i += 1;
    }
    assert(cpuid.entries@.skip(i as int).len() == 0);
    None
}

/// Where allocations start: the size of the smaller of the guest's and the
/// host's physical address spaces, from the guest's cpuid leaves `vm`, the
/// host's `eax` of `ADDRESS_SIZE_FUNCTION` and the host's `eax` and `ebx` of
/// `ENCRYPTED_MEMORY_CAPABILITIES`.
pub open spec fn first_allocation_spec(vm: Seq<kvm_cpuid_entry2>, host_eax: u32, sme_eax: u32, sme_ebx: u32) -> Result<usize, Error> {
    match find_cpuid_spec(vm, EXTEND_CPU_INFO_FUNCTION) {
        None => Err(Error::MissingCpuid),
        Some(ext) => if ext.edx & LONG_MODE == 0 {
            Err(Error::Not64Bit)
        } else {
            match find_cpuid_spec(vm, ADDRESS_SIZE_FUNCTION) {
                None => Err(Error::MissingCpuid),
                Some(a) => {
                    let vm_phys_bits = a.eax as u8;
                    let vm_virt_bits = (a.eax >> 8) as u8;
                    let host_bits = host_eax as u8;
                    let sme = sme_sev_bits_spec(sme_eax, sme_ebx);
                    if vm_virt_bits != 48 {
                        Err(Error::UnsupportedVirtualAddressWidth)
                    } else if host_bits < sme {
                        Err(Error::InvalidAddressWidth)
                    } else if vm_phys_bits >= usize::BITS || host_bits - sme >= usize::BITS {
                        Err(Error::InvalidAddressWidth)
                    } else {
                        let vm_size = pow2(vm_phys_bits as nat);
                        let host_size = pow2((host_bits - sme) as nat);
                        Ok((if vm_size < host_size { vm_size } else { host_size }) as usize)
                    }
                },
            }
        },
    }
}

/// Where allocations start: the size of the smaller of the guest's and the
/// host's physical address spaces.  The guest's sizes come from its cpuid
/// leaves `vm_cpuid`; the host's from `eax` of its cpuid leaf
/// `ADDRESS_SIZE_FUNCTION` (`host_eax`), less the bits that memory
/// encryption takes (`sme_eax`, `sme_ebx`: leaf
/// `ENCRYPTED_MEMORY_CAPABILITIES`).  Fails with `MissingCpuid` if the guest
/// lacks a leaf, `Not64Bit` if it is not a 64-bit guest,
/// `UnsupportedVirtualAddressWidth` unless it uses 4-level paging (48-bit
/// virtual addresses), and `InvalidAddressWidth` if a width does not fit.
pub fn get_first_allocation(vm_cpuid: &kvm_cpuid2, host_eax: u32, sme_eax: u32, sme_ebx: u32) -> (r: Result<usize, Error>)
    ensures
        r == first_allocation_spec(vm_cpuid.entries@, host_eax, sme_eax, sme_ebx),
{
    // Get Extended Processor Info and Feature Bits
    let extended_cpu_info_entry = match find_cpuid(vm_cpuid, EXTEND_CPU_INFO_FUNCTION) {
        Some(e) => e,
        None => return Err(Error::MissingCpuid),
    };
    if extended_cpu_info_entry.edx & LONG_MODE == 0 {
        return Err(Error::Not64Bit);
    }
    // Get Virtual and Physical address sizes
    let address_size_entry = match find_cpuid(vm_cpuid, ADDRESS_SIZE_FUNCTION) {
        Some(e) => e,
        None => return Err(Error::MissingCpuid),
    };
    // Supported guest physical address size in bits
    let vm_phys_bits = address_size_entry.eax as u8;
    // Supported guest virtual address size in bits
    let vm_virt_bits = (address_size_entry.eax >> 8) as u8;
    // we only implement 4-Level paging for now
    if vm_virt_bits != 48 {
        return Err(Error::UnsupportedVirtualAddressWidth);
    }
    // Supported host physical address size in bits
    let host_bits = host_eax as u8;
    let sme = sme_sev_bits(sme_eax, sme_ebx);
    if host_bits < sme {
        return Err(Error::InvalidAddressWidth);
    }
    let host_phys_bits = host_bits - sme;
    if vm_phys_bits as u32 >= usize::BITS || host_phys_bits as u32 >= usize::BITS {
        return Err(Error::InvalidAddressWidth);
    }
    proof {
        vstd::bits::lemma_usize_pow2_no_overflow(vm_phys_bits as nat);
        vstd::bits::lemma_usize_pow2_no_overflow(host_phys_bits as nat);
        vstd::bits::lemma_usize_shl_is_mul(1, vm_phys_bits as usize);
        vstd::bits::lemma_usize_shl_is_mul(1, host_phys_bits as usize);
    }
    let vm_size: usize = 1usize << (vm_phys_bits as usize);
    let host_size: usize = 1usize << (host_phys_bits as usize);
    Ok(if vm_size < host_size {
        vm_size
    } else {
        host_size
    })
}

/// A piece of virtual memory to allocate: its length and protection.
#[derive(Clone, Copy, Debug)]
pub struct VirtAlloc {
    pub len: usize,
    pub prot: ProtFlags,
}

/// Where `size` bytes are reserved below `next` when the guest's memory ends
/// with a slot whose last address is `last` (`None` if the guest has no
/// memory): right below `next`, if that stays above the guest's memory.
pub open spec fn reserve_spec(next: usize, size: usize, last: Option<usize>) -> Result<usize, Error> {
    if next < size {
        Err(Error::OutOfMemory)
    } else {
        match last {
            None => Err(Error::NoMemory),
            Some(l) => if next - size <= l {
                Err(Error::AllocationConflict)
            } else {
                Ok((next - size) as usize)
            },
        }
    }
}

/// Two reservations in a row take disjoint ranges, the later one below the
/// earlier one, and both above the guest's memory.
pub proof fn lemma_reservations_disjoint(next: usize, a: usize, b: usize, last: Option<usize>)
    requires
        reserve_spec(next, a, last) is Ok,
        reserve_spec(reserve_spec(next, a, last)->Ok_0, b, last) is Ok,
    ensures
        ({
            let s1 = reserve_spec(next, a, last)->Ok_0;
            let s2 = reserve_spec(s1, b, last)->Ok_0;
            &&& s1 + a == next
            &&& s2 + b == s1
            &&& last matches Some(l) && l < s2
        }),
{
}

/// Allocates guest physical memory for vmsh downwards from the top of the
/// guest's physical address space.
pub struct PhysMemAllocator {
    /// Physical guest memory
    pub guest_mem: GuestMem,
    /// Physical address where we last allocated memory from.
    /// After an allocating we substract the allocation size from this value.
    next_allocation: usize,
}

/// The last address of the guest's last memory slot.
pub open spec fn last_address(g: GuestMem) -> Option<usize> {
    if g.maps_spec().len() == 0 {
        None
    } else {
        Some(g.maps_spec().last().1)
    }
}

/// A physical allocation: `len` bytes at `start`, and where allocations
/// started before it.
#[derive(Clone, Copy, Debug, PartialEq, Eq, Structural)]
pub struct PhysAllocation {
    pub start: usize,
    pub len: usize,
    pub previous_next: usize,
}

/// The mappings that place `alloc` one after another from virtual address
/// `virt` and physical address `phys`; `None` if an address would leave the
/// address space.
pub open spec fn virt_alloc_plan(virt: usize, phys: PhysAddr, alloc: Seq<VirtAlloc>) -> Option<Seq<MappedMemory>>
    decreases alloc.len(),
{
    if alloc.len() == 0 {
        Some(Seq::empty())
    } else {
        let a = alloc[0];
        if virt + a.len > usize::MAX || phys.value + a.len > usize::MAX {
            None
        } else {
            let m = MappedMemory { phys_start: phys, virt_start: virt, len: a.len, prot: a.prot };
            let next_phys = PhysAddr { value: (phys.value + a.len) as usize, host_offset: phys.host_offset };
            match virt_alloc_plan((virt + a.len) as usize, next_phys, alloc.drop_first()) {
                None => None,
                Some(rest) => Some(seq![m] + rest),
            }
        }
    }
}

/// How mapping `ms` into the page table at `pml4` can end: in one of the
/// errors of mapping memory, and, unless the write to the guest failed,
/// as `map_memory` answers for some page size and the table read from there.
pub open spec fn mapped_outcome(r: Result<VirtMem, Error>, ms: Seq<MappedMemory>, pml4: PhysAddr) -> bool {
    &&& r matches Err(e) ==> map_memory_error(e)
    &&& r is Ok || r == Err::<VirtMem, Error>(Error::UnsupportedPageSize) || r == Err::<VirtMem, Error>(
        Error::InvalidMapping,
    ) ==> exists|ps: usize, t: PageTable| t.phys_addr_spec() == pml4 && #[trigger] map_memory_outcome(r, ps, ms, t)
}

/// What `virt_alloc_size` answers for allocations of `total` bytes in all,
/// with the machine's page size `ps`: the total and the page tables that
/// map it, if that fits in the address space (with pages below 4 KiB, only
/// for totals up to a sixteenth of it); `OutOfAddressSpace` otherwise.
pub open spec fn virt_alloc_size_outcome(r: Result<usize, Error>, ps: usize, total: int) -> bool {
    if total <= usize::MAX && (ps >= 4096 || total <= usize::MAX / 16) && total + page_table_size_spec(
        ps,
        total as usize,
    ) <= usize::MAX {
        r == Ok::<usize, Error>((total + page_table_size_spec(ps, total as usize)) as usize)
    } else {
        r == Err::<usize, Error>(Error::OutOfAddressSpace)
    }
}

/// The total length of `alloc`.
pub open spec fn total_len(alloc: Seq<VirtAlloc>) -> int
    decreases alloc.len(),
{
    if alloc.len() == 0 {
        0
    } else {
        total_len(alloc.drop_last()) + alloc.last().len
    }
}

impl PhysMemAllocator {
    /// Where the next allocation ends.
    pub closed spec fn next_allocation_spec(&self) -> usize {
        self.next_allocation
    }

    /// The guest's memory.
    pub closed spec fn guest_mem_spec(&self) -> GuestMem {
        self.guest_mem
    }

    /// An allocator for `guest_mem` that starts at `first_allocation` (see
    /// `get_first_allocation`).
    pub fn new(guest_mem: GuestMem, first_allocation: usize) -> (r: PhysMemAllocator)
        ensures
            r.guest_mem_spec() == guest_mem,
            r.next_allocation_spec() == first_allocation,
    {
        PhysMemAllocator { guest_mem, next_allocation: first_allocation }
    }

    /// Reserves `size` bytes right below the last allocation.  Fails with
    /// `OutOfMemory` if they do not fit above address zero, with `NoMemory`
    /// if the guest has no memory, and with `AllocationConflict` if they
    /// would overlap the guest's memory.
    fn reserve_range(&mut self, size: usize) -> (r: Result<usize, Error>)
        ensures
            r == reserve_spec(old(self).next_allocation_spec(), size, last_address(old(self).guest_mem_spec())),
            final(self).guest_mem_spec() == old(self).guest_mem_spec(),
            r matches Ok(start) ==> final(self).next_allocation_spec() == start,
            r is Err ==> final(self).next_allocation_spec() == old(self).next_allocation_spec(),
    {
        let start = match self.next_allocation.checked_sub(size) {
            Some(s) => s,
            None => return Err(Error::OutOfMemory),
        };
        let last_range = match self.guest_mem.last_memslot_range() {
            Some(r) => r,
            None => return Err(Error::NoMemory),
        };
        if start <= last_range.end {
            return Err(Error::AllocationConflict);
        }
        self.next_allocation = start;
        Ok(start)
    }

    /// Reserves guest physical memory for `size` bytes, rounded up to whole
    /// pages, below the last allocation; the caller adds it to the guest and
    /// calls `undo_phys_alloc` if that fails.
    pub fn phys_alloc(&mut self, size: usize) -> (r: Result<PhysAllocation, Error>)
        ensures
            final(self).guest_mem_spec() == old(self).guest_mem_spec(),
            r matches Ok(a) ==> {
                &&& exists|ps: usize| ps >= 1 && a.len == page_align_spec(ps, size)
                &&& reserve_spec(old(self).next_allocation_spec(), a.len, last_address(old(self).guest_mem_spec())) == Ok::<usize, Error>(a.start)
                &&& a.previous_next == old(self).next_allocation_spec()
                &&& final(self).next_allocation_spec() == a.start
            },
            r matches Err(e) ==> {
                &&& final(self).next_allocation_spec() == old(self).next_allocation_spec()
                &&& exists|ps: usize| ps >= 1 && reserve_spec(old(self).next_allocation_spec(), page_align_spec(ps, size), last_address(old(self).guest_mem_spec())) == Err::<usize, Error>(e)
            },
    {
        let old_start = self.next_allocation;
        let padded_size = page_align(size);
        let start = self.reserve_range(padded_size)?;
        Ok(PhysAllocation { start, len: padded_size, previous_next: old_start })
    }

    /// Gives back an allocation that the guest could not take, so that the
    /// next allocation starts where this one did.
    pub fn undo_phys_alloc(&mut self, a: &PhysAllocation)
        ensures
            final(self).guest_mem_spec() == old(self).guest_mem_spec(),
            final(self).next_allocation_spec() == a.previous_next,
    {
        self.next_allocation = a.previous_next;
    }

    /// Guest physical memory to reserve for `alloc` in `virt_alloc`: room for
    /// its total length and, after the last mapping, for the page tables that
    /// map it.  Fails with `OutOfAddressSpace` if that does not fit in the
    /// address space.
    pub fn virt_alloc_size(alloc: &[VirtAlloc]) -> (r: Result<usize, Error>)
        ensures
            exists|ps: usize| ps >= 1 && #[trigger] virt_alloc_size_outcome(r, ps, total_len(alloc@)),
            total_len(alloc@) > usize::MAX ==> r == Err::<usize, Error>(Error::OutOfAddressSpace),
    {
        let mut len: usize = 0;
        let mut i: usize = 0;
        while i < alloc.len()
            invariant
                i <= alloc@.len(),
                len == total_len(alloc@.take(i as int)),
            decreases alloc@.len() - i,
        {
            assert(alloc@.take(i + 1).drop_last() =~= alloc@.take(i as int));
            if alloc[i].len > usize::MAX - len {
                proof {
                    lemma_total_len_prefix(alloc@, i + 1);
                    let ps: usize = 1;
                    assert(virt_alloc_size_outcome(Err(Error::OutOfAddressSpace), ps, total_len(alloc@)));
                }
                return Err(Error::OutOfAddressSpace);
            }
            len = len + alloc[i].len;
            i += 1;
        }
        assert(alloc@.take(alloc@.len() as int) =~= alloc@);
        let ps = page_size();
        if ps < 4096 && len > usize::MAX / 16 {
            assert(virt_alloc_size_outcome(Err(Error::OutOfAddressSpace), ps, total_len(alloc@)));
            return Err(Error::OutOfAddressSpace);
        }
        let n = estimate_page_table_size_with(ps, len);
        match len.checked_add(n) {
            Some(total) => {
                assert(virt_alloc_size_outcome(Ok(total), ps, total_len(alloc@)));
                Ok(total)
            },
            None => {
                assert(virt_alloc_size_outcome(Err(Error::OutOfAddressSpace), ps, total_len(alloc@)));
                Err(Error::OutOfAddressSpace)
            },
        }
    }

    /// Maps `alloc` one after another at virtual address `virt_start`,
    /// backed by guest physical memory from `phys_start` on, into the page
    /// table of the guest, whose memory the hypervisor process `pid` holds.
    /// Fails with `OutOfAddressSpace` if an address would leave the address
    /// space, and as `GuestMem::map_memory` does.
    pub fn virt_alloc(&mut self, pid: i32, virt_start: usize, phys_start: PhysAddr, alloc: &[VirtAlloc]) -> (r: Result<VirtMem, Error>)
        requires
            alloc@.len() > 0,
        ensures
            *final(self) == *old(self),
            virt_alloc_plan(virt_start, phys_start, alloc@) is None ==> r == Err::<VirtMem, Error>(Error::OutOfAddressSpace),
            virt_alloc_plan(virt_start, phys_start, alloc@) matches Some(ms) ==> mapped_outcome(
                r,
                ms,
                old(self).guest_mem_spec().pml4_spec(),
            ),
            r matches Ok(vm) ==> {
                &&& virt_alloc_plan(virt_start, phys_start, alloc@) == Some(vm.mappings_spec())
                &&& vm.pid_spec() == pid
                &&& all_wf(vm.old_tables_spec())
                &&& vm.old_tables_spec().len() >= 1
                &&& vm.old_tables_spec()[0].phys_addr_spec() == old(self).guest_mem_spec().pml4_spec()
            },
    {
        let ghost total = virt_alloc_plan(virt_start, phys_start, alloc@);
        let mut mapped: Vec<MappedMemory> = Vec::new();
        let mut virt = virt_start;
        let mut next_addr = phys_start;
        let mut i: usize = 0;
        assert(alloc@.skip(0) =~= alloc@);
        while i < alloc.len()
            invariant
                i <= alloc@.len(),
                mapped@.len() == i,
                next_addr.host_offset == phys_start.host_offset,
                total == virt_alloc_plan(virt_start, phys_start, alloc@),
                match virt_alloc_plan(virt, next_addr, alloc@.skip(i as int)) {
                    None => total is None,
                    Some(rest) => total == Some(mapped@ + rest),
                },
            decreases alloc@.len() - i,
        {
            let a = alloc[i];
            assert(alloc@.skip(i as int)[0] == a);
            assert(alloc@.skip(i as int).drop_first() =~= alloc@.skip(i + 1));
            let m = MappedMemory { phys_start: next_addr, virt_start: virt, len: a.len, prot: a.prot };
            virt = match virt.checked_add(a.len) {
                Some(v) => v,
                None => return Err(Error::OutOfAddressSpace),
            };
            let value = match next_addr.value.checked_add(a.len) {
                Some(v) => v,
                None => return Err(Error::OutOfAddressSpace),
            };
            next_addr = PhysAddr { value, host_offset: next_addr.host_offset };
            let ghost before = mapped@;
            mapped.push(m);
            proof {
                match virt_alloc_plan(virt, next_addr, alloc@.skip(i + 1)) {
                    None => {},
                    Some(rest) => {
                        assert(before + (seq![m] + rest) =~= mapped@ + rest);
                    },
                }
            }
            i += 1;
        }
        assert(alloc@.skip(i as int) =~= Seq::<VirtAlloc>::empty());
        assert(mapped@ + Seq::<MappedMemory>::empty() =~= mapped@);
        let r = self.guest_mem.map_memory(pid, mapped.as_slice());
        assert(virt_alloc_plan(virt_start, phys_start, alloc@) == Some(mapped@));
        assert(mapped_outcome(r, mapped@, old(self).guest_mem_spec().pml4_spec()));
        r
    }

    /// Reserves `size` bytes of MMIO addresses below the last allocation.
    /// Fails as `phys_alloc` does without the rounding, and with
    /// `InvalidMmioRange` if the range is empty.
    pub fn alloc_mmio_range(&mut self, size: usize) -> (r: Result<MmioRange, Error>)
        ensures
            final(self).guest_mem_spec() == old(self).guest_mem_spec(),
            ({
                let res = reserve_spec(old(self).next_allocation_spec(), size, last_address(old(self).guest_mem_spec()));
                &&& res matches Err(e) ==> r == Err::<MmioRange, Error>(e)
                    && final(self).next_allocation_spec() == old(self).next_allocation_spec()
                &&& res matches Ok(start) ==> final(self).next_allocation_spec() == start && (if size == 0 {
                    r == Err::<MmioRange, Error>(Error::InvalidMmioRange)
                } else {
                    r == Ok::<MmioRange, Error>(MmioRange { base: start as u64, size: size as u64 })
                })
            }),
    {
        let start = self.reserve_range(size)?;
        match mmio_range_new(start as u64, size as u64) {
            Some((base, len)) => Ok(MmioRange { base, size: len }),
            None => Err(Error::InvalidMmioRange),
        }
    }
}

proof fn lemma_total_len_prefix(alloc: Seq<VirtAlloc>, n: int)
    requires
        0 <= n <= alloc.len(),
    ensures
        total_len(alloc.take(n)) <= total_len(alloc),
    decreases alloc.len() - n,
{
    if n < alloc.len() {
        lemma_total_len_prefix(alloc, n + 1);
        assert(alloc.take(n + 1).drop_last() =~= alloc.take(n));
    } else {
        assert(alloc.take(n) =~= alloc);
    }
}

} // verus!

//! x86-64 four level page tables: entries, tables, physical addresses, and
//! the construction of new mappings inside a guest's page table.
use vstd::prelude::*;

use vstd::bytes::{spec_u64_from_le_bytes, spec_u64_to_le_bytes, u64_from_le_bytes, u64_to_le_bytes};

use crate::error::Error;
use crate::guest_mem::MappedMemory;
use crate::kvm::hypervisor::memory::{process_read_bytes, process_write_bytes};
use crate::page_math::{is_pow2, page_align_spec, page_align_with, page_size};

verus! {

/// Number of entries in one page table.
pub const ENTRY_COUNT: usize = 512;
/// Number of page table levels (PML4, PDPT, PD, PT).
pub const LEVEL_COUNT: usize = 4;
/// Bytes of one page table (512 entries of eight bytes).
pub const TABLE_SIZE: usize = 4096;
/// Bits of an entry that hold the physical address.
pub const ADDR_MASK: u64 = 0x000f_ffff_ffff_f000;
/// Bits of an entry that hold flags (all bits outside the address).
pub const FLAGS_MASK: u64 = 0xfff0_0000_0000_0fff;

/// How the flag bits of an entry read: present (bit 0) and huge page
/// (bit 7) through the flags mask.
proof fn lemma_flag_bits(v: u64)
    ensures
        (v & FLAGS_MASK) & 1u64 == 1u64 <==> v & 1 == 1,
        (v & FLAGS_MASK) & 1u64 == 1u64 <==> v & 1 != 0,
        v & 1 != 1 ==> v & 1 == 0,
        (v & FLAGS_MASK) & 0x80u64 == 0x80u64 <==> v & 0x80 == 0x80,
        (v & FLAGS_MASK) & (128u64 | 1u64) == (128u64 | 1u64) <==> v & 0x81 == 0x81,
        v & 0x81 == 0x81 ==> v & 1 == 1,
        0u64 & 1u64 == 0,
{
    assert({
        &&& ((v & 0xfff0_0000_0000_0fffu64) & 1u64 == 1u64 <==> v & 1 == 1)
        &&& ((v & 0xfff0_0000_0000_0fffu64) & 1u64 == 1u64 <==> v & 1 != 0)
        &&& (v & 1 != 1 ==> v & 1 == 0)
        &&& ((v & 0xfff0_0000_0000_0fffu64) & 0x80u64 == 0x80u64 <==> v & 0x80 == 0x80)
        &&& ((v & 0xfff0_0000_0000_0fffu64) & (128u64 | 1u64) == (128u64 | 1u64) <==> v & 0x81 == 0x81)
        &&& (v & 0x81 == 0x81 ==> v & 1 == 1)
        &&& 0u64 & 1u64 == 0
    }) by (bit_vector);
}

/// Flags of a page table entry.
#[derive(Clone, Copy, Debug, PartialEq, Eq, Structural)]
pub struct PageTableFlags {
    bits: u64,
}

/// Which bit patterns are flags: the named constants, their unions and the
/// flag bits of any value hold no bit of the address; an aligned address
/// below 2^52 holds no flag bit.
proof fn lemma_flag_patterns(a: u64, b: u64, v: u64)
    ensures
        0u64 & !FLAGS_MASK == 0,
        FLAGS_MASK & !FLAGS_MASK == 0,
        1u64 & !FLAGS_MASK == 0,
        2u64 & !FLAGS_MASK == 0,
        4u64 & !FLAGS_MASK == 0,
        8u64 & !FLAGS_MASK == 0,
        16u64 & !FLAGS_MASK == 0,
        32u64 & !FLAGS_MASK == 0,
        64u64 & !FLAGS_MASK == 0,
        128u64 & !FLAGS_MASK == 0,
        256u64 & !FLAGS_MASK == 0,
        0x8000_0000_0000_0000u64 & !FLAGS_MASK == 0,
        a & !FLAGS_MASK == 0 && b & !FLAGS_MASK == 0 ==> (a | b) & !FLAGS_MASK == 0,
        (a & FLAGS_MASK) & !FLAGS_MASK == 0,
        v % 4096 == 0 && v < 0x10_0000_0000_0000 ==> v & !ADDR_MASK == 0,
{
    assert({
        let m = 0xfff0_0000_0000_0fffu64;
        &&& 0u64 & !m == 0
        &&& m & !m == 0
        &&& 1u64 & !m == 0
        &&& 2u64 & !m == 0
        &&& 4u64 & !m == 0
        &&& 8u64 & !m == 0
        &&& 16u64 & !m == 0
        &&& 32u64 & !m == 0
        &&& 64u64 & !m == 0
        &&& 128u64 & !m == 0
        &&& 256u64 & !m == 0
        &&& 0x8000_0000_0000_0000u64 & !m == 0
        &&& (a & !m == 0 && b & !m == 0 ==> (a | b) & !m == 0)
        &&& (a & m) & !m == 0
        &&& (v % 4096 == 0 && v < 0x10_0000_0000_0000u64 ==> v & !0x000f_ffff_ffff_f000u64 == 0)
    }) by (bit_vector);
}

impl PageTableFlags {
    /// Only bits that name flags are set.
    #[verifier::type_invariant]
    spec fn only_flags(self) -> bool {
        self.bits & !FLAGS_MASK == 0
    }

    /// The raw bits.
    pub closed spec fn view(&self) -> u64 {
        self.bits
    }

    /// No flag set.
    pub fn empty() -> (r: PageTableFlags)
        ensures
            r@ == 0,
    {
        proof {
            lemma_flag_patterns(0, 0, 0);
        }
        PageTableFlags { bits: 0 }
    }

    /// Every defined flag.
    pub fn all() -> (r: PageTableFlags)
        ensures
            r@ == FLAGS_MASK,
    {
        proof {
            lemma_flag_patterns(0, 0, 0);
        }
        PageTableFlags { bits: FLAGS_MASK }
    }

    /// The mapped frame or page table is loaded in memory.
    pub fn present() -> (r: PageTableFlags)
        ensures
            r@ == 1,
    {
        proof {
            lemma_flag_patterns(0, 0, 0);
        }
        PageTableFlags { bits: 1 }
    }

    /// Writes to the mapped frames are allowed.
    pub fn writable() -> (r: PageTableFlags)
        ensures
            r@ == 2,
    {
        proof {
            lemma_flag_patterns(0, 0, 0);
        }
        PageTableFlags { bits: 2 }
    }

    /// Accesses from userspace (ring 3) are permitted.
    pub fn user_accessible() -> (r: PageTableFlags)
        ensures
            r@ == 4,
    {
        proof {
            lemma_flag_patterns(0, 0, 0);
        }
        PageTableFlags { bits: 4 }
    }

    /// Write-through caching.
    pub fn write_through() -> (r: PageTableFlags)
        ensures
            r@ == 8,
    {
        proof {
            lemma_flag_patterns(0, 0, 0);
        }
        PageTableFlags { bits: 8 }
    }

    /// Caching disabled.
    pub fn no_cache() -> (r: PageTableFlags)
        ensures
            r@ == 16,
    {
        proof {
            lemma_flag_patterns(0, 0, 0);
        }
        PageTableFlags { bits: 16 }
    }

    /// Set by the CPU when the entry is used.
    pub fn accessed() -> (r: PageTableFlags)
        ensures
            r@ == 32,
    {
        proof {
            lemma_flag_patterns(0, 0, 0);
        }
        PageTableFlags { bits: 32 }
    }

    /// Set by the CPU on a write to the mapped frame.
    pub fn dirty() -> (r: PageTableFlags)
        ensures
            r@ == 64,
    {
        proof {
            lemma_flag_patterns(0, 0, 0);
        }
        PageTableFlags { bits: 64 }
    }

    /// The entry maps a huge frame instead of a page table.
    pub fn huge_page() -> (r: PageTableFlags)
        ensures
            r@ == 128,
    {
        proof {
            lemma_flag_patterns(0, 0, 0);
        }
        PageTableFlags { bits: 128 }
    }

    /// The mapping is present in all address spaces.
    pub fn global() -> (r: PageTableFlags)
        ensures
            r@ == 256,
    {
        proof {
            lemma_flag_patterns(0, 0, 0);
        }
        PageTableFlags { bits: 256 }
    }

    /// Code execution from the mapped frames is forbidden.
    pub fn no_execute() -> (r: PageTableFlags)
        ensures
            r@ == 0x8000_0000_0000_0000,
    {
        proof {
            lemma_flag_patterns(0, 0, 0);
        }
        PageTableFlags { bits: 0x8000_0000_0000_0000 }
    }

    /// The flags among `bits`; bits that name no flag are dropped.
    pub fn from_bits_truncate(bits: u64) -> (r: PageTableFlags)
        ensures
            r@ == bits & FLAGS_MASK,
    {
        proof {
            lemma_flag_patterns(bits, 0, 0);
        }
        PageTableFlags { bits: bits & FLAGS_MASK }
    }

    /// The raw bits.
    pub fn bits(&self) -> (r: u64)
        ensures
            r == self@,
            r & !FLAGS_MASK == 0,
    {
        proof {
            use_type_invariant(self);
        }
        self.bits
    }

    /// Whether every flag of `other` is set in `self`.
    pub fn contains(&self, other: PageTableFlags) -> (r: bool)
        ensures
            r == (self@ & other@ == other@),
    {
        self.bits & other.bits == other.bits
    }

    /// The flags of both sets.
    pub fn union(&self, other: PageTableFlags) -> (r: PageTableFlags)
        ensures
            r@ == self@ | other@,
    {
        proof {
            use_type_invariant(self);
            use_type_invariant(&other);
            lemma_flag_patterns(self.bits, other.bits, 0);
        }
        PageTableFlags { bits: self.bits | other.bits }
    }
}

/// A physical address of the guest, with the offset at which the
/// hypervisor maps it into its own address space.
#[derive(Clone, Copy, Debug, PartialEq, Eq, Structural)]
pub struct PhysAddr {
    /// The actual physical address
    pub value: usize,
    /// Offset to virtual host memory in the hypervisor
    pub host_offset: isize,
}

impl PhysAddr {
    /// The host address, as an integer.
    pub open spec fn host_addr_spec(&self) -> int {
        self.value + self.host_offset
    }

    /// Address in the hypervisor's memory where this physical address is
    /// mapped.
    pub fn host_addr(&self) -> (r: usize)
        requires
            0 <= self.host_addr_spec() <= usize::MAX,
        ensures
            r == self.host_addr_spec(),
    {
        if self.host_offset < 0 {
            let magnitude: usize = (-(self.host_offset + 1)) as usize + 1;
            self.value - magnitude
        } else {
            self.value + self.host_offset as usize
        }
    }

    /// Whether the address starts a page of `ps` bytes.
    pub fn is_page_aligned_with(&self, ps: usize) -> (r: bool)
        requires
            ps >= 1,
        ensures
            r == crate::page_math::is_page_aligned_spec(ps, self.value),
            is_pow2(ps) ==> (r <==> self.value % ps == 0),
    {
        crate::page_math::is_page_aligned_with(ps, self.value)
    }

    /// Whether the address starts a page.
    pub fn is_page_aligned(&self) -> (r: bool)
        ensures
            exists|ps: usize|
                ps >= 1 && r == crate::page_math::is_page_aligned_spec(ps, self.value),
    {
        crate::page_math::is_page_aligned(self.value)
    }

    /// The address `offset` bytes further, with the same host offset.
    pub fn add(&self, offset: usize) -> (r: PhysAddr)
        requires
            self.value + offset <= usize::MAX,
        ensures
            r.value == self.value + offset,
            r.host_offset == self.host_offset,
    {
        PhysAddr { value: self.value + offset, host_offset: self.host_offset }
    }
}

/// One entry of a page table.
#[derive(Clone, Copy, Debug, PartialEq, Eq, Structural)]
pub struct PageTableEntry {
    entry: u64,
}

impl PageTableEntry {
    /// The raw entry.
    pub closed spec fn view(&self) -> u64 {
        self.entry
    }

    /// An entry with the raw value `entry`.
    pub fn from_raw(entry: u64) -> (r: PageTableEntry)
        ensures
            r@ == entry,
    {
        PageTableEntry { entry }
    }

    /// The raw value of the entry.
    pub fn raw(&self) -> (r: u64)
        ensures
            r == self@,
    {
        self.entry
    }

    /// An unused (zero) entry.
    pub fn unused() -> (r: PageTableEntry)
        ensures
            r@ == 0,
    {
        PageTableEntry { entry: 0 }
    }

    /// Returns whether this entry is zero.
    pub fn is_unused(&self) -> (r: bool)
        ensures
            r == (self@ == 0),
    {
        self.entry == 0
    }

    /// Map the entry to the specified physical address with the specified
    /// flags.
    pub fn set_addr(&mut self, addr: &PhysAddr, flags: PageTableFlags)
        requires
            addr.value % TABLE_SIZE == 0,
        ensures
            final(self)@ == addr.value as u64 | flags@,
            addr.value < 0x10_0000_0000_0000 ==> {
                &&& final(self)@ & ADDR_MASK == addr.value
                &&& final(self)@ & FLAGS_MASK == flags@
                &&& (final(self)@ == 0 <==> (addr.value == 0 && flags@ == 0))
            },
    {
        let bits = flags.bits();
        proof {
            let v = addr.value as u64;
            lemma_flag_patterns(0, 0, v);
            if addr.value < 0x10_0000_0000_0000 {
                lemma_entry_round_trip(v, bits);
            }
        }
        self.entry = addr.value as u64 | bits;
    }

    /// Sets this entry to zero.
    pub fn set_unused(&mut self)
        ensures
            final(self)@ == 0,
    {
        self.entry = 0;
    }

    /// Returns the flags of this entry.
    pub fn flags(&self) -> (r: PageTableFlags)
        ensures
            r@ == self@ & FLAGS_MASK,
    {
        PageTableFlags::from_bits_truncate(self.entry)
    }

    /// Returns the physical address mapped by this entry, might be zero.
    pub fn addr(&self) -> (r: u64)
        ensures
            r == self@ & ADDR_MASK,
    {
        self.entry & ADDR_MASK
    }
}

/// An entry set to a page aligned address below 2^52 and to flags reads
/// back that address and those flags; an entry set unused reads as unused.
pub proof fn lemma_entry_round_trip(addr: u64, flags: u64)
    requires
        addr & !ADDR_MASK == 0,
        flags & !FLAGS_MASK == 0,
    ensures
        (addr | flags) & ADDR_MASK == addr,
        (addr | flags) & FLAGS_MASK == flags,
        (addr | flags) == 0 <==> (addr == 0 && flags == 0),
{
    assert(addr & !0x000f_ffff_ffff_f000u64 == 0 && flags & !0xfff0_0000_0000_0fffu64 == 0 ==> {
        &&& (addr | flags) & 0x000f_ffff_ffff_f000u64 == addr
        &&& (addr | flags) & 0xfff0_0000_0000_0fffu64 == flags
        &&& ((addr | flags) == 0 <==> (addr == 0 && flags == 0))
    }) by (bit_vector);
}

/// One page table: 512 entries, where it lies in guest physical memory, the
/// virtual address its first entry covers, and its level (0 is the PML4).
#[derive(Debug)]
pub struct PageTable {
    entries: Vec<PageTableEntry>,
    virt_addr: u64,
    phys_addr: PhysAddr,
    level: u8,
}

impl PageTable {
    /// A page table has exactly 512 entries.
    pub closed spec fn wf(&self) -> bool {
        self.entries.len() == ENTRY_COUNT
    }

    /// The raw values of the entries.
    pub closed spec fn entries_view(&self) -> Seq<u64> {
        self.entries@.map_values(|e: PageTableEntry| e@)
    }

    /// Where the table lies in guest physical memory.
    pub closed spec fn phys_addr_spec(&self) -> PhysAddr {
        self.phys_addr
    }

    /// The level of the table.
    pub closed spec fn level_spec(&self) -> u8 {
        self.level
    }

    /// The virtual address covered by the first entry.
    pub closed spec fn virt_addr_spec(&self) -> u64 {
        self.virt_addr
    }

    /// An empty page table at `phys_addr`.
    pub fn empty(phys_addr: PhysAddr) -> (r: PageTable)
        ensures
            r.wf(),
            forall|i: int| 0 <= i < ENTRY_COUNT ==> #[trigger] r.entries_view()[i] == 0,
            r.phys_addr_spec() == phys_addr,
            r.virt_addr_spec() == 0,
            r.level_spec() == 0,
    {
        let entries = vec![PageTableEntry::unused(); ENTRY_COUNT];
        PageTable { entries, virt_addr: 0, level: 0, phys_addr }
    }

    /// The physical address that entry `e` points to, in the same memory
    /// slot as this table.
    pub fn phys_addr(&self, e: PageTableEntry) -> (r: PhysAddr)
        ensures
            r.value == (e@ & ADDR_MASK) as usize,
            r.host_offset == self.phys_addr_spec().host_offset,
    {
        PhysAddr { value: e.addr() as usize, host_offset: self.phys_addr.host_offset }
    }
}


/// The raw entries encoded in `bytes`, eight little-endian bytes each.
pub open spec fn decode_entries_spec(bytes: Seq<u8>) -> Seq<u64> {
    Seq::new(bytes.len() / 8, |i: int| spec_u64_from_le_bytes(bytes.subrange(8 * i, 8 * i + 8)))
}

/// Entries decoded from the bytes of a page table as it lies in memory.
fn decode_entries(bytes: &[u8]) -> (r: Vec<PageTableEntry>)
    requires
        bytes@.len() == TABLE_SIZE,
    ensures
        r.len() == ENTRY_COUNT,
        forall|i: int| 0 <= i < ENTRY_COUNT ==> #[trigger] r@[i]@ == decode_entries_spec(bytes@)[i],
{
    let mut r: Vec<PageTableEntry> = Vec::new();
    let mut i: usize = 0;
    while i < ENTRY_COUNT
        invariant
            bytes@.len() == TABLE_SIZE,
            i <= ENTRY_COUNT,
            r.len() == i,
            forall|j: int| 0 <= j < i ==> #[trigger] r@[j]@ == decode_entries_spec(bytes@)[j],
        decreases ENTRY_COUNT - i,
    {
        let chunk = &bytes[8 * i..8 * i + 8];
        let v = u64_from_le_bytes(chunk);
        r.push(PageTableEntry::from_raw(v));
        i += 1;
    }
    r
}

/// The bytes of a page table as it lies in memory.
pub open spec fn encode_entries_spec(entries: Seq<u64>) -> Seq<u8>
    decreases entries.len(),
{
    if entries.len() == 0 {
        Seq::empty()
    } else {
        encode_entries_spec(entries.drop_last()) + spec_u64_to_le_bytes(entries.last())
    }
}

/// Appends the bytes of `table` to `out`.
fn encode_table(table: &PageTable, out: &mut Vec<u8>)
    requires
        table.wf(),
    ensures
        final(out)@ == old(out)@ + encode_entries_spec(table.entries_view()),
{
    let mut i: usize = 0;
    while i < ENTRY_COUNT
        invariant
            table.wf(),
            i <= ENTRY_COUNT,
            out@ == old(out)@ + encode_entries_spec(table.entries_view().take(i as int)),
        decreases ENTRY_COUNT - i,
    {
        let bytes = u64_to_le_bytes(table.entries[i].raw());
        let mut j: usize = 0;
        let ghost before = out@;
        while j < 8
            invariant
                j <= 8,
                bytes@.len() == 8,
                out@ == before + bytes@.take(j as int),
            decreases 8 - j,
        {
            out.push(bytes[j]);
            j += 1;
            assert(out@ == before + bytes@.take(j as int));
        }
        let ghost t = table.entries_view().take(i + 1);
        assert(t.drop_last() =~= table.entries_view().take(i as int));
        assert(t.last() == table.entries@[i as int]@);
        assert(bytes@.take(8) =~= bytes@);
        i += 1;
    }
    assert(table.entries_view().take(ENTRY_COUNT as int) =~= table.entries_view());
}

impl PageTable {
    /// Reads the page table at `phys_addr` from the memory of the hypervisor
    /// process `pid`.
    pub fn read(pid: i32, phys_addr: &PhysAddr, virt_addr: u64, level: u8) -> (r: Result<PageTable, Error>)
        ensures
            r is Err ==> r == Err::<PageTable, Error>(Error::InvalidAddress) || r == Err::<PageTable, Error>(Error::RemoteRead)
                || r == Err::<PageTable, Error>(Error::ShortRead),
            !(0 <= phys_addr.host_addr_spec() <= usize::MAX) <==> r == Err::<PageTable, Error>(Error::InvalidAddress),
            r matches Ok(t) ==> {
                &&& t.wf()
                &&& t.phys_addr_spec() == *phys_addr
                &&& t.virt_addr_spec() == virt_addr
                &&& t.level_spec() == level
            },
    {
        let host: i128 = phys_addr.value as i128 + phys_addr.host_offset as i128;
        if host < 0 || host > usize::MAX as i128 {
            return Err(Error::InvalidAddress);
        }
        let host_addr = phys_addr.host_addr();
        let (bytes, n) = match process_read_bytes(pid, host_addr, TABLE_SIZE) {
            Ok(v) => v,
            Err(_) => return Err(Error::RemoteRead),
        };
        PageTable::from_read(phys_addr, virt_addr, level, &bytes, n)
    }

    /// The table at `phys_addr` built from what a read of its page gave:
    /// `bytes` and the count `n` of bytes read.  Fails with `ShortRead` if
    /// fewer or more bytes than a table were read.
    pub fn from_read(phys_addr: &PhysAddr, virt_addr: u64, level: u8, bytes: &Vec<u8>, n: usize) -> (r: Result<PageTable, Error>)
        requires
            n == TABLE_SIZE ==> bytes@.len() == TABLE_SIZE,
        ensures
            n != TABLE_SIZE <==> r == Err::<PageTable, Error>(Error::ShortRead),
            r is Err ==> r == Err::<PageTable, Error>(Error::ShortRead),
            r matches Ok(t) ==> {
                &&& t.wf()
                &&& t.entries_view() == decode_entries_spec(bytes@)
                &&& t.phys_addr_spec() == *phys_addr
                &&& t.virt_addr_spec() == virt_addr
                &&& t.level_spec() == level
            },
    {
        if n != TABLE_SIZE {
            return Err(Error::ShortRead);
        }
        let entries = decode_entries(bytes.as_slice());
        let t = PageTable { phys_addr: *phys_addr, entries, virt_addr, level };
        assert(t.entries_view() =~= decode_entries_spec(bytes@));
        Ok(t)
    }

    /// A copy of the table.
    pub fn duplicate(&self) -> (r: PageTable)
        requires
            self.wf(),
        ensures
            r.wf(),
            r.entries_view() == self.entries_view(),
            r.phys_addr_spec() == self.phys_addr_spec(),
            r.virt_addr_spec() == self.virt_addr_spec(),
            r.level_spec() == self.level_spec(),
    {
        let entries = self.entries.clone();
        assert(entries@ =~= self.entries@);
        PageTable { entries, virt_addr: self.virt_addr, phys_addr: self.phys_addr, level: self.level }
    }
}

/// Bit position of the first virtual address bit that indexes a table of
/// `level`.
pub open spec fn shift_spec(level: u8) -> u8 {
    (12 + 9 * (3 - level)) as u8
}

/// Index into a table of `level` for virtual address `virt`.
pub open spec fn index_spec(virt: u64, level: u8) -> u64 {
    (virt >> shift_spec(level)) & 0x1ff
}

fn get_shift(level: u8) -> (r: u8)
    requires
        level <= 3,
    ensures
        r == shift_spec(level),
        r <= 39,
{
    12 + 9 * (3 - level)
}

fn get_index(virt: u64, level: u8) -> (r: u64)
    requires
        level <= 3,
    ensures
        r == index_spec(virt, level),
        r < 512,
{
    let shift = get_shift(level);
    let r = virt >> shift & 0x1FF;
    assert(r == ((virt >> shift) & 0x1ff));
    assert((virt >> shift) & 0x1ff < 512) by (bit_vector);
    r
}

/// `pages` rounded up to a whole number of tables of entries.
pub fn table_align(pages: usize) -> (r: usize)
    requires
        pages + (ENTRY_COUNT - 1) <= usize::MAX,
    ensures
        r % 512 == 0,
        pages <= r < pages + ENTRY_COUNT,
        r == (pages + 511) / 512 * 512,
{
    let up = pages + (ENTRY_COUNT - 1);
    proof {
        assert(up & !511usize == up - up % 512) by (bit_vector);
        let u = up as int;
        assert(u - u % 512 == u / 512 * 512) by (nonlinear_arith);
        assert((u / 512 * 512) % 512 == 0) by (nonlinear_arith);
    }
    up & !(ENTRY_COUNT - 1)
}

/// Number of tables needed on each level for `pages` pages, summed over the
/// four levels.
pub open spec fn tables_needed(pages: int, levels: nat) -> int
    decreases levels,
{
    if levels == 0 {
        0
    } else {
        let next = (pages + 511) / 512;
        next + tables_needed(next, (levels - 1) as nat)
    }
}

/// Bytes of page tables needed to map `size` bytes with pages of `ps` bytes.
pub open spec fn page_table_size_spec(ps: usize, size: usize) -> int {
    tables_needed((page_align_spec(ps, size) as int) / (ps as int), LEVEL_COUNT as nat) * 4096
}

proof fn lemma_tables_needed_bound(pages: int, levels: nat)
    requires
        0 <= pages,
    ensures
        0 <= tables_needed(pages, levels),
        511 * tables_needed(pages, levels) <= pages + 1022 * levels,
    decreases levels,
{
    if levels > 0 {
        let next = (pages + 511) / 512;
        assert(0 <= next && 512 * next <= pages + 511) by (nonlinear_arith)
            requires next == (pages + 511) / 512, pages >= 0;
        lemma_tables_needed_bound(next, (levels - 1) as nat);
    }
}

/// Upper bound of page table memory needed to map `size` bytes of physical
/// memory, with pages of `ps` bytes.
pub fn estimate_page_table_size_with(ps: usize, size: usize) -> (r: usize)
    requires
        ps >= 1,
        ps >= 4096 || size <= usize::MAX / 16,
    ensures
        r == page_table_size_spec(ps, size),
        r % 4096 == 0,
        r <= 9 * size + 0x20_0000,
{
    let aligned = page_align_with(ps, size);
    let pages = aligned / ps;
    let mut tables = pages;
    let mut total_tables: usize = 0;
    let mut level: usize = 0;
    proof {
        assert(pages <= size + 1 && (size <= usize::MAX / 16 ==> pages <= usize::MAX / 16)) by {
            let up = size.wrapping_add((ps - 1) as usize);
            let mask = (ps - 1) as usize;
            assert(aligned == up & !mask);
            // masking clears bits, so rounding up never goes past `up`
            assert(up & !mask <= up) by (bit_vector);
            if size + ps - 1 <= usize::MAX {
                assert(up == size + ps - 1);
                assert((aligned as int) / (ps as int) <= size) by (nonlinear_arith)
                    requires aligned <= size + ps - 1, ps >= 1, size >= 0;
            } else {
                // the rounding wrapped around and ends below one page
                assert(up == size + ps - 1 - (usize::MAX + 1));
                assert((aligned as int) / (ps as int) == 0) by (nonlinear_arith)
                    requires aligned < ps, ps >= 1, aligned >= 0;
            }
        }
        if ps >= 4096 {
            vstd::arithmetic::div_mod::lemma_div_is_ordered_by_denominator(aligned as int, 4096, ps as int);
            vstd::arithmetic::div_mod::lemma_div_is_ordered(aligned as int, usize::MAX as int, 4096);
            assert(usize::MAX as int / 4096 <= usize::MAX / 16);
        }
        lemma_tables_needed_bound(pages as int, LEVEL_COUNT as nat);
    }
    while level < LEVEL_COUNT
        invariant
            level <= LEVEL_COUNT,
            0 <= tables <= usize::MAX / 16,
            pages <= usize::MAX / 16,
            total_tables + tables_needed(tables as int, (LEVEL_COUNT - level) as nat)
                == tables_needed(pages as int, LEVEL_COUNT as nat),
            0 <= total_tables <= tables_needed(pages as int, LEVEL_COUNT as nat),
            511 * tables_needed(pages as int, LEVEL_COUNT as nat) <= pages + 4088,
        decreases LEVEL_COUNT - level,
    {
        let aligned_tables = table_align(tables);
        proof {
            lemma_tables_needed_bound(((tables + 511) / 512) as int, (LEVEL_COUNT - level - 1) as nat);
            if tables >= 1 {
                assert((tables + 511) / 512 <= tables) by (nonlinear_arith)
                    requires tables >= 1;
            }
        }
        tables = aligned_tables / ENTRY_COUNT;
        total_tables += tables;
        level += 1;
    }
    proof {
        assert(total_tables * 4096 <= usize::MAX) by (nonlinear_arith)
            requires
                511 * total_tables <= pages + 4088,
                pages <= usize::MAX / 16,
                usize::MAX >= 0xffff_ffff;
        assert(total_tables * 4096 <= 9 * size + 0x20_0000) by (nonlinear_arith)
            requires
                511 * total_tables <= pages + 4088,
                pages <= size + 1,
                total_tables >= 0;
    }
    total_tables * 8 * ENTRY_COUNT
}

/// Upper bound of page table memory needed to map `size` bytes of physical
/// memory.
pub fn estimate_page_table_size(size: usize) -> (r: usize)
    requires
        size <= usize::MAX / 16,
    ensures
        exists|ps: usize| ps >= 1 && r == page_table_size_spec(ps, size),
        r % 4096 == 0,
        r <= 9 * size + 0x20_0000,
{
    let ps = page_size();
    estimate_page_table_size_with(ps, size)
}

/// Where filling a table below starts: the first table on the way to the
/// first page of the mapping continues at the index of `virt_addr`; every
/// other table is filled from its first entry.
fn get_start_idx(virt_addr: usize, first_page: bool, level: u8) -> (r: usize)
    requires
        level <= 3,
    ensures
        r == (if first_page { index_spec(virt_addr as u64, level) as usize } else { 0 }),
        r < ENTRY_COUNT,
{
    if first_page {
        get_index(virt_addr as u64, level) as usize
    } else {
        0
    }
}

/// Flags of a leaf entry that maps memory with protection `p`.
pub open spec fn leaf_flags_spec(p: crate::prot::ProtFlags) -> u64 {
    let base: u64 = 0x21;
    let w: u64 = if p.bits & crate::prot::PROT_WRITE_BIT == crate::prot::PROT_WRITE_BIT { 2 } else { 0 };
    let x: u64 = if p.bits & crate::prot::PROT_EXEC_BIT == crate::prot::PROT_EXEC_BIT { 0 } else { 0x8000_0000_0000_0000 };
    base | w | x
}

fn page_table_flags(p: crate::prot::ProtFlags) -> (r: PageTableFlags)
    ensures
        r@ == leaf_flags_spec(p),
        r@ & ADDR_MASK == 0,
{
    let mut flags = PageTableFlags::present().union(PageTableFlags::accessed());
    if p.contains(crate::prot::ProtFlags::prot_write()) {
        flags = flags.union(PageTableFlags::writable());
    }
    if !p.contains(crate::prot::ProtFlags::prot_exec()) {
        flags = flags.union(PageTableFlags::no_execute());
    }
    proof {
        let r = flags@;
        assert({
            &&& 0x21u64 | 2 | 0x8000_0000_0000_0000u64 == 0x8000_0000_0000_0023u64
            &&& (1u64 | 32) == 0x21u64
            &&& 0x21u64 | 2 == 0x23u64
            &&& 0x21u64 | 0 == 0x21u64
            &&& 0x23u64 | 0 == 0x23u64
            &&& 0x21u64 | 0x8000_0000_0000_0000 == 0x8000_0000_0000_0021u64
            &&& 0x23u64 | 0x8000_0000_0000_0000 == 0x8000_0000_0000_0023u64
            &&& 0x8000_0000_0000_0023u64 & 0x000f_ffff_ffff_f000u64 == 0
            &&& 0x8000_0000_0000_0021u64 & 0x000f_ffff_ffff_f000u64 == 0
            &&& 0x23u64 & 0x000f_ffff_ffff_f000u64 == 0
            &&& 0x21u64 & 0x000f_ffff_ffff_f000u64 == 0
        }) by (bit_vector);
    }
    flags
}


/// The value of the leaf entry that maps page `j` of a mapping whose
/// physical memory starts at `phys0`.
pub open spec fn leaf_entry(phys0: usize, ps: usize, j: int, flags: u64) -> u64 {
    ((phys0 + j * ps) as u64) | flags
}

/// `log[j]` names the table (an index into `tables`) and the entry in it
/// that holds the leaf entry of page `j`, and that entry holds it.
pub open spec fn leaves_written(
    tables: Seq<PageTable>,
    log: Seq<(int, int)>,
    phys0: usize,
    ps: usize,
    flags: u64,
) -> bool {
    forall|j: int|
        0 <= j < log.len() ==> {
            &&& 0 <= (#[trigger] log[j]).0 < tables.len()
            &&& 0 <= log[j].1 < ENTRY_COUNT
            &&& tables[log[j].0].entries_view()[log[j].1] == leaf_entry(phys0, ps, j, flags)
        }
}

/// Every table of `tables` has 512 entries.
pub open spec fn all_wf(tables: Seq<PageTable>) -> bool {
    forall|i: int| 0 <= i < tables.len() ==> (#[trigger] tables[i]).wf()
}

/// Pages of 4 KiB that one entry of a table of `level` covers.
pub open spec fn span(level: u8) -> int {
    if level == 0 {
        0x800_0000
    } else if level == 1 {
        0x4_0000
    } else if level == 2 {
        0x200
    } else {
        1
    }
}

/// The number of the 4 KiB page that holds virtual address `va`, among the
/// 2^36 pages that four levels of tables map.
pub open spec fn vpn_of(va: usize) -> int {
    ((va as u64 >> 12u64) & 0xf_ffff_ffffu64) as int
}

/// The index into a table of `level` on the way to page number `x`.
pub open spec fn vpn_index(level: u8, x: int) -> int {
    (x / span(level)) % 512
}

/// Whether entry `e` points to table `t`.
pub open spec fn points_to(e: u64, t: PageTable) -> bool {
    (e & ADDR_MASK) as usize == t.phys_addr_spec().value
}

/// Following page number `x` from a table of `level` with `entries`
/// through tables of `tables` reaches a level 3 entry that holds `leaf`.
pub open spec fn reaches(tables: Seq<PageTable>, entries: Seq<u64>, level: u8, x: int, leaf: u64) -> bool
    decreases 3 - level,
{
    if level >= 3 {
        entries[vpn_index(3, x)] == leaf
    } else {
        exists|k: int|
            0 <= k < tables.len() && points_to(entries[vpn_index(level, x)], #[trigger] tables[k]) && reaches(
                tables,
                tables[k].entries_view(),
                (level + 1) as u8,
                x,
                leaf,
            )
    }
}

/// The index of `va` into a table of `level` is that of its page number.
proof fn lemma_index_of_vpn(va: usize, level: u8)
    requires
        level <= 3,
    ensures
        index_spec(va as u64, level) == vpn_index(level, vpn_of(va)),
{
    let v = va as u64;
    assert({
        &&& (v >> 39u8) & 0x1ff == (((v >> 12u64) & 0xf_ffff_ffffu64) / 0x800_0000) % 512
        &&& (v >> 30u8) & 0x1ff == (((v >> 12u64) & 0xf_ffff_ffffu64) / 0x4_0000) % 512
        &&& (v >> 21u8) & 0x1ff == (((v >> 12u64) & 0xf_ffff_ffffu64) / 0x200) % 512
        &&& (v >> 12u8) & 0x1ff == ((v >> 12u64) & 0xf_ffff_ffffu64) % 512
    }) by (bit_vector);
}

/// Reaching a page depends only on the entry on its way: tables may be
/// added, and other entries may change.
proof fn lemma_reaches_keeps(
    t: Seq<PageTable>,
    t2: Seq<PageTable>,
    e: Seq<u64>,
    e2: Seq<u64>,
    level: u8,
    x: int,
    leaf: u64,
)
    requires
        level <= 3,
        reaches(t, e, level, x, leaf),
        t2.len() >= t.len(),
        forall|k: int| 0 <= k < t.len() ==> t2[k] == t[k],
        e2[vpn_index(level, x)] == e[vpn_index(level, x)],
    ensures
        reaches(t2, e2, level, x, leaf),
    decreases 3 - level,
{
    if level < 3 {
        let k = choose|k: int|
            0 <= k < t.len() && points_to(e[vpn_index(level, x)], #[trigger] t[k]) && reaches(
                t,
                t[k].entries_view(),
                (level + 1) as u8,
                x,
                leaf,
            );
        lemma_reaches_keeps(t, t2, t[k].entries_view(), t2[k].entries_view(), (level + 1) as u8, x, leaf);
        assert(points_to(e2[vpn_index(level, x)], t2[k]));
    }
}

/// Page `j` of a mapping whose first page has number `v0` and whose
/// physical memory starts at `phys0`: following it from a table of `level`
/// with `entries` reaches its leaf entry.
pub open spec fn page_mapped(
    tables: Seq<PageTable>,
    entries: Seq<u64>,
    level: u8,
    v0: int,
    phys0: usize,
    ps: usize,
    flags: u64,
    j: int,
) -> bool {
    reaches(tables, entries, level, v0 + j, leaf_entry(phys0, ps, j, flags))
}

/// The entry of a table of `level` with `entries` on the way to page `j`
/// after page number `v0` is present.
pub open spec fn path_present(entries: Seq<u64>, level: u8, v0: int, j: int) -> bool {
    entries[vpn_index(level, v0 + j)] & 1 != 0
}

/// The block of `size` pages that page `j` after page number `v0` lies in.
pub open spec fn block_of(v0: int, j: int, size: int) -> int {
    (v0 + j) / size
}

proof fn lemma_span(level: u8)
    requires
        level < 3,
    ensures
        span(level) == 512 * span((level + 1) as u8),
        span(level) > 0,
        span((level + 1) as u8) > 0,
{
}

/// A page number on a boundary of blocks of `512 * s` pages is on one of
/// blocks of `s` pages, and is the first of its table below.
proof fn lemma_aligned_below(x: int, s: int)
    requires
        x >= 0,
        s > 0,
        x % (512 * s) == 0,
    ensures
        x % s == 0,
        (x / s) % 512 == 0,
{
    vstd::arithmetic::div_mod::lemma_fundamental_div_mod(x, 512 * s);
    let q = x / (512 * s);
    assert(x == (q * 512) * s) by (nonlinear_arith)
        requires x == (512 * s) * q + 0;
    vstd::arithmetic::div_mod::lemma_mod_multiples_basic(q * 512, s);
    vstd::arithmetic::div_mod::lemma_div_multiples_vanish(q * 512, s);
    vstd::arithmetic::div_mod::lemma_mod_multiples_basic(q, 512);
}

/// Dividing by `s`, then by 512, divides by `512 * s`; a quotient by `s` of
/// `a * 512 + i` with `i` below 512 has index `i` and block `a`.
proof fn lemma_block_parts(y: int, s: int, a: int, i: int)
    requires
        y >= 0,
        s > 0,
        a >= 0,
        0 <= i < 512,
        y / s == a * 512 + i,
    ensures
        (y / s) % 512 == i,
        y / (512 * s) == a,
{
    vstd::arithmetic::div_mod::lemma_div_denominator(y, s, 512);
    assert(s * 512 == 512 * s) by (nonlinear_arith);
    vstd::arithmetic::div_mod::lemma_fundamental_div_mod_converse(a * 512 + i, 512, a, i);
}

/// A page number split into its block of `512 * s` pages and its index.
proof fn lemma_block_split(y: int, s: int)
    requires
        y >= 0,
        s > 0,
    ensures
        y / s == (y / (512 * s)) * 512 + (y / s) % 512,
        y / (512 * s) >= 0,
{
    vstd::arithmetic::div_mod::lemma_div_denominator(y, s, 512);
    assert(s * 512 == 512 * s) by (nonlinear_arith);
    vstd::arithmetic::div_mod::lemma_fundamental_div_mod(y / s, 512);
    vstd::arithmetic::div_mod::lemma_div_pos_is_pos(y, s);
    vstd::arithmetic::div_mod::lemma_div_pos_is_pos(y / s, 512);
}

/// The first page number after `x` that is on a boundary of `s` pages,
/// when all pages up to it are in the block of `x`.
proof fn lemma_next_block(x: int, y: int, s: int)
    requires
        x >= 0,
        s > 0,
        y > x,
        (y - 1) / s == x / s,
        y % s == 0,
    ensures
        y / s == x / s + 1,
        y == (x / s + 1) * s,
{
    vstd::arithmetic::div_mod::lemma_fundamental_div_mod(y, s);
    vstd::arithmetic::div_mod::lemma_fundamental_div_mod(y - 1, s);
    vstd::arithmetic::div_mod::lemma_fundamental_div_mod(x, s);
    let q = y / s;
    let q1 = (y - 1) / s;
    assert(q == q1 + 1) by (nonlinear_arith)
        requires
            y == s * q,
            y - 1 == s * q1 + (y - 1) % s,
            0 <= (y - 1) % s < s,
            s > 0;
    assert(y == (x / s + 1) * s) by (nonlinear_arith)
        requires y == s * q, q == x / s + 1;
}

/// Pages numbered from `x` on, `k` of them, from index `cs` of a table of
/// 512 entries on: each lands at index `cs + t`, in the block of `x`, and
/// when they fill the table the next one starts a block.
proof fn lemma_leaf_positions(x: int, cs: int, k: int)
    requires
        x >= 0,
        0 <= cs,
        k >= 1,
        cs + k <= 512,
        x % 512 == cs,
    ensures
        forall|t: int| 0 <= t < k ==> (x + t) % 512 == cs + t && #[trigger] ((x + t) / 512) == x / 512,
        cs + k == 512 ==> (x + k) % 512 == 0,
        (x + k - 1) / 512 == x / 512,
{
    vstd::arithmetic::div_mod::lemma_fundamental_div_mod(x, 512);
    let q = x / 512;
    assert forall|t: int| 0 <= t < k implies (x + t) % 512 == cs + t && #[trigger] ((x + t) / 512) == x / 512 by {
        vstd::arithmetic::div_mod::lemma_fundamental_div_mod_converse(x + t, 512, q, cs + t);
    }
    if cs + k == 512 {
        vstd::arithmetic::div_mod::lemma_fundamental_div_mod_converse(x + k, 512, q + 1, 0);
    }
    vstd::arithmetic::div_mod::lemma_fundamental_div_mod_converse(x + k - 1, 512, q, cs + k - 1);
}

/// How many blocks of `s` pages the pages `a` up to `b` (after page number
/// `v0`) touch.
pub open spec fn blocks(v0: int, a: int, b: int, s: int) -> int {
    if b <= a {
        0
    } else {
        (v0 + b - 1) / s - (v0 + a) / s + 1
    }
}

/// How many tables writing pages `a` up to `b` below a table of `level`
/// creates when no table on the way exists yet: one for each block of each
/// level below that the pages touch.
pub open spec fn new_tables(v0: int, a: int, b: int, level: u8) -> int
    decreases 3 - level,
{
    if level >= 3 {
        0
    } else {
        blocks(v0, a, b, span(level)) + new_tables(v0, a, b, (level + 1) as u8)
    }
}

/// Blocks add up over ranges that meet at a block boundary.
proof fn lemma_blocks_add(v0: int, a: int, b: int, c: int, s: int)
    requires
        v0 >= 0,
        0 <= a <= b <= c,
        s > 0,
        b == a || b == c || (v0 + b) % s == 0,
    ensures
        blocks(v0, a, c, s) == blocks(v0, a, b, s) + blocks(v0, b, c, s),
{
    if a < b && b < c {
        vstd::arithmetic::div_mod::lemma_fundamental_div_mod(v0 + b, s);
        let q = (v0 + b) / s;
        assert(v0 + b - 1 == (q - 1) * s + (s - 1)) by (nonlinear_arith)
            requires v0 + b == s * q + (v0 + b) % s, (v0 + b) % s == 0;
        vstd::arithmetic::div_mod::lemma_fundamental_div_mod_converse(v0 + b - 1, s, q - 1, s - 1);
    }
}

/// A span of a level is a whole number of spans of each level below.
proof fn lemma_span_divides(level: u8, k: u8)
    requires
        level <= k <= 3,
    ensures
        span(level) % span(k) == 0,
{
    assert(0x800_0000int % 0x4_0000 == 0 && 0x800_0000int % 0x200 == 0 && 0x4_0000int % 0x200 == 0);
}

/// Tables created add up over ranges that meet at a boundary of the blocks
/// of `level`.
proof fn lemma_new_tables_add(v0: int, a: int, b: int, c: int, level: u8, top: u8)
    requires
        v0 >= 0,
        0 <= a <= b <= c,
        top <= level <= 3,
        b == a || b == c || (v0 + b) % span(top) == 0,
    ensures
        new_tables(v0, a, c, level) == new_tables(v0, a, b, level) + new_tables(v0, b, c, level),
    decreases 3 - level,
{
    if level < 3 {
        if !(b == a || b == c) {
            lemma_span_divides(top, level);
            assert(span(top) == span(level) * (span(top) / span(level))) by {
                vstd::arithmetic::div_mod::lemma_fundamental_div_mod(span(top), span(level));
            }
            assert((v0 + b) % span(level) == 0) by {
                vstd::arithmetic::div_mod::lemma_fundamental_div_mod(v0 + b, span(top));
                let q = (v0 + b) / span(top);
                assert(v0 + b == (q * (span(top) / span(level))) * span(level)) by (nonlinear_arith)
                    requires
                        v0 + b == span(top) * q + 0,
                        span(top) == span(level) * (span(top) / span(level));
                vstd::arithmetic::div_mod::lemma_mod_multiples_basic(q * (span(top) / span(level)), span(level));
            }
        }
        lemma_blocks_add(v0, a, b, c, span(level));
        lemma_new_tables_add(v0, a, b, c, (level + 1) as u8, top);
    }
}

/// No pages create no tables.
proof fn lemma_new_tables_none(v0: int, a: int, level: u8)
    ensures
        new_tables(v0, a, a, level) == 0,
    decreases 3 - level,
{
    if level < 3 {
        lemma_new_tables_none(v0, a, (level + 1) as u8);
    }
}

/// The pages after a block boundary touch as many blocks as rounding up
/// their number to whole blocks gives.
proof fn lemma_blocks_aligned(v0: int, p: int, s: int)
    requires
        v0 >= 0,
        p >= 1,
        s > 0,
        v0 % s == 0,
    ensures
        blocks(v0, 0, p, s) == (p - 1) / s + 1,
{
    vstd::arithmetic::div_mod::lemma_fundamental_div_mod(v0, s);
    let q = v0 / s;
    vstd::arithmetic::div_mod::lemma_fundamental_div_mod(p - 1, s);
    assert(v0 + p - 1 == (q + (p - 1) / s) * s + (p - 1) % s) by (nonlinear_arith)
        requires
            v0 == s * q + v0 % s,
            v0 % s == 0,
            p - 1 == s * ((p - 1) / s) + (p - 1) % s;
    vstd::arithmetic::div_mod::lemma_fundamental_div_mod_converse(v0 + p - 1, s, q + (p - 1) / s, (p - 1) % s);
}

/// The pages `0` up to `p` after page number `v0` touch at most one block
/// of `s` pages more than rounding up their number to whole blocks gives.
proof fn lemma_blocks_unaligned(v0: int, p: int, s: int)
    requires
        v0 >= 0,
        p >= 1,
        s > 0,
    ensures
        blocks(v0, 0, p, s) <= (p - 1) / s + 2,
{
    vstd::arithmetic::div_mod::lemma_fundamental_div_mod(v0, s);
    vstd::arithmetic::div_mod::lemma_fundamental_div_mod(p - 1, s);
    vstd::arithmetic::div_mod::lemma_fundamental_div_mod(v0 + p - 1, s);
    let q = v0 / s;
    let a = (p - 1) / s;
    let d = (v0 + p - 1) / s;
    assert(d < q + a + 2) by (nonlinear_arith)
        requires
            v0 == s * q + v0 % s,
            p - 1 == s * a + (p - 1) % s,
            v0 + p - 1 == s * d + (v0 + p - 1) % s,
            0 <= v0 % s < s,
            0 <= (p - 1) % s < s,
            0 <= (v0 + p - 1) % s,
            s > 0;
}

/// Upper bound of the page tables: a mapping of `p` pages of `ps` bytes
/// (`len` bytes) that starts at a boundary of 1 GiB creates no more page
/// tables, when none on its way exists yet, than `estimate_page_table_size`
/// makes room for.  (At other addresses it can need more: two pages on both
/// sides of a boundary of 1 GiB need five tables, and the estimate gives
/// four.)
pub proof fn lemma_estimate_covers_new_tables(v0: int, p: int, ps: usize, len: usize)
    requires
        v0 >= 0,
        v0 % 0x4_0000 == 0,
        p >= 1,
        is_pow2(ps),
        len == p * ps,
        len + ps - 1 <= usize::MAX,
    ensures
        4096 * new_tables(v0, 0, p, 0) <= page_table_size_spec(ps, len),
{
    crate::page_math::lemma_pow2_positive(ps);
    crate::page_math::lemma_mask_is_mod(ps, len);
    vstd::arithmetic::div_mod::lemma_mod_multiples_basic(p, ps as int);
    assert(len % ps == 0) by {
        assert((len as int) == p * (ps as int));
        assert((p * (ps as int)) % (ps as int) == 0);
    }
    crate::page_math::lemma_page_align_aligned(ps, len);
    assert(page_align_spec(ps, len) == len);
    vstd::arithmetic::div_mod::lemma_div_multiples_vanish(p, ps as int);
    assert(len as int / ps as int == p) by {
        assert((ps as int) * p == len) by (nonlinear_arith)
            requires len == p * ps;
    }
    let c1 = (p + 511) / 512;
    let c2 = (c1 + 511) / 512;
    let c3 = (c2 + 511) / 512;
    let c4 = (c3 + 511) / 512;
    vstd::arithmetic::div_mod::lemma_div_plus_one(p - 1, 512);
    assert(512 + (p - 1) == p + 511);
    assert(c1 == (p - 1) / 512 + 1);
    vstd::arithmetic::div_mod::lemma_div_plus_one((p - 1) / 512, 512);
    assert(512 + (p - 1) / 512 == c1 + 511);
    vstd::arithmetic::div_mod::lemma_div_denominator(p - 1, 512, 512);
    assert(c2 == (p - 1) / 0x4_0000 + 1);
    vstd::arithmetic::div_mod::lemma_div_plus_one((p - 1) / 0x4_0000, 512);
    assert(512 + (p - 1) / 0x4_0000 == c2 + 511);
    vstd::arithmetic::div_mod::lemma_div_denominator(p - 1, 0x4_0000, 512);
    assert(c3 == (p - 1) / 0x800_0000 + 1);
    vstd::arithmetic::div_mod::lemma_div_pos_is_pos(c3 + 511, 512);
    assert(tables_needed(p, 4) == c1 + c2 + c3 + c4 + tables_needed(c4, 0)) by {
        reveal_with_fuel(tables_needed, 5);
    }
    // the top level count, at least one, makes room for the one block of
    // 512 GiB that a start inside such a block can add
    assert(c4 >= 1) by {
        vstd::arithmetic::div_mod::lemma_div_is_ordered(512, c3 + 511, 512);
    }
    lemma_blocks_unaligned(v0, p, 0x800_0000);
    assert(v0 % 0x200 == 0) by {
        vstd::arithmetic::div_mod::lemma_fundamental_div_mod(v0, 0x4_0000);
        let q = v0 / 0x4_0000;
        vstd::arithmetic::div_mod::lemma_mod_multiples_basic(q * 512, 0x200);
    }
    lemma_blocks_aligned(v0, p, 0x4_0000);
    lemma_blocks_aligned(v0, p, 0x200);
    assert(new_tables(v0, 0, p, 0) <= c3 + 1 + c2 + c1) by {
        reveal_with_fuel(new_tables, 4);
        assert(span(0) == 0x800_0000 && span(1) == 0x4_0000 && span(2) == 0x200);
    }
}

/// Filling one more entry of a table of `level` with pages `w` up to `w2`,
/// all in one of its blocks, creates one table and those below it.
proof fn lemma_new_tables_step(v0: int, w0: int, w: int, w2: int, level: u8)
    requires
        v0 >= 0,
        level < 3,
        0 <= w0 <= w < w2,
        w == w0 || (v0 + w) % span(level) == 0,
        (v0 + w2 - 1) / span(level) == (v0 + w) / span(level),
    ensures
        new_tables(v0, w0, w2, level) == new_tables(v0, w0, w, level) + 1 + new_tables(v0, w, w2, (level + 1) as u8),
{
    lemma_new_tables_add(v0, w0, w, w2, level, level);
    assert(blocks(v0, w, w2, span(level)) == 1);
}

/// What stays fixed while one mapping is written into the page tables.
struct MapCtx {
    pid: i32,
    pt_host_offset: isize,
    ps: usize,
    virt_start: usize,
    flags: PageTableFlags,
    phys0: Ghost<usize>,
    pages: Ghost<nat>,
    /// Bytes of the mapping.
    total: usize,
    /// The number of the page where the mapping starts.
    vpn0: Ghost<int>,
    /// Where new tables start to be placed for this mapping.
    base: Ghost<usize>,
}

/// What changes while one mapping is written into the page tables.
struct MapState {
    phys_addr: PhysAddr,
    len: usize,
    pt_addr: PhysAddr,
    upsert: Vec<PageTable>,
    old: Vec<PageTable>,
    leaves: Ghost<Seq<(int, int)>>,
    written: Ghost<nat>,
    /// For each queued table: the index in `old` of the copy read from the
    /// guest, -1 for a table made for this mapping, -2 for one queued before.
    origins: Ghost<Seq<int>>,
}

impl MapCtx {
    spec fn wf(&self) -> bool {
        &&& is_pow2(self.ps)
        &&& self.ps % 4096 == 0
        &&& self.phys0@ % 4096 == 0
        &&& self.phys0@ + self.pages@ * self.ps <= usize::MAX
        &&& self.flags@ & ADDR_MASK == 0
        &&& self.total == self.pages@ * self.ps
        &&& self.vpn0@ == vpn_of(self.virt_start)
    }
}

impl MapState {
    /// Progress through the mapping: `written` pages are done.
    spec fn progress(&self, ctx: &MapCtx) -> bool {
        &&& self.written@ <= ctx.pages@
        &&& self.phys_addr.value == ctx.phys0@ + self.written@ * ctx.ps
        &&& self.len == (ctx.pages@ - self.written@) * ctx.ps
        &&& self.pt_addr.value % 4096 == 0
        &&& all_wf(self.upsert@)
        &&& all_wf(self.old@)
    }

    /// Every page written so far is in a table queued for writing back.
    spec fn committed(&self, ctx: &MapCtx) -> bool {
        &&& self.leaves@.len() == self.written@
        &&& leaves_written(self.upsert@, self.leaves@, ctx.phys0@, ctx.ps, ctx.flags@)
    }

    /// How `self` may have grown from `before`: queues only grow.
    spec fn extends(&self, before: &MapState) -> bool {
        &&& self.upsert@.len() >= before.upsert@.len()
        &&& forall|i: int| 0 <= i < before.upsert@.len() ==> self.upsert@[i] == before.upsert@[i]
        &&& self.old@.len() >= before.old@.len()
        &&& forall|i: int| 0 <= i < before.old@.len() ==> self.old@[i] == before.old@[i]
        &&& self.leaves@.len() >= before.leaves@.len()
        &&& forall|i: int| 0 <= i < before.leaves@.len() ==> self.leaves@[i] == before.leaves@[i]
        &&& self.pt_addr.value >= before.pt_addr.value
        &&& self.pt_addr.host_offset == before.pt_addr.host_offset
        &&& self.origins@.len() >= before.origins@.len()
        &&& forall|i: int| 0 <= i < before.origins@.len() ==> self.origins@[i] == before.origins@[i]
    }

    /// Every page written so far was free before: see `leaves_were_free`.
    spec fn origins_ok(&self, ctx: &MapCtx) -> bool {
        &&& self.origins@.len() == self.upsert@.len()
        &&& leaves_were_free(self.upsert@, self.old@, self.leaves@, self.origins@, ctx.base@)
    }
}

proof fn lemma_next_page(ctx: &MapCtx, written: nat, len: usize)
    requires
        ctx.wf(),
        written <= ctx.pages@,
        len == (ctx.pages@ - written) * ctx.ps,
        len > 0,
    ensures
        written < ctx.pages@,
        ctx.phys0@ + written * ctx.ps + ctx.ps == ctx.phys0@ + (written + 1) * ctx.ps,
        (ctx.pages@ - written) * ctx.ps - ctx.ps == (ctx.pages@ - (written + 1)) * ctx.ps,
        (ctx.pages@ - written) * ctx.ps >= ctx.ps,
        ctx.phys0@ + (written + 1) * ctx.ps <= usize::MAX,
        (ctx.phys0@ + written * ctx.ps) % 4096 == 0,
        ctx.ps >= 4096,
{
    let ps = ctx.ps as int;
    let w = written as int;
    let p = ctx.pages@ as int;
    if w == p {
        assert((p - w) * ps == 0) by (nonlinear_arith) requires p - w == 0;
    }
    assert(w * ps + ps == (w + 1) * ps) by (nonlinear_arith);
    assert((p - w) * ps - ps == (p - (w + 1)) * ps) by (nonlinear_arith);
    assert(ps >= 1) by {
        let k = choose|k: nat| k < usize::BITS && ctx.ps == vstd::arithmetic::power2::pow2(k);
        vstd::bits::lemma_usize_pow2_no_overflow(k);
    }
    assert(ps >= 4096) by (nonlinear_arith)
        requires ps % 4096 == 0, ps >= 1;
    assert((p - w) * ps >= ps) by (nonlinear_arith) requires p - w >= 1, ps >= 0;
    assert((w + 1) * ps <= p * ps) by (nonlinear_arith) requires w + 1 <= p, ps >= 0;
    let q = ps / 4096;
    assert(ps == q * 4096);
    assert(w * ps == (w * q) * 4096) by (nonlinear_arith) requires ps == q * 4096;
    vstd::arithmetic::div_mod::lemma_mod_multiples_basic(w * q, 4096);
    assert((ctx.phys0@ + w * ps) % 4096 == 0) by (nonlinear_arith)
        requires (w * ps) % 4096 == 0, ctx.phys0@ % 4096 == 0, w * ps >= 0;
}

/// Every page that `log` places was free before: its table (an index into
/// `upsert`) is either a copy of one read from the guest, whose copy as read
/// (`origins` names it in `old`) did not have the entry present, a table
/// made for the mapping, at or after `base` (origin -1), or a copy of a
/// table queued before it (origin -3 - q for `upsert[q]`) that did not have
/// the entry present.
pub open spec fn leaves_were_free(
    upsert: Seq<PageTable>,
    old: Seq<PageTable>,
    log: Seq<(int, int)>,
    origins: Seq<int>,
    base: usize,
) -> bool {
    forall|j: int|
        0 <= j < log.len() ==> {
            let ti = (#[trigger] log[j]).0;
            let o = origins[ti];
            &&& 0 <= ti < origins.len()
            &&& ti < upsert.len()
            &&& o != -2
            &&& o >= 0 ==> o < old.len() && old[o].phys_addr_spec() == upsert[ti].phys_addr_spec()
                && old[o].entries_view()[log[j].1] & 1 == 0
            &&& o == -1 ==> upsert[ti].phys_addr_spec().value >= base
            &&& o <= -3 ==> -3 - o < ti && upsert[-3 - o].phys_addr_spec() == upsert[ti].phys_addr_spec()
                && upsert[-3 - o].entries_view()[log[j].1] & 1 == 0
        }
}

/// `t` was read from the guest: a copy of it was added to `old`.
pub open spec fn read_copy(old: Seq<PageTable>, old2: Seq<PageTable>, t: PageTable) -> bool {
    &&& old2.len() == old.len() + 1
    &&& old2.last().entries_view() == t.entries_view()
    &&& old2.last().phys_addr_spec() == t.phys_addr_spec()
}

/// `t` is a copy of a table queued in `upsert`; nothing was read.
pub open spec fn reused_copy(old: Seq<PageTable>, old2: Seq<PageTable>, upsert: Seq<PageTable>, t: PageTable) -> bool {
    &&& old2 == old
    &&& exists|q: int| #[trigger] queued_copy(upsert, q, t)
}

/// `upsert[q]` holds the entries of `t` at the address of `t`.
pub open spec fn queued_copy(upsert: Seq<PageTable>, q: int, t: PageTable) -> bool {
    &&& 0 <= q < upsert.len()
    &&& upsert[q].entries_view() == t.entries_view()
    &&& upsert[q].phys_addr_spec() == t.phys_addr_spec()
}

/// Pages that were free stay so when the queues grow at their ends.
proof fn lemma_leaves_free_keeps(
    u: Seq<PageTable>,
    o: Seq<PageTable>,
    g: Seq<int>,
    u2: Seq<PageTable>,
    o2: Seq<PageTable>,
    g2: Seq<int>,
    log: Seq<(int, int)>,
    base: usize,
)
    requires
        leaves_were_free(u, o, log, g, base),
        u2.len() >= u.len(),
        forall|i: int| 0 <= i < u.len() ==> u2[i] == u[i],
        o2.len() >= o.len(),
        forall|i: int| 0 <= i < o.len() ==> o2[i] == o[i],
        g2.len() >= g.len(),
        forall|i: int| 0 <= i < g.len() ==> g2[i] == g[i],
    ensures
        leaves_were_free(u2, o2, log, g2, base),
{
    assert forall|j: int| 0 <= j < log.len() implies {
        let ti = (#[trigger] log[j]).0;
        let oi = g2[ti];
        &&& 0 <= ti < g2.len()
        &&& ti < u2.len()
        &&& oi != -2
        &&& oi >= 0 ==> oi < o2.len() && o2[oi].phys_addr_spec() == u2[ti].phys_addr_spec()
            && o2[oi].entries_view()[log[j].1] & 1 == 0
        &&& oi == -1 ==> u2[ti].phys_addr_spec().value >= base
        &&& oi <= -3 ==> -3 - oi < ti && u2[-3 - oi].phys_addr_spec() == u2[ti].phys_addr_spec()
            && u2[-3 - oi].entries_view()[log[j].1] & 1 == 0
    } by {
        let ti = log[j].0;
        assert(g2[ti] == g[ti]);
        assert(u2[ti] == u[ti]);
        if g[ti] >= 0 {
            assert(o2[g[ti]] == o[g[ti]]);
        }
        if g[ti] <= -3 {
            assert(u2[-3 - g[ti]] == u[-3 - g[ti]]);
        }
    }
}

/// No entry of a table from `start` on is present.
pub open spec fn unused_from(entries: Seq<u64>, start: int) -> bool {
    forall|i: int| start <= i < ENTRY_COUNT ==> #[trigger] entries[i] & 1 == 0
}

/// The errors that writing a mapping into page tables can end in.
pub open spec fn map_error(e: Error) -> bool {
    ||| e == Error::HugePageInPageTable
    ||| e == Error::PageAlreadyMapped
    ||| e == Error::OutOfAddressSpace
    ||| e == Error::InvalidAddress
    ||| e == Error::RemoteRead
    ||| e == Error::ShortRead
}

/// How many leaf entries a table gets from entry `start` on when `pages`
/// pages are left to map: until the pages or the table run out.
pub open spec fn leaves_in_table(start: int, pages: int) -> int {
    if ENTRY_COUNT - start < pages {
        ENTRY_COUNT - start
    } else {
        pages
    }
}

/// Writes leaf entries into `table` from entry `start` on, one page of the
/// mapping each, until the mapping is done or the table is full.  Returns
/// how many entries it wrote.
fn map_leaves(ctx: &MapCtx, table: &mut PageTable, start: usize, st: &mut MapState) -> (r: Result<usize, Error>)
    requires
        ctx.wf(),
        old(table).wf(),
        start < ENTRY_COUNT,
        old(st).progress(ctx),
        old(st).len > 0,
    ensures
        final(table).wf(),
        final(table).phys_addr_spec() == old(table).phys_addr_spec(),
        final(table).virt_addr_spec() == old(table).virt_addr_spec(),
        final(table).level_spec() == old(table).level_spec(),
        final(st).upsert@ == old(st).upsert@,
        final(st).old@ == old(st).old@,
        final(st).leaves@ == old(st).leaves@,
        final(st).pt_addr == old(st).pt_addr,
        final(st).origins@ == old(st).origins@,
        (r is Ok) <==> forall|t: int| 0 <= t < leaves_in_table(start as int, ctx.pages@ - old(st).written@)
            ==> #[trigger] old(table).entries_view()[start + t] & 1 == 0,
        r is Err ==> r == Err::<usize, Error>(Error::PageAlreadyMapped),
        r matches Ok(k) ==> {
            &&& k == leaves_in_table(start as int, ctx.pages@ - old(st).written@)
            &&& 1 <= k
            &&& start + k <= ENTRY_COUNT
            &&& final(st).written@ == old(st).written@ + k
            &&& final(st).len == 0 || start + k == ENTRY_COUNT
            &&& final(st).progress(ctx)
            &&& forall|t: int| 0 <= t < k ==> #[trigger] final(table).entries_view()[start + t]
                == leaf_entry(ctx.phys0@, ctx.ps, old(st).written@ + t, ctx.flags@)
            &&& forall|i: int| 0 <= i < ENTRY_COUNT && !(start <= i < start + k)
                ==> #[trigger] final(table).entries_view()[i] == old(table).entries_view()[i]
        },
{
    let mut i: usize = start;
    let ghost w0 = st.written@;
    let ghost t0 = table.entries_view();
    loop
        invariant_except_break
            st.len > 0,
            i < ENTRY_COUNT,
        invariant
            ctx.wf(),
            table.wf(),
            start <= i <= ENTRY_COUNT,
            table.phys_addr_spec() == old(table).phys_addr_spec(),
            table.virt_addr_spec() == old(table).virt_addr_spec(),
            table.level_spec() == old(table).level_spec(),
            st.upsert@ == old(st).upsert@,
            st.old@ == old(st).old@,
            st.leaves@ == old(st).leaves@,
            st.pt_addr == old(st).pt_addr,
            st.origins@ == old(st).origins@,
            st.progress(ctx),
            st.written@ == w0 + (i - start),
            forall|t: int| 0 <= t < i - start ==> #[trigger] table.entries_view()[start + t]
                == leaf_entry(ctx.phys0@, ctx.ps, w0 + t, ctx.flags@),
            forall|j: int| 0 <= j < ENTRY_COUNT && !(start <= j < i)
                ==> #[trigger] table.entries_view()[j] == t0[j],
            t0 == old(table).entries_view(),
            w0 == old(st).written@,
            forall|t: int| 0 <= t < i - start ==> #[trigger] t0[start + t] & 1 == 0,
        ensures
            i > start,
            st.progress(ctx),
            st.written@ == w0 + (i - start),
            st.len == 0 || i == ENTRY_COUNT,
        decreases ENTRY_COUNT - i,
    {
        let e = table.entries[i];
        proof {
            lemma_next_page(ctx, st.written@, st.len);
            let v = e@;
            lemma_flag_bits(v);
            assert(table.entries_view()[i as int] == t0[i as int]);
            assert(e@ == table.entries_view()[i as int]);
            assert(start + (i - start) == i);
        }
        if e.flags().contains(PageTableFlags::present()) {
            assert(0 <= i - start < leaves_in_table(start as int, ctx.pages@ - old(st).written@));
            return Err(Error::PageAlreadyMapped);
        }
        let mut e2 = e;
        e2.set_addr(&st.phys_addr, ctx.flags);
        let ghost before = table.entries_view();
        table.entries.set(i, e2);
        assert(table.entries_view() =~= before.update(i as int, e2@));
        assert(e2@ == leaf_entry(ctx.phys0@, ctx.ps, w0 + (i - start), ctx.flags@));
        st.phys_addr.value = st.phys_addr.value + ctx.ps;
        st.len = st.len - ctx.ps;
        st.written = Ghost((st.written@ + 1) as nat);
        i += 1;
        if st.len == 0 {
            break;
        }
        if i == ENTRY_COUNT {
            break;
        }
    }
    proof {
        let ps = ctx.ps as int;
        let rest = ctx.pages@ - st.written@;
        assert(ps >= 1) by {
            let k = choose|k: nat| k < usize::BITS && ctx.ps == vstd::arithmetic::power2::pow2(k);
            vstd::bits::lemma_usize_pow2_no_overflow(k);
        }
        if st.len == 0 {
            assert(rest == 0) by (nonlinear_arith)
                requires st.len == rest * ps, ps >= 1, rest >= 0, st.len == 0;
        }
    }
    Ok(i - start)
}


/// Flags of an entry that points to a page table: present, accessed, dirty
/// and writable, as the Linux kernel sets them.
pub open spec fn table_entry_flags() -> u64 {
    0x63
}

/// Where new page tables must end: below the end of the address space and
/// below 2^52, the most that an entry can point to.
pub open spec fn table_limit() -> int {
    if usize::MAX < 0x10_0000_0000_0000 {
        usize::MAX as int
    } else {
        0x10_0000_0000_0000
    }
}

/// A new, empty page table at `phys_addr`, entered into `entry`; `phys_addr`
/// moves past the table.  Fails with `OutOfAddressSpace` if the table would
/// not end below `table_limit()`.
fn allocate_page_table(entry: &mut PageTableEntry, phys_addr: &mut PhysAddr) -> (r: Result<PageTable, Error>)
    requires
        old(phys_addr).value % TABLE_SIZE == 0,
    ensures
        old(phys_addr).value + TABLE_SIZE > table_limit() <==> r is Err,
        r is Err ==> r == Err::<PageTable, Error>(Error::OutOfAddressSpace) && *final(entry) == *old(entry)
            && *final(phys_addr) == *old(phys_addr),
        r matches Ok(t) ==> {
            &&& t.wf()
            &&& forall|i: int| 0 <= i < ENTRY_COUNT ==> #[trigger] t.entries_view()[i] == 0
            &&& t.phys_addr_spec() == *old(phys_addr)
            &&& final(entry)@ == old(phys_addr).value as u64 | table_entry_flags()
            &&& final(entry)@ & 1 == 1
            &&& points_to(final(entry)@, t)
            &&& final(phys_addr).value == old(phys_addr).value + TABLE_SIZE
            &&& final(phys_addr).host_offset == old(phys_addr).host_offset
        },
{
    if phys_addr.value > usize::MAX - TABLE_SIZE || phys_addr.value as u64 > 0x10_0000_0000_0000u64 - 4096 {
        return Err(Error::OutOfAddressSpace);
    }
    let table = PageTable::empty(*phys_addr);
    // we just use the same flags the linux kernel expects for page tables
    let flags = PageTableFlags::present().union(PageTableFlags::accessed()).union(
        PageTableFlags::dirty(),
    ).union(PageTableFlags::writable());
    assert((1u64 | 32u64) | 64u64 | 2u64 == 0x63u64) by (bit_vector);
    proof {
        let v = phys_addr.value as u64;
        assert(v % 4096 == 0);
        assert((v % 4096 == 0 && v <= 0x10_0000_0000_0000u64 - 4096 ==> (v | 0x63u64) & 0x000f_ffff_ffff_f000u64 == v)
            && (v | 0x63u64) & 1u64 == 1u64) by (bit_vector);
    }
    entry.set_addr(&table.phys_addr, flags);
    phys_addr.value = phys_addr.value + TABLE_SIZE;
    Ok(table)
}

/// Reads the table that `entry` points to and keeps a copy of it in `old_tables`.
fn read_page_table(pid: i32, entry: &PageTableEntry, host_offset: isize, old_tables: &mut Vec<PageTable>) -> (r: Result<PageTable, Error>)
    requires
        all_wf(old(old_tables)@),
    ensures
        all_wf(final(old_tables)@),
        r is Err ==> final(old_tables)@ == old(old_tables)@,
        r is Err ==> r == Err::<PageTable, Error>(Error::InvalidAddress) || r == Err::<PageTable, Error>(Error::RemoteRead)
            || r == Err::<PageTable, Error>(Error::ShortRead),
        !(0 <= (PhysAddr { value: (entry@ & ADDR_MASK) as usize, host_offset }).host_addr_spec() <= usize::MAX)
            <==> r == Err::<PageTable, Error>(Error::InvalidAddress),
        r matches Ok(t) ==> {
            &&& t.wf()
            &&& t.phys_addr_spec().value == (entry@ & ADDR_MASK) as usize
            &&& t.phys_addr_spec().host_offset == host_offset
            &&& final(old_tables)@.len() == old(old_tables)@.len() + 1
            &&& final(old_tables)@.drop_last() == old(old_tables)@
            &&& final(old_tables)@.last().entries_view() == t.entries_view()
            &&& final(old_tables)@.last().phys_addr_spec() == t.phys_addr_spec()
        },
{
    let addr = PhysAddr { value: entry.addr() as usize, host_offset };
    // level/virt_addr is wrong, but does not matter
    let pt = PageTable::read(pid, &addr, 0, 0)?;
    let ghost before = old_tables@;
    old_tables.push(pt.duplicate());
    assert(old_tables@.drop_last() =~= before);
    Ok(pt)
}

/// The table that `entry` points to: if the entry is present, the latest
/// copy of it queued for writing back, which holds what was written into it
/// before, or else the table read from the guest; a new one otherwise.
fn get_page_table(ctx: &MapCtx, entry: &mut PageTableEntry, st: &mut MapState) -> (r: Result<PageTable, Error>)
    requires
        all_wf(old(st).old@),
        all_wf(old(st).upsert@),
        old(st).pt_addr.value % 4096 == 0,
    ensures
        r matches Ok(t) ==> t.wf(),
        final(st).phys_addr == old(st).phys_addr,
        final(st).len == old(st).len,
        final(st).upsert@ == old(st).upsert@,
        final(st).leaves@ == old(st).leaves@,
        final(st).written@ == old(st).written@,
        final(st).origins@ == old(st).origins@,
        all_wf(final(st).old@),
        final(st).old@.len() >= old(st).old@.len(),
        forall|i: int| 0 <= i < old(st).old@.len() ==> final(st).old@[i] == old(st).old@[i],
        final(st).pt_addr.value % 4096 == 0,
        final(st).pt_addr.value >= old(st).pt_addr.value,
        final(st).pt_addr.host_offset == old(st).pt_addr.host_offset,
        old(entry)@ & 0x81 == 0x81 ==> r == Err::<PageTable, Error>(Error::HugePageInPageTable),
        old(entry)@ & 1 == 0 ==> (r is Ok <==> old(st).pt_addr.value + TABLE_SIZE <= table_limit()),
        r matches Ok(t) ==> points_to(final(entry)@, t),
        old(entry)@ & 1 == 0 ==> (r matches Ok(t) ==> {
            &&& final(st).pt_addr.value == old(st).pt_addr.value + TABLE_SIZE
            &&& forall|i: int| 0 <= i < ENTRY_COUNT ==> #[trigger] t.entries_view()[i] == 0
        }),
        old(entry)@ & 1 != 0 ==> final(st).pt_addr == old(st).pt_addr,
        old(entry)@ & 1 != 0 ==> final(entry)@ == old(entry)@,
        r is Ok ==> final(entry)@ & 1 != 0,
        old(entry)@ & 1 == 0 ==> (r matches Ok(t) ==> t.phys_addr_spec().value == old(st).pt_addr.value
            && final(st).old@ == old(st).old@),
        old(entry)@ & 1 != 0 ==> (r matches Ok(t) ==> read_copy(old(st).old@, final(st).old@, t) || reused_copy(
            old(st).old@,
            final(st).old@,
            old(st).upsert@,
            t,
        )),
        r matches Err(e) ==> map_error(e),
{
    // should be empty
    if entry.flags().contains(PageTableFlags::huge_page().union(PageTableFlags::present())) {
        proof {
            let v = entry@;
            lemma_flag_bits(v);
        }
        return Err(Error::HugePageInPageTable);
    }
    proof {
        let v = entry@;
        lemma_flag_bits(v);
    }
    if entry.flags().contains(PageTableFlags::present()) {
        match find_table(&st.upsert, entry.addr() as usize) {
            Some(q) => {
                let t = st.upsert[q].duplicate();
                assert(queued_copy(st.upsert@, q as int, t));
                assert(reused_copy(old(st).old@, st.old@, old(st).upsert@, t));
                Ok(t)
            },
            None => {
                let r = read_page_table(ctx.pid, entry, ctx.pt_host_offset, &mut st.old);
                proof {
                    if r is Ok {
                        let t = r.unwrap();
                        assert(st.old@.len() == old(st).old@.len() + 1);
                        assert(st.old@.last().entries_view() == t.entries_view());
                        assert(st.old@.last().phys_addr_spec() == t.phys_addr_spec());
                        assert(read_copy(old(st).old@, st.old@, t));
                    }
                }
                r
            },
        }
    } else {
        let r = allocate_page_table(entry, &mut st.pt_addr);
        proof {
            if r is Ok {
                let a = old(st).pt_addr.value;
                assert((a + 4096) % 4096 == 0) by (nonlinear_arith) requires a % 4096 == 0;
            }
        }
        r
    }
}


/// With room for `c` tables per page left, one more table fits, and after
/// it there is room for `c - 1` tables per page left.
proof fn lemma_room_step(pt0: int, c: int, w0: int, w: int, pages: int, pt: int)
    requires
        c >= 1,
        w0 <= w < pages,
        pt <= pt0 + c * 4096 * (w - w0),
        pt0 + c * 4096 * (pages - w0) <= table_limit(),
    ensures
        pt + 4096 <= table_limit(),
        pt + 4096 + (c - 1) * 4096 * (pages - w) <= pt0 + c * 4096 * (pages - w0),
{
    assert(pt + 4096 + (c - 1) * 4096 * (pages - w) <= pt0 + c * 4096 * (pages - w0)) by (nonlinear_arith)
        requires
            c >= 1,
            w0 <= w < pages,
            pt <= pt0 + c * 4096 * (w - w0),
    ;
    assert((c - 1) * 4096 * (pages - w) >= 0) by (nonlinear_arith)
        requires
            c >= 1,
            w < pages,
    ;
}

/// A table and the tables below it, placed while at least one more page was
/// written, keep within `c` tables per page written.
proof fn lemma_room_used(pt0: int, c: int, w0: int, w: int, w2: int, pt: int, pt2: int)
    requires
        c >= 1,
        w0 <= w,
        w2 >= w + 1,
        pt <= pt0 + c * 4096 * (w - w0),
        pt2 <= pt + 4096 + (c - 1) * 4096 * (w2 - w),
    ensures
        pt2 <= pt0 + c * 4096 * (w2 - w0),
{
    assert(pt2 <= pt0 + c * 4096 * (w2 - w0)) by (nonlinear_arith)
        requires
            c >= 1,
            w0 <= w,
            w2 >= w + 1,
            pt <= pt0 + c * 4096 * (w - w0),
            pt2 <= pt + 4096 + (c - 1) * 4096 * (w2 - w),
    ;
}

proof fn lemma_extends_trans(a: &MapState, b: &MapState, c: &MapState)
    requires
        b.extends(a),
        c.extends(b),
    ensures
        c.extends(a),
{
}

/// One entry `i` of a table of `level` filled: the pages written before
/// stay mapped through the table, the new ones, mapped through `child`, are
/// now mapped through it too, and all of them lie in the table's block.
proof fn lemma_level_step(
    ctx: &MapCtx,
    up1: Seq<PageTable>,
    up: Seq<PageTable>,
    eb: Seq<u64>,
    ea: Seq<u64>,
    level: u8,
    v0: int,
    w0: int,
    w: int,
    w2: int,
    bq: int,
    i: int,
    sz: int,
    child: PageTable,
    idx: int,
)
    requires
        level < 3,
        sz == span(level),
        sz == 512 * span((level + 1) as u8),
        sz > 0,
        v0 >= 0,
        bq >= 0,
        0 <= i < 512,
        0 <= w0 <= w < w2,
        (v0 + w) / sz == bq * 512 + i,
        eb.len() == 512,
        ea.len() == 512,
        forall|k: int| 0 <= k < 512 && k != i ==> ea[k] == eb[k],
        points_to(ea[i], child),
        up.len() >= up1.len(),
        forall|k: int| 0 <= k < up1.len() ==> up[k] == up1[k],
        0 <= idx < up.len(),
        up[idx].entries_view() == child.entries_view(),
        up[idx].phys_addr_spec() == child.phys_addr_spec(),
        forall|j: int| w0 <= j < w ==> #[trigger] page_mapped(up1, eb, level, v0, ctx.phys0@, ctx.ps, ctx.flags@, j),
        forall|j: int| w0 <= j < w ==> #[trigger] block_of(v0, j, 512 * sz) == bq,
        forall|j: int| w0 <= j < w ==> #[trigger] block_of(v0, j, sz) < bq * 512 + i,
        forall|j: int| w <= j < w2 ==> #[trigger] block_of(v0, j, sz) == bq * 512 + i,
        forall|j: int|
            w <= j < w2 ==> #[trigger] page_mapped(up, child.entries_view(), (level + 1) as u8, v0, ctx.phys0@, ctx.ps, ctx.flags@, j),
    ensures
        forall|j: int| w0 <= j < w2 ==> #[trigger] page_mapped(up, ea, level, v0, ctx.phys0@, ctx.ps, ctx.flags@, j),
        forall|j: int| w0 <= j < w2 ==> #[trigger] block_of(v0, j, 512 * sz) == bq,
        forall|j: int| w0 <= j < w2 ==> #[trigger] block_of(v0, j, sz) < bq * 512 + i + 1,
        (v0 + w2) % sz == 0 ==> (v0 + w2) / sz == bq * 512 + i + 1,
        forall|j: int| w0 <= j < w ==> #[trigger] vpn_index(level, v0 + j) != i,
        forall|j: int| w <= j < w2 ==> #[trigger] vpn_index(level, v0 + j) == i,
{
    assert forall|j: int| w0 <= j < w2 implies #[trigger] block_of(v0, j, 512 * sz) == bq by {
        lemma_block_split(v0 + j, sz);
        if j >= w {
            assert(block_of(v0, j, sz) == bq * 512 + i);
            lemma_block_parts(v0 + j, sz, bq, i);
        }
    }
    assert forall|j: int| w0 <= j < w2 implies #[trigger] page_mapped(up, ea, level, v0, ctx.phys0@, ctx.ps, ctx.flags@, j) by {
        let y = v0 + j;
        let leaf = leaf_entry(ctx.phys0@, ctx.ps, j, ctx.flags@);
        lemma_block_split(y, sz);
        if j < w {
            assert(block_of(v0, j, 512 * sz) == bq);
            assert(block_of(v0, j, sz) < bq * 512 + i);
            assert(vpn_index(level, y) != i);
            assert(page_mapped(up1, eb, level, v0, ctx.phys0@, ctx.ps, ctx.flags@, j));
            lemma_reaches_keeps(up1, up, eb, ea, level, y, leaf);
        } else {
            assert(block_of(v0, j, sz) == bq * 512 + i);
            lemma_block_parts(y, sz, bq, i);
            assert(vpn_index(level, y) == i);
            assert(page_mapped(up, child.entries_view(), (level + 1) as u8, v0, ctx.phys0@, ctx.ps, ctx.flags@, j));
            assert(points_to(ea[vpn_index(level, y)], up[idx]));
            assert(reaches(up, up[idx].entries_view(), (level + 1) as u8, y, leaf));
        }
    }
    assert forall|j: int| w0 <= j < w2 implies #[trigger] block_of(v0, j, sz) < bq * 512 + i + 1 by {
        if j >= w {
            assert(block_of(v0, j, sz) == bq * 512 + i);
        }
    }
    if (v0 + w2) % sz == 0 {
        assert(block_of(v0, w2 - 1, sz) == bq * 512 + i);
        lemma_next_block(v0 + w, v0 + w2, sz);
    }
    assert forall|j: int| w0 <= j < w implies #[trigger] vpn_index(level, v0 + j) != i by {
        lemma_block_split(v0 + j, sz);
        assert(block_of(v0, j, 512 * sz) == bq);
        assert(block_of(v0, j, sz) < bq * 512 + i);
    }
    assert forall|j: int| w <= j < w2 implies #[trigger] vpn_index(level, v0 + j) == i by {
        assert(block_of(v0, j, sz) == bq * 512 + i);
        lemma_block_parts(v0 + j, sz, bq, i);
    }
}

/// Fills the tables below `table` (of `level`, 0 to 2) from entry `start`
/// on, creating or reading the tables on the way, until the mapping is done
/// or `table` is used up.  Every table below `table` that was filled is
/// queued for writing back.
#[verifier::rlimit(60)]
fn map_level(ctx: &MapCtx, table: &mut PageTable, level: u8, start: usize, st: &mut MapState) -> (r: Result<(), Error>)
    requires
        ctx.wf(),
        level < 3,
        old(table).wf(),
        start < ENTRY_COUNT,
        old(st).progress(ctx),
        old(st).committed(ctx),
        old(st).len > 0,
        vpn_index(level, ctx.vpn0@ + old(st).written@) == start,
        old(st).written@ > 0 ==> (ctx.vpn0@ + old(st).written@) % span(level) == 0,
        old(st).origins_ok(ctx),
        old(st).pt_addr.value >= ctx.base@,
    ensures
        final(table).wf(),
        final(table).phys_addr_spec() == old(table).phys_addr_spec(),
        final(table).virt_addr_spec() == old(table).virt_addr_spec(),
        final(table).level_spec() == old(table).level_spec(),
        final(st).extends(old(st)),
        all_wf(final(st).old@),
        forall|k: int|
            0 <= k < ENTRY_COUNT && old(table).entries_view()[k] & 1 != 0 ==> #[trigger] final(table).entries_view()[k]
                == old(table).entries_view()[k],
        r is Ok ==> {
            &&& final(st).progress(ctx)
            &&& final(st).origins_ok(ctx)
            &&& forall|j: int| old(st).written@ <= j < final(st).written@ ==> #[trigger] path_present(
                final(table).entries_view(),
                level,
                ctx.vpn0@,
                j,
            )
            &&& final(st).committed(ctx)
            &&& final(st).written@ > old(st).written@
            &&& final(st).pt_addr.value <= old(st).pt_addr.value + (3 - level) * 4096 * (final(st).written@
                - old(st).written@)
            &&& forall|j: int| old(st).written@ <= j < final(st).written@ ==> #[trigger] page_mapped(
                final(st).upsert@,
                final(table).entries_view(),
                level,
                ctx.vpn0@,
                ctx.phys0@,
                ctx.ps,
                ctx.flags@,
                j,
            )
            &&& forall|j: int| old(st).written@ <= j < final(st).written@ ==> #[trigger] block_of(ctx.vpn0@, j, 512 * span(level))
                == block_of(ctx.vpn0@, old(st).written@ as int, 512 * span(level))
            &&& final(st).written@ == ctx.pages@ || (ctx.vpn0@ + final(st).written@) % (512 * span(level)) == 0
        },
        r matches Err(e) ==> map_error(e),
        unused_from(old(table).entries_view(), start as int) && old(st).pt_addr.value + (3 - level) * 4096 * (
        ctx.pages@ - old(st).written@) <= table_limit() ==> r is Ok && final(st).pt_addr.value == old(st).pt_addr.value
            + 4096 * new_tables(ctx.vpn0@, old(st).written@ as int, final(st).written@ as int, level),
    decreases 3 - level,
{
    let mut i: usize = start;
    let ghost st0 = *st;
    let ghost t0 = table.entries_view();
    let ghost c: int = 3 - level;
    let ghost fresh: bool = unused_from(t0, start as int) && st0.pt_addr.value + c * 4096 * (ctx.pages@
        - st0.written@) <= table_limit();
    let ghost v0: int = ctx.vpn0@;
    let ghost w0: int = st0.written@ as int;
    let ghost sz: int = span(level);
    let ghost bq: int = (v0 + w0) / (512 * sz);
    proof {
        lemma_span(level);
        lemma_block_split(v0 + w0, sz);
        lemma_new_tables_none(v0, w0, level);
    }
    loop
        invariant_except_break
            st.len > 0,
            i < ENTRY_COUNT,
        invariant
            ctx.wf(),
            level < 3,
            table.wf(),
            table.phys_addr_spec() == old(table).phys_addr_spec(),
            table.virt_addr_spec() == old(table).virt_addr_spec(),
            table.level_spec() == old(table).level_spec(),
            start <= i <= ENTRY_COUNT,
            st0 == *old(st),
            st.extends(&st0),
            st.progress(ctx),
            st.committed(ctx),
            st.written@ >= st0.written@,
            i > start ==> st.written@ > st0.written@,
            c == 3 - level,
            t0 == old(table).entries_view(),
            fresh == (unused_from(t0, start as int) && st0.pt_addr.value + c * 4096 * (ctx.pages@
                - st0.written@) <= table_limit()),
            forall|j: int| i <= j < ENTRY_COUNT ==> #[trigger] table.entries_view()[j] == t0[j],
            st.pt_addr.value <= st0.pt_addr.value + c * 4096 * (st.written@ - st0.written@),
            v0 == ctx.vpn0@,
            v0 >= 0,
            w0 == st0.written@,
            sz == span(level),
            sz == 512 * span((level + 1) as u8),
            sz > 0,
            bq == (v0 + w0) / (512 * sz),
            bq >= 0,
            (v0 + w0) / sz == bq * 512 + start,
            w0 > 0 ==> (v0 + w0) % sz == 0,
            i == start ==> st.written@ == w0,
            i > start && st.written@ < ctx.pages@ ==> (v0 + st.written@) % sz == 0 && (v0 + st.written@) / sz
                == bq * 512 + i,
            forall|j: int| w0 <= j < st.written@ ==> #[trigger] page_mapped(
                st.upsert@,
                table.entries_view(),
                level,
                v0,
                ctx.phys0@,
                ctx.ps,
                ctx.flags@,
                j,
            ),
            forall|j: int| w0 <= j < st.written@ ==> #[trigger] block_of(v0, j, 512 * sz) == bq,
            forall|j: int| w0 <= j < st.written@ ==> #[trigger] block_of(v0, j, sz) < bq * 512 + i,
            fresh ==> st.pt_addr.value == st0.pt_addr.value + 4096 * new_tables(v0, w0, st.written@ as int, level),
            forall|k: int|
                0 <= k < ENTRY_COUNT && t0[k] & 1 != 0 ==> #[trigger] table.entries_view()[k] == t0[k],
            forall|j: int| w0 <= j < st.written@ ==> #[trigger] path_present(table.entries_view(), level, v0, j),
            st.origins_ok(ctx),
            st0.pt_addr.value >= ctx.base@,
        ensures
            i > start,
            st.len == 0 || i == ENTRY_COUNT,
        decreases ENTRY_COUNT - i,
    {
        let child_start = get_start_idx(ctx.virt_start, st.len == ctx.total, level + 1);
        let mut e = table.entries[i];
        let ghost st1 = *st;
        proof {
            lemma_next_page(ctx, st.written@, st.len);
            assert(e@ == table.entries_view()[i as int]);
            if fresh {
                assert(t0[i as int] & 1 == 0);
                lemma_room_step(st0.pt_addr.value as int, c, st0.written@ as int, st.written@ as int, ctx.pages@ as int, st.pt_addr.value as int);
            }
        }
        let ghost e_old = e@;
        let ghost w: int = st1.written@ as int;
        let ghost x: int = v0 + w;
        proof {
            if i == start {
                assert(w == w0);
            }
            assert(x / sz == bq * 512 + i);
            assert((st.len == ctx.total) == (w == 0)) by (nonlinear_arith)
                requires
                    st.len == (ctx.pages@ - w) * ctx.ps,
                    ctx.total == ctx.pages@ * ctx.ps,
                    ctx.ps >= 4096,
                    w < ctx.pages@,
                    w >= 0;
            if w == 0 {
                lemma_index_of_vpn(ctx.virt_start, (level + 1) as u8);
                assert(vpn_index((level + 1) as u8, x) == child_start);
            } else {
                assert(x % sz == 0);
                lemma_aligned_below(x, span((level + 1) as u8));
                assert(vpn_index((level + 1) as u8, x) == child_start);
            }
        }
        let mut child = match get_page_table(ctx, &mut e, st) {
            Ok(t) => t,
            Err(err) => {
                proof { lemma_extends_trans(&st0, &st1, st); }
                return Err(err);
            },
        };
        let ghost child0 = child;
        let ghost entries_before = table.entries_view();
        table.entries.set(i, e);
        assert(table.entries_view() =~= entries_before.update(i as int, e@));
        proof {
            assert(entries_before[i as int] == t0[i as int]);
            assert forall|k: int|
                0 <= k < ENTRY_COUNT && t0[k] & 1 != 0 implies #[trigger] table.entries_view()[k] == t0[k] by {
                if k == i {
                    assert(e_old == t0[k]);
                }
            }
        }
        let ghost st2 = *st;
        assert(st2.extends(&st1));
        let ghost child_origin: int = if e_old & 1 == 0 {
            -1
        } else if st2.old@.len() == st1.old@.len() + 1 {
            st2.old@.len() - 1
        } else {
            -3 - (choose|q: int| queued_copy(st1.upsert@, q, child))
        };
        proof {
            lemma_leaves_free_keeps(st1.upsert@, st1.old@, st1.origins@, st2.upsert@, st2.old@, st2.origins@, st2.leaves@, ctx.base@);
        }
        proof {
            assert(st2.pt_addr.value <= st1.pt_addr.value + 4096);
            lemma_flag_bits(0);
            if fresh {
                assert(st2.pt_addr.value == st1.pt_addr.value + 4096);
                assert(forall|j: int| 0 <= j < ENTRY_COUNT ==> #[trigger] child.entries_view()[j] == 0);
                assert(unused_from(child.entries_view(), child_start as int));
            }
        }
        if level + 1 == 3 {
            let k = match map_leaves(ctx, &mut child, child_start, st) {
                Ok(k) => k,
                Err(err) => {
                    proof { lemma_extends_trans(&st0, &st1, st); }
                    return Err(err);
                },
            };
            let idx = st.upsert.len();
            let ghost leaves_before = st.leaves@;
            let ghost upsert_before = st.upsert@;
            let ghost origins_before = st.origins@;
            st.upsert.push(child.duplicate());
            st.leaves = Ghost(leaves_before + Seq::new(k as nat, |t: int| (idx as int, child_start + t)));
            st.origins = Ghost(origins_before.push(child_origin));
            proof {
                lemma_leaves_free_keeps(st2.upsert@, st2.old@, st2.origins@, st.upsert@, st.old@, st.origins@, leaves_before, ctx.base@);
                assert forall|j: int| 0 <= j < st.leaves@.len() implies {
                    let ti = (#[trigger] st.leaves@[j]).0;
                    let oi = st.origins@[ti];
                    &&& 0 <= ti < st.origins@.len()
                    &&& ti < st.upsert@.len()
                    &&& oi != -2
                    &&& oi >= 0 ==> oi < st.old@.len() && st.old@[oi].phys_addr_spec() == st.upsert@[ti].phys_addr_spec()
                        && st.old@[oi].entries_view()[st.leaves@[j].1] & 1 == 0
                    &&& oi == -1 ==> st.upsert@[ti].phys_addr_spec().value >= ctx.base@
                    &&& oi <= -3 ==> -3 - oi < ti && st.upsert@[-3 - oi].phys_addr_spec() == st.upsert@[ti].phys_addr_spec()
                        && st.upsert@[-3 - oi].entries_view()[st.leaves@[j].1] & 1 == 0
                } by {
                    if j < leaves_before.len() {
                        assert(st.leaves@[j] == leaves_before[j]);
                    } else {
                        let t = j - leaves_before.len();
                        assert(st.leaves@[j] == (idx as int, child_start + t));
                        assert(st.origins@[idx as int] == child_origin);
                        assert(0 <= t < k);
                        assert(child0.entries_view()[child_start + t] & 1 == 0);
                        assert(st.upsert@[idx as int].phys_addr_spec() == child0.phys_addr_spec());
                        if child_origin >= 0 {
                            assert(st.old@[child_origin] == st2.old@.last());
                        } else if child_origin == -1 {
                            assert(st1.pt_addr.value >= st0.pt_addr.value);
                        } else {
                            let q = -3 - child_origin;
                            assert(queued_copy(st1.upsert@, q, child0));
                            assert(st.upsert@[q] == st1.upsert@[q]);
                        }
                    }
                }
            }
            proof {
                assert forall|j: int| 0 <= j < st.leaves@.len() implies {
                    &&& 0 <= (#[trigger] st.leaves@[j]).0 < st.upsert@.len()
                    &&& 0 <= st.leaves@[j].1 < ENTRY_COUNT
                    &&& st.upsert@[st.leaves@[j].0].entries_view()[st.leaves@[j].1]
                        == leaf_entry(ctx.phys0@, ctx.ps, j, ctx.flags@)
                } by {
                    if j < leaves_before.len() {
                        assert(st.leaves@[j] == leaves_before[j]);
                        assert(st.upsert@[leaves_before[j].0] == upsert_before[leaves_before[j].0]);
                    } else {
                        let t = j - leaves_before.len();
                        assert(st.leaves@[j] == (idx as int, child_start + t));
                        assert(child.entries_view()[child_start + t]
                            == leaf_entry(ctx.phys0@, ctx.ps, st2.written@ + t, ctx.flags@));
                    }
                }
                assert(st.extends(&st2));
                lemma_extends_trans(&st0, &st1, &st2);
                lemma_extends_trans(&st0, &st2, st);
                lemma_room_used(st0.pt_addr.value as int, c, st0.written@ as int, st1.written@ as int,
                    st.written@ as int, st1.pt_addr.value as int, st.pt_addr.value as int);
                assert(x / 1 == x);
                lemma_leaf_positions(x, child_start as int, k as int);
                assert(sz == 512);
                assert(span(3) == 1);
                assert forall|j: int| w <= j < st.written@ implies #[trigger] page_mapped(
                    st.upsert@,
                    child.entries_view(),
                    (level + 1) as u8,
                    v0,
                    ctx.phys0@,
                    ctx.ps,
                    ctx.flags@,
                    j,
                ) by {
                    let t = j - w;
                    assert((x + t) % 512 == child_start + t && (x + t) / 512 == x / 512);
                    assert((v0 + j) / 1 == v0 + j);
                    assert(vpn_index(3, v0 + j) == child_start + t);
                    assert(child.entries_view()[child_start + t] == leaf_entry(ctx.phys0@, ctx.ps, st2.written@ + t, ctx.flags@));
                }
                assert forall|j: int| w <= j < st.written@ implies #[trigger] block_of(v0, j, sz) == x / sz by {
                    let t = j - w;
                    assert((x + t) / 512 == x / 512);
                }
                lemma_level_step(
                    ctx, st1.upsert@, st.upsert@, entries_before, table.entries_view(), level, v0, w0, w,
                    st.written@ as int, bq, i as int, sz, child, idx as int,
                );
                assert forall|j: int| w0 <= j < st.written@ implies #[trigger] path_present(
                    table.entries_view(),
                    level,
                    v0,
                    j,
                ) by {
                    if j < w {
                        assert(path_present(entries_before, level, v0, j));
                        assert(vpn_index(level, v0 + j) != i);
                    } else {
                        assert(vpn_index(level, v0 + j) == i);
                    }
                }
                if fresh {
                    assert(block_of(v0, st.written@ - 1, sz) == x / sz);
                    lemma_new_tables_step(v0, w0, w, st.written@ as int, level);
                    assert(new_tables(v0, w, st.written@ as int, 3) == 0);
                }
            }
        } else {
            match map_level(ctx, &mut child, level + 1, child_start, st) {
                Ok(()) => {},
                Err(err) => {
                    proof {
                        lemma_extends_trans(&st0, &st1, &st2);
                        lemma_extends_trans(&st0, &st2, st);
                    }
                    return Err(err);
                },
            }
            let ghost st3 = *st;
            let ghost upsert_before = st.upsert@;
            let idx = st.upsert.len();
            st.upsert.push(child.duplicate());
            st.origins = Ghost(st3.origins@.push(child_origin));
            proof {
                lemma_leaves_free_keeps(st3.upsert@, st3.old@, st3.origins@, st.upsert@, st.old@, st.origins@, st.leaves@, ctx.base@);
            }
            proof {
                assert forall|j: int| 0 <= j < st.leaves@.len() implies {
                    &&& 0 <= (#[trigger] st.leaves@[j]).0 < st.upsert@.len()
                    &&& 0 <= st.leaves@[j].1 < ENTRY_COUNT
                    &&& st.upsert@[st.leaves@[j].0].entries_view()[st.leaves@[j].1]
                        == leaf_entry(ctx.phys0@, ctx.ps, j, ctx.flags@)
                } by {
                    assert(st.upsert@[st.leaves@[j].0] == upsert_before[st.leaves@[j].0]);
                }
                assert(st.extends(&st3));
                lemma_extends_trans(&st0, &st1, &st2);
                lemma_extends_trans(&st0, &st2, &st3);
                lemma_extends_trans(&st0, &st3, st);
                lemma_room_used(st0.pt_addr.value as int, c, st0.written@ as int, st1.written@ as int,
                    st.written@ as int, st1.pt_addr.value as int, st.pt_addr.value as int);
                assert forall|j: int| w <= j < st.written@ implies #[trigger] page_mapped(
                    st.upsert@,
                    child.entries_view(),
                    (level + 1) as u8,
                    v0,
                    ctx.phys0@,
                    ctx.ps,
                    ctx.flags@,
                    j,
                ) by {
                    assert(page_mapped(st3.upsert@, child.entries_view(), (level + 1) as u8, v0, ctx.phys0@, ctx.ps, ctx.flags@, j));
                    lemma_reaches_keeps(st3.upsert@, st.upsert@, child.entries_view(), child.entries_view(), (level + 1) as u8, v0 + j, leaf_entry(ctx.phys0@, ctx.ps, j, ctx.flags@));
                }
                assert forall|j: int| w <= j < st.written@ implies #[trigger] block_of(v0, j, sz) == x / sz by {
                    assert(block_of(v0, j, 512 * span((level + 1) as u8)) == block_of(v0, w, 512 * span((level + 1) as u8)));
                }
                lemma_level_step(
                    ctx, st1.upsert@, st.upsert@, entries_before, table.entries_view(), level, v0, w0, w,
                    st.written@ as int, bq, i as int, sz, child, idx as int,
                );
                assert forall|j: int| w0 <= j < st.written@ implies #[trigger] path_present(
                    table.entries_view(),
                    level,
                    v0,
                    j,
                ) by {
                    if j < w {
                        assert(path_present(entries_before, level, v0, j));
                        assert(vpn_index(level, v0 + j) != i);
                    } else {
                        assert(vpn_index(level, v0 + j) == i);
                    }
                }
                if fresh {
                    assert(block_of(v0, st.written@ - 1, sz) == x / sz);
                    lemma_new_tables_step(v0, w0, w, st.written@ as int, level);
                }
            }
        }
        i += 1;
        if st.len == 0 {
            break;
        }
        if i == ENTRY_COUNT {
            break;
        }
    }
    proof {
        crate::page_math::lemma_pow2_positive(ctx.ps);
        if st.len == 0 {
            let rest = ctx.pages@ - st.written@;
            assert(rest == 0) by (nonlinear_arith)
                requires st.len == rest * ctx.ps, ctx.ps >= 1, rest >= 0, st.len == 0;
        }
        if st.written@ < ctx.pages@ {
            let y = v0 + st.written@;
            assert(i == ENTRY_COUNT);
            vstd::arithmetic::div_mod::lemma_fundamental_div_mod(y, sz);
            assert(y == (bq + 1) * (512 * sz)) by (nonlinear_arith)
                requires y == sz * (y / sz) + y % sz, y % sz == 0, y / sz == bq * 512 + 512;
            vstd::arithmetic::div_mod::lemma_mod_multiples_basic(bq + 1, 512 * sz);
        }
    }
    Ok(())
}


/// A mapping that can be written into a page table with pages of `ps`
/// bytes: not empty, page aligned, and below the end of the address space.
pub open spec fn mapping_valid(m: MappedMemory, ps: usize) -> bool {
    &&& m.len > 0
    &&& m.len % ps == 0
    &&& m.virt_start % ps == 0
    &&& m.phys_start.value % ps == 0
    &&& m.phys_start.value + m.len <= usize::MAX
}

/// A list of mappings that `map_memory` accepts: at least one, each valid,
/// and each starting in physical memory where the one before it ends.
pub open spec fn mappings_valid(ms: Seq<MappedMemory>, ps: usize) -> bool {
    &&& ms.len() > 0
    &&& forall|i: int| 0 <= i < ms.len() ==> mapping_valid(#[trigger] ms[i], ps)
    &&& forall|i: int|
        0 < i < ms.len() ==> {
            &&& (#[trigger] ms[i]).phys_start.value == ms[i - 1].phys_start.value + ms[i - 1].len
            &&& ms[i].phys_start.host_offset == ms[i - 1].phys_start.host_offset
        }
}

/// A page size that page tables can be built with: a power of two of at
/// least 4 KiB.
pub open spec fn page_size_usable(ps: usize) -> bool {
    is_pow2(ps) && ps % 4096 == 0
}

/// The pages of `m` that were written: `log[j]` locates the leaf entry of
/// page `j` in `tables`; at least one page, and no more than `m` has.
#[verifier::opaque]
pub open spec fn mapping_written(tables: Seq<PageTable>, log: Seq<(int, int)>, m: MappedMemory, ps: usize) -> bool {
    &&& 1 <= log.len()
    &&& log.len() * ps <= m.len
    &&& leaves_written(tables, log, m.phys_start.value, ps, leaf_flags_spec(m.prot))
}

/// Every page of `m` is mapped where it belongs: when its pages do not run
/// past the 2^36 pages that four levels of tables map, following the page
/// `j` pages after the first one from the top level table `top` through
/// `tables` reaches the entry that maps it to page `j` of its physical
/// memory, with the flags of its protection.
pub open spec fn mapping_placed(tables: Seq<PageTable>, top: Seq<u64>, m: MappedMemory, ps: usize) -> bool {
    vpn_of(m.virt_start) + m.len / ps <= 0x10_0000_0000 ==> forall|j: int|
        0 <= j < m.len / ps ==> #[trigger] page_mapped(
            tables,
            top,
            0,
            vpn_of(m.virt_start),
            m.phys_start.value,
            ps,
            leaf_flags_spec(m.prot),
            j,
        )
}

/// The entries of the top level table `top` on the way to the pages of `m`
/// are present, when its pages do not run past the 2^36 pages that four
/// levels of tables map.
pub open spec fn mapping_present(top: Seq<u64>, m: MappedMemory, ps: usize) -> bool {
    vpn_of(m.virt_start) + m.len / ps <= 0x10_0000_0000 ==> forall|j: int|
        0 <= j < m.len / ps ==> #[trigger] path_present(top, 0, vpn_of(m.virt_start), j)
}

/// A mapping placed through present entries of the top level table stays
/// placed when tables are added to the end of `tables` and only entries of
/// `top` that were not present change.
proof fn lemma_placed_keeps(
    t: Seq<PageTable>,
    t2: Seq<PageTable>,
    top: Seq<u64>,
    top2: Seq<u64>,
    m: MappedMemory,
    ps: usize,
)
    requires
        ps > 0,
        top.len() == ENTRY_COUNT,
        mapping_placed(t, top, m, ps),
        mapping_present(top, m, ps),
        t2.len() >= t.len(),
        forall|k: int| 0 <= k < t.len() ==> t2[k] == t[k],
        forall|k: int| 0 <= k < ENTRY_COUNT && top[k] & 1 != 0 ==> #[trigger] top2[k] == top[k],
    ensures
        mapping_placed(t2, top2, m, ps),
        mapping_present(top2, m, ps),
{
    let v0 = vpn_of(m.virt_start);
    let flags = leaf_flags_spec(m.prot);
    if v0 + m.len / ps <= 0x10_0000_0000 {
        assert forall|j: int| 0 <= j < m.len / ps implies #[trigger] page_mapped(
            t2,
            top2,
            0,
            v0,
            m.phys_start.value,
            ps,
            flags,
            j,
        ) by {
            assert(path_present(top, 0, v0, j));
            assert(page_mapped(t, top, 0, v0, m.phys_start.value, ps, flags, j));
            let k = vpn_index(0, v0 + j);
            assert(0 <= v0);
            assert(0 <= k < ENTRY_COUNT);
            assert(top2[k] == top[k]);
            lemma_reaches_keeps(t, t2, top, top2, 0, v0 + j, leaf_entry(m.phys_start.value, ps, j, flags));
        }
        assert forall|j: int| 0 <= j < m.len / ps implies #[trigger] path_present(top2, 0, v0, j) by {
            assert(path_present(top, 0, v0, j));
            assert(0 <= v0);
            assert(top2[vpn_index(0, v0 + j)] == top[vpn_index(0, v0 + j)]);
        }
    }
}

/// After mapping `ms[i]`, the mappings before it are still placed, and so
/// is `ms[i]`.
proof fn lemma_placed_step(
    t: Seq<PageTable>,
    t2: Seq<PageTable>,
    top: Seq<u64>,
    top2: Seq<u64>,
    ms: Seq<MappedMemory>,
    i: int,
    ps: usize,
)
    requires
        ps > 0,
        0 <= i < ms.len(),
        top.len() == ENTRY_COUNT,
        forall|mi: int|
            0 <= mi < i ==> mapping_placed(t, top, #[trigger] ms[mi], ps) && mapping_present(top, ms[mi], ps),
        mapping_placed(t2, top2, ms[i], ps),
        mapping_present(top2, ms[i], ps),
        t2.len() >= t.len(),
        forall|k: int| 0 <= k < t.len() ==> t2[k] == t[k],
        forall|k: int| 0 <= k < ENTRY_COUNT && top[k] & 1 != 0 ==> #[trigger] top2[k] == top[k],
    ensures
        forall|mi: int|
            0 <= mi < i + 1 ==> mapping_placed(t2, top2, #[trigger] ms[mi], ps) && mapping_present(top2, ms[mi], ps),
{
    assert forall|mi: int| 0 <= mi < i + 1 implies mapping_placed(t2, top2, #[trigger] ms[mi], ps)
        && mapping_present(top2, ms[mi], ps) by {
        if mi < i {
            lemma_placed_keeps(t, t2, top, top2, ms[mi], ps);
        }
    }
}

/// Writes mapping `m` into the page tables under `pml4`: every table that
/// was changed is queued in `upsert_tables`, every table that was read from
/// the guest is kept in `old_tables`, and new tables are placed at
/// `pt_addr`, which moves past them.  Returns where the leaf entry of each
/// page went.  On success every page is mapped at its virtual address, and
/// each leaf entry written was free before: in the table as read from the
/// guest, or in a new table; a page that is already mapped ends in
/// `PageAlreadyMapped`.
#[verifier::spinoff_prover]
fn map_memory_single(
    pid: i32,
    ps: usize,
    pml4: &mut PageTable,
    m: &MappedMemory,
    upsert_tables: &mut Vec<PageTable>,
    old_tables: &mut Vec<PageTable>,
    pt_addr: &mut PhysAddr,
) -> (r: Result<Ghost<Seq<(int, int)>>, Error>)
    requires
        page_size_usable(ps),
        mapping_valid(*m, ps),
        old(pml4).wf(),
        all_wf(old(upsert_tables)@),
        all_wf(old(old_tables)@),
        old(pt_addr).value % 4096 == 0,
    ensures
        final(pml4).wf(),
        final(pml4).phys_addr_spec() == old(pml4).phys_addr_spec(),
        final(pml4).level_spec() == old(pml4).level_spec(),
        all_wf(final(old_tables)@),
        final(old_tables)@.len() >= old(old_tables)@.len(),
        forall|i: int| 0 <= i < old(old_tables)@.len() ==> final(old_tables)@[i] == old(old_tables)@[i],
        forall|k: int|
            0 <= k < ENTRY_COUNT && old(pml4).entries_view()[k] & 1 != 0 ==> #[trigger] final(pml4).entries_view()[k]
                == old(pml4).entries_view()[k],
        r matches Ok(log) ==> {
            &&& all_wf(final(upsert_tables)@)
            &&& mapping_present(final(pml4).entries_view(), *m, ps)
            &&& final(upsert_tables)@.len() > old(upsert_tables)@.len()
            &&& forall|i: int| 0 <= i < old(upsert_tables)@.len()
                ==> final(upsert_tables)@[i] == old(upsert_tables)@[i]
            &&& final(upsert_tables)@.last().entries_view() == final(pml4).entries_view()
            &&& final(upsert_tables)@.last().phys_addr_spec() == final(pml4).phys_addr_spec()
            &&& mapping_written(final(upsert_tables)@, log@, *m, ps)
            &&& mapping_placed(final(upsert_tables)@, final(pml4).entries_view(), *m, ps)
            &&& exists|origins: Seq<int>|
                leaves_were_free(final(upsert_tables)@, final(old_tables)@, log@, origins, old(pt_addr).value)
            &&& final(pt_addr).value % 4096 == 0
            &&& final(pt_addr).value >= old(pt_addr).value
            &&& final(pt_addr).value <= old(pt_addr).value + 3 * 4096 * (m.len / ps)
            &&& final(pt_addr).host_offset == old(pt_addr).host_offset
        },
        r matches Err(e) ==> map_error(e),
        unused_from(old(pml4).entries_view(), index_spec(m.virt_start as u64, 0) as int)
            && old(pt_addr).value + 3 * 4096 * (m.len / ps) <= table_limit() ==> r is Ok && (vpn_of(m.virt_start)
            + m.len / ps <= 0x10_0000_0000 ==> final(pt_addr).value == old(pt_addr).value + 4096 * new_tables(
            vpn_of(m.virt_start),
            0,
            (m.len / ps) as int,
            0,
        )),
        unused_from(old(pml4).entries_view(), index_spec(m.virt_start as u64, 0) as int)
            && old(pt_addr).value + 3 * 4096 * (m.len / ps) <= table_limit() && vpn_of(m.virt_start) + m.len / ps
            <= 0x10_0000_0000 && vpn_of(m.virt_start) % 0x4_0000 == 0 && m.len + ps - 1 <= usize::MAX
            ==> final(pt_addr).value - old(pt_addr).value <= page_table_size_spec(ps, m.len),
{
    let ghost pages: nat = (m.len / ps) as nat;
    proof {
        crate::page_math::lemma_pow2_positive(ps);
        assert(m.len == pages * ps) by (nonlinear_arith)
            requires m.len % ps == 0, ps > 0, pages == m.len / ps;
        crate::page_math::lemma_mod_mod(m.phys_start.value as int, ps as int, 4096);
    }
    let ctx = MapCtx {
        pid,
        pt_host_offset: pml4.phys_addr.host_offset,
        ps,
        virt_start: m.virt_start,
        flags: page_table_flags(m.prot),
        phys0: Ghost(m.phys_start.value),
        pages: Ghost(pages),
        total: m.len,
        vpn0: Ghost(vpn_of(m.virt_start)),
        base: Ghost(pt_addr.value),
    };
    let mut upsert = Vec::new();
    let mut old = Vec::new();
    std::mem::swap(&mut upsert, upsert_tables);
    std::mem::swap(&mut old, old_tables);
    let n_queued = upsert.len();
    let mut st = MapState {
        phys_addr: m.phys_start,
        len: m.len,
        pt_addr: *pt_addr,
        upsert,
        old,
        leaves: Ghost(Seq::empty()),
        written: Ghost(0),
        origins: Ghost(Seq::new(n_queued as nat, |k: int| -2int)),
    };
    let ghost st0 = st;
    proof {
        assert(st.phys_addr.value == ctx.phys0@ + 0 * ctx.ps);
        assert(st.len == (ctx.pages@ - 0) * ctx.ps);
    }
    let start0 = get_index(m.virt_start as u64, 0) as usize;
    proof {
        lemma_index_of_vpn(m.virt_start, 0);
    }
    let res = map_level(&ctx, pml4, 0, start0, &mut st);
    std::mem::swap(&mut st.old, old_tables);
    match res {
        Ok(()) => {
            let ghost before = st.upsert@;
            let ghost top = pml4.entries_view();
            let ghost st_done = st;
            st.upsert.push(pml4.duplicate());
            st.origins = Ghost(st.origins@.push(-2));
            assert(leaves_were_free(st.upsert@, old_tables@, st.leaves@, st.origins@, ctx.base@)) by {
                lemma_leaves_free_keeps(st_done.upsert@, old_tables@, st_done.origins@, st.upsert@, old_tables@, st.origins@, st.leaves@, ctx.base@);
            }
            proof {
                let v0 = vpn_of(m.virt_start);
                let flags = leaf_flags_spec(m.prot);
                assert(ctx.flags@ == flags);
                assert forall|j: int| 0 <= j < st.written@ implies #[trigger] page_mapped(
                    st.upsert@, top, 0, v0, m.phys_start.value, ps, flags, j) by {
                    assert(page_mapped(before, top, 0, v0, m.phys_start.value, ps, flags, j));
                    lemma_reaches_keeps(before, st.upsert@, top, top, 0, v0 + j, leaf_entry(m.phys_start.value, ps, j, flags));
                }
                if v0 + pages <= 0x10_0000_0000 {
                    lemma_span(0);
                    if st.written@ < pages {
                        let y = v0 + st.written@;
                        assert(y % 0x10_0000_0000 == 0);
                        vstd::arithmetic::div_mod::lemma_fundamental_div_mod(y, 0x10_0000_0000);
                        assert(false);
                    }
                    assert forall|j: int| 0 <= j < pages implies #[trigger] path_present(top, 0, v0, j) by {
                        assert(path_present(top, 0, ctx.vpn0@, j));
                    }
                }
            }
            std::mem::swap(&mut st.upsert, upsert_tables);
            *pt_addr = st.pt_addr;
            proof {
                if vpn_of(m.virt_start) % 0x4_0000 == 0 && m.len + ps - 1 <= usize::MAX && pages >= 1 {
                    lemma_estimate_covers_new_tables(vpn_of(m.virt_start), pages as int, ps, m.len);
                }
                assert forall|j: int| 0 <= j < st.leaves@.len() implies {
                    &&& 0 <= (#[trigger] st.leaves@[j]).0 < upsert_tables@.len()
                    &&& 0 <= st.leaves@[j].1 < ENTRY_COUNT
                    &&& upsert_tables@[st.leaves@[j].0].entries_view()[st.leaves@[j].1]
                        == leaf_entry(ctx.phys0@, ctx.ps, j, ctx.flags@)
                } by {
                    assert(upsert_tables@[st.leaves@[j].0] == before[st.leaves@[j].0]);
                }
                let n = st.leaves@.len() as int;
                assert(n * ps <= m.len) by (nonlinear_arith)
                    requires n <= pages, m.len == pages * ps, ps >= 0;
                let w = st.written@ as int;
                assert(3 * 4096 * w <= 3 * 4096 * (pages as int)) by (nonlinear_arith)
                    requires w <= pages;
                reveal(mapping_written);
                assert(leaves_were_free(upsert_tables@, old_tables@, st.leaves@, st.origins@, ctx.base@));
            }
            Ok(st.leaves)
        },
        Err(e) => {
            std::mem::swap(&mut st.upsert, upsert_tables);
            Err(e)
        },
    }
}


/// The bytes of `tables`, one table after another.
pub open spec fn tables_bytes_spec(tables: Seq<PageTable>) -> Seq<u8>
    decreases tables.len(),
{
    if tables.len() == 0 {
        Seq::empty()
    } else {
        tables_bytes_spec(tables.drop_last()) + encode_entries_spec(tables.last().entries_view())
    }
}

/// Every table of `tables` lies at a host address of the hypervisor.
pub open spec fn tables_in_host(tables: Seq<PageTable>) -> bool {
    forall|i: int| 0 <= i < tables.len() ==> 0 <= #[trigger] tables[i].phys_addr_spec().host_addr_spec() <= usize::MAX
}

/// Where each of `tables` goes in the memory of the hypervisor: one page of
/// `ps` bytes at its host address.
pub open spec fn tables_targets_spec(tables: Seq<PageTable>, ps: usize) -> Seq<(usize, usize)> {
    Seq::new(tables.len(), |i: int| (tables[i].phys_addr_spec().host_addr_spec() as usize, ps))
}

/// What writing `tables` back hands to the write into the hypervisor's
/// memory: their bytes, one table after another, and for each table one
/// page of `ps` bytes at its host address.  `None` if a table lies outside
/// the host's address space.
pub fn table_write_plan(tables: &Vec<PageTable>, ps: usize) -> (r: Option<(Vec<u8>, Vec<(usize, usize)>)>)
    requires
        all_wf(tables@),
    ensures
        r is Some <==> tables_in_host(tables@),
        r matches Some((data, targets)) ==> data@ == tables_bytes_spec(tables@) && targets@ == tables_targets_spec(
            tables@,
            ps,
        ),
{
    let mut data: Vec<u8> = Vec::new();
    let mut remote: Vec<(usize, usize)> = Vec::new();
    let mut i: usize = 0;
    while i < tables.len()
        invariant
            all_wf(tables@),
            i <= tables@.len(),
            remote@ == tables_targets_spec(tables@.take(i as int), ps),
            data@ == tables_bytes_spec(tables@.take(i as int)),
            forall|j: int| 0 <= j < i ==> 0 <= #[trigger] tables@[j].phys_addr_spec().host_addr_spec() <= usize::MAX,
        decreases tables@.len() - i,
    {
        let table = &tables[i];
        let host: i128 = table.phys_addr.value as i128 + table.phys_addr.host_offset as i128;
        if host < 0 || host > usize::MAX as i128 {
            assert(!(0 <= tables@[i as int].phys_addr_spec().host_addr_spec() <= usize::MAX));
            return None;
        }
        proof {
            assert(tables@.take(i + 1).drop_last() =~= tables@.take(i as int));
        }
        encode_table(table, &mut data);
        remote.push((table.phys_addr.host_addr(), ps));
        assert(remote@ =~= tables_targets_spec(tables@.take(i + 1), ps));
        i += 1;
    }
    assert(tables@.take(tables@.len() as int) =~= tables@);
    Some((data, remote))
}

/// Writes `tables` back to where they lie in the memory of process `pid`,
/// one page of `ps` bytes each: the write gets what `table_write_plan`
/// gives.  Fails with `InvalidAddress` exactly when a table lies outside the
/// host's address space, with `ShortWrite` if the pages do not fit in the
/// address space or fewer bytes than all pages were written, and with
/// `RemoteWrite` if the write fails.
fn commit_page_tables(pid: i32, tables: &Vec<PageTable>, ps: usize) -> (r: Result<(), Error>)
    requires
        all_wf(tables@),
        ps >= 1,
    ensures
        !tables_in_host(tables@) <==> r == Err::<(), Error>(Error::InvalidAddress),
        tables_in_host(tables@) && tables@.len() * ps > usize::MAX ==> r == Err::<(), Error>(Error::ShortWrite),
        r is Err ==> r == Err::<(), Error>(Error::InvalidAddress) || r == Err::<(), Error>(Error::RemoteWrite)
            || r == Err::<(), Error>(Error::ShortWrite),
{
    let (data, remote) = match table_write_plan(tables, ps) {
        Some(plan) => plan,
        None => return Err(Error::InvalidAddress),
    };
    let expected = match remote.len().checked_mul(ps) {
        Some(v) => v,
        None => return Err(Error::ShortWrite),
    };
    let written = match process_write_bytes(pid, data.as_slice(), remote.as_slice()) {
        Ok(n) => n,
        Err(_) => return Err(Error::RemoteWrite),
    };
    check_written(written, expected)
}

/// Whether a write that was to write `expected` bytes and wrote `written`
/// is complete: anything else is a short write.
pub fn check_written(written: usize, expected: usize) -> (r: Result<(), Error>)
    ensures
        r == (if written == expected { Ok::<(), Error>(()) } else { Err::<(), Error>(Error::ShortWrite) }),
{
    if written != expected {
        return Err(Error::ShortWrite);
    }
    Ok(())
}

/// Checks whether `n` is a power of two.
pub fn is_power_of_two(n: usize) -> (r: bool)
    ensures
        r == is_pow2(n),
{
    let mut k: u32 = 0;
    while k < usize::BITS
        invariant
            k <= usize::BITS,
            forall|j: nat| j < k ==> n != #[trigger] vstd::arithmetic::power2::pow2(j),
        decreases usize::BITS - k,
    {
        proof {
            vstd::bits::lemma_usize_pow2_no_overflow(k as nat);
            vstd::bits::lemma_usize_shl_is_mul(1, k as usize);
        }
        if n == 1usize << k {
            return true;
        }
        k += 1;
    }
    false
}

/// Checks `mappings_valid` for a page size `ps` that is a power of two.
fn check_mappings(mappings: &[MappedMemory], ps: usize) -> (r: bool)
    requires
        is_pow2(ps),
    ensures
        r == mappings_valid(mappings@, ps),
{
    proof { crate::page_math::lemma_pow2_positive(ps); }
    if mappings.len() == 0 {
        return false;
    }
    let mut i: usize = 0;
    while i < mappings.len()
        invariant
            ps >= 1,
            mappings@.len() > 0,
            i <= mappings@.len(),
            forall|j: int| 0 <= j < i ==> mapping_valid(#[trigger] mappings@[j], ps),
            forall|j: int|
                0 < j < i ==> {
                    &&& (#[trigger] mappings@[j]).phys_start.value == mappings@[j - 1].phys_start.value + mappings@[j - 1].len
                    &&& mappings@[j].phys_start.host_offset == mappings@[j - 1].phys_start.host_offset
                },
        decreases mappings@.len() - i,
    {
        let m = &mappings[i];
        if m.len == 0 || m.len % ps != 0 || m.virt_start % ps != 0 || m.phys_start.value % ps != 0
            || m.phys_start.value > usize::MAX - m.len {
            assert(!mapping_valid(mappings@[i as int], ps));
            return false;
        }
        if i > 0 {
            let p = &mappings[i - 1];
            if m.phys_start.value != p.phys_start.value + p.len
                || m.phys_start.host_offset != p.phys_start.host_offset {
                assert(!(mappings@[i as int].phys_start.value == mappings@[i - 1].phys_start.value
                    + mappings@[i - 1].len && mappings@[i as int].phys_start.host_offset
                    == mappings@[i - 1].phys_start.host_offset));
                return false;
            }
        }
        i += 1;
    }
    true
}

/// The pages of each of the first `n` mappings of `ms` were written into `tables`.
#[verifier::opaque]
pub open spec fn mappings_written(tables: Seq<PageTable>, ms: Seq<MappedMemory>, n: int, ps: usize) -> bool {
    forall|mi: int| 0 <= mi < n ==> #[trigger] mapping_written_somewhere(tables, ms[mi], ps)
}

/// The pages of `m` were written into `tables`, at some entries.
pub open spec fn mapping_written_somewhere(tables: Seq<PageTable>, m: MappedMemory, ps: usize) -> bool {
    exists|log: Seq<(int, int)>| mapping_written(tables, log, m, ps)
}

proof fn lemma_mappings_written_step(
    before: Seq<PageTable>,
    after: Seq<PageTable>,
    ms: Seq<MappedMemory>,
    i: int,
    ps: usize,
    log: Seq<(int, int)>,
)
    requires
        0 <= i < ms.len(),
        after.len() >= before.len(),
        forall|k: int| 0 <= k < before.len() ==> after[k] == before[k],
        mappings_written(before, ms, i, ps),
        mapping_written(after, log, ms[i], ps),
    ensures
        mappings_written(after, ms, i + 1, ps),
{
    reveal(mappings_written);
    assert forall|mi: int| 0 <= mi < i + 1 implies #[trigger] mapping_written_somewhere(after, ms[mi], ps)
    by {
        if mi < i {
            lemma_written_grows(before, after, ms[mi], ps);
        } else {
            assert(mapping_written(after, log, ms[mi], ps));
        }
    }
}

/// Where the physical memory of the last of `ms` ends: new page tables go
/// from there on.
pub open spec fn mappings_end(ms: Seq<MappedMemory>) -> int {
    ms.last().phys_start.value + ms.last().len
}

/// The pages of `m` were written into `tables`, each where it was free
/// before (see `leaves_were_free`, with the copies read from the guest in
/// `old` and new tables at or after `base`).
pub open spec fn mapping_written_free(tables: Seq<PageTable>, old: Seq<PageTable>, m: MappedMemory, ps: usize, base: int) -> bool {
    exists|log: Seq<(int, int)>, origins: Seq<int>|
        base >= 0 && mapping_written(tables, log, m, ps) && #[trigger] leaves_were_free(tables, old, log, origins, base as usize)
}

/// Mappings written where their pages were free stay so when the queues
/// grow at their ends, and with any lower bound for the new tables.
proof fn lemma_written_free_keeps(
    t: Seq<PageTable>,
    o: Seq<PageTable>,
    t2: Seq<PageTable>,
    o2: Seq<PageTable>,
    m: MappedMemory,
    ps: usize,
    base: int,
    base2: int,
)
    requires
        mapping_written_free(t, o, m, ps, base),
        0 <= base2 <= base <= usize::MAX,
        t2.len() >= t.len(),
        forall|i: int| 0 <= i < t.len() ==> t2[i] == t[i],
        o2.len() >= o.len(),
        forall|i: int| 0 <= i < o.len() ==> o2[i] == o[i],
    ensures
        mapping_written_free(t2, o2, m, ps, base2),
{
    reveal(mapping_written);
    let (log, origins) = choose|log: Seq<(int, int)>, origins: Seq<int>|
        base >= 0 && mapping_written(t, log, m, ps) && #[trigger] leaves_were_free(t, o, log, origins, base as usize);
    lemma_leaves_free_keeps(t, o, origins, t2, o2, origins, log, base as usize);
    assert forall|j: int| 0 <= j < log.len() implies t2[(#[trigger] log[j]).0] == t[log[j].0] by {}
    assert(mapping_written(t2, log, m, ps));
    assert forall|j: int| 0 <= j < log.len() implies {
        let ti = (#[trigger] log[j]).0;
        let oi = origins[ti];
        oi == -1 ==> t2[ti].phys_addr_spec().value >= base2 as usize
    } by {
        let ti = log[j].0;
        assert(origins[ti] == -1 ==> t2[ti].phys_addr_spec().value >= base as usize);
    }
    assert(leaves_were_free(t2, o2, log, origins, base2 as usize));
}

proof fn lemma_written_grows(before: Seq<PageTable>, after: Seq<PageTable>, m: MappedMemory, ps: usize)
    requires
        after.len() >= before.len(),
        forall|i: int| 0 <= i < before.len() ==> after[i] == before[i],
        mapping_written_somewhere(before, m, ps),
    ensures
        mapping_written_somewhere(after, m, ps),
{
    reveal(mapping_written);
    let l = choose|l: Seq<(int, int)>| mapping_written(before, l, m, ps);
    assert forall|j: int| 0 <= j < l.len() implies after[(#[trigger] l[j]).0] == before[l[j].0] by {}
    assert(mapping_written(after, l, m, ps));
}

/// One mapping whose entry in the top level table and all entries after it
/// are unused, with room after its end for three tables per page (more than
/// its new tables take): writing it reads nothing from the guest, so only
/// the final write to the guest can make it fail.
pub open spec fn fresh_single_mapping(entries: Seq<u64>, ms: Seq<MappedMemory>, ps: usize) -> bool {
    &&& ms.len() == 1
    &&& unused_from(entries, index_spec(ms[0].virt_start as u64, 0) as int)
    &&& ms[0].phys_start.value + ms[0].len + 3 * 4096 * (ms[0].len / ps) <= table_limit()
}

/// The new tables for one mapping `m` into tables none of which exists on
/// its way, placed from the end of its physical memory on, end at `end`:
/// one table for each block of each level below the top that its pages
/// touch, when they do not run past the 2^36 pages that four levels map;
/// and when it starts at a boundary of 1 GiB that is no more than
/// `estimate_page_table_size` makes room for.
pub open spec fn single_mapping_tables(
    r: Result<(Vec<PageTable>, Vec<PageTable>, usize), Error>,
    m: MappedMemory,
    ps: usize,
) -> bool {
    let start = m.phys_start.value + m.len;
    let v0 = vpn_of(m.virt_start);
    r matches Ok((_, _, end)) && {
        &&& v0 + m.len / ps <= 0x10_0000_0000 ==> end == start + 4096 * new_tables(v0, 0, (m.len / ps) as int, 0)
        &&& v0 + m.len / ps <= 0x10_0000_0000 && v0 % 0x4_0000 == 0 && m.len + ps - 1 <= usize::MAX ==> end - start
            <= page_table_size_spec(ps, m.len)
    }
}

/// Writes `mappings` into the page tables under `pml4`, with pages of `ps`
/// bytes, placing new tables right after the last mapping.  Returns the
/// tables that changed (to be written to the guest, `pml4` last), the
/// tables as they were before (to be restored later, `pml4` first), and
/// where the new tables end.
#[verifier::spinoff_prover]
#[verifier::rlimit(40)]
pub fn map_memory_tables(
    pid: i32,
    ps: usize,
    pml4: &mut PageTable,
    mappings: &[MappedMemory],
) -> (r: Result<(Vec<PageTable>, Vec<PageTable>, usize), Error>)
    requires
        page_size_usable(ps),
        mappings_valid(mappings@, ps),
        old(pml4).wf(),
        old(pml4).level_spec() == 0,
    ensures
        final(pml4).wf(),
        final(pml4).phys_addr_spec() == old(pml4).phys_addr_spec(),
        r matches Ok((_, _, end)) ==> end >= mappings_end(mappings@),
        fresh_single_mapping(old(pml4).entries_view(), mappings@, ps) ==> single_mapping_tables(r, mappings@[0], ps),
        r matches Ok((upsert, old_tables, _)) ==> {
            &&& all_wf(upsert@)
            &&& all_wf(old_tables@)
            &&& upsert@.len() >= 1
            &&& upsert@.last().entries_view() == final(pml4).entries_view()
            &&& upsert@.last().phys_addr_spec() == final(pml4).phys_addr_spec()
            &&& old_tables@.len() >= 1
            &&& old_tables@[0].entries_view() == old(pml4).entries_view()
            &&& old_tables@[0].phys_addr_spec() == old(pml4).phys_addr_spec()
            &&& mappings_written(upsert@, mappings@, mappings@.len() as int, ps)
            &&& forall|mi: int|
                0 <= mi < mappings@.len() ==> mapping_placed(upsert@, final(pml4).entries_view(), #[trigger] mappings@[mi], ps)
            &&& forall|mi: int|
                0 <= mi < mappings@.len() ==> mapping_written_free(
                    upsert@,
                    old_tables@,
                    #[trigger] mappings@[mi],
                    ps,
                    mappings_end(mappings@),
                )
        },
        r matches Err(e) ==> map_error(e),
        fresh_single_mapping(old(pml4).entries_view(), mappings@, ps) ==> r is Ok,
{
    // New/modified tables to be written to guest
    let mut upsert_tables: Vec<PageTable> = Vec::new();
    // Tables that we need to revert to their old content
    let mut old_tables: Vec<PageTable> = Vec::new();
    old_tables.push(pml4.duplicate());
    let last_mapping = &mappings[mappings.len() - 1];
    let mut pt_addr = last_mapping.phys_start.add(last_mapping.len);
    proof {
        crate::page_math::lemma_pow2_positive(ps);
        let m = mappings@[mappings@.len() - 1];
        assert(mapping_valid(m, ps));
        crate::page_math::lemma_mod_add(m.phys_start.value as int, m.len as int, ps as int);
        crate::page_math::lemma_mod_mod(pt_addr.value as int, ps as int, 4096);
    }
    let mut i: usize = 0;
    proof { reveal(mappings_written); }
    while i < mappings.len()
        invariant
            page_size_usable(ps),
            mappings_valid(mappings@, ps),
            i <= mappings@.len(),
            pml4.wf(),
            pml4.level_spec() == 0,
            pml4.phys_addr_spec() == old(pml4).phys_addr_spec(),
            all_wf(upsert_tables@),
            all_wf(old_tables@),
            old_tables@.len() >= 1,
            old_tables@[0].entries_view() == old(pml4).entries_view(),
            old_tables@[0].phys_addr_spec() == old(pml4).phys_addr_spec(),
            i > 0 ==> upsert_tables@.len() >= 1
                && upsert_tables@.last().entries_view() == pml4.entries_view()
                && upsert_tables@.last().phys_addr_spec() == pml4.phys_addr_spec(),
            pt_addr.value % 4096 == 0,
            mappings_written(upsert_tables@, mappings@, i as int, ps),
            i == 0 ==> pml4.entries_view() == old(pml4).entries_view(),
            forall|mi: int|
                0 <= mi < i ==> mapping_placed(upsert_tables@, pml4.entries_view(), #[trigger] mappings@[mi], ps)
                    && mapping_present(pml4.entries_view(), mappings@[mi], ps),
            i == 0 ==> pt_addr.value == mappings@[mappings@.len() - 1].phys_start.value
                + mappings@[mappings@.len() - 1].len,
            pt_addr.value >= mappings_end(mappings@),
            fresh_single_mapping(old(pml4).entries_view(), mappings@, ps) && i == 1 ==> single_mapping_tables(
                Ok::<(Vec<PageTable>, Vec<PageTable>, usize), Error>((upsert_tables, old_tables, pt_addr.value)),
                mappings@[0],
                ps,
            ),
            forall|mi: int|
                0 <= mi < i ==> mapping_written_free(
                    upsert_tables@,
                    old_tables@,
                    #[trigger] mappings@[mi],
                    ps,
                    mappings_end(mappings@),
                ),
        decreases mappings@.len() - i,
    {
        let ghost before = upsert_tables@;
        let ghost old_before = old_tables@;
        let ghost pt_before = pt_addr.value;
        let ghost top_before = pml4.entries_view();
        let log = map_memory_single(
            pid,
            ps,
            pml4,
            &mappings[i],
            &mut upsert_tables,
            &mut old_tables,
            &mut pt_addr,
        )?;
        proof {
            lemma_mappings_written_step(before, upsert_tables@, mappings@, i as int, ps, log@);
            crate::page_math::lemma_pow2_positive(ps);
            lemma_placed_step(before, upsert_tables@, top_before, pml4.entries_view(), mappings@, i as int, ps);
            assert forall|mi: int| 0 <= mi < i + 1 implies mapping_written_free(
                upsert_tables@,
                old_tables@,
                #[trigger] mappings@[mi],
                ps,
                mappings_end(mappings@),
            ) by {
                if mi < i {
                    lemma_written_free_keeps(before, old_before, upsert_tables@, old_tables@, mappings@[mi], ps,
                        mappings_end(mappings@), mappings_end(mappings@));
                } else {
                    let origins = choose|origins: Seq<int>|
                        leaves_were_free(upsert_tables@, old_tables@, log@, origins, pt_before);
                    assert((pt_before as int) as usize == pt_before);
                    assert(leaves_were_free(upsert_tables@, old_tables@, log@, origins, (pt_before as int) as usize));
                    assert(mapping_written(upsert_tables@, log@, mappings@[mi], ps));
                    assert(mapping_written_free(upsert_tables@, old_tables@, mappings@[mi], ps, pt_before as int));
                    lemma_written_free_keeps(upsert_tables@, old_tables@, upsert_tables@, old_tables@, mappings@[mi], ps,
                        pt_before as int, mappings_end(mappings@));
                }
            }
        }
        i += 1;
    }
    Ok((upsert_tables, old_tables, pt_addr.value))
}

/// Virtual memory mapped into a guest by `map_memory`; remembers the page
/// tables as they were before, to restore them.
pub struct VirtMem {
    pid: i32,
    /// List of tables we need to restore to their old state before exiting
    old_tables: Vec<PageTable>,
    /// Mapping between virtual and physical memory
    pub mappings: Vec<MappedMemory>,
    /// The tables that were written to the guest, in the order written
    written: Ghost<Seq<PageTable>>,
}

impl VirtMem {
    /// The process whose memory holds the page tables.
    pub closed spec fn pid_spec(&self) -> i32 {
        self.pid
    }

    /// The mappings.
    pub closed spec fn mappings_spec(&self) -> Seq<MappedMemory> {
        self.mappings@
    }

    /// The page tables as they were before the mapping.
    pub closed spec fn old_tables_spec(&self) -> Seq<PageTable> {
        self.old_tables@
    }

    /// The page tables that were written to the guest, in the order written.
    pub closed spec fn written_tables_spec(&self) -> Seq<PageTable> {
        self.written@
    }

    /// Writes the page tables as they were before the mapping back to the
    /// guest.
    pub fn restore(&self) -> (r: Result<(), Error>)
        requires
            all_wf(self.old_tables_spec()),
        ensures
            !tables_in_host(self.old_tables_spec()) <==> r == Err::<(), Error>(Error::InvalidAddress),
            r is Err ==> r == Err::<(), Error>(Error::InvalidAddress) || r == Err::<(), Error>(Error::RemoteWrite)
                || r == Err::<(), Error>(Error::ShortWrite),
    {
        let ps = page_size();
        commit_page_tables(self.pid, &self.old_tables, ps)
    }
}

/// The errors that mapping memory into the guest can end in: those of
/// writing the page tables, of the write to the guest, and of an unusable
/// page size or invalid mappings.
pub open spec fn map_memory_error(e: Error) -> bool {
    ||| map_error(e)
    ||| e == Error::RemoteWrite
    ||| e == Error::ShortWrite
    ||| e == Error::UnsupportedPageSize
    ||| e == Error::InvalidMapping
}

/// What `vm` wrote to the guest: page tables that all lie in the host's
/// memory, the top level table `pml4` last, holding the pages of every one
/// of `mappings` at their virtual addresses, each in an entry that was free
/// in the table as read from the guest or in a new table placed after the
/// last mapping; their bytes went to their host addresses.
pub open spec fn written_as_mapped(vm: VirtMem, pml4: PageTable, mappings: Seq<MappedMemory>, ps: usize) -> bool {
    &&& all_wf(vm.written_tables_spec())
    &&& tables_in_host(vm.written_tables_spec())
    &&& vm.written_tables_spec().len() >= 1
    &&& vm.written_tables_spec().last().entries_view() == pml4.entries_view()
    &&& vm.written_tables_spec().last().phys_addr_spec() == pml4.phys_addr_spec()
    &&& mappings_written(vm.written_tables_spec(), mappings, mappings.len() as int, ps)
    &&& forall|mi: int|
        0 <= mi < mappings.len() ==> mapping_placed(vm.written_tables_spec(), pml4.entries_view(), #[trigger] mappings[mi], ps)
    &&& forall|mi: int|
        0 <= mi < mappings.len() ==> mapping_written_free(
            vm.written_tables_spec(),
            vm.old_tables_spec(),
            #[trigger] mappings[mi],
            ps,
            mappings_end(mappings),
        )
}

/// Maps a list of physical memory chunks to their virtual addresses in the
/// page tables under `pml4`, with pages of `ps` bytes.  The list must be
/// physically contiguous and sorted.  New page tables are placed right after
/// the last chunk, so there must be room for them there.  The tables that
/// changed are written to the memory of process `pid`.
pub fn map_memory_with(
    pid: i32,
    ps: usize,
    pml4: &mut PageTable,
    mappings: &[MappedMemory],
) -> (r: Result<VirtMem, Error>)
    requires
        page_size_usable(ps),
        mappings_valid(mappings@, ps),
        old(pml4).wf(),
        old(pml4).level_spec() == 0,
    ensures
        final(pml4).wf(),
        final(pml4).phys_addr_spec() == old(pml4).phys_addr_spec(),
        r matches Ok(vm) ==> {
            &&& vm.pid_spec() == pid
            &&& vm.mappings_spec() == mappings@
            &&& all_wf(vm.old_tables_spec())
            &&& vm.old_tables_spec().len() >= 1
            &&& vm.old_tables_spec()[0].entries_view() == old(pml4).entries_view()
            &&& vm.old_tables_spec()[0].phys_addr_spec() == old(pml4).phys_addr_spec()
            &&& written_as_mapped(vm, *final(pml4), mappings@, ps)
        },
        r matches Err(e) ==> map_error(e) || e == Error::RemoteWrite || e == Error::ShortWrite,
        fresh_single_mapping(old(pml4).entries_view(), mappings@, ps) ==> (r is Ok || r == Err::<VirtMem, Error>(
            Error::InvalidAddress,
        ) || r == Err::<VirtMem, Error>(Error::RemoteWrite) || r == Err::<VirtMem, Error>(Error::ShortWrite)),
{
    let (upsert_tables, old_tables, _tables_end) = map_memory_tables(pid, ps, pml4, mappings)?;
    proof { crate::page_math::lemma_pow2_positive(ps); }
    // the TLB is not invalidated
    commit_page_tables(pid, &upsert_tables, ps)?;
    Ok(VirtMem { pid, old_tables, mappings: vstd::slice::slice_to_vec(mappings), written: Ghost(upsert_tables@) })
}

/// How `map_memory` answers with the machine's page size `ps`: it refuses a
/// page size that is not usable, then mappings that are not valid for it;
/// on success the tables it wrote hold every mapping.
pub open spec fn map_memory_outcome(r: Result<VirtMem, Error>, ps: usize, mappings: Seq<MappedMemory>, pml4: PageTable) -> bool {
    &&& ps >= 1
    &&& (r == Err::<VirtMem, Error>(Error::UnsupportedPageSize) <==> !page_size_usable(ps))
    &&& page_size_usable(ps) ==> (r == Err::<VirtMem, Error>(Error::InvalidMapping) <==> !mappings_valid(mappings, ps))
    &&& r matches Ok(vm) ==> page_size_usable(ps) && mappings_valid(mappings, ps) && written_as_mapped(vm, pml4, mappings, ps)
}

/// Maps a list of physical memory chunks to their virtual addresses in the
/// page tables under `pml4`, with the machine's page size; see
/// `map_memory_with`.  Fails with `UnsupportedPageSize` if the machine's page
/// size is not a power of two of at least 4 KiB, and with `InvalidMapping`
/// if the mappings are not valid for it.
pub fn map_memory(pid: i32, pml4: &mut PageTable, mappings: &[MappedMemory]) -> (r: Result<VirtMem, Error>)
    requires
        mappings@.len() > 0,
        old(pml4).wf(),
        old(pml4).level_spec() == 0,
    ensures
        final(pml4).wf(),
        final(pml4).phys_addr_spec() == old(pml4).phys_addr_spec(),
        r matches Ok(vm) ==> {
            &&& vm.pid_spec() == pid
            &&& vm.mappings_spec() == mappings@
            &&& all_wf(vm.old_tables_spec())
            &&& vm.old_tables_spec().len() >= 1
            &&& vm.old_tables_spec()[0].entries_view() == old(pml4).entries_view()
            &&& vm.old_tables_spec()[0].phys_addr_spec() == old(pml4).phys_addr_spec()
        },
        r matches Err(e) ==> map_memory_error(e),
        exists|ps: usize| #[trigger] map_memory_outcome(r, ps, mappings@, *final(pml4)),
        fresh_single_mapping(old(pml4).entries_view(), mappings@, 4096) ==> (r is Ok || r == Err::<VirtMem, Error>(
            Error::UnsupportedPageSize,
        ) || r == Err::<VirtMem, Error>(Error::InvalidMapping) || r == Err::<VirtMem, Error>(Error::InvalidAddress)
            || r == Err::<VirtMem, Error>(Error::RemoteWrite) || r == Err::<VirtMem, Error>(Error::ShortWrite)),
{
    let ps = page_size();
    if !is_power_of_two(ps) || ps % 4096 != 0 {
        assert(map_memory_outcome(Err(Error::UnsupportedPageSize), ps, mappings@, *pml4));
        return Err(Error::UnsupportedPageSize);
    }
    if !check_mappings(mappings, ps) {
        assert(map_memory_outcome(Err(Error::InvalidMapping), ps, mappings@, *pml4));
        return Err(Error::InvalidMapping);
    }
    proof {
        if fresh_single_mapping(pml4.entries_view(), mappings@, 4096) {
            crate::page_math::lemma_pow2_positive(ps);
            assert(ps >= 4096) by (nonlinear_arith)
                requires ps % 4096 == 0, ps >= 1;
            let len = mappings@[0].len as int;
            vstd::arithmetic::div_mod::lemma_div_is_ordered_by_denominator(len, 4096, ps as int);
            assert(3 * 4096 * (len / (ps as int)) <= 3 * 4096 * (len / 4096)) by (nonlinear_arith)
                requires len / (ps as int) <= len / 4096;
            assert(fresh_single_mapping(pml4.entries_view(), mappings@, ps));
        }
    }
    let r = map_memory_with(pid, ps, pml4, mappings);
    assert(map_memory_outcome(r, ps, mappings@, *pml4));
    r
}


/// A present leaf entry found while walking a page table: the virtual
/// address it maps (sign extended), the level of its table, and the entry.
#[derive(Clone, Copy, Debug)]
pub struct PageTableIteratorValue {
    pub virt_addr: u64,
    pub level: u8,
    pub entry: PageTableEntry,
}

/// Bits below the region that one table of `level` covers.
pub open spec fn region_mask(level: u8) -> u64 {
    if level == 0 {
        0xffff_ffff_ffffu64
    } else if level == 1 {
        0x7f_ffff_ffffu64
    } else if level == 2 {
        0x3fff_ffffu64
    } else {
        0x1f_ffffu64
    }
}

/// Bits below the region that one entry of a table of `level` covers.
pub open spec fn entry_mask(level: u8) -> u64 {
    if level == 0 {
        0x7f_ffff_ffffu64
    } else if level == 1 {
        0x3fff_ffffu64
    } else if level == 2 {
        0x1f_ffffu64
    } else {
        0xfffu64
    }
}

/// What holds of every value the walk returns.
pub open spec fn walk_value_ok(v: PageTableIteratorValue) -> bool {
    &&& v.level <= 3
    &&& v.entry@ & 1 == 1
    &&& (v.level == 3 || v.entry@ & 0x80 == 0x80)
    &&& v.virt_addr & entry_mask(v.level) == 0
}

/// The virtual address covered by entry `idx` of a table of `level` that
/// starts at `virt`, sign extended from bit 47.
pub open spec fn entry_virt_addr(virt: u64, idx: u64, level: u8) -> u64 {
    let v = (virt + (idx << shift_spec(level))) as u64;
    if v >> 47u64 != 0 {
        v | 0xffff_0000_0000_0000u64
    } else {
        v
    }
}

proof fn lemma_entry_virt_addr(virt: u64, idx: u64, level: u8)
    requires
        level <= 3,
        idx < 512,
        virt & region_mask(level) == 0,
    ensures
        virt + (idx << shift_spec(level)) <= u64::MAX,
        entry_virt_addr(virt, idx, level) & entry_mask(level) == 0,
        level < 3 ==> entry_virt_addr(virt, idx, level) & region_mask((level + 1) as u8) == 0,
{
    let v = entry_virt_addr(virt, idx, level);
    if level == 0 {
        assert(virt & 0xffff_ffff_ffffu64 == 0 && idx < 512 ==> virt + (idx << 39u8) <= u64::MAX) by (bit_vector);
        assert(virt & 0xffff_ffff_ffffu64 == 0 && idx < 512 ==> ((virt + (idx << 39u8)) as u64) & 0x7f_ffff_ffffu64 == 0
            && (((virt + (idx << 39u8)) as u64) | 0xffff_0000_0000_0000u64) & 0x7f_ffff_ffffu64 == 0) by (bit_vector);
    } else if level == 1 {
        assert(virt & 0x7f_ffff_ffffu64 == 0 && idx < 512 ==> virt + (idx << 30u8) <= u64::MAX) by (bit_vector);
        assert(virt & 0x7f_ffff_ffffu64 == 0 && idx < 512 ==> ((virt + (idx << 30u8)) as u64) & 0x3fff_ffffu64 == 0
            && (((virt + (idx << 30u8)) as u64) | 0xffff_0000_0000_0000u64) & 0x3fff_ffffu64 == 0) by (bit_vector);
    } else if level == 2 {
        assert(virt & 0x3fff_ffffu64 == 0 && idx < 512 ==> virt + (idx << 21u8) <= u64::MAX) by (bit_vector);
        assert(virt & 0x3fff_ffffu64 == 0 && idx < 512 ==> ((virt + (idx << 21u8)) as u64) & 0x1f_ffffu64 == 0
            && (((virt + (idx << 21u8)) as u64) | 0xffff_0000_0000_0000u64) & 0x1f_ffffu64 == 0) by (bit_vector);
    } else {
        assert(virt & 0x1f_ffffu64 == 0 && idx < 512 ==> virt + (idx << 12u8) <= u64::MAX) by (bit_vector);
        assert(virt & 0x1f_ffffu64 == 0 && idx < 512 ==> ((virt + (idx << 12u8)) as u64) & 0xfffu64 == 0
            && (((virt + (idx << 12u8)) as u64) | 0xffff_0000_0000_0000u64) & 0xfffu64 == 0) by (bit_vector);
    }
}

/// A value of the walk as plain values: virtual address, level, entry.
pub open spec fn walk_value_view(v: PageTableIteratorValue) -> (u64, u8, u64) {
    (v.virt_addr, v.level, v.entry@)
}

/// Whether entry `e` of a table of `level` points to a table below.
pub open spec fn points_to_table(e: u64, level: u8) -> bool {
    e & 1 == 1 && level != 3 && e & 0x80 != 0x80
}

/// No entry from `start` up to `idx` points to a table below.
pub open spec fn no_table_between(entries: Seq<u64>, level: u8, start: int, idx: int) -> bool {
    forall|j: int| start <= j < idx ==> !points_to_table(#[trigger] entries[j], level)
}

/// The present leaf entries (pages and huge pages) of a table of `level`
/// covering addresses from `virt`, from entry `start` up to `idx`, that come
/// before the first entry pointing to a table below: the part of a walk that
/// the table itself decides, without reading the guest.
pub open spec fn leading_leaves(entries: Seq<u64>, virt: u64, level: u8, start: int, idx: int) -> Seq<(u64, u8, u64)>
    decreases idx - start,
{
    if idx <= start {
        Seq::empty()
    } else {
        let before = leading_leaves(entries, virt, level, start, idx - 1);
        let e = entries[idx - 1];
        if no_table_between(entries, level, start, idx - 1) && e & 1 == 1 && (level == 3 || e & 0x80 == 0x80) {
            before.push((entry_virt_addr(virt, (idx - 1) as u64, level), level, e))
        } else {
            before
        }
    }
}

/// Past an entry that points to a table below, the leading leaves stay as
/// they were.
proof fn lemma_leading_leaves_stop(entries: Seq<u64>, virt: u64, level: u8, start: int, j: int, k: int)
    requires
        start <= j <= k,
        !no_table_between(entries, level, start, j),
    ensures
        leading_leaves(entries, virt, level, start, k) == leading_leaves(entries, virt, level, start, j),
        !no_table_between(entries, level, start, k),
    decreases k - j,
{
    if k > j {
        lemma_leading_leaves_stop(entries, virt, level, start, j, k - 1);
    }
}

/// A canonical x86-64 virtual address: bits 48 to 63 copy bit 47.
pub open spec fn canonical(v: u64) -> bool {
    v < 0x8000_0000_0000u64 || v >= 0xffff_8000_0000_0000u64
}

/// The last address that a table of `level` starting at `virt` covers.
pub open spec fn region_last(virt: u64, level: u8) -> int {
    if level == 0 {
        u64::MAX as int
    } else {
        virt + region_mask(level)
    }
}

/// The entries of a canonical table cover canonical, increasing, disjoint
/// parts of its region.
proof fn lemma_entry_bounds(virt: u64, idx: u64, level: u8)
    requires
        level <= 3,
        idx < 512,
        virt & region_mask(level) == 0,
        canonical(virt),
    ensures
        canonical(entry_virt_addr(virt, idx, level)),
        virt <= entry_virt_addr(virt, idx, level),
        entry_virt_addr(virt, idx, level) + entry_mask(level) <= region_last(virt, level),
        idx + 1 < 512 ==> entry_virt_addr(virt, idx, level) + entry_mask(level) < entry_virt_addr(
            virt,
            (idx + 1) as u64,
            level,
        ),
{
    let n = (idx + 1) as u64;
    if level == 0 {
        assert(virt & 0xffff_ffff_ffffu64 == 0 && (virt < 0x8000_0000_0000u64 || virt >= 0xffff_8000_0000_0000u64) ==> virt == 0)
            by (bit_vector);
        assert(idx < 512 ==> {
            let v = (0u64 + (idx << 39u8)) as u64;
            let c = if v >> 47u64 != 0 { v | 0xffff_0000_0000_0000u64 } else { v };
            &&& (c < 0x8000_0000_0000u64 || c >= 0xffff_8000_0000_0000u64)
            &&& c + 0x7f_ffff_ffffu64 <= 0xffff_ffff_ffff_ffffu64
        }) by (bit_vector);
        assert(idx < 511 && n == idx + 1 ==> {
            let v = (0u64 + (idx << 39u8)) as u64;
            let c = if v >> 47u64 != 0 { v | 0xffff_0000_0000_0000u64 } else { v };
            let v2 = (0u64 + (n << 39u8)) as u64;
            let c2 = if v2 >> 47u64 != 0 { v2 | 0xffff_0000_0000_0000u64 } else { v2 };
            c + 0x7f_ffff_ffffu64 < c2
        }) by (bit_vector);
    } else if level == 1 {
        assert(idx < 512 && virt & 0x7f_ffff_ffffu64 == 0 && (virt < 0x8000_0000_0000u64 || virt >= 0xffff_8000_0000_0000u64) ==> {
            let v = (virt + (idx << 30u8)) as u64;
            let c = if v >> 47u64 != 0 { v | 0xffff_0000_0000_0000u64 } else { v };
            &&& virt + (idx << 30u8) <= 0xffff_ffff_ffff_ffffu64
            &&& c == v
            &&& (c < 0x8000_0000_0000u64 || c >= 0xffff_8000_0000_0000u64)
            &&& virt <= c
            &&& c + 0x3fff_ffffu64 <= virt + 0x7f_ffff_ffffu64
            &&& virt + 0x7f_ffff_ffffu64 <= 0xffff_ffff_ffff_ffffu64
        }) by (bit_vector);
        assert(idx < 511 && n == idx + 1 && virt & 0x7f_ffff_ffffu64 == 0 && (virt < 0x8000_0000_0000u64 || virt >= 0xffff_8000_0000_0000u64) ==> {
            let v = (virt + (idx << 30u8)) as u64;
            let c = if v >> 47u64 != 0 { v | 0xffff_0000_0000_0000u64 } else { v };
            let v2 = (virt + (n << 30u8)) as u64;
            let c2 = if v2 >> 47u64 != 0 { v2 | 0xffff_0000_0000_0000u64 } else { v2 };
            c + 0x3fff_ffffu64 < c2
        }) by (bit_vector);
    } else if level == 2 {
        assert(idx < 512 && virt & 0x3fff_ffffu64 == 0 && (virt < 0x8000_0000_0000u64 || virt >= 0xffff_8000_0000_0000u64) ==> {
            let v = (virt + (idx << 21u8)) as u64;
            let c = if v >> 47u64 != 0 { v | 0xffff_0000_0000_0000u64 } else { v };
            &&& virt + (idx << 21u8) <= 0xffff_ffff_ffff_ffffu64
            &&& c == v
            &&& (c < 0x8000_0000_0000u64 || c >= 0xffff_8000_0000_0000u64)
            &&& virt <= c
            &&& c + 0x1f_ffffu64 <= virt + 0x3fff_ffffu64
            &&& virt + 0x3fff_ffffu64 <= 0xffff_ffff_ffff_ffffu64
        }) by (bit_vector);
        assert(idx < 511 && n == idx + 1 && virt & 0x3fff_ffffu64 == 0 && (virt < 0x8000_0000_0000u64 || virt >= 0xffff_8000_0000_0000u64) ==> {
            let v = (virt + (idx << 21u8)) as u64;
            let c = if v >> 47u64 != 0 { v | 0xffff_0000_0000_0000u64 } else { v };
            let v2 = (virt + (n << 21u8)) as u64;
            let c2 = if v2 >> 47u64 != 0 { v2 | 0xffff_0000_0000_0000u64 } else { v2 };
            c + 0x1f_ffffu64 < c2
        }) by (bit_vector);
    } else {
        assert(idx < 512 && virt & 0x1f_ffffu64 == 0 && (virt < 0x8000_0000_0000u64 || virt >= 0xffff_8000_0000_0000u64) ==> {
            let v = (virt + (idx << 12u8)) as u64;
            let c = if v >> 47u64 != 0 { v | 0xffff_0000_0000_0000u64 } else { v };
            &&& virt + (idx << 12u8) <= 0xffff_ffff_ffff_ffffu64
            &&& c == v
            &&& (c < 0x8000_0000_0000u64 || c >= 0xffff_8000_0000_0000u64)
            &&& virt <= c
            &&& c + 0xfffu64 <= virt + 0x1f_ffffu64
            &&& virt + 0x1f_ffffu64 <= 0xffff_ffff_ffff_ffffu64
        }) by (bit_vector);
        assert(idx < 511 && n == idx + 1 && virt & 0x1f_ffffu64 == 0 && (virt < 0x8000_0000_0000u64 || virt >= 0xffff_8000_0000_0000u64) ==> {
            let v = (virt + (idx << 12u8)) as u64;
            let c = if v >> 47u64 != 0 { v | 0xffff_0000_0000_0000u64 } else { v };
            let v2 = (virt + (n << 12u8)) as u64;
            let c2 = if v2 >> 47u64 != 0 { v2 | 0xffff_0000_0000_0000u64 } else { v2 };
            c + 0xfffu64 < c2
        }) by (bit_vector);
    }
}

/// The values of `out` from `from` on have canonical virtual addresses
/// between `lo` and `hi`, strictly increasing.
pub open spec fn walk_appended_ok(out: Seq<PageTableIteratorValue>, from: int, lo: int, hi: int) -> bool {
    &&& forall|a: int| from <= a < out.len() ==> canonical(#[trigger] out[a].virt_addr) && lo <= out[a].virt_addr <= hi
    &&& forall|a: int, b: int| from <= a < b < out.len() ==> #[trigger] out[a].virt_addr < #[trigger] out[b].virt_addr
}

/// Appending values above all those from `from` on, themselves in order
/// and within bounds, keeps `walk_appended_ok`.
proof fn lemma_appended_join(out1: Seq<PageTableIteratorValue>, out2: Seq<PageTableIteratorValue>, from: int, lo: int, hi: int, lo2: int, hi2: int)
    requires
        0 <= from <= out1.len() <= out2.len(),
        forall|a: int| 0 <= a < out1.len() ==> out2[a] == out1[a],
        walk_appended_ok(out1, from, lo, hi),
        walk_appended_ok(out2, out1.len() as int, lo2, hi2),
        lo <= lo2,
        hi2 <= hi,
        forall|a: int| from <= a < out1.len() ==> #[trigger] out1[a].virt_addr < lo2,
    ensures
        walk_appended_ok(out2, from, lo, hi),
{
    assert forall|a: int, b: int| from <= a < b < out2.len() implies #[trigger] out2[a].virt_addr < #[trigger] out2[b].virt_addr by {
        if b < out1.len() {
            assert(out2[a] == out1[a] && out2[b] == out1[b]);
        } else if a < out1.len() {
            assert(out2[a] == out1[a]);
            assert(out1[a].virt_addr < lo2);
            assert(lo2 <= out2[b].virt_addr);
        }
    }
    assert forall|a: int| from <= a < out2.len() implies canonical(#[trigger] out2[a].virt_addr) && lo <= out2[a].virt_addr <= hi by {
        if a < out1.len() {
            assert(out2[a] == out1[a]);
        }
    }
}

impl PageTable {
    /// Appends to `out` the present leaf entries (pages and huge pages) of
    /// the tree under this table whose indices lie between those of
    /// `range_start` and `range_end`, in order.  Tables below are read from
    /// the memory of process `pid`; when a read fails, the walk of the table
    /// that points to it ends there and its parent goes on.
    fn walk(&self, pid: i32, range_start: usize, range_end: usize, out: &mut Vec<PageTableIteratorValue>)
        requires
            self.wf(),
            self.level <= 3,
            self.virt_addr & region_mask(self.level) == 0,
            canonical(self.virt_addr),
            forall|i: int| 0 <= i < old(out)@.len() ==> walk_value_ok(#[trigger] old(out)@[i]),
        ensures
            final(out)@.len() >= old(out)@.len(),
            walk_appended_ok(final(out)@, old(out)@.len() as int, self.virt_addr as int, region_last(self.virt_addr, self.level)),
            forall|i: int| 0 <= i < old(out)@.len() ==> final(out)@[i] == old(out)@[i],
            forall|i: int| 0 <= i < final(out)@.len() ==> walk_value_ok(#[trigger] final(out)@[i]),
            ({
                let first = index_spec(range_start as u64, self.level) as int;
                let last = index_spec(range_end as u64, self.level) + 1;
                let lead = leading_leaves(self.entries_view(), self.virt_addr, self.level, first, last);
                &&& final(out)@.len() >= old(out)@.len() + lead.len()
                &&& forall|k: int| 0 <= k < lead.len() ==> walk_value_view(#[trigger] final(out)@[old(out)@.len() + k]) == lead[k]
                &&& no_table_between(self.entries_view(), self.level, first, last) ==> final(out)@.len() == old(out)@.len() + lead.len()
            }),
        decreases 3 - self.level,
    {
        let level = self.level;
        let shift = get_shift(level);
        let start = get_index(range_start as u64, level) as usize;
        let end = get_index(range_end as u64, level) as usize + 1;
        let mut idx = start;
        let ghost out0 = out@;
        while idx < end
            invariant
                self.wf(),
                level == self.level,
                level <= 3,
                shift == shift_spec(level),
                self.virt_addr & region_mask(level) == 0,
                end <= ENTRY_COUNT,
                out0 == old(out)@,
                out@.len() >= out0.len(),
                forall|i: int| 0 <= i < out0.len() ==> out@[i] == out0[i],
                forall|i: int| 0 <= i < out@.len() ==> walk_value_ok(#[trigger] out@[i]),
                start == index_spec(range_start as u64, level),
                end == index_spec(range_end as u64, level) + 1,
                start <= idx,
                idx <= end || idx == start,
                out@.len() >= out0.len() + leading_leaves(self.entries_view(), self.virt_addr, level, start as int, idx as int).len(),
                forall|k: int| 0 <= k < leading_leaves(self.entries_view(), self.virt_addr, level, start as int, idx as int).len()
                    ==> walk_value_view(#[trigger] out@[out0.len() + k]) == leading_leaves(self.entries_view(), self.virt_addr, level, start as int, idx as int)[k],
                no_table_between(self.entries_view(), level, start as int, idx as int) ==> out@.len() == out0.len()
                    + leading_leaves(self.entries_view(), self.virt_addr, level, start as int, idx as int).len(),
                canonical(self.virt_addr),
                walk_appended_ok(out@, out0.len() as int, self.virt_addr as int, region_last(self.virt_addr, level)),
                out@.len() > out0.len() ==> start < idx && idx <= 512 && forall|a: int| out0.len() <= a < out@.len()
                    ==> #[trigger] out@[a].virt_addr <= entry_virt_addr(self.virt_addr, (idx - 1) as u64, level) + entry_mask(level),
            decreases end - idx,
        {
            let ghost lead0 = leading_leaves(self.entries_view(), self.virt_addr, level, start as int, idx as int);
            let ghost out1 = out@;
            let ghost ents = self.entries_view();
            let entry = self.entries[idx];
            assert(entry@ == ents[idx as int]);
            proof {
                lemma_entry_virt_addr(self.virt_addr, idx as u64, level);
                lemma_entry_bounds(self.virt_addr, idx as u64, level);
                if out@.len() > out0.len() {
                    lemma_entry_bounds(self.virt_addr, (idx - 1) as u64, level);
                    assert((idx - 1 + 1) as u64 == idx as u64);
                }
            }
            let mut virt_addr = self.virt_addr + ((idx as u64) << shift);
            // sign extend most significant bit
            if virt_addr >> 47u64 != 0 {
                virt_addr = virt_addr | 0xFFFF_0000_0000_0000u64;
            }
            assert(virt_addr == entry_virt_addr(self.virt_addr, idx as u64, level));
            let flags = entry.flags();
            proof {
                let v = entry@;
                lemma_flag_bits(v);
            }
            if flags.contains(PageTableFlags::present()) {
                if level == 3 || flags.contains(PageTableFlags::huge_page()) {
                    let ghost before = out@;
                    out.push(PageTableIteratorValue { virt_addr, level, entry });
                    assert forall|i: int| 0 <= i < out@.len() implies walk_value_ok(#[trigger] out@[i]) by {
                        if i < before.len() {
                            assert(out@[i] == before[i]);
                        }
                    }
                    proof {
                        let c = virt_addr as int;
                        assert(walk_appended_ok(out@, before.len() as int, c, c));
                        lemma_appended_join(before, out@, out0.len() as int, self.virt_addr as int,
                            region_last(self.virt_addr, level), c, c);
                        assert forall|a: int| out0.len() <= a < out@.len()
                            implies #[trigger] out@[a].virt_addr <= entry_virt_addr(self.virt_addr, (idx + 1 - 1) as u64, level) + entry_mask(level) by {
                            if a < before.len() {
                                assert(out@[a] == before[a]);
                            }
                        }
                    }
                } else {
                    proof {
                        assert(points_to_table(ents[idx as int], level));
                        assert(!no_table_between(ents, level, start as int, idx + 1));
                        lemma_leading_leaves_stop(ents, self.virt_addr, level, start as int, idx + 1, end as int);
                        assert(leading_leaves(ents, self.virt_addr, level, start as int, idx + 1) == lead0);
                    }
                    match PageTable::read(pid, &self.phys_addr(entry), virt_addr, level + 1) {
                        Err(_) => {
                            return;
                        },
                        Ok(next) => {
                            let s = if idx > start {
                                0
                            } else {
                                range_start
                            };
                            let e = if idx < end - 1 {
                                usize::MAX
                            } else {
                                range_end
                            };
                            let ghost before = out@;
                            proof {
                                assert(region_mask((level + 1) as u8) == entry_mask(level));
                            }
                            next.walk(pid, s, e, out);
                            proof {
                                let c = virt_addr as int;
                                lemma_appended_join(before, out@, out0.len() as int, self.virt_addr as int,
                                    region_last(self.virt_addr, level), c, region_last(virt_addr, (level + 1) as u8));
                                assert forall|a: int| out0.len() <= a < out@.len()
                                    implies #[trigger] out@[a].virt_addr <= entry_virt_addr(self.virt_addr, (idx + 1 - 1) as u64, level) + entry_mask(level) by {
                                    if a < before.len() {
                                        assert(out@[a] == before[a]);
                                    }
                                }
                            }
                        },
                    }
                }
            }
            idx += 1;
        }
    }

    /// The present leaf entries (pages and huge pages) of the tree under
    /// this table whose indices lie between those of `range_start` and
    /// `range_end`, in order; see `walk`.
    pub fn iter(self, pid: i32, range_start: usize, range_end: usize) -> (r: Vec<PageTableIteratorValue>)
        requires
            self.wf(),
            self.level_spec() <= 3,
            self.virt_addr_spec() & region_mask(self.level_spec()) == 0,
            canonical(self.virt_addr_spec()),
        ensures
            forall|i: int| 0 <= i < r@.len() ==> walk_value_ok(#[trigger] r@[i]),
            walk_appended_ok(r@, 0, self.virt_addr_spec() as int, region_last(self.virt_addr_spec(), self.level_spec())),
            ({
                let first = index_spec(range_start as u64, self.level_spec()) as int;
                let last = index_spec(range_end as u64, self.level_spec()) + 1;
                let lead = leading_leaves(self.entries_view(), self.virt_addr_spec(), self.level_spec(), first, last);
                &&& r@.len() >= lead.len()
                &&& forall|k: int| 0 <= k < lead.len() ==> walk_value_view(#[trigger] r@[k]) == lead[k]
                &&& no_table_between(self.entries_view(), self.level_spec(), first, last) ==> r@.len() == lead.len()
            }),
    {
        let mut out: Vec<PageTableIteratorValue> = Vec::new();
        self.walk(pid, range_start, range_end, &mut out);
        proof {
            let first = index_spec(range_start as u64, self.level) as int;
            let last = index_spec(range_end as u64, self.level) + 1;
            let lead = leading_leaves(self.entries_view(), self.virt_addr, self.level, first, last);
            assert forall|k: int| 0 <= k < lead.len() implies walk_value_view(#[trigger] out@[k]) == lead[k] by {
                assert(out@[0 + k] == out@[k]);
            }
        }
        out
    }
}

/// The last of `tables` that lies at physical address `phys`: the one that
/// is there after all of them were written in order.
pub open spec fn table_at(tables: Seq<PageTable>, phys: usize) -> Option<int>
    decreases tables.len(),
{
    if tables.len() == 0 {
        None
    } else if tables.last().phys_addr_spec().value == phys {
        Some(tables.len() - 1)
    } else {
        table_at(tables.drop_last(), phys)
    }
}

/// The values of a walk as plain values.
pub open spec fn values_view(s: Seq<PageTableIteratorValue>) -> Seq<(u64, u8, u64)> {
    Seq::new(s.len(), |i: int| walk_value_view(s[i]))
}

/// The present leaf entries (pages and huge pages) of a table of `level`
/// covering addresses from `virt` with `entries`, from entry `idx` up to the
/// entry of `re`, in order, with the tables below taken from `tables` (the
/// last one at the address an entry points to, which is the one there after
/// `tables` were written in order).  Below the entry of `rs`
/// only entries from the index of `rs` on count, below that of `re` only
/// those up to its index.  A table that `tables` does not hold ends the walk
/// of the table that points to it.
pub open spec fn walk_from(
    tables: Seq<PageTable>,
    entries: Seq<u64>,
    virt: u64,
    level: u8,
    rs: usize,
    re: usize,
    idx: int,
) -> Seq<(u64, u8, u64)>
    decreases 3 - level, 512 - idx,
{
    let first = index_spec(rs as u64, level) as int;
    let last = index_spec(re as u64, level) + 1;
    if level > 3 || idx < 0 || idx >= last || last > 512 {
        Seq::empty()
    } else {
        let e = entries[idx];
        let c = entry_virt_addr(virt, idx as u64, level);
        if e & 1 == 0 {
            walk_from(tables, entries, virt, level, rs, re, idx + 1)
        } else if level == 3 || e & 0x80 == 0x80 {
            seq![(c, level, e)] + walk_from(tables, entries, virt, level, rs, re, idx + 1)
        } else {
            match table_at(tables, (e & ADDR_MASK) as usize) {
                None => Seq::empty(),
                Some(k) => {
                    let s: usize = if idx > first { 0 } else { rs };
                    let en: usize = if idx < last - 1 { usize::MAX } else { re };
                    walk_from(
                        tables,
                        tables[k].entries_view(),
                        c,
                        (level + 1) as u8,
                        s,
                        en,
                        index_spec(s as u64, (level + 1) as u8) as int,
                    ) + walk_from(tables, entries, virt, level, rs, re, idx + 1)
                },
            }
        }
    }
}

proof fn lemma_table_at_in_range(tables: Seq<PageTable>, phys: usize)
    ensures
        table_at(tables, phys) matches Some(i) ==> 0 <= i < tables.len() && tables[i].phys_addr_spec().value == phys,
    decreases tables.len(),
{
    if tables.len() > 0 {
        lemma_table_at_in_range(tables.drop_last(), phys);
    }
}

/// The last of `tables` at physical address `phys`.
fn find_table(tables: &Vec<PageTable>, phys: usize) -> (r: Option<usize>)
    ensures
        match table_at(tables@, phys) {
            None => r is None,
            Some(i) => 0 <= i < tables@.len() && (r matches Some(k) && k == i),
        },
        r matches Some(k) ==> k < tables@.len() && tables@[k as int].phys_addr_spec().value == phys,
{
    proof {
        lemma_table_at_in_range(tables@, phys);
    }
    let mut i: usize = tables.len();
    assert(tables@.take(i as int) =~= tables@);
    while i > 0
        invariant
            i <= tables@.len(),
            table_at(tables@.take(i as int), phys) == table_at(tables@, phys),
        decreases i,
    {
        assert(tables@.take(i as int).drop_last() =~= tables@.take(i - 1));
        assert(tables@.take(i as int).last() == tables@[i - 1]);
        if tables[i - 1].phys_addr.value == phys {
            return Some(i - 1);
        }
        i -= 1;
    }
    assert(tables@.take(0) =~= Seq::<PageTable>::empty());
    None
}

/// Appends to `out` the leaf entries of the tree under `table` (whose
/// entries are those of a table of `level` covering addresses from `virt`)
/// between the indices of `rs` and `re`, with the tables below taken from
/// `tables`; see `walk_from`.
pub fn walk_tables(
    tables: &Vec<PageTable>,
    table: &PageTable,
    virt: u64,
    level: u8,
    rs: usize,
    re: usize,
    out: &mut Vec<PageTableIteratorValue>,
)
    requires
        table.wf(),
        all_wf(tables@),
        level <= 3,
        virt & region_mask(level) == 0,
    ensures
        values_view(final(out)@) == values_view(old(out)@) + walk_from(
            tables@,
            table.entries_view(),
            virt,
            level,
            rs,
            re,
            index_spec(rs as u64, level) as int,
        ),
    decreases 3 - level,
{
    let shift = get_shift(level);
    let start = get_index(rs as u64, level) as usize;
    let end = get_index(re as u64, level) as usize + 1;
    let mut idx = start;
    let ghost ents = table.entries_view();
    let ghost total = walk_from(tables@, ents, virt, level, rs, re, start as int);
    let ghost out0 = values_view(out@);
    while idx < end
        invariant
            table.wf(),
            all_wf(tables@),
            level <= 3,
            shift == shift_spec(level),
            virt & region_mask(level) == 0,
            ents == table.entries_view(),
            start == index_spec(rs as u64, level),
            end == index_spec(re as u64, level) + 1,
            end <= ENTRY_COUNT,
            start <= idx,
            idx <= end || idx == start,
            values_view(out@) + walk_from(tables@, ents, virt, level, rs, re, idx as int) == out0 + total,
            out0 == values_view(old(out)@),
            total == walk_from(tables@, ents, virt, level, rs, re, start as int),
        decreases end - idx,
    {
        let entry = table.entries[idx];
        assert(entry@ == ents[idx as int]);
        proof {
            lemma_entry_virt_addr(virt, idx as u64, level);
            let v = entry@;
            lemma_flag_bits(v);
        }
        let mut virt_addr = virt + ((idx as u64) << shift);
        if virt_addr >> 47u64 != 0 {
            virt_addr = virt_addr | 0xFFFF_0000_0000_0000u64;
        }
        assert(virt_addr == entry_virt_addr(virt, idx as u64, level));
        let ghost before = values_view(out@);
        let ghost rest = walk_from(tables@, ents, virt, level, rs, re, idx + 1);
        let flags = entry.flags();
        if flags.contains(PageTableFlags::present()) {
            if level == 3 || flags.contains(PageTableFlags::huge_page()) {
                out.push(PageTableIteratorValue { virt_addr, level, entry });
                assert(walk_from(tables@, ents, virt, level, rs, re, idx as int) == seq![(virt_addr, level, entry@)] + rest);
                assert(values_view(out@) =~= before.push((virt_addr, level, entry@)));
                assert(before.push((virt_addr, level, entry@)) + rest =~= before + (seq![(virt_addr, level, entry@)] + rest));
            } else {
                match find_table(tables, entry.addr() as usize) {
                    None => {
                        assert(walk_from(tables@, ents, virt, level, rs, re, idx as int) == Seq::<(u64, u8, u64)>::empty());
                        assert(before + Seq::<(u64, u8, u64)>::empty() =~= before);
                        assert(values_view(out@) == out0 + total);
                        return;
                    },
                    Some(k) => {
                        let s: usize = if idx > start { 0 } else { rs };
                        let e: usize = if idx < end - 1 { usize::MAX } else { re };
                        let ghost sub = walk_from(
                            tables@,
                            tables@[k as int].entries_view(),
                            virt_addr,
                            (level + 1) as u8,
                            s,
                            e,
                            index_spec(s as u64, (level + 1) as u8) as int,
                        );
                        assert(walk_from(tables@, ents, virt, level, rs, re, idx as int) == sub + rest);
                        proof {
                            lemma_entry_virt_addr(virt, idx as u64, level);
                        }
                        walk_tables(tables, &tables[k], virt_addr, level + 1, s, e, out);
                        assert(values_view(out@) + rest =~= before + (sub + rest));
                    },
                }
            }
        } else {
            assert(walk_from(tables@, ents, virt, level, rs, re, idx as int) == rest);
        }
        idx += 1;
    }
    assert(walk_from(tables@, ents, virt, level, rs, re, idx as int) =~= Seq::<(u64, u8, u64)>::empty());
    assert(values_view(out@) + Seq::<(u64, u8, u64)>::empty() =~= values_view(out@));
}

} // verus!

//! Layout of the core files that vmsh writes of a virtual machine: an ELF-64
//! core file with a note segment for the vcpus and one load segment for each
//! memory mapping of the hypervisor.
use vstd::bytes::{
    spec_u16_to_le_bytes, spec_u32_to_le_bytes, spec_u64_to_le_bytes, u16_to_le_bytes, u32_to_le_bytes,
    u64_to_le_bytes,
};
use vstd::prelude::*;

use crate::cpu::Regs;
use crate::elf::{
    elf_prpsinfo, elf_prstatus, elf_siginfo, timeval, NT_PRPSINFO, NT_PRSTATUS, NT_PRXFPREG, NT_PRXREG,
};
use crate::elf::{
    Ehdr, Nhdr, Phdr, EHDR_SIZE, ELFARCH, ELFCLASS, ELFDATA2, ELFMAG0, ELFMAG1, ELFMAG2, ELFMAG3, ET_CORE, EV_CURRENT,
    NHDR_SIZE, PF_W, PF_X, PHDR_SIZE, PT_LOAD, PT_NOTE, SHDR_SIZE, SHN_UNDEF,
};
use crate::error::Error;
use crate::kvm::cpus::{kvm_msr_entry, kvm_sregs};
use crate::page_math::{page_align_spec, page_align_with};
use crate::proc::Mapping;
use crate::prot::{ProtFlags, PROT_EXEC_BIT, PROT_READ_BIT, PROT_WRITE_BIT};

verus! {

/// Extra registers of a vcpu in a core file (`NT_PRXREG`).
#[allow(non_camel_case_types)]
#[derive(Clone, Copy)]
pub struct core_user {
    pub vcpu: usize,
    pub sregs: kvm_sregs,
    pub msrs: [kvm_msr_entry; 1],
}

/// The segment flags of memory with protection `f`: readable or executable
/// memory is marked executable, writable memory writable.
pub open spec fn protection_flags_spec(f: ProtFlags) -> u32 {
    let x = f.bits & PROT_READ_BIT == PROT_READ_BIT || f.bits & PROT_EXEC_BIT == PROT_EXEC_BIT;
    let w = f.bits & PROT_WRITE_BIT == PROT_WRITE_BIT;
    (if x { PF_X } else { 0 }) | (if w { PF_W } else { 0 })
}

/// A segment is writable exactly when its memory is, executable when its
/// memory is readable or executable, and has no other flag.
pub proof fn lemma_protection_flags_bits(f: ProtFlags)
    ensures
        protection_flags_spec(f) & PF_W != 0 <==> f.bits & PROT_WRITE_BIT == PROT_WRITE_BIT,
        protection_flags_spec(f) & PF_X != 0 <==> (f.bits & PROT_READ_BIT == PROT_READ_BIT || f.bits & PROT_EXEC_BIT
            == PROT_EXEC_BIT),
        protection_flags_spec(f) & !(PF_X | PF_W) == 0,
{
    assert({
        &&& (0u32 | 0u32) & 2 == 0 && (1u32 | 0u32) & 2 == 0 && (0u32 | 2u32) & 2 != 0 && (1u32 | 2u32) & 2 != 0
        &&& (0u32 | 0u32) & 1 == 0 && (1u32 | 0u32) & 1 != 0 && (0u32 | 2u32) & 1 == 0 && (1u32 | 2u32) & 1 != 0
        &&& (0u32 | 0u32) & !3u32 == 0 && (1u32 | 0u32) & !3u32 == 0 && (0u32 | 2u32) & !3u32 == 0 && (1u32 | 2u32)
            & !3u32 == 0
    }) by (bit_vector);
    assert(PF_X == 1u32 && PF_W == 2u32 && (PF_X | PF_W) == 3u32) by (bit_vector);
    let x = f.bits & PROT_READ_BIT == PROT_READ_BIT || f.bits & PROT_EXEC_BIT == PROT_EXEC_BIT;
    let w = f.bits & PROT_WRITE_BIT == PROT_WRITE_BIT;
    assert(protection_flags_spec(f) == (if x { 1u32 } else { 0u32 }) | (if w { 2u32 } else { 0u32 }));
}

/// The segment flags of memory with protection `f`.  A readable mapping is
/// marked executable (`PF_X`), not readable.
pub fn protection_flags(f: &ProtFlags) -> (r: u32)
    ensures
        r == protection_flags_spec(*f),
        r & PF_W != 0 <==> f.bits & PROT_WRITE_BIT == PROT_WRITE_BIT,
        r & PF_X != 0 <==> (f.bits & PROT_READ_BIT == PROT_READ_BIT || f.bits & PROT_EXEC_BIT == PROT_EXEC_BIT),
        r & !(PF_X | PF_W) == 0,
{
    proof {
        lemma_protection_flags_bits(*f);
    }
    let a: u32 = if f.contains(ProtFlags::prot_read()) {
        PF_X
    } else {
        0
    };
    let b: u32 = if f.contains(ProtFlags::prot_write()) {
        PF_W
    } else {
        0
    };
    let c: u32 = if f.contains(ProtFlags::prot_exec()) {
        PF_X
    } else {
        0
    };
    proof {
        assert(a <= 1 && c <= 1 && (b == 0 || b == 2) ==> (a | b) | c == (if a == 1 || c == 1 { 1u32 } else { 0u32 }) | b)
            by (bit_vector);
    }
    a | b | c
}

/// The file header of a core file with `phnum` program headers.
pub open spec fn elf_header_spec(phnum: u16) -> Ehdr {
    Ehdr {
        e_ident: [ELFMAG0, ELFMAG1, ELFMAG2, ELFMAG3, ELFCLASS, ELFDATA2, 0, 0, 0, 0, 0, 0, 0, 0, 0, 0],
        e_type: ET_CORE,
        e_machine: ELFARCH,
        e_version: EV_CURRENT,
        e_entry: 0,
        e_phoff: EHDR_SIZE as u64,
        e_shoff: 0,
        e_flags: 0,
        e_ehsize: EHDR_SIZE as u16,
        e_phentsize: PHDR_SIZE as u16,
        e_phnum: phnum,
        e_shentsize: SHDR_SIZE as u16,
        e_shnum: 0,
        e_shstrndx: SHN_UNDEF,
    }
}

/// The file header of a core file with `phnum` program headers, which follow
/// the file header.
pub fn elf_header(phnum: u16) -> (r: Ehdr)
    ensures
        r == elf_header_spec(phnum),
{
    Ehdr {
        e_ident: [ELFMAG0, ELFMAG1, ELFMAG2, ELFMAG3, ELFCLASS, ELFDATA2, 0, 0, 0, 0, 0, 0, 0, 0, 0, 0],
        e_type: ET_CORE,
        e_machine: ELFARCH,
        e_version: EV_CURRENT,
        e_entry: 0,
        e_phoff: EHDR_SIZE as u64,
        e_shoff: 0,
        e_flags: 0,
        e_ehsize: EHDR_SIZE as u16,
        e_phentsize: PHDR_SIZE as u16,
        e_phnum: phnum,
        e_shentsize: SHDR_SIZE as u16,
        e_shnum: 0,
        e_shstrndx: SHN_UNDEF,
    }
}

/// The program header of the note segment: `file_size` bytes at
/// `core_size`.
pub open spec fn pt_note_header_spec(core_size: u64, file_size: u64) -> Phdr {
    Phdr {
        p_type: PT_NOTE,
        p_flags: 0,
        p_offset: core_size,
        p_vaddr: 0,
        p_paddr: 0,
        p_filesz: file_size,
        p_memsz: 0,
        p_align: 0,
    }
}

/// The program header of the note segment: `file_size` bytes at
/// `core_size`.
pub fn pt_note_header(core_size: u64, file_size: u64) -> (r: Phdr)
    ensures
        r == pt_note_header_spec(core_size, file_size),
{
    Phdr {
        p_type: PT_NOTE,
        p_flags: 0,
        p_offset: core_size,
        p_vaddr: 0,
        p_paddr: 0,
        p_filesz: file_size,
        p_memsz: 0,
        p_align: 0,
    }
}

/// The program header of the load segment of mapping `m` at `offset` in
/// the file, aligned to pages of `page_size` bytes: its guest physical
/// address is the segment's address.
pub open spec fn pt_load_header_spec(m: Mapping, offset: u64, page_size: usize) -> Phdr {
    Phdr {
        p_type: PT_LOAD,
        p_flags: protection_flags_spec(m.prot_flags),
        p_offset: offset,
        p_vaddr: m.phys_addr as u64,
        p_paddr: m.phys_addr as u64,
        p_filesz: (m.end - m.start) as u64,
        p_memsz: (m.end - m.start) as u64,
        p_align: page_size as u64,
    }
}

/// The program header of the load segment of mapping `m` at `offset` in
/// the file, aligned to pages of `page_size` bytes.
pub fn pt_load_header(m: &Mapping, offset: u64, page_size: usize) -> (r: Phdr)
    requires
        m.start <= m.end,
    ensures
        r == pt_load_header_spec(*m, offset, page_size),
        r.p_type == PT_LOAD,
        r.p_offset == offset,
        r.p_filesz == m.end - m.start,
        r.p_memsz == m.end - m.start,
        r.p_vaddr == m.phys_addr,
        r.p_paddr == m.phys_addr,
        r.p_align == page_size,
{
    Phdr {
        p_type: PT_LOAD,
        p_flags: protection_flags(&m.prot_flags),
        p_offset: offset,
        p_vaddr: m.phys_addr as u64,
        p_paddr: m.phys_addr as u64,
        p_filesz: m.size() as u64,
        p_memsz: m.size() as u64,
        p_align: page_size as u64,
    }
}

/// Bytes of a note with a payload of type `T`: the note header, the name
/// padded to eight bytes, and the payload.
pub fn note_size<T>() -> (r: usize)
    requires
        NHDR_SIZE + 8 + vstd::layout::size_of::<T>() <= usize::MAX,
    ensures
        r == NHDR_SIZE + 8 + vstd::layout::size_of::<T>(),
{
    // name is 4 bit aligned, we write CORE\0 to it
    let name_size: usize = 8;
    NHDR_SIZE + name_size + core::mem::size_of::<T>()
}

/// The header of a note of type `ntype` named `CORE` with a payload of
/// `descsz` bytes.
pub fn note_header(ntype: u32, descsz: u32) -> (r: Nhdr)
    ensures
        r == (Nhdr { n_namesz: 5, n_descsz: descsz, n_type: ntype }),
{
    Nhdr { n_namesz: 5, n_descsz: descsz, n_type: ntype }
}

/// The bytes of a file header as it lies in a little endian file.
pub open spec fn ehdr_bytes(h: Ehdr) -> Seq<u8> {
    h.e_ident@ + spec_u16_to_le_bytes(h.e_type) + spec_u16_to_le_bytes(h.e_machine) + spec_u32_to_le_bytes(
        h.e_version,
    ) + spec_u64_to_le_bytes(h.e_entry) + spec_u64_to_le_bytes(h.e_phoff) + spec_u64_to_le_bytes(h.e_shoff)
        + spec_u32_to_le_bytes(h.e_flags) + spec_u16_to_le_bytes(h.e_ehsize) + spec_u16_to_le_bytes(h.e_phentsize)
        + spec_u16_to_le_bytes(h.e_phnum) + spec_u16_to_le_bytes(h.e_shentsize) + spec_u16_to_le_bytes(h.e_shnum)
        + spec_u16_to_le_bytes(h.e_shstrndx)
}

/// The bytes of a program header as it lies in a little endian file.
pub open spec fn phdr_bytes(h: Phdr) -> Seq<u8> {
    spec_u32_to_le_bytes(h.p_type) + spec_u32_to_le_bytes(h.p_flags) + spec_u64_to_le_bytes(h.p_offset)
        + spec_u64_to_le_bytes(h.p_vaddr) + spec_u64_to_le_bytes(h.p_paddr) + spec_u64_to_le_bytes(h.p_filesz)
        + spec_u64_to_le_bytes(h.p_memsz) + spec_u64_to_le_bytes(h.p_align)
}

/// The bytes of a note header as it lies in a little endian file.
pub open spec fn nhdr_bytes(h: Nhdr) -> Seq<u8> {
    spec_u32_to_le_bytes(h.n_namesz) + spec_u32_to_le_bytes(h.n_descsz) + spec_u32_to_le_bytes(h.n_type)
}

impl Ehdr {
    /// The header as it lies in a little endian file.
    pub fn to_bytes(&self) -> (r: Vec<u8>)
        ensures
            r@ == ehdr_bytes(*self),
            r@.len() == EHDR_SIZE,
    {
        proof {
            vstd::bytes::lemma_auto_spec_u16_to_from_le_bytes();
            vstd::bytes::lemma_auto_spec_u32_to_from_le_bytes();
            vstd::bytes::lemma_auto_spec_u64_to_from_le_bytes();
        }
        let mut out = vstd::slice::slice_to_vec(self.e_ident.as_slice());
        out.append(&mut u16_to_le_bytes(self.e_type));
        out.append(&mut u16_to_le_bytes(self.e_machine));
        out.append(&mut u32_to_le_bytes(self.e_version));
        out.append(&mut u64_to_le_bytes(self.e_entry));
        out.append(&mut u64_to_le_bytes(self.e_phoff));
        out.append(&mut u64_to_le_bytes(self.e_shoff));
        out.append(&mut u32_to_le_bytes(self.e_flags));
        out.append(&mut u16_to_le_bytes(self.e_ehsize));
        out.append(&mut u16_to_le_bytes(self.e_phentsize));
        out.append(&mut u16_to_le_bytes(self.e_phnum));
        out.append(&mut u16_to_le_bytes(self.e_shentsize));
        out.append(&mut u16_to_le_bytes(self.e_shnum));
        out.append(&mut u16_to_le_bytes(self.e_shstrndx));
        out
    }
}

impl Phdr {
    /// The header as it lies in a little endian file.
    pub fn to_bytes(&self) -> (r: Vec<u8>)
        ensures
            r@ == phdr_bytes(*self),
            r@.len() == PHDR_SIZE,
    {
        proof {
            vstd::bytes::lemma_auto_spec_u32_to_from_le_bytes();
            vstd::bytes::lemma_auto_spec_u64_to_from_le_bytes();
        }
        let mut out = u32_to_le_bytes(self.p_type);
        out.append(&mut u32_to_le_bytes(self.p_flags));
        out.append(&mut u64_to_le_bytes(self.p_offset));
        out.append(&mut u64_to_le_bytes(self.p_vaddr));
        out.append(&mut u64_to_le_bytes(self.p_paddr));
        out.append(&mut u64_to_le_bytes(self.p_filesz));
        out.append(&mut u64_to_le_bytes(self.p_memsz));
        out.append(&mut u64_to_le_bytes(self.p_align));
        out
    }
}

impl Nhdr {
    /// The header as it lies in a little endian file.
    pub fn to_bytes(&self) -> (r: Vec<u8>)
        ensures
            r@ == nhdr_bytes(*self),
            r@.len() == NHDR_SIZE,
    {
        proof {
            vstd::bytes::lemma_auto_spec_u32_to_from_le_bytes();
        }
        let mut out = u32_to_le_bytes(self.n_namesz);
        out.append(&mut u32_to_le_bytes(self.n_descsz));
        out.append(&mut u32_to_le_bytes(self.n_type));
        out
    }
}

/// The load headers of `maps`, one after another in the file from
/// `offset`, and where the last one ends; `None` if the file would outgrow
/// the address space.
pub open spec fn load_headers_spec(maps: Seq<Mapping>, offset: usize, page_size: usize) -> Option<(Seq<Phdr>, usize)>
    decreases maps.len(),
{
    if maps.len() == 0 {
        Some((Seq::empty(), offset))
    } else {
        let m = maps[0];
        let h = pt_load_header_spec(m, offset as u64, page_size);
        if offset + (m.end - m.start) > usize::MAX {
            None
        } else {
            match load_headers_spec(maps.drop_first(), (offset + (m.end - m.start)) as usize, page_size) {
                None => None,
                Some(rest) => Some((seq![h] + rest.0, rest.1)),
            }
        }
    }
}

/// Each load segment covers its mapping: the load headers of `maps` come
/// one per mapping, in order, each holding the mapping's whole size in the
/// file and in memory at the mapping's guest physical address, the
/// segments one after the other in the file from `offset` on, up to where
/// the headers end.
pub proof fn lemma_load_headers_cover(maps: Seq<Mapping>, offset: usize, page_size: usize)
    requires
        forall|i: int| 0 <= i < maps.len() ==> (#[trigger] maps[i]).start <= maps[i].end,
    ensures
        load_headers_spec(maps, offset, page_size) matches Some((hs, end)) ==> {
            &&& hs.len() == maps.len()
            &&& offset <= end
            &&& forall|i: int|
                0 <= i < maps.len() ==> {
                    &&& (#[trigger] hs[i]).p_type == PT_LOAD
                    &&& hs[i].p_filesz == maps[i].end - maps[i].start
                    &&& hs[i].p_memsz == maps[i].end - maps[i].start
                    &&& hs[i].p_vaddr == maps[i].phys_addr
                    &&& hs[i].p_paddr == maps[i].phys_addr
                    &&& offset <= hs[i].p_offset
                    &&& hs[i].p_offset + hs[i].p_filesz <= end
                }
            &&& forall|i: int| 0 < i < maps.len() ==> #[trigger] hs[i].p_offset == hs[i - 1].p_offset + hs[i - 1].p_filesz
        },
    decreases maps.len(),
{
    if maps.len() > 0 {
        let m = maps[0];
        let rest_maps = maps.drop_first();
        if offset + (m.end - m.start) <= usize::MAX {
            let next = (offset + (m.end - m.start)) as usize;
            lemma_load_headers_cover(rest_maps, next, page_size);
            if let Some((hs, end)) = load_headers_spec(maps, offset, page_size) {
                let rest = load_headers_spec(rest_maps, next, page_size).unwrap();
                let h = pt_load_header_spec(m, offset as u64, page_size);
                assert(hs == seq![h] + rest.0);
                assert forall|i: int| 0 <= i < maps.len() implies {
                    &&& (#[trigger] hs[i]).p_type == PT_LOAD
                    &&& hs[i].p_filesz == maps[i].end - maps[i].start
                    &&& hs[i].p_memsz == maps[i].end - maps[i].start
                    &&& hs[i].p_vaddr == maps[i].phys_addr
                    &&& hs[i].p_paddr == maps[i].phys_addr
                    &&& offset <= hs[i].p_offset
                    &&& hs[i].p_offset + hs[i].p_filesz <= end
                } by {
                    if i > 0 {
                        assert(hs[i] == rest.0[i - 1]);
                        assert(maps[i] == rest_maps[i - 1]);
                    }
                }
                assert forall|i: int| 0 < i < maps.len() implies #[trigger] hs[i].p_offset == hs[i - 1].p_offset
                    + hs[i - 1].p_filesz by {
                    assert(hs[i] == rest.0[i - 1]);
                    if i > 1 {
                        assert(hs[i - 1] == rest.0[i - 2]);
                    }
                }
            }
        }
    }
}

/// The layout of a core file of `maps` whose notes take `pt_note_size`
/// bytes, for pages of `page_size` bytes: the file header, the program
/// headers (the note segment, then one load segment per mapping), the size of
/// the file, and where the memory of the mappings starts in it.  The file
/// header and the program headers come first, then the notes; the memory
/// starts at the next page boundary.
pub open spec fn core_layout_spec(maps: Seq<Mapping>, pt_note_size: usize, page_size: usize) -> Option<
    (Ehdr, Seq<Phdr>, usize, usize),
> {
    // +1 == PT_NOTE section
    let phnum = (maps.len() + 1) as u16;
    let metadata_size = EHDR_SIZE + PHDR_SIZE * phnum;
    if metadata_size + pt_note_size > usize::MAX {
        None
    } else {
        let start = page_align_spec(page_size, (metadata_size + pt_note_size) as usize);
        match load_headers_spec(maps, start, page_size) {
            None => None,
            Some(loads) => Some(
                (
                    elf_header_spec(phnum),
                    seq![pt_note_header_spec(metadata_size as u64, pt_note_size as u64)] + loads.0,
                    loads.1,
                    start,
                ),
            ),
        }
    }
}

/// Where everything goes in a core file.
pub struct CoreLayout {
    /// The file header.
    pub ehdr: Ehdr,
    /// The program headers: the note segment, then one load segment per
    /// mapping.
    pub headers: Vec<Phdr>,
    /// Size of the whole file.
    pub core_size: usize,
    /// Where the memory of the first mapping starts in the file.
    pub dump_offset: usize,
}

/// Lays out a core file of `maps` whose notes take `pt_note_size` bytes,
/// for pages of `page_size` bytes; see `core_layout_spec`.  Fails with
/// `OutOfAddressSpace` if the file would outgrow the address space.
pub fn core_layout(maps: &[Mapping], pt_note_size: usize, page_size: usize) -> (r: Result<CoreLayout, Error>)
    requires
        page_size >= 1,
        forall|i: int| 0 <= i < maps@.len() ==> (#[trigger] maps@[i]).start <= maps@[i].end,
    ensures
        match core_layout_spec(maps@, pt_note_size, page_size) {
            None => r == Err::<CoreLayout, Error>(Error::OutOfAddressSpace),
            Some(l) => r matches Ok(c) && c.ehdr == l.0 && c.headers@ == l.1 && c.core_size == l.2
                && c.dump_offset == l.3,
        },
{
    let n: usize = maps.len();
    let phnum = ((n as u128) + 1) as u16;
    let ehdr = elf_header(phnum);
    let metadata_size: usize = EHDR_SIZE + PHDR_SIZE * (phnum as usize);
    let notes_end = match metadata_size.checked_add(pt_note_size) {
        Some(e) => e,
        None => return Err(Error::OutOfAddressSpace),
    };
    let mut headers: Vec<Phdr> = Vec::new();
    headers.push(pt_note_header(metadata_size as u64, pt_note_size as u64));
    let start = page_align_with(page_size, notes_end);
    let mut core_size = start;
    let ghost total = load_headers_spec(maps@, start, page_size);
    let mut i: usize = 0;
    assert(maps@.skip(0) =~= maps@);
    while i < n
        invariant
            n == maps@.len(),
            i <= n,
            forall|k: int| 0 <= k < maps@.len() ==> (#[trigger] maps@[k]).start <= maps@[k].end,
            total == load_headers_spec(maps@, start, page_size),
            phnum == (maps@.len() + 1) as u16,
            metadata_size == EHDR_SIZE + PHDR_SIZE * phnum,
            metadata_size + pt_note_size <= usize::MAX,
            start == page_align_spec(page_size, (metadata_size + pt_note_size) as usize),
            ehdr == elf_header_spec(phnum),
            headers@.len() >= 1,
            headers@[0] == pt_note_header_spec(metadata_size as u64, pt_note_size as u64),
            match load_headers_spec(maps@.skip(i as int), core_size, page_size) {
                None => total is None,
                Some(rest) => total matches Some(t) && t.0 == headers@.drop_first() + rest.0 && t.1 == rest.1,
            },
        decreases n - i,
    {
        let m = maps[i];
        assert(maps@.skip(i as int)[0] == m);
        assert(maps@.skip(i as int).drop_first() =~= maps@.skip(i + 1));
        let phdr = pt_load_header(&m, core_size as u64, page_size);
        core_size = match core_size.checked_add(m.size()) {
            Some(s) => s,
            None => return Err(Error::OutOfAddressSpace),
        };
        let ghost before = headers@;
        headers.push(phdr);
        proof {
            match load_headers_spec(maps@.skip(i + 1), core_size, page_size) {
                None => {},
                Some(rest) => {
                    assert(before.drop_first() + (seq![phdr] + rest.0) =~= headers@.drop_first() + rest.0);
                },
            }
        }
        i += 1;
    }
    assert(maps@.skip(i as int) =~= Seq::<Mapping>::empty());
    assert(headers@ =~= seq![headers@[0]] + (headers@.drop_first() + Seq::<Phdr>::empty()));
    Ok(CoreLayout { ehdr, headers, core_size, dump_offset: start })
}

/// The registers of `regs` in the order of `pr_reg` of a status note
/// (`struct user_regs_struct`), which is the order of their fields.
pub open spec fn regs_seq(regs: Regs) -> Seq<u64> {
    seq![
        regs.r15, regs.r14, regs.r13, regs.r12, regs.rbp, regs.rbx, regs.r11, regs.r10, regs.r9, regs.r8,
        regs.rax, regs.rcx, regs.rdx, regs.rsi, regs.rdi, regs.orig_rax, regs.rip, regs.cs, regs.eflags,
        regs.rsp, regs.ss, regs.fs_base, regs.gs_base, regs.ds, regs.es, regs.fs, regs.gs,
    ]
}

/// The registers of `regs` as `pr_reg` of a status note holds them.
pub fn regs_array(regs: &Regs) -> (r: [u64; 27])
    ensures
        r@ == regs_seq(*regs),
{
    let r = [
        regs.r15, regs.r14, regs.r13, regs.r12, regs.rbp, regs.rbx, regs.r11, regs.r10, regs.r9, regs.r8,
        regs.rax, regs.rcx, regs.rdx, regs.rsi, regs.rdi, regs.orig_rax, regs.rip, regs.cs, regs.eflags,
        regs.rsp, regs.ss, regs.fs_base, regs.gs_base, regs.ds, regs.es, regs.fs, regs.gs,
    ];
    assert(r@ =~= regs_seq(*regs));
    r
}

/// The name of the hypervisor process in the process note.
pub open spec fn core_fname() -> Seq<u8> {
    seq![113u8, 101, 109, 117, 45, 115, 121, 115, 116, 101, 109, 45, 120, 56, 54, 95]
}

/// The process note of a core file of the guest: process 1, whose parent is
/// itself, named `qemu-system-x86_`, everything else zero.
pub fn core_prpsinfo() -> (r: elf_prpsinfo)
    ensures
        r.pr_state == 0 && r.pr_sname == 0 && r.pr_zomb == 0 && r.pr_nice == 0 && r.pr_flag == 0,
        r.pr_uid == 0 && r.pr_gid == 0,
        r.pr_pid == 1 && r.pr_ppid == 1,
        r.pr_pgrp == 0 && r.pr_sid == 0,
        r.pr_fname@ == core_fname(),
        r.pr_psargs@ == Seq::new(80, |i: int| 0i8),
{
    let r = elf_prpsinfo {
        pr_state: 0,
        pr_sname: 0,
        pr_zomb: 0,
        pr_nice: 0,
        pr_flag: 0,
        pr_uid: 0,
        pr_gid: 0,
        pr_pid: 1,
        pr_ppid: 1,
        pr_pgrp: 0,
        pr_sid: 0,
        pr_fname: [113u8, 101, 109, 117, 45, 115, 121, 115, 116, 101, 109, 45, 120, 56, 54, 95],
        pr_psargs: [0i8; 80],
    };
    assert(r.pr_fname@ =~= core_fname());
    assert(r.pr_psargs@ =~= Seq::new(80, |i: int| 0i8));
    r
}

/// The status note of vcpu `i`: thread `i + 1` of process 1, with no signal
/// and no times, the registers `regs`, and valid floating point registers.
pub fn core_prstatus(i: usize, regs: &Regs) -> (r: elf_prstatus)
    requires
        i < i32::MAX,
    ensures
        r.pr_info.si_signo == 0 && r.pr_info.si_code == 0 && r.pr_info.si_errno == 0,
        r.pr_cursig == 0 && r.pr_sigpend == 0 && r.pr_sighold == 0,
        r.pr_pid == i + 1 && r.pr_ppid == 1,
        r.pr_pgrp == 0 && r.pr_sid == 0,
        r.pr_utime.tv_sec == 0 && r.pr_utime.tv_usec == 0 && r.pr_stime.tv_sec == 0 && r.pr_stime.tv_usec == 0,
        r.pr_cutime.tv_sec == 0 && r.pr_cutime.tv_usec == 0 && r.pr_cstime.tv_sec == 0 && r.pr_cstime.tv_usec == 0,
        r.pr_reg@ == regs_seq(*regs),
        r.pr_fpvalid == 1,
{
    let zero = timeval { tv_sec: 0, tv_usec: 0 };
    elf_prstatus {
        pr_info: elf_siginfo { si_signo: 0, si_code: 0, si_errno: 0 },
        pr_cursig: 0,
        pr_sigpend: 0,
        pr_sighold: 0,
        pr_pid: (i + 1) as i32,
        pr_ppid: 1,
        pr_pgrp: 0,
        pr_sid: 0,
        pr_utime: zero,
        pr_stime: zero,
        pr_cutime: zero,
        pr_cstime: zero,
        pr_reg: regs_array(regs),
        pr_fpvalid: 1,
    }
}

/// Whose name a note carries: `CORE` for the notes of the process and its
/// threads, `LINUX` for the floating point registers.
#[derive(Clone, Copy, Debug, PartialEq, Eq, Structural)]
pub enum NoteOwner {
    Core,
    Linux,
}

/// One note of the note segment: its type, its owner, and, for the notes
/// of a vcpu, the vcpu's index.
#[derive(Clone, Copy, Debug, PartialEq, Eq, Structural)]
pub struct NoteEntry {
    pub n_type: u32,
    pub owner: NoteOwner,
    pub vcpu: Option<usize>,
}

/// The notes of vcpu `i`, in order: its status, its extra registers and
/// its floating point registers.
pub open spec fn vcpu_notes_spec(i: usize) -> Seq<NoteEntry> {
    seq![
        NoteEntry { n_type: NT_PRSTATUS, owner: NoteOwner::Core, vcpu: Some(i) },
        NoteEntry { n_type: NT_PRXREG, owner: NoteOwner::Core, vcpu: Some(i) },
        NoteEntry { n_type: NT_PRXFPREG, owner: NoteOwner::Linux, vcpu: Some(i) },
    ]
}

/// The notes of the first `n` vcpus, vcpu after vcpu.
pub open spec fn vcpus_notes_spec(n: nat) -> Seq<NoteEntry>
    decreases n,
{
    if n == 0 {
        Seq::empty()
    } else {
        vcpus_notes_spec((n - 1) as nat) + vcpu_notes_spec((n - 1) as usize)
    }
}

/// The notes of the note segment for `nvcpus` vcpus, in the order they are
/// written: the process, then the notes of each vcpu.
pub open spec fn note_plan_spec(nvcpus: nat) -> Seq<NoteEntry> {
    seq![NoteEntry { n_type: NT_PRPSINFO, owner: NoteOwner::Core, vcpu: None }] + vcpus_notes_spec(nvcpus)
}

proof fn lemma_vcpus_notes_len(n: nat)
    ensures
        vcpus_notes_spec(n).len() == 3 * n,
    decreases n,
{
    if n > 0 {
        lemma_vcpus_notes_len((n - 1) as nat);
    }
}

/// The notes that the note segment of a core file of `nvcpus` vcpus holds,
/// in the order they are written: the process, then for each vcpu its
/// status, its extra registers and its floating point registers.
pub fn note_plan(nvcpus: usize) -> (r: Vec<NoteEntry>)
    requires
        3 * nvcpus + 1 <= usize::MAX,
    ensures
        r@ == note_plan_spec(nvcpus as nat),
        r@.len() == 3 * nvcpus + 1,
{
    let mut r: Vec<NoteEntry> = Vec::new();
    r.push(NoteEntry { n_type: NT_PRPSINFO, owner: NoteOwner::Core, vcpu: None });
    let mut i: usize = 0;
    while i < nvcpus
        invariant
            i <= nvcpus,
            r@ == seq![NoteEntry { n_type: NT_PRPSINFO, owner: NoteOwner::Core, vcpu: None }] + vcpus_notes_spec(i as nat),
        decreases nvcpus - i,
    {
        let ghost before = r@;
        r.push(NoteEntry { n_type: NT_PRSTATUS, owner: NoteOwner::Core, vcpu: Some(i) });
        r.push(NoteEntry { n_type: NT_PRXREG, owner: NoteOwner::Core, vcpu: Some(i) });
        r.push(NoteEntry { n_type: NT_PRXFPREG, owner: NoteOwner::Linux, vcpu: Some(i) });
        assert(vcpus_notes_spec((i + 1) as nat) == vcpus_notes_spec(i as nat) + vcpu_notes_spec(i));
        assert(r@ =~= seq![NoteEntry { n_type: NT_PRPSINFO, owner: NoteOwner::Core, vcpu: None }] + vcpus_notes_spec(
            (i + 1) as nat,
        ));
        i += 1;
    }
    proof {
        lemma_vcpus_notes_len(nvcpus as nat);
    }
    r
}

} // verus!

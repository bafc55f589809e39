//! Placing a position independent ELF binary above the kernel in the
//! guest's address space: where its segments go, which allocated memory
//! each loaded segment lands in, and the relocations that let it run there.
use vstd::bytes::{spec_u64_to_le_bytes, u64_to_le_bytes};
use vstd::hash_map::StringHashMap;
use vstd::prelude::*;

use crate::error::Error;
use crate::guest_mem::MappedMemory;
use crate::page_math::{
    is_page_aligned_spec, is_pow2, lemma_mask_is_mod, lemma_page_align_aligned, lemma_page_start_aligned,
    lemma_pow2_positive, page_align_spec, page_align_with, page_start_spec, page_start_with,
};
use crate::prot::{ProtFlags, PROT_EXEC_BIT, PROT_READ_BIT, PROT_WRITE_BIT};
use crate::sort::{sort_by_key, sort_by_key_spec, SortKey};

verus! {

/// Segment flag: executable.
pub const SEGMENT_EXECUTE: u32 = 1;
/// Segment flag: writable.
pub const SEGMENT_WRITE: u32 = 2;

/// A loadable program header of the binary: where the segment wants to be,
/// how much memory it takes and its flags.
#[derive(Clone, Copy, Debug)]
pub struct LoadHeader {
    pub virtual_addr: u64,
    pub mem_size: u64,
    pub flags: u32,
}

/// Memory for one segment: whole pages from `virt_start`, the segment
/// starting `virt_offset` bytes into the first page.
#[derive(Clone, Copy, Debug, PartialEq, Eq, Structural)]
pub struct SegmentAlloc {
    pub virt_start: usize,
    pub virt_offset: usize,
    pub len: usize,
    pub prot: ProtFlags,
}

impl SortKey for SegmentAlloc {
    open spec fn sort_key(&self) -> usize {
        self.virt_start
    }

    /// Segments sort by where they start.
    fn key(&self) -> (r: usize) {
        self.virt_start
    }
}

/// The protection of a segment with `flags`: always readable, executable
/// and writable as its flags say.
pub open spec fn segment_prot_spec(flags: u32) -> ProtFlags {
    let x = flags & SEGMENT_EXECUTE != 0;
    let w = flags & SEGMENT_WRITE != 0;
    ProtFlags {
        bits: if x {
            if w { 7 } else { 5 }
        } else {
            if w { 3 } else { 1 }
        },
    }
}

fn segment_prot(flags: u32) -> (r: ProtFlags)
    ensures
        r == segment_prot_spec(flags),
        r.bits & PROT_READ_BIT != 0,
        r.bits & PROT_WRITE_BIT != 0 <==> flags & SEGMENT_WRITE != 0,
        r.bits & PROT_EXEC_BIT != 0 <==> flags & SEGMENT_EXECUTE != 0,
        r.bits & !7i32 == 0,
{
    proof {
        lemma_segment_prot_follows_flags(flags);
    }
    let mut prot = ProtFlags::prot_read();
    if flags & SEGMENT_EXECUTE != 0 {
        prot = prot.union(ProtFlags::prot_exec());
    }
    if flags & SEGMENT_WRITE != 0 {
        prot = prot.union(ProtFlags::prot_write());
    }
    proof {
        assert(1i32 | 4i32 == 5i32 && 1i32 | 2i32 == 3i32 && 5i32 | 2i32 == 7i32) by (bit_vector);
    }
    prot
}

/// A segment is always readable, writable exactly when its flags say
/// write, executable exactly when they say execute, and nothing else.
pub proof fn lemma_segment_prot_follows_flags(flags: u32)
    ensures
        segment_prot_spec(flags).bits & PROT_READ_BIT != 0,
        segment_prot_spec(flags).bits & PROT_WRITE_BIT != 0 <==> flags & SEGMENT_WRITE != 0,
        segment_prot_spec(flags).bits & PROT_EXEC_BIT != 0 <==> flags & SEGMENT_EXECUTE != 0,
        segment_prot_spec(flags).bits & !7i32 == 0,
{
    assert({
        &&& 1i32 & 1 != 0 && 3i32 & 1 != 0 && 5i32 & 1 != 0 && 7i32 & 1 != 0
        &&& 1i32 & 2 == 0 && 3i32 & 2 != 0 && 5i32 & 2 == 0 && 7i32 & 2 != 0
        &&& 1i32 & 4 == 0 && 3i32 & 4 == 0 && 5i32 & 4 != 0 && 7i32 & 4 != 0
        &&& 1i32 & !7i32 == 0 && 3i32 & !7i32 == 0 && 5i32 & !7i32 == 0 && 7i32 & !7i32 == 0
    }) by (bit_vector);
}

/// The memory for segment `h` of a binary placed at `vbase`, for pages of
/// `ps` bytes: from the page that holds its start to the page boundary after
/// its end; `None` if that leaves the address space.
pub open spec fn segment_alloc_spec(ps: usize, vbase: usize, h: LoadHeader) -> Option<SegmentAlloc> {
    let va = h.virtual_addr as usize;
    let start = page_start_spec(ps, va);
    if vbase + start > usize::MAX || va + h.mem_size as usize > usize::MAX {
        None
    } else {
        let end = page_align_spec(ps, (va + h.mem_size as usize) as usize);
        if end < start {
            None
        } else {
            Some(
                SegmentAlloc {
                    virt_start: (vbase + start) as usize,
                    virt_offset: (va - start) as usize,
                    len: (end - start) as usize,
                    prot: segment_prot_spec(h.flags),
                },
            )
        }
    }
}

/// The memory allocated for a segment covers it: the segment starts
/// `virt_offset` bytes into it, at `vbase` plus its virtual address, the
/// memory starts a whole number of pages above `vbase`, spans whole pages,
/// and reaches at least to the end of the segment.
pub proof fn lemma_segment_alloc_covers(ps: usize, vbase: usize, h: LoadHeader)
    requires
        is_pow2(ps),
        segment_alloc_spec(ps, vbase, h) is Some,
        h.virtual_addr + h.mem_size + ps - 1 <= usize::MAX,
    ensures
        ({
            let a = segment_alloc_spec(ps, vbase, h).unwrap();
            &&& a.virt_start + a.virt_offset == vbase + h.virtual_addr
            &&& a.virt_offset < ps
            &&& is_page_aligned_spec(ps, (a.virt_start - vbase) as usize)
            &&& is_page_aligned_spec(ps, a.len)
            &&& a.virt_offset + h.mem_size <= a.len
        }),
{
    let va = h.virtual_addr as usize;
    let x = (va + h.mem_size as usize) as usize;
    let start = page_start_spec(ps, va);
    let end = page_align_spec(ps, x);
    lemma_pow2_positive(ps);
    lemma_page_start_aligned(ps, va);
    lemma_page_align_aligned(ps, x);
    lemma_mask_is_mod(ps, start);
    lemma_mask_is_mod(ps, end);
    let len = (end - start) as usize;
    lemma_mask_is_mod(ps, len);
    vstd::arithmetic::div_mod::lemma_sub_mod_noop(end as int, start as int, ps as int);
    assert(end % ps == 0 && start % ps == 0);
    assert((0int - 0int) % (ps as int) == 0) by (nonlinear_arith)
        requires
            ps > 0,
    ;
    assert(len % ps == 0);
}

/// The memory for each of `headers`, in their order; `None` if one leaves
/// the address space.
pub open spec fn segment_allocs_spec(ps: usize, vbase: usize, headers: Seq<LoadHeader>) -> Option<Seq<SegmentAlloc>>
    decreases headers.len(),
{
    if headers.len() == 0 {
        Some(Seq::empty())
    } else {
        match segment_allocs_spec(ps, vbase, headers.drop_last()) {
            None => None,
            Some(prev) => match segment_alloc_spec(ps, vbase, headers.last()) {
                None => None,
                Some(a) => Some(prev.push(a)),
            },
        }
    }
}

/// The memory for the segments `headers` of a binary placed at `vbase`
/// (the end of the kernel), for pages of `ps` bytes, sorted by where it
/// starts.  Fails with `OutOfAddressSpace` if a segment would leave the
/// address space and with `NoLoadableSections` if there is none.
pub fn allocate_segments(ps: usize, vbase: usize, headers: &[LoadHeader]) -> (r: Result<Vec<SegmentAlloc>, Error>)
    requires
        ps >= 1,
    ensures
        match segment_allocs_spec(ps, vbase, headers@) {
            None => r == Err::<Vec<SegmentAlloc>, Error>(Error::OutOfAddressSpace),
            Some(s) => if s.len() == 0 {
                r == Err::<Vec<SegmentAlloc>, Error>(Error::NoLoadableSections)
            } else {
                r is Ok && r.unwrap()@ == sort_by_key_spec(s)
            },
        },
{
    let mut allocs: Vec<SegmentAlloc> = Vec::new();
    let mut i: usize = 0;
    assert(headers@.take(0) =~= Seq::<LoadHeader>::empty());
    while i < headers.len()
        invariant
            ps >= 1,
            i <= headers@.len(),
            segment_allocs_spec(ps, vbase, headers@.take(i as int)) == Some(allocs@),
        decreases headers@.len() - i,
    {
        let h = headers[i];
        proof {
            let t = headers@.take(i + 1);
            assert(t.drop_last() =~= headers@.take(i as int));
            assert(t.last() == h);
            lemma_allocs_prefix_fails(ps, vbase, headers@, i + 1);
        }
        let virtual_addr = h.virtual_addr as usize;
        let start = page_start_with(ps, virtual_addr);
        let virt_start = match vbase.checked_add(start) {
            Some(v) => v,
            None => return Err(Error::OutOfAddressSpace),
        };
        let seg_end = match virtual_addr.checked_add(h.mem_size as usize) {
            Some(v) => v,
            None => return Err(Error::OutOfAddressSpace),
        };
        let end = page_align_with(ps, seg_end);
        if end < start {
            return Err(Error::OutOfAddressSpace);
        }
        allocs.push(
            SegmentAlloc { virt_start, virt_offset: virtual_addr - start, len: end - start, prot: segment_prot(h.flags) },
        );
        i += 1;
    }
    assert(headers@.take(headers@.len() as int) =~= headers@);
    if allocs.len() == 0 {
        return Err(Error::NoLoadableSections);
    }
    Ok(sort_by_key(&allocs))
}

/// When the memory of a prefix of the headers cannot be placed, neither can
/// that of all of them.
proof fn lemma_allocs_prefix_fails(ps: usize, vbase: usize, headers: Seq<LoadHeader>, n: int)
    requires
        0 <= n <= headers.len(),
    ensures
        segment_allocs_spec(ps, vbase, headers.take(n)) is None ==> segment_allocs_spec(ps, vbase, headers) is None,
    decreases headers.len() - n,
{
    if n < headers.len() {
        let t = headers.take(n + 1);
        assert(t.drop_last() =~= headers.take(n));
        lemma_allocs_prefix_fails(ps, vbase, headers, n + 1);
    } else {
        assert(headers.take(n) =~= headers);
    }
}

/// A loaded segment: its bytes, the memory it lands in, and how far into
/// that memory's first page it starts.
#[derive(Debug)]
pub struct Loadable {
    pub content: Vec<u8>,
    pub mapping: MappedMemory,
    pub load_offset: usize,
}

/// The first of `mappings` that starts at `page`.
pub open spec fn mapping_at_spec(mappings: Seq<MappedMemory>, page: usize) -> Option<int>
    decreases mappings.len(),
{
    if mappings.len() == 0 {
        None
    } else {
        match mapping_at_spec(mappings.drop_last(), page) {
            Some(i) => Some(i),
            None => if mappings.last().virt_start == page {
                Some(mappings.len() - 1)
            } else {
                None
            },
        }
    }
}

fn mapping_at(mappings: &[MappedMemory], page: usize) -> (r: Option<usize>)
    ensures
        match mapping_at_spec(mappings@, page) {
            None => r is None,
            Some(i) => r matches Some(k) && k == i,
        },
        r matches Some(i) ==> i < mappings@.len() && mappings@[i as int].virt_start == page,
{
    let mut i: usize = 0;
    assert(mappings@.take(0) =~= Seq::<MappedMemory>::empty());
    while i < mappings.len()
        invariant
            i <= mappings@.len(),
            mapping_at_spec(mappings@.take(i as int), page) is None,
        decreases mappings@.len() - i,
    {
        let t = Ghost(mappings@.take(i + 1));
        assert(t@.drop_last() =~= mappings@.take(i as int));
        if mappings[i].virt_start == page {
            proof {
                lemma_mapping_at_prefix(mappings@, page, i + 1);
            }
            return Some(i);
        }
        i += 1;
    }
    assert(mappings@.take(mappings@.len() as int) =~= mappings@);
    None
}

proof fn lemma_mapping_at_in_range(mappings: Seq<MappedMemory>, page: usize)
    ensures
        mapping_at_spec(mappings, page) matches Some(i) ==> 0 <= i < mappings.len(),
    decreases mappings.len(),
{
    if mappings.len() > 0 {
        lemma_mapping_at_in_range(mappings.drop_last(), page);
    }
}

proof fn lemma_mapping_at_prefix(mappings: Seq<MappedMemory>, page: usize, n: int)
    requires
        0 <= n <= mappings.len(),
        mapping_at_spec(mappings.take(n), page) is Some,
    ensures
        mapping_at_spec(mappings, page) == mapping_at_spec(mappings.take(n), page),
    decreases mappings.len() - n,
{
    if n < mappings.len() {
        let t = mappings.take(n + 1);
        assert(t.drop_last() =~= mappings.take(n));
        lemma_mapping_at_prefix(mappings, page, n + 1);
    } else {
        assert(mappings.take(n) =~= mappings);
    }
}

/// Takes the bytes `region` of a segment that the binary places at `base`
/// into the memory allocated for it: the mapping (of `mappings`, allocated
/// for the binary placed at `vbase` with pages of `ps` bytes) that starts at
/// the page holding it, with the offset its allocation recorded.  Fails with
/// `UnallocatedLoadable` if no memory was allocated there, and with
/// `OutOfAddressSpace` if the address leaves the address space.
pub fn load(
    mappings: &[MappedMemory],
    load_offsets: &[usize],
    ps: usize,
    vbase: usize,
    base: u64,
    region: &[u8],
) -> (r: Result<Loadable, Error>)
    requires
        ps >= 1,
        load_offsets@.len() == mappings@.len(),
    ensures
        vbase + base > usize::MAX ==> r == Err::<Loadable, Error>(Error::OutOfAddressSpace),
        vbase + base <= usize::MAX ==> match mapping_at_spec(mappings@, page_start_spec(ps, (vbase + base) as usize)) {
            None => r == Err::<Loadable, Error>(Error::UnallocatedLoadable),
            Some(i) => r matches Ok(l) && l.content@ == region@ && l.mapping == mappings@[i] && l.load_offset
                == load_offsets@[i],
        },
{
    proof {
        lemma_mapping_at_in_range(mappings@, page_start_spec(ps, (vbase + base) as usize));
    }
    if base > usize::MAX as u64 {
        return Err(Error::OutOfAddressSpace);
    }
    let start = match vbase.checked_add(base as usize) {
        Some(s) => s,
        None => return Err(Error::OutOfAddressSpace),
    };
    let idx = match mapping_at(mappings, page_start_with(ps, start)) {
        Some(i) => i,
        None => return Err(Error::UnallocatedLoadable),
    };
    Ok(Loadable { content: vstd::slice::slice_to_vec(region), mapping: mappings[idx], load_offset: load_offsets[idx] })
}

/// What a loaded segment holds, as plain values.
pub open spec fn loadable_view(l: Loadable) -> (Seq<u8>, MappedMemory, usize) {
    (l.content@, l.mapping, l.load_offset)
}

/// The first loaded segment whose memory holds `addr` (past its first
/// byte, as `MappedMemory::contains` counts).
pub open spec fn loadable_for_spec(ls: Seq<(Seq<u8>, MappedMemory, usize)>, addr: usize) -> Option<int>
    decreases ls.len(),
{
    if ls.len() == 0 {
        None
    } else {
        match loadable_for_spec(ls.drop_last(), addr) {
            Some(i) => Some(i),
            None => {
                let m = ls.last().1;
                if m.virt_start < addr && addr < m.virt_start + m.len {
                    Some(ls.len() - 1)
                } else {
                    None
                }
            },
        }
    }
}

/// `content` with the eight bytes at `start` replaced by `value` in little
/// endian.
pub open spec fn patched(content: Seq<u8>, start: int, value: u64) -> Seq<u8> {
    content.subrange(0, start) + spec_u64_to_le_bytes(value) + content.subrange(start + 8, content.len() as int)
}

/// The outcome of writing `value` for a relocation at `addr`: the loaded
/// segments with the word patched, or why it cannot be done.
pub open spec fn relocate_spec(ls: Seq<(Seq<u8>, MappedMemory, usize)>, addr: usize, value: u64) -> Result<
    Seq<(Seq<u8>, MappedMemory, usize)>,
    Error,
> {
    match loadable_for_spec(ls, addr) {
        None => Err(Error::NoLoadableForRelocation),
        Some(i) => {
            let l = ls[i];
            let base = l.1.virt_start + l.2;
            if addr < base || (addr - base) + 8 > l.0.len() {
                Err(Error::RelocationOutOfBounds)
            } else {
                Ok(ls.update(i, (patched(l.0, addr - base, value), l.1, l.2)))
            }
        },
    }
}

/// A relocation rewrites one word and nothing else: the loaded segments
/// keep their number, memory, offsets and lengths; the eight bytes at `addr`
/// in the first segment whose memory holds it become `value` in little
/// endian; every other byte stays as it was.
pub proof fn lemma_relocation_writes_one_word(ls: Seq<(Seq<u8>, MappedMemory, usize)>, addr: usize, value: u64)
    requires
        relocate_spec(ls, addr, value) is Ok,
    ensures
        ({
            let after = relocate_spec(ls, addr, value).unwrap();
            let k = loadable_for_spec(ls, addr).unwrap();
            let start = addr - (ls[k].1.virt_start + ls[k].2);
            &&& after.len() == ls.len()
            &&& forall|i: int|
                0 <= i < ls.len() ==> #[trigger] after[i].1 == ls[i].1 && after[i].2 == ls[i].2 && after[i].0.len()
                    == ls[i].0.len()
            &&& after[k].0.subrange(start, start + 8) == spec_u64_to_le_bytes(value)
            &&& forall|i: int, j: int|
                0 <= i < ls.len() && 0 <= j < ls[i].0.len() && !(addr <= ls[i].1.virt_start + ls[i].2 + j < addr + 8)
                    ==> #[trigger] after[i].0[j] == ls[i].0[j]
        }),
{
    lemma_loadable_for_in_range(ls, addr);
    vstd::bytes::lemma_auto_spec_u64_to_from_le_bytes();
    let after = relocate_spec(ls, addr, value).unwrap();
    let k = loadable_for_spec(ls, addr).unwrap();
    let start = addr - (ls[k].1.virt_start + ls[k].2);
    assert(after[k].0.subrange(start, start + 8) =~= spec_u64_to_le_bytes(value));
}

/// The views of the loaded segments.
pub open spec fn loadables_view(ls: Seq<Loadable>) -> Seq<(Seq<u8>, MappedMemory, usize)> {
    Seq::new(ls.len(), |i: int| loadable_view(ls[i]))
}

fn loadable_for(loadables: &Vec<Loadable>, addr: usize) -> (r: Option<usize>)
    ensures
        match loadable_for_spec(loadables_view(loadables@), addr) {
            None => r is None,
            Some(i) => 0 <= i < loadables@.len() && (r matches Some(k) && k == i),
        },
{
    let ghost ls = loadables_view(loadables@);
    proof {
        lemma_loadable_for_in_range(ls, addr);
    }
    let mut i: usize = 0;
    assert(ls.take(0) =~= Seq::<(Seq<u8>, MappedMemory, usize)>::empty());
    while i < loadables.len()
        invariant
            ls == loadables_view(loadables@),
            i <= loadables@.len(),
            loadable_for_spec(ls.take(i as int), addr) is None,
        decreases loadables@.len() - i,
    {
        let m = loadables[i].mapping;
        proof {
            let t = ls.take(i + 1);
            assert(t.drop_last() =~= ls.take(i as int));
            assert(t.last().1 == m);
        }
        if m.virt_start < addr && addr - m.virt_start < m.len {
            proof {
                lemma_loadable_for_prefix(ls, addr, i + 1);
            }
            return Some(i);
        }
        i += 1;
    }
    assert(ls.take(ls.len() as int) =~= ls);
    None
}

proof fn lemma_loadable_for_in_range(ls: Seq<(Seq<u8>, MappedMemory, usize)>, addr: usize)
    ensures
        loadable_for_spec(ls, addr) matches Some(i) ==> 0 <= i < ls.len(),
    decreases ls.len(),
{
    if ls.len() > 0 {
        lemma_loadable_for_in_range(ls.drop_last(), addr);
    }
}

proof fn lemma_loadable_for_prefix(ls: Seq<(Seq<u8>, MappedMemory, usize)>, addr: usize, n: int)
    requires
        0 <= n <= ls.len(),
        loadable_for_spec(ls.take(n), addr) is Some,
    ensures
        loadable_for_spec(ls, addr) == loadable_for_spec(ls.take(n), addr),
    decreases ls.len() - n,
{
    if n < ls.len() {
        let t = ls.take(n + 1);
        assert(t.drop_last() =~= ls.take(n));
        lemma_loadable_for_prefix(ls, addr, n + 1);
    } else {
        assert(ls.take(n) =~= ls);
    }
}

/// Writes `value` for a relocation at `addr` into the loaded segment that
/// holds it; see `relocate_spec`.
fn write_relocation(loadables: &mut Vec<Loadable>, addr: usize, value: u64) -> (r: Result<(), Error>)
    ensures
        match relocate_spec(loadables_view(old(loadables)@), addr, value) {
            Err(e) => r == Err::<(), Error>(e) && loadables_view(final(loadables)@) == loadables_view(old(loadables)@),
            Ok(ls) => r is Ok && loadables_view(final(loadables)@) == ls,
        },
{
    let ghost before = loadables_view(loadables@);
    let idx = match loadable_for(loadables, addr) {
        Some(i) => i,
        None => return Err(Error::NoLoadableForRelocation),
    };
    let mapping = loadables[idx].mapping;
    let load_offset = loadables[idx].load_offset;
    let len = loadables[idx].content.len();
    assert(before[idx as int] == loadable_view(loadables@[idx as int]));
    assert(before[idx as int].0.len() == len && before[idx as int].1 == mapping && before[idx as int].2 == load_offset);
    assert(loadable_for_spec(before, addr) == Some(idx as int));
    let base = match mapping.virt_start.checked_add(load_offset) {
        Some(b) => b,
        None => return Err(Error::RelocationOutOfBounds),
    };
    if addr < base || addr - base > len || len - (addr - base) < 8 {
        return Err(Error::RelocationOutOfBounds);
    }
    let start = addr - base;
    let ghost old_vec = loadables@;
    let mut l = loadables.remove(idx);
    let bytes = u64_to_le_bytes(value);
    proof {
        vstd::bytes::lemma_auto_spec_u64_to_from_le_bytes();
    }
    let ghost old_content = l.content@;
    let mut k: usize = 0;
    while k < 8
        invariant
            k <= 8,
            bytes@ == spec_u64_to_le_bytes(value),
            bytes@.len() == 8,
            start + 8 <= old_content.len(),
            old_content.len() <= usize::MAX,
            l.mapping == mapping,
            l.load_offset == load_offset,
            l.content@.len() == old_content.len(),
            forall|j: int| 0 <= j < old_content.len() ==> #[trigger] l.content@[j] == if start <= j < start + k {
                bytes@[j - start]
            } else {
                old_content[j]
            },
        decreases 8 - k,
    {
        l.content.set(start + k, bytes[k]);
        k += 1;
    }
    assert(l.content@ =~= patched(old_content, start as int, value));
    let ghost new_l = l;
    loadables.insert(idx, l);
    assert(loadables@ =~= old_vec.update(idx as int, new_l));
    assert(loadables_view(loadables@) =~= before.update(
        idx as int,
        (patched(old_content, start as int, value), mapping, load_offset),
    ));
    Ok(())
}

/// Relocation type: the word becomes the load address plus the addend.
pub const R_X86_64_RELATIVE: u32 = 8;
/// Relocation type: the word becomes the address of a symbol plus the
/// addend.
pub const R_X86_64_GLOB_DAT: u32 = 6;

/// Whether a relocation call returned `r` and left the loaded segments
/// `after` (they were `before`) as `outcome` says: on `Err` the segments are
/// unchanged.
pub open spec fn applied(
    r: Result<(), Error>,
    before: Seq<(Seq<u8>, MappedMemory, usize)>,
    after: Seq<(Seq<u8>, MappedMemory, usize)>,
    outcome: Result<Seq<(Seq<u8>, MappedMemory, usize)>, Error>,
) -> bool {
    match outcome {
        Err(e) => r == Err::<(), Error>(e) && after == before,
        Ok(ls) => r is Ok && after == ls,
    }
}

/// The outcome of an `R_X86_64_RELATIVE` relocation at `offset` of the
/// binary placed at `vbase`.
pub open spec fn relative_spec(ls: Seq<(Seq<u8>, MappedMemory, usize)>, vbase: usize, offset: u64, addend: i64) -> Result<
    Seq<(Seq<u8>, MappedMemory, usize)>,
    Error,
> {
    if vbase + offset > usize::MAX {
        Err(Error::NoLoadableForRelocation)
    } else {
        relocate_spec(ls, (vbase + offset) as usize, vbase.wrapping_add(addend as usize) as u64)
    }
}

/// The outcome of an `R_X86_64_GLOB_DAT` relocation at `offset` of the
/// binary placed at `vbase`, for the symbol `name` (weak or not) with the
/// kernel exporting `symbols`.
pub open spec fn glob_dat_spec(
    ls: Seq<(Seq<u8>, MappedMemory, usize)>,
    symbols: Map<Seq<char>, usize>,
    vbase: usize,
    offset: u64,
    addend: i64,
    name: Seq<char>,
    weak: bool,
) -> Result<Seq<(Seq<u8>, MappedMemory, usize)>, Error> {
    if vbase + offset > usize::MAX || loadable_for_spec(ls, (vbase + offset) as usize) is None {
        Err(Error::NoLoadableForRelocation)
    } else if weak {
        Ok(ls)
    } else if !symbols.contains_key(name) {
        Err(Error::UnknownSymbol)
    } else {
        relocate_spec(ls, (vbase + offset) as usize, symbols[name].wrapping_add(addend as usize) as u64)
    }
}

/// The outcome of a relocation of type `typ`; types other than the two
/// above are refused once a loaded segment holds the address.
pub open spec fn relocation_spec(
    ls: Seq<(Seq<u8>, MappedMemory, usize)>,
    symbols: Map<Seq<char>, usize>,
    vbase: usize,
    typ: u32,
    offset: u64,
    addend: i64,
    name: Seq<char>,
    weak: bool,
) -> Result<Seq<(Seq<u8>, MappedMemory, usize)>, Error> {
    if typ == R_X86_64_RELATIVE {
        relative_spec(ls, vbase, offset, addend)
    } else if typ == R_X86_64_GLOB_DAT {
        glob_dat_spec(ls, symbols, vbase, offset, addend, name, weak)
    } else if vbase + offset > usize::MAX || loadable_for_spec(ls, (vbase + offset) as usize) is None {
        Err(Error::NoLoadableForRelocation)
    } else {
        Err(Error::UnsupportedRelocation)
    }
}

/// Applies an `R_X86_64_RELATIVE` relocation at `offset` of the binary
/// placed at `vbase`: the word there becomes `vbase + addend`.
pub fn relocate_relative(loadables: &mut Vec<Loadable>, vbase: usize, offset: u64, addend: i64) -> (r: Result<
    (),
    Error,
>)
    ensures
        applied(
            r,
            loadables_view(old(loadables)@),
            loadables_view(final(loadables)@),
            relative_spec(loadables_view(old(loadables)@), vbase, offset, addend),
        ),
{
    if offset > usize::MAX as u64 {
        return Err(Error::NoLoadableForRelocation);
    }
    let addr = match vbase.checked_add(offset as usize) {
        Some(a) => a,
        None => return Err(Error::NoLoadableForRelocation),
    };
    // This is a relative relocation, add the offset (where we put our
    // binary in the vspace) to the addend and we're done.
    let dest_addr = vbase.wrapping_add(addend as usize);
    write_relocation(loadables, addr, dest_addr as u64)
}

/// Applies an `R_X86_64_GLOB_DAT` relocation at `offset` of the binary
/// placed at `vbase` for the symbol `name`: the word there becomes the
/// address the kernel exports for `name` plus `addend`.  Weak symbols are
/// left alone, as the kernel does not need them.  Fails with
/// `UnknownSymbol` if the kernel does not export `name`.
pub fn relocate_glob_dat(
    loadables: &mut Vec<Loadable>,
    symbols: &StringHashMap<usize>,
    vbase: usize,
    offset: u64,
    addend: i64,
    name: &str,
    weak: bool,
) -> (r: Result<(), Error>)
    ensures
        applied(
            r,
            loadables_view(old(loadables)@),
            loadables_view(final(loadables)@),
            glob_dat_spec(loadables_view(old(loadables)@), symbols@, vbase, offset, addend, name@, weak),
        ),
{
    if offset > usize::MAX as u64 {
        return Err(Error::NoLoadableForRelocation);
    }
    let addr = match vbase.checked_add(offset as usize) {
        Some(a) => a,
        None => return Err(Error::NoLoadableForRelocation),
    };
    if loadable_for(loadables, addr).is_none() {
        return Err(Error::NoLoadableForRelocation);
    }
    if weak {
        // we have some weak symbols that are included by default
        // but not used for anything in the kernel.
        // Seem to be safe to ignore
        return Ok(());
    }
    let symbol = match symbols.get(name) {
        Some(s) => *s,
        None => return Err(Error::UnknownSymbol),
    };
    let dest_addr = symbol.wrapping_add(addend as usize);
    write_relocation(loadables, addr, dest_addr as u64)
}

/// Applies a relocation of type `typ` at `offset` of the binary placed at
/// `vbase`; `name` and `weak` describe its symbol, if the type has one.
/// Fails with `UnsupportedRelocation` for a type other than
/// `R_X86_64_RELATIVE` and `R_X86_64_GLOB_DAT`.
pub fn relocate(
    loadables: &mut Vec<Loadable>,
    symbols: &StringHashMap<usize>,
    vbase: usize,
    typ: u32,
    offset: u64,
    addend: i64,
    name: &str,
    weak: bool,
) -> (r: Result<(), Error>)
    ensures
        applied(
            r,
            loadables_view(old(loadables)@),
            loadables_view(final(loadables)@),
            relocation_spec(loadables_view(old(loadables)@), symbols@, vbase, typ, offset, addend, name@, weak),
        ),
{
    if typ == R_X86_64_RELATIVE {
        relocate_relative(loadables, vbase, offset, addend)
    } else if typ == R_X86_64_GLOB_DAT {
        relocate_glob_dat(loadables, symbols, vbase, offset, addend, name, weak)
    } else {
        if offset > usize::MAX as u64 {
            return Err(Error::NoLoadableForRelocation);
        }
        let addr = match vbase.checked_add(offset as usize) {
            Some(a) => a,
            None => return Err(Error::NoLoadableForRelocation),
        };
        if loadable_for(loadables, addr).is_none() {
            return Err(Error::NoLoadableForRelocation);
        }
        Err(Error::UnsupportedRelocation)
    }
}

} // verus!

//! Guest physical memory: where each guest physical address lives in the
//! hypervisor, and which parts of it are mapped to virtual addresses.
use std::ops::Range;
use vstd::prelude::*;

use crate::cpu::Regs;
use crate::error::Error;
use crate::kvm::cpus::kvm_sregs;
use crate::page_math::{huge_page_size_spec, huge_page_size_with, host_offset_spec, page_size};
use crate::page_table::{
    self, all_wf, map_error, map_memory_error, map_memory_outcome, region_mask, walk_value_ok, PageTable, PageTableFlags, PageTableIteratorValue, PhysAddr,
    VirtMem, ADDR_MASK, FLAGS_MASK,
};
use crate::proc::Mapping;
use crate::sort::{lemma_sort, sort_by_key, sort_by_key_spec, sorted_by_key};
use crate::prot::ProtFlags;

verus! {

/// Contiguous physical memory that is mapped virtually contiguous.
#[derive(Clone, Copy, Debug, PartialEq, Eq, Structural)]
pub struct MappedMemory {
    pub phys_start: PhysAddr,
    pub virt_start: usize,
    pub len: usize,
    pub prot: ProtFlags,
}

impl MappedMemory {
    /// Whether `addr` lies strictly inside the virtual range of the mapping
    /// (its first byte does not count).
    pub fn contains(&self, addr: usize) -> (r: bool)
        requires
            self.virt_start + self.len <= usize::MAX,
        ensures
            r == (self.virt_start < addr && addr < self.virt_start + self.len),
    {
        self.virt_start < addr && addr < self.virt_start + self.len
    }
}


/// A memory slot as a triple: first address, last address (inclusive), and
/// the offset from guest physical to host address.
pub type Slot = (usize, usize, isize);

/// The triples of a list of memory slots.
pub open spec fn slots_view(v: Seq<(Range<usize>, isize)>) -> Seq<Slot> {
    v.map_values(|x: (Range<usize>, isize)| (x.0.start, x.0.end, x.1))
}

/// The slots that `PhysHostMap::new` builds from `s`: a slot that starts at
/// most one past the end of the slot before it and has the same offset is
/// merged into it.
pub open spec fn merge_slots(s: Seq<Slot>) -> Seq<Slot>
    decreases s.len(),
{
    if s.len() == 0 {
        Seq::empty()
    } else {
        let prev = merge_slots(s.drop_last());
        let cur = s.last();
        if prev.len() > 0 && cur.0 <= prev.last().1 + 1 && cur.2 == prev.last().2 {
            let last = prev.last();
            let end = if cur.1 > last.1 { cur.1 } else { last.1 };
            prev.update(prev.len() - 1, (last.0, end, last.2))
        } else {
            prev.push(cur)
        }
    }
}

/// Whether some slot of `s` starts inside the (merged) slot before it but
/// has another offset, which `PhysHostMap::new` does not accept.
pub open spec fn slots_conflict(s: Seq<Slot>) -> bool
    decreases s.len(),
{
    if s.len() == 0 {
        false
    } else {
        let prev = merge_slots(s.drop_last());
        ||| slots_conflict(s.drop_last())
        ||| (prev.len() > 0 && s.last().0 <= prev.last().1 && s.last().2 != prev.last().2)
    }
}

/// Slot `s` holds address `addr`.
pub open spec fn slot_holds(s: Slot, addr: int) -> bool {
    s.0 <= addr <= s.1
}

/// Slots not empty, sorted by their first address and disjoint.
pub open spec fn slots_sorted_disjoint(s: Seq<Slot>) -> bool {
    &&& forall|i: int, j: int| 0 <= i < j < s.len() ==> (#[trigger] s[i]).1 < (#[trigger] s[j]).0
    &&& forall|i: int| 0 <= i < s.len() ==> (#[trigger] s[i]).0 <= s[i].1
}

/// Slots sorted by their first address, each not empty.
pub open spec fn slots_sorted(s: Seq<Slot>) -> bool {
    &&& forall|i: int, j: int| 0 <= i < j < s.len() ==> (#[trigger] s[i]).0 <= (#[trigger] s[j]).0
    &&& forall|i: int| 0 <= i < s.len() ==> (#[trigger] s[i]).0 <= s[i].1
}

/// Map from guest physical addresses to the offset of the hypervisor memory
/// that backs them.
pub struct PhysHostMap {
    memslots: Vec<(Range<usize>, isize)>,
}

impl PhysHostMap {
    /// The slots of the map.
    pub closed spec fn view(&self) -> Seq<Slot> {
        slots_view(self.memslots@)
    }

    /// Builds the map from memory slots given as (first address .. last
    /// address, offset), merging slots with the same offset that touch;
    /// `None` if a slot starts inside the one before it with another offset.
    pub fn try_new(memslots: &Vec<(Range<usize>, isize)>) -> (r: Option<PhysHostMap>)
        ensures
            r is None <==> slots_conflict(slots_view(memslots@)),
            r matches Some(m) ==> m@ == merge_slots(slots_view(memslots@)),
    {
        let mut vec: Vec<(Range<usize>, isize)> = Vec::new();
        let mut i: usize = 0;
        let ghost input = slots_view(memslots@);
        assert(input.take(0) =~= Seq::<Slot>::empty());
        while i < memslots.len()
            invariant
                input == slots_view(memslots@),
                i <= memslots@.len(),
                !slots_conflict(input.take(i as int)),
                slots_view(vec@) == merge_slots(input.take(i as int)),
            decreases memslots@.len() - i,
        {
            let ghost t = input.take(i + 1);
            proof {
                assert(t.drop_last() =~= input.take(i as int));
                assert(t.last() == input[i as int]);
            }
            let start = memslots[i].0.start;
            let end = memslots[i].0.end;
            let val = memslots[i].1;
            let n = vec.len();
            if n > 0 {
                let last_start = vec[n - 1].0.start;
                let last_end = vec[n - 1].0.end;
                let last_val = vec[n - 1].1;
                if start <= last_end && val != last_val {
                    proof { lemma_conflict_extends(input, i + 1); }
                    return None;
                }
                if start <= last_end.saturating_add(1) && val == last_val {
                    let new_end = if end > last_end {
                        end
                    } else {
                        last_end
                    };
                    let ghost before = vec@;
                    vec.set(n - 1, (last_start..new_end, last_val));
                    assert(slots_view(vec@) =~= slots_view(before).update(n - 1, (last_start, new_end, last_val)));
                    i += 1;
                    continue;
                }
            }
            let ghost before = vec@;
            vec.push((start..end, val));
            assert(slots_view(vec@) =~= slots_view(before).push((start, end, val)));
            i += 1;
        }
        assert(input.take(memslots@.len() as int) =~= input);
        Some(PhysHostMap { memslots: vec })
    }

    /// Builds the map from memory slots given as (first address .. last
    /// address, offset), merging slots with the same offset that touch.
    pub fn new(memslots: Vec<(Range<usize>, isize)>) -> (r: PhysHostMap)
        requires
            !slots_conflict(slots_view(memslots@)),
        ensures
            r@ == merge_slots(slots_view(memslots@)),
    {
        match PhysHostMap::try_new(&memslots) {
            Some(m) => m,
            None => {
                assert(false);
                PhysHostMap { memslots: Vec::new() }
            },
        }
    }

    /// The range of the last slot.
    pub fn last_range(&self) -> (r: Option<Range<usize>>)
        ensures
            self@.len() == 0 ==> r is None,
            self@.len() > 0 ==> (r matches Some(x) && x.start == self@.last().0 && x.end == self@.last().1),
    {
        let n = self.memslots.len();
        if n == 0 {
            None
        } else {
            Some(self.memslots[n - 1].0.start..self.memslots[n - 1].0.end)
        }
    }

    /// The slot that holds `phys_addr`, as (first .. last address, offset).
    pub fn get_range(&self, phys_addr: usize) -> (r: Option<(Range<usize>, isize)>)
        ensures
            r matches Some(x) ==> exists|j: int| 0 <= j < self@.len() && self@[j] == (x.0.start, x.0.end, x.1)
                && slot_holds(self@[j], phys_addr as int),
            slots_sorted_disjoint(self@) ==> (r is None <==> forall|j: int| 0 <= j < self@.len()
                ==> !slot_holds(#[trigger] self@[j], phys_addr as int)),
    {
        let ghost v = self@;
        let mut lo: usize = 0;
        let mut hi: usize = self.memslots.len();
        while lo < hi
            invariant
                v == self@,
                0 <= lo <= hi <= v.len(),
                slots_sorted_disjoint(v) ==> forall|j: int| 0 <= j < v.len() && !(lo <= j < hi)
                    ==> !slot_holds(#[trigger] v[j], phys_addr as int),
            decreases hi - lo,
        {
            let mid = lo + (hi - lo) / 2;
            let start = self.memslots[mid].0.start;
            let end = self.memslots[mid].0.end;
            assert(v[mid as int] == (start, end, self.memslots@[mid as int].1));
            if end < phys_addr {
                proof {
                    if slots_sorted_disjoint(v) {
                        assert forall|j: int| 0 <= j < v.len() && !(mid + 1 <= j < hi)
                            implies !slot_holds(#[trigger] v[j], phys_addr as int) by {
                            if lo <= j <= mid && j < mid {
                                assert(v[j].1 < v[mid as int].0);
                            }
                        }
                    }
                }
                lo = mid + 1;
            } else if start > phys_addr {
                proof {
                    if slots_sorted_disjoint(v) {
                        assert forall|j: int| 0 <= j < v.len() && !(lo <= j < mid)
                            implies !slot_holds(#[trigger] v[j], phys_addr as int) by {
                            if mid < j < hi {
                                assert(v[mid as int].1 < v[j].0);
                                assert(v[mid as int].0 <= v[mid as int].1);
                            }
                        }
                    }
                }
                hi = mid;
            } else {
                let val = self.memslots[mid].1;
                return Some((start..end, val));
            }
        }
        None
    }

    /// The offset of the slot that holds `phys_addr`.
    pub fn get(&self, phys_addr: usize) -> (r: Option<isize>)
        ensures
            r matches Some(off) ==> exists|j: int| 0 <= j < self@.len() && self@[j].2 == off
                && slot_holds(self@[j], phys_addr as int),
            slots_sorted_disjoint(self@) ==> (r is None <==> forall|j: int| 0 <= j < self@.len()
                ==> !slot_holds(#[trigger] self@[j], phys_addr as int)),
            slots_sorted_disjoint(self@) ==> r == slot_offset(self@, phys_addr as int),
    {
        match self.get_range(phys_addr) {
            Some(x) => {
                proof {
                    if slots_sorted_disjoint(self@) {
                        let s = self@;
                        let j = choose|j: int| 0 <= j < s.len() && s[j] == (x.0.start, x.0.end, x.1)
                            && slot_holds(s[j], phys_addr as int);
                        let c = choose|c: int| 0 <= c < s.len() && slot_holds(#[trigger] s[c], phys_addr as int);
                        lemma_holding_slot_unique(s, j, c, phys_addr as int);
                    }
                }
                Some(x.1)
            },
            None => None,
        }
    }
}

proof fn lemma_conflict_extends(s: Seq<Slot>, n: int)
    requires
        0 < n <= s.len(),
        ({
            let prev = merge_slots(s.take(n - 1));
            prev.len() > 0 && s[n - 1].0 <= prev.last().1 && s[n - 1].2 != prev.last().2
        }),
    ensures
        slots_conflict(s),
    decreases s.len() - n,
{
    let t = s.take(n);
    assert(t.drop_last() =~= s.take(n - 1));
    assert(t.last() == s[n - 1]);
    assert(slots_conflict(t));
    lemma_conflict_prefix_up(s, n);
}

proof fn lemma_conflict_prefix_up(s: Seq<Slot>, n: int)
    requires
        0 < n <= s.len(),
        slots_conflict(s.take(n)),
    ensures
        slots_conflict(s),
    decreases s.len() - n,
{
    if n < s.len() {
        let t = s.take(n + 1);
        assert(t.drop_last() =~= s.take(n));
        assert(slots_conflict(t));
        lemma_conflict_prefix_up(s, n + 1);
    } else {
        assert(s.take(n) =~= s);
    }
}

proof fn lemma_no_conflict_prefix(s: Seq<Slot>, n: int)
    requires
        !slots_conflict(s),
        0 < n <= s.len(),
    ensures
        !slots_conflict(s.take(n)),
        ({
            let prev = merge_slots(s.take(n - 1));
            !(prev.len() > 0 && s[n - 1].0 <= prev.last().1 && s[n - 1].2 != prev.last().2)
        }),
    decreases s.len() - n,
{
    assert(s.take(n).drop_last() =~= s.take(n - 1));
    assert(s.take(n).last() == s[n - 1]);
    if n < s.len() {
        lemma_no_conflict_prefix(s, n + 1);
        assert(s.take(n + 1).take(n) =~= s.take(n));
        assert(s.take(n + 1).drop_last() =~= s.take(n));
    } else {
        assert(s.take(n) =~= s);
        assert(s.drop_last() =~= s.take(n - 1));
    }
    assert(!slots_conflict(s.take(n)));
    let t = s.take(n);
    assert(t.drop_last() == s.take(n - 1));
    assert(slots_conflict(t) == (slots_conflict(t.drop_last()) || ({
        let prev = merge_slots(t.drop_last());
        prev.len() > 0 && t.last().0 <= prev.last().1 && t.last().2 != prev.last().2
    })));
}


/// The offset of the slot of `s` that holds `addr`, if one does.
pub open spec fn slot_offset(s: Seq<Slot>, addr: int) -> Option<isize> {
    if exists|j: int| 0 <= j < s.len() && slot_holds(#[trigger] s[j], addr) {
        Some(s[choose|j: int| 0 <= j < s.len() && slot_holds(#[trigger] s[j], addr)].2)
    } else {
        None
    }
}

/// In sorted disjoint slots at most one slot holds an address.
proof fn lemma_holding_slot_unique(s: Seq<Slot>, i: int, j: int, addr: int)
    requires
        slots_sorted_disjoint(s),
        0 <= i < s.len(),
        0 <= j < s.len(),
        slot_holds(s[i], addr),
        slot_holds(s[j], addr),
    ensures
        i == j,
{
    if i < j {
        assert(s[i].1 < s[j].0);
    } else if j < i {
        assert(s[j].1 < s[i].0);
    }
}

/// Some slot of `s` with offset `off` holds `addr`.
pub open spec fn slots_cover(s: Seq<Slot>, addr: int, off: isize) -> bool {
    exists|j: int| 0 <= j < s.len() && (#[trigger] s[j]).2 == off && slot_holds(s[j], addr)
}

proof fn lemma_merge_step(s: Seq<Slot>, k: int)
    requires
        slots_sorted(s),
        !slots_conflict(s),
        0 < k <= s.len(),
    ensures
        ({
            let m = merge_slots(s.take(k));
            &&& slots_sorted_disjoint(m)
            &&& m.len() > 0
            &&& m.last().0 <= s[k - 1].0
            &&& m.last().1 >= s[k - 1].1
            &&& forall|addr: int, off: isize| slots_cover(m, addr, off) == slots_cover(s.take(k), addr, off)
        }),
    decreases k,
{
    let t = s.take(k);
    assert(t.drop_last() =~= s.take(k - 1));
    assert(t.last() == s[k - 1]);
    lemma_no_conflict_prefix(s, k);
    let m = merge_slots(t);
    let x = s[k - 1];
    if k == 1 {
        assert(merge_slots(s.take(0)) =~= Seq::<Slot>::empty());
        assert(m =~= seq![x]);
        assert forall|addr: int, off: isize| slots_cover(m, addr, off) == slots_cover(t, addr, off) by {
            if slots_cover(t, addr, off) {
                let j = choose|j: int| 0 <= j < t.len() && (#[trigger] t[j]).2 == off && slot_holds(t[j], addr);
                assert(j == 0);
                assert(m[0] == t[0]);
            }
            if slots_cover(m, addr, off) {
                assert(t[0] == m[0]);
            }
        }
    } else {
        lemma_merge_step(s, k - 1);
        let p = merge_slots(s.take(k - 1));
        let last = p.last();
        assert(last.0 <= s[k - 2].0);
        assert(s[k - 2].0 <= x.0);
        if x.0 <= last.1 + 1 && x.2 == last.2 {
            let end = if x.1 > last.1 { x.1 } else { last.1 };
            assert(m =~= p.update(p.len() - 1, (last.0, end, last.2)));
            assert forall|addr: int, off: isize| slots_cover(m, addr, off) == slots_cover(t, addr, off) by {
                if slots_cover(m, addr, off) {
                    let j = choose|j: int| 0 <= j < m.len() && (#[trigger] m[j]).2 == off && slot_holds(m[j], addr);
                    if j < p.len() - 1 {
                        assert(m[j] == p[j]);
                        assert(slots_cover(p, addr, off));
                        assert(slots_cover(s.take(k - 1), addr, off));
                        let i = choose|i: int| 0 <= i < s.take(k - 1).len() && (#[trigger] s.take(k - 1)[i]).2 == off
                            && slot_holds(s.take(k - 1)[i], addr);
                        assert(t[i] == s.take(k - 1)[i]);
                    } else if addr <= last.1 {
                        assert(slot_holds(p[p.len() - 1], addr));
                        assert(slots_cover(p, addr, off));
                        let i = choose|i: int| 0 <= i < s.take(k - 1).len() && (#[trigger] s.take(k - 1)[i]).2 == off
                            && slot_holds(s.take(k - 1)[i], addr);
                        assert(t[i] == s.take(k - 1)[i]);
                    } else {
                        assert(slot_holds(t[k - 1], addr));
                    }
                }
                if slots_cover(t, addr, off) {
                    let i = choose|i: int| 0 <= i < t.len() && (#[trigger] t[i]).2 == off && slot_holds(t[i], addr);
                    if i < k - 1 {
                        assert(s.take(k - 1)[i] == t[i]);
                        assert(slots_cover(s.take(k - 1), addr, off));
                        assert(slots_cover(p, addr, off));
                        let j = choose|j: int| 0 <= j < p.len() && (#[trigger] p[j]).2 == off && slot_holds(p[j], addr);
                        if j < p.len() - 1 {
                            assert(m[j] == p[j]);
                        } else {
                            assert(slot_holds(m[j], addr));
                        }
                    } else {
                        assert(slot_holds(m[m.len() - 1], addr));
                    }
                }
            }
        } else {
            assert(x.0 > last.1);
            assert(m =~= p.push(x));
            assert forall|addr: int, off: isize| slots_cover(m, addr, off) == slots_cover(t, addr, off) by {
                if slots_cover(m, addr, off) {
                    let j = choose|j: int| 0 <= j < m.len() && (#[trigger] m[j]).2 == off && slot_holds(m[j], addr);
                    if j < p.len() {
                        assert(m[j] == p[j]);
                        assert(slots_cover(p, addr, off));
                        let i = choose|i: int| 0 <= i < s.take(k - 1).len() && (#[trigger] s.take(k - 1)[i]).2 == off
                            && slot_holds(s.take(k - 1)[i], addr);
                        assert(t[i] == s.take(k - 1)[i]);
                    } else {
                        assert(t[k - 1] == m[j]);
                    }
                }
                if slots_cover(t, addr, off) {
                    let i = choose|i: int| 0 <= i < t.len() && (#[trigger] t[i]).2 == off && slot_holds(t[i], addr);
                    if i < k - 1 {
                        assert(s.take(k - 1)[i] == t[i]);
                        assert(slots_cover(s.take(k - 1), addr, off));
                        assert(slots_cover(p, addr, off));
                        let j = choose|j: int| 0 <= j < p.len() && (#[trigger] p[j]).2 == off && slot_holds(p[j], addr);
                        assert(m[j] == p[j]);
                    } else {
                        assert(m[m.len() - 1] == t[i]);
                    }
                }
            }
        }
    }
}

/// Looking up an address in a map built from slots sorted by their first
/// address finds exactly the offset of a slot that holds it, and nothing when
/// no slot holds it.
pub proof fn lemma_lookup_after_new(s: Seq<Slot>)
    requires
        slots_sorted(s),
        !slots_conflict(s),
    ensures
        slots_sorted_disjoint(merge_slots(s)),
        forall|addr: int, off: isize| slots_cover(merge_slots(s), addr, off) == slots_cover(s, addr, off),
{
    if s.len() > 0 {
        lemma_merge_step(s, s.len() as int);
        assert(s.take(s.len() as int) =~= s);
    } else {
        assert(merge_slots(s) =~= Seq::<Slot>::empty());
    }
}


/// Bits of `cr3` that hold the address of the page table when PCID is on.
pub const PHYS_ADDR_MASK: u64 = 0xFFFFFFFFFF000;

/// `cr4` bit that enables PCID support.
pub const X86_CR4_PCIDE: u64 = 0x00020000;

/// The guest physical address of the top level page table.
pub open spec fn page_table_addr_spec(sregs: kvm_sregs) -> usize {
    (if sregs.cr4 & X86_CR4_PCIDE != 0 {
        sregs.cr3 & PHYS_ADDR_MASK
    } else {
        sregs.cr3
    }) as usize
}

/// The guest physical address of the top level page table, taken from `cr3`
/// (without the PCID bits when PCID is on).
pub fn get_page_table_addr(sregs: &kvm_sregs) -> (r: usize)
    ensures
        r == page_table_addr_spec(*sregs),
{
    (if sregs.cr4 & X86_CR4_PCIDE != 0 {
        sregs.cr3 & PHYS_ADDR_MASK
    } else {
        sregs.cr3
    }) as usize
}

/// The protection of memory mapped by a page table entry with `flags`:
/// always readable, writable with `WRITABLE`, executable without
/// `NO_EXECUTE`.
pub open spec fn prot_flags_spec(flags: u64) -> ProtFlags {
    let w = flags & 2 == 2;
    let x = flags & 0x8000_0000_0000_0000 != 0x8000_0000_0000_0000;
    ProtFlags {
        bits: if w {
            if x { 7 } else { 3 }
        } else {
            if x { 5 } else { 1 }
        },
    }
}

fn prot_flags(ptflags: PageTableFlags) -> (r: ProtFlags)
    ensures
        r == prot_flags_spec(ptflags@),
{
    let mut f = ProtFlags::prot_read();
    if ptflags.contains(PageTableFlags::writable()) {
        f = f.union(ProtFlags::prot_write());
    }
    if !ptflags.contains(PageTableFlags::no_execute()) {
        f = f.union(ProtFlags::prot_exec());
    }
    proof {
        assert(1i32 | 2i32 == 3i32 && 1i32 | 4i32 == 5i32 && 3i32 | 4i32 == 7i32) by (bit_vector);
    }
    f
}

/// The section that page table entry `e` maps, for page size `ps`, with
/// host offset `off`.
pub open spec fn section_spec(ps: usize, e: PageTableIteratorValue, off: isize) -> MappedMemory {
    MappedMemory {
        phys_start: PhysAddr { value: (e.entry@ & ADDR_MASK) as usize, host_offset: off },
        virt_start: e.virt_addr as usize,
        len: huge_page_size_spec(ps, e.level),
        prot: prot_flags_spec(e.entry@ & FLAGS_MASK),
    }
}

fn mapped_memory(ps: usize, e: &PageTableIteratorValue, host_offset: isize) -> (r: MappedMemory)
    requires
        e.level <= 3,
    ensures
        r == section_spec(ps, *e, host_offset),
{
    MappedMemory {
        phys_start: PhysAddr { value: e.entry.addr() as usize, host_offset },
        virt_start: e.virt_addr as usize,
        len: huge_page_size_with(ps, e.level),
        prot: prot_flags(e.entry.flags()),
    }
}

/// Whether entry `e` continues section `last`: the same protection, and it
/// starts where the section ends, both virtually and physically.
pub open spec fn continues_section(last: MappedMemory, e: PageTableIteratorValue) -> bool {
    &&& last.prot == prot_flags_spec(e.entry@ & FLAGS_MASK)
    &&& e.virt_addr as usize == last.virt_start + last.len
    &&& (e.entry@ & ADDR_MASK) as usize == last.phys_start.value + last.len
}

/// The sections `acc` grown by the entries `es` up to the first one at or
/// after `end`: an entry that continues the last section extends it, any
/// other starts a new section.
pub open spec fn collect_sections(
    ps: usize,
    maps: Seq<Slot>,
    es: Seq<PageTableIteratorValue>,
    end: usize,
    acc: Seq<MappedMemory>,
) -> Result<Seq<MappedMemory>, Error>
    decreases es.len(),
{
    if es.len() == 0 {
        Ok(acc)
    } else {
        let e = es[0];
        if e.virt_addr as usize >= end {
            Ok(acc)
        } else if acc.len() > 0 && continues_section(acc.last(), e) {
            let last = acc.last();
            let len = last.len + huge_page_size_spec(ps, e.level);
            if len > usize::MAX {
                Err(Error::OutOfAddressSpace)
            } else {
                let grown = MappedMemory {
                    phys_start: last.phys_start,
                    virt_start: last.virt_start,
                    len: len as usize,
                    prot: last.prot,
                };
                collect_sections(ps, maps, es.drop_first(), end, acc.update(acc.len() - 1, grown))
            }
        } else {
            match slot_offset(maps, ((e.entry@ & ADDR_MASK) as usize) as int) {
                None => Err(Error::NoMemslot),
                Some(off) => collect_sections(ps, maps, es.drop_first(), end, acc.push(section_spec(ps, e, off))),
            }
        }
    }
}

/// The kernel's sections among the leaf entries `es` of the page table: from
/// the first entry above `start`, collected up to `end`.
pub open spec fn kernel_sections_spec(
    ps: usize,
    maps: Seq<Slot>,
    es: Seq<PageTableIteratorValue>,
    start: usize,
    end: usize,
) -> Result<Seq<MappedMemory>, Error>
    decreases es.len(),
{
    if es.len() == 0 {
        Err(Error::NoKernel)
    } else {
        let e = es[0];
        if e.virt_addr as usize > start {
            match slot_offset(maps, ((e.entry@ & ADDR_MASK) as usize) as int) {
                None => Err(Error::NoMemslot),
                Some(off) => collect_sections(ps, maps, es.drop_first(), end, seq![section_spec(ps, e, off)]),
            }
        } else {
            kernel_sections_spec(ps, maps, es.drop_first(), start, end)
        }
    }
}

proof fn lemma_collect_not_user_mode(
    ps: usize,
    maps: Seq<Slot>,
    es: Seq<PageTableIteratorValue>,
    end: usize,
    acc: Seq<MappedMemory>,
)
    ensures
        collect_sections(ps, maps, es, end, acc) != Err::<Seq<MappedMemory>, Error>(Error::UserMode),
    decreases es.len(),
{
    if es.len() > 0 {
        let e = es[0];
        let last = acc.last();
        let len = last.len + huge_page_size_spec(ps, e.level);
        let grown = MappedMemory { phys_start: last.phys_start, virt_start: last.virt_start, len: len as usize, prot: last.prot };
        lemma_collect_not_user_mode(ps, maps, es.drop_first(), end, acc.update(acc.len() - 1, grown));
        match slot_offset(maps, ((e.entry@ & ADDR_MASK) as usize) as int) {
            None => {},
            Some(off) => lemma_collect_not_user_mode(ps, maps, es.drop_first(), end, acc.push(section_spec(ps, e, off))),
        }
    }
}

proof fn lemma_collect_keeps_sections(
    ps: usize,
    maps: Seq<Slot>,
    es: Seq<PageTableIteratorValue>,
    end: usize,
    acc: Seq<MappedMemory>,
)
    ensures
        collect_sections(ps, maps, es, end, acc) matches Ok(r) ==> r.len() >= acc.len(),
    decreases es.len(),
{
    if es.len() > 0 {
        let e = es[0];
        let last = acc.last();
        let len = last.len + huge_page_size_spec(ps, e.level);
        let grown = MappedMemory { phys_start: last.phys_start, virt_start: last.virt_start, len: len as usize, prot: last.prot };
        lemma_collect_keeps_sections(ps, maps, es.drop_first(), end, acc.update(acc.len() - 1, grown));
        match slot_offset(maps, ((e.entry@ & ADDR_MASK) as usize) as int) {
            None => {},
            Some(off) => lemma_collect_keeps_sections(ps, maps, es.drop_first(), end, acc.push(section_spec(ps, e, off))),
        }
    }
}

/// The kernel's sections, when found, are never empty.
pub proof fn lemma_kernel_sections_not_empty(
    ps: usize,
    maps: Seq<Slot>,
    es: Seq<PageTableIteratorValue>,
    start: usize,
    end: usize,
)
    ensures
        kernel_sections_spec(ps, maps, es, start, end) matches Ok(r) ==> r.len() > 0,
    decreases es.len(),
{
    if es.len() > 0 {
        let e = es[0];
        lemma_kernel_sections_not_empty(ps, maps, es.drop_first(), start, end);
        match slot_offset(maps, ((e.entry@ & ADDR_MASK) as usize) as int) {
            None => {},
            Some(off) => lemma_collect_keeps_sections(ps, maps, es.drop_first(), end, seq![section_spec(ps, e, off)]),
        }
    }
}

proof fn lemma_kernel_sections_not_user_mode(
    ps: usize,
    maps: Seq<Slot>,
    es: Seq<PageTableIteratorValue>,
    start: usize,
    end: usize,
)
    ensures
        kernel_sections_spec(ps, maps, es, start, end) != Err::<Seq<MappedMemory>, Error>(Error::UserMode),
    decreases es.len(),
{
    if es.len() > 0 {
        let e = es[0];
        lemma_kernel_sections_not_user_mode(ps, maps, es.drop_first(), start, end);
        match slot_offset(maps, ((e.entry@ & ADDR_MASK) as usize) as int) {
            None => {},
            Some(off) => lemma_collect_not_user_mode(ps, maps, es.drop_first(), end, seq![section_spec(ps, e, off)]),
        }
    }
}

/// The memory slots of the hypervisor's mappings: from the first to the last
/// guest physical address of each, with its host offset.
pub open spec fn memslots_of(ms: Seq<Mapping>) -> Seq<Slot> {
    ms.map_values(
        |m: Mapping|
            (m.phys_addr, (m.phys_addr + (m.end - m.start) - 1) as usize, host_offset_spec(m.start, m.phys_addr)),
    )
}

/// A mapping that is not empty and whose guest physical range and host
/// offset fit the machine.
pub open spec fn mapping_usable(m: Mapping) -> bool {
    &&& m.start < m.end
    &&& m.wf()
    &&& m.phys_addr - m.start != isize::MAX + 1
}

/// Guest memory as the hypervisor maps it, with the registers of the first
/// vcpu and its top level page table.
pub struct GuestMem {
    maps: PhysHostMap,
    regs: Regs,
    pml4: PhysAddr,
}

impl GuestMem {
    /// The memory slots are sorted and disjoint.
    pub closed spec fn wf(&self) -> bool {
        slots_sorted_disjoint(self.maps@)
    }

    /// The memory slots.
    pub closed spec fn maps_spec(&self) -> Seq<Slot> {
        self.maps@
    }

    /// The registers of the first vcpu.
    pub closed spec fn regs_spec(&self) -> Regs {
        self.regs
    }

    /// Where the top level page table lies.
    pub closed spec fn pml4_spec(&self) -> PhysAddr {
        self.pml4
    }

    /// Builds the guest memory from the hypervisor's mappings of guest
    /// memory, sorted by guest physical address, and the registers of its
    /// first vcpu.  Fails with `OverlappingMemslots` if two mappings overlap
    /// with different host offsets, and with `NoPageTableMemory` if no
    /// mapping holds the page table that `cr3` points to.
    pub fn new(mappings: Vec<Mapping>, regs: Regs, sregs: &kvm_sregs) -> (r: Result<GuestMem, Error>)
        requires
            forall|i: int| 0 <= i < mappings@.len() ==> mapping_usable(#[trigger] mappings@[i]),
        ensures
            ({
                let s = memslots_of(sort_by_key_spec(mappings@));
                let pt = page_table_addr_spec(*sregs);
                &&& slots_conflict(s) <==> r == Err::<GuestMem, Error>(Error::OverlappingMemslots)
                &&& (!slots_conflict(s) && slot_offset(merge_slots(s), pt as int) is None)
                    <==> r == Err::<GuestMem, Error>(Error::NoPageTableMemory)
                &&& r is Err ==> (r == Err::<GuestMem, Error>(Error::OverlappingMemslots)
                    || r == Err::<GuestMem, Error>(Error::NoPageTableMemory))
                &&& r matches Ok(g) ==> {
                    &&& g.wf()
                    &&& g.maps_spec() == merge_slots(s)
                    &&& g.regs_spec() == regs
                    &&& g.pml4_spec() == PhysAddr { value: pt, host_offset: slot_offset(merge_slots(s), pt as int).unwrap() }
                }
            }),
    {
        let sorted = sort_by_key(&mappings);
        proof {
            lemma_sort(mappings@);
        }
        let ghost target = memslots_of(sorted@);
        let mut slots: Vec<(Range<usize>, isize)> = Vec::new();
        let mut i: usize = 0;
        while i < sorted.len()
            invariant
                i <= sorted@.len(),
                sorted@ == sort_by_key_spec(mappings@),
                sorted@.len() == mappings@.len(),
                target == memslots_of(sorted@),
                forall|k: int| 0 <= k < sorted@.len() ==> mappings@.contains(#[trigger] sorted@[k]),
                forall|k: int| 0 <= k < mappings@.len() ==> mapping_usable(#[trigger] mappings@[k]),
                slots@.len() == i,
                slots_view(slots@) == target.take(i as int),
            decreases sorted.len() - i,
        {
            let m = sorted[i];
            proof {
                assert(mappings@.contains(sorted@[i as int]));
                let k = choose|k: int| 0 <= k < mappings@.len() && mappings@[k] == m;
                assert(mapping_usable(mappings@[k]));
            }
            let last = m.phys_end() - 1;
            let off = m.phys_to_host_offset();
            let ghost prev = slots@;
            slots.push((m.phys_addr..last, off));
            assert(target[i as int] == (m.phys_addr, last, off));
            assert(slots@ == prev.push((m.phys_addr..last, off)));
            assert forall|k: int| 0 <= k < i + 1 implies #[trigger] slots_view(slots@)[k] == target.take(i + 1)[k] by {
                if k < i {
                    assert(slots@[k] == prev[k]);
                    assert(slots_view(prev)[k] == target.take(i as int)[k]);
                } else {
                    assert(slots@[k] == (m.phys_addr..last, off));
                }
            }
            assert(slots_view(slots@) =~= target.take(i + 1));
            i += 1;
        }
        assert(target.take(sorted@.len() as int) =~= target);
        proof {
            assert forall|a: int, b: int| 0 <= a < b < target.len() implies (#[trigger] target[a]).0 <= (#[trigger] target[b]).0 by {
                assert(sorted_by_key(sorted@));
                assert(sorted@[a].phys_addr <= sorted@[b].phys_addr);
            }
            assert forall|a: int| 0 <= a < target.len() implies (#[trigger] target[a]).0 <= target[a].1 by {
                let k = choose|k: int| 0 <= k < mappings@.len() && mappings@[k] == sorted@[a];
                assert(mapping_usable(mappings@[k]));
            }
            assert(slots_sorted(target));
        }
        let maps = match PhysHostMap::try_new(&slots) {
            Some(m) => m,
            None => return Err(Error::OverlappingMemslots),
        };
        proof {
            lemma_lookup_after_new(target);
        }
        let pt_addr = get_page_table_addr(sregs);
        let host_offset = match maps.get(pt_addr) {
            Some(o) => o,
            None => return Err(Error::NoPageTableMemory),
        };
        Ok(GuestMem { maps, regs, pml4: PhysAddr { value: pt_addr, host_offset } })
    }

    /// The range of the memory slot with the highest addresses.
    pub fn last_memslot_range(&self) -> (r: Option<Range<usize>>)
        ensures
            self.maps_spec().len() == 0 ==> r is None,
            self.maps_spec().len() > 0 ==> (r matches Some(x) && x.start == self.maps_spec().last().0
                && x.end == self.maps_spec().last().1),
    {
        self.maps.last_range()
    }

    /// The kernel's sections among the leaf entries `entries` of the page
    /// table, for page size `ps`: starting at the first entry whose virtual
    /// address lies above `range.start`, consecutive entries with the same
    /// protection are joined, up to the first entry at or after `range.end`.
    /// Fails with `NoKernel` if no entry lies above `range.start`, with
    /// `NoMemslot` if a section starts in memory that no slot holds, and with
    /// `OutOfAddressSpace` if a section would outgrow the address space.
    pub fn kernel_sections(&self, ps: usize, entries: &Vec<PageTableIteratorValue>, range: Range<usize>) -> (r: Result<Vec<MappedMemory>, Error>)
        requires
            self.wf(),
            forall|i: int| 0 <= i < entries@.len() ==> (#[trigger] entries@[i]).level <= 3,
        ensures
            match kernel_sections_spec(ps, self.maps_spec(), entries@, range.start, range.end) {
                Ok(s) => r is Ok && r.unwrap()@ == s,
                Err(e) => r == Err::<Vec<MappedMemory>, Error>(e),
            },
    {
        let ghost m = self.maps@;
        let ghost es = entries@;
        let ghost total = kernel_sections_spec(ps, m, es, range.start, range.end);
        let mut sections: Vec<MappedMemory> = Vec::new();
        let mut i: usize = 0;
        assert(es.skip(0) =~= es);
        while i < entries.len() && sections.len() == 0
            invariant
                i <= es.len(),
                es == entries@,
                m == self.maps@,
                slots_sorted_disjoint(m),
                total == kernel_sections_spec(ps, m, es, range.start, range.end),
                forall|k: int| 0 <= k < es.len() ==> (#[trigger] es[k]).level <= 3,
                sections@.len() <= 1,
                sections@.len() == 0 ==> kernel_sections_spec(ps, m, es.skip(i as int), range.start, range.end) == total,
                sections@.len() == 1 ==> collect_sections(ps, m, es.skip(i as int), range.end, sections@) == total,
            decreases es.len() - i,
        {
            let e = entries[i];
            assert(es.skip(i as int)[0] == e);
            assert(es.skip(i as int).drop_first() =~= es.skip(i + 1));
            if e.virt_addr as usize > range.start {
                let addr = e.entry.addr();
                let host_offset = match self.maps.get(addr as usize) {
                    Some(o) => o,
                    None => return Err(Error::NoMemslot),
                };
                sections.push(mapped_memory(ps, &e, host_offset));
                assert(sections@ =~= seq![section_spec(ps, e, host_offset)]);
            }
            i += 1;
        }
        if sections.len() == 0 {
            assert(es.skip(i as int).len() == 0);
            return Err(Error::NoKernel);
        }
        while i < entries.len()
            invariant
                i <= es.len(),
                es == entries@,
                m == self.maps@,
                slots_sorted_disjoint(m),
                forall|k: int| 0 <= k < es.len() ==> (#[trigger] es[k]).level <= 3,
                total == kernel_sections_spec(ps, m, es, range.start, range.end),
                sections@.len() >= 1,
                collect_sections(ps, m, es.skip(i as int), range.end, sections@) == total,
            decreases es.len() - i,
        {
            let e = entries[i];
            assert(es.skip(i as int)[0] == e);
            assert(es.skip(i as int).drop_first() =~= es.skip(i + 1));
            if e.virt_addr as usize >= range.end {
                return Ok(sections);
            }
            let n = sections.len();
            let last = sections[n - 1];
            let prot = prot_flags(e.entry.flags());
            let phys = e.entry.addr() as usize;
            let joins = last.prot == prot && last.virt_start.checked_add(last.len) == Some(e.virt_addr as usize)
                && last.phys_start.value.checked_add(last.len) == Some(phys);
            if joins {
                let size = huge_page_size_with(ps, e.level);
                match last.len.checked_add(size) {
                    None => return Err(Error::OutOfAddressSpace),
                    Some(len) => {
                        let grown = MappedMemory {
                            phys_start: last.phys_start,
                            virt_start: last.virt_start,
                            len,
                            prot: last.prot,
                        };
                        sections.set(n - 1, grown);
                    },
                }
            } else {
                let addr = e.entry.addr();
                let host_offset = match self.maps.get(addr as usize) {
                    Some(o) => o,
                    None => return Err(Error::NoMemslot),
                };
                sections.push(mapped_memory(ps, &e, host_offset));
            }
            i += 1;
        }
        assert(es.skip(i as int).len() == 0);
        Ok(sections)
    }

    /// Finds the sections of the kernel between the virtual addresses of
    /// `range` in the page table of the guest, whose memory the hypervisor
    /// process `pid` holds; see `kernel_sections`.  Fails with `UserMode` if
    /// the vcpu stopped in user mode, where the kernel might not be mapped.
    pub fn find_kernel_sections(&self, pid: i32, range: Range<usize>) -> (r: Result<Vec<MappedMemory>, Error>)
        requires
            self.wf(),
        ensures
            (self.regs_spec().cs & 3 == 3) <==> r == Err::<Vec<MappedMemory>, Error>(Error::UserMode),
            r matches Ok(v) ==> exists|ps: usize, es: Seq<PageTableIteratorValue>|
                ps >= 1 && kernel_sections_spec(ps, self.maps_spec(), es, range.start, range.end) == Ok::<Seq<MappedMemory>, Error>(v@),
            r matches Ok(v) ==> v@.len() > 0,
    {
        let cpl = self.regs.cs & 3;
        if cpl == 3 {
            return Err(Error::UserMode);
        }
        // level and virtual address of the top table are not used by the walk
        let pml4 = match PageTable::read(pid, &self.pml4, 0, 0) {
            Ok(t) => t,
            Err(e) => return Err(e),
        };
        proof {
            assert(0u64 & 0xffff_ffff_ffffu64 == 0) by (bit_vector);
        }
        let entries = pml4.iter(pid, range.start, range.end);
        let ps = page_size();
        let r = self.kernel_sections(ps, &entries, range);
        proof {
            lemma_kernel_sections_not_user_mode(ps, self.maps_spec(), entries@, range.start, range.end);
            lemma_kernel_sections_not_empty(ps, self.maps_spec(), entries@, range.start, range.end);
            if r is Ok {
                let v = r.unwrap();
                assert(kernel_sections_spec(ps, self.maps_spec(), entries@, range.start, range.end) == Ok::<Seq<MappedMemory>, Error>(v@));
            }
        }
        r
    }

    /// Maps `mappings` into the page table of the guest, whose memory the
    /// hypervisor process `pid` holds; see `page_table::map_memory`.
    pub fn map_memory(&mut self, pid: i32, mappings: &[MappedMemory]) -> (r: Result<VirtMem, Error>)
        requires
            mappings@.len() > 0,
        ensures
            *final(self) == *old(self),
            r matches Ok(vm) ==> {
                &&& vm.pid_spec() == pid
                &&& vm.mappings_spec() == mappings@
                &&& all_wf(vm.old_tables_spec())
                &&& vm.old_tables_spec().len() >= 1
                &&& vm.old_tables_spec()[0].phys_addr_spec() == old(self).pml4_spec()
            },
            r matches Err(e) ==> map_memory_error(e),
            !(0 <= old(self).pml4_spec().host_addr_spec() <= usize::MAX) ==> r == Err::<VirtMem, Error>(Error::InvalidAddress),
            r is Ok || r == Err::<VirtMem, Error>(Error::UnsupportedPageSize) || r == Err::<VirtMem, Error>(Error::InvalidMapping)
                ==> exists|ps: usize, t: PageTable|
                t.phys_addr_spec() == old(self).pml4_spec() && #[trigger] map_memory_outcome(r, ps, mappings@, t),
    {
        let mut pml4 = PageTable::read(pid, &self.pml4, 0, 0)?;
        let r = page_table::map_memory(pid, &mut pml4, mappings);
        proof {
            if r is Ok || r == Err::<VirtMem, Error>(Error::UnsupportedPageSize) || r == Err::<VirtMem, Error>(Error::InvalidMapping) {
                let ps = choose|ps: usize| #[trigger] map_memory_outcome(r, ps, mappings@, pml4);
                assert(map_memory_outcome(r, ps, mappings@, pml4));
                assert(pml4.phys_addr_spec() == self.pml4_spec());
            }
        }
        r
    }
}

} // verus!

use vmsh::cpu::Regs;
use vmsh::error::Error;
use vmsh::guest_mem::{get_page_table_addr, GuestMem, MappedMemory, PhysHostMap};
use vmsh::kvm::cpus::{kvm_dtable, kvm_segment, kvm_sregs};
use vmsh::page_table::{PageTableEntry, PageTableIteratorValue, PhysAddr};
use vmsh::proc::Mapping;
use vmsh::sort::sort_by_key;
use vmsh::prot::ProtFlags;

fn zero_regs() -> Regs {
    Regs {
        r15: 0,
        r14: 0,
        r13: 0,
        r12: 0,
        rbp: 0,
        rbx: 0,
        r11: 0,
        r10: 0,
        r9: 0,
        r8: 0,
        rax: 0,
        rcx: 0,
        rdx: 0,
        rsi: 0,
        rdi: 0,
        orig_rax: 0,
        rip: 0,
        cs: 0,
        eflags: 0,
        rsp: 0,
        ss: 0,
        fs_base: 0,
        gs_base: 0,
        ds: 0,
        es: 0,
        fs: 0,
        gs: 0,
    }
}

fn zero_segment() -> kvm_segment {
    kvm_segment {
        base: 0,
        limit: 0,
        selector: 0,
        _type: 0,
        present: 0,
        dpl: 0,
        db: 0,
        s: 0,
        l: 0,
        g: 0,
        avl: 0,
        unusable: 0,
        padding: 0,
    }
}

fn sregs(cr3: u64, cr4: u64) -> kvm_sregs {
    let dt = kvm_dtable { base: 0, limit: 0, padding: [0; 3] };
    kvm_sregs {
        cs: zero_segment(),
        ds: zero_segment(),
        es: zero_segment(),
        fs: zero_segment(),
        gs: zero_segment(),
        ss: zero_segment(),
        tr: zero_segment(),
        ldt: zero_segment(),
        gdt: dt,
        idt: dt,
        cr0: 0,
        cr2: 0,
        cr3,
        cr4,
        cr8: 0,
        efer: 0,
        apic_base: 0,
        interrupt_bitmap: [0; 256],
    }
}

fn mapping(start: usize, end: usize, phys_addr: usize) -> Mapping {
    Mapping { start, end, phys_addr, prot_flags: ProtFlags::prot_read() }
}

#[test]
fn range_lookup() {
    let m = PhysHostMap::new(vec![(1..9, 1), (10..15, 2)]);
    assert_eq!(m.get(1), Some(1));
    assert_eq!(m.get(2), Some(1));
    assert_eq!(m.get(11), Some(2));
    assert_eq!(m.get(16), None);
}

#[test]
fn phys_host_map_merges_touching_slots() {
    let m = PhysHostMap::new(vec![(0..9, 5), (10..19, 5), (30..39, 7)]);
    assert_eq!(m.get_range(15), Some((0..19, 5)));
    assert_eq!(m.get(25), None);
    assert_eq!(m.get(30), Some(7));
    assert_eq!(m.last_range(), Some(30..39));
}

#[test]
fn phys_host_map_refuses_overlap_with_other_offset() {
    assert!(PhysHostMap::try_new(&vec![(0..10, 1), (5..20, 2)]).is_none());
    assert!(PhysHostMap::try_new(&vec![(0..10, 1), (5..20, 1)]).is_some());
}

#[test]
fn phys_host_map_empty() {
    let m = PhysHostMap::new(vec![]);
    assert_eq!(m.last_range(), None);
    assert_eq!(m.get(0), None);
}

#[test]
fn mapped_memory_contains_excludes_first_byte() {
    let m = MappedMemory {
        phys_start: PhysAddr { value: 0, host_offset: 0 },
        virt_start: 0x1000,
        len: 0x1000,
        prot: ProtFlags::prot_read(),
    };
    assert!(!m.contains(0x1000));
    assert!(m.contains(0x1001));
    assert!(m.contains(0x1fff));
    assert!(!m.contains(0x2000));
}

#[test]
fn mappings_are_sorted_stably_by_physical_address() {
    let ms = vec![mapping(0x3000, 0x4000, 0x200), mapping(0x1000, 0x2000, 0x100), mapping(0x5000, 0x6000, 0x100)];
    let sorted = sort_by_key(&ms);
    assert_eq!(sorted, vec![ms[1], ms[2], ms[0]]);
}

#[test]
fn mapping_offsets() {
    let m = mapping(0x7000_0000, 0x7000_4000, 0x1000);
    assert_eq!(m.size(), 0x4000);
    assert_eq!(m.phys_end(), 0x5000);
    assert_eq!(m.phys_to_host_offset(), 0x7000_0000 - 0x1000);
}

#[test]
fn page_table_address_from_cr3() {
    assert_eq!(get_page_table_addr(&sregs(0x1234_5678, 0)), 0x1234_5678);
    assert_eq!(get_page_table_addr(&sregs(0x1234_5678, 0x20000)), 0x1234_5000);
}

#[test]
fn guest_mem_new_finds_page_table_slot() {
    let maps = vec![mapping(0x7f00_0000_0000, 0x7f00_0010_0000, 0), mapping(0x7f00_1000_0000, 0x7f00_1010_0000, 0x10_0000)];
    let g = GuestMem::new(maps, zero_regs(), &sregs(0x2000, 0)).unwrap();
    assert_eq!(g.last_memslot_range(), Some(0x10_0000..0x1f_ffff));
}

#[test]
fn guest_mem_new_errors() {
    let overlapping = vec![mapping(0x1000, 0x3000, 0), mapping(0x9000, 0xb000, 0x1000)];
    assert_eq!(GuestMem::new(overlapping, zero_regs(), &sregs(0, 0)).err(), Some(Error::OverlappingMemslots));
    let maps = vec![mapping(0x1000, 0x3000, 0)];
    assert_eq!(GuestMem::new(maps, zero_regs(), &sregs(0x10_0000, 0)).err(), Some(Error::NoPageTableMemory));
}

fn leaf(virt_addr: u64, level: u8, raw: u64) -> PageTableIteratorValue {
    PageTableIteratorValue { virt_addr, level, entry: PageTableEntry::from_raw(raw) }
}

#[test]
fn kernel_sections_join_entries_with_same_protection() {
    let maps = vec![mapping(0x10_0000, 0x50_0000, 0)];
    let g = GuestMem::new(maps, zero_regs(), &sregs(0x1000, 0)).unwrap();
    let nx: u64 = 1 << 63;
    let entries = vec![
        leaf(0x1000, 3, 0x1000 | 1),
        leaf(0x2000, 3, 0x2000 | 1),
        leaf(0x3000, 3, 0x3000 | 1),
        leaf(0x4000, 3, 0x4000 | 1 | 2 | nx),
        leaf(0x9000, 3, 0x9000 | 1),
    ];
    let sections = g.kernel_sections(4096, &entries, 0x1000..0x9000).unwrap();
    assert_eq!(sections.len(), 2);
    assert_eq!(sections[0].virt_start, 0x2000);
    assert_eq!(sections[0].len, 0x2000);
    assert_eq!(sections[0].prot.bits, 5);
    assert_eq!(sections[0].phys_start, PhysAddr { value: 0x2000, host_offset: 0x10_0000 });
    assert_eq!(sections[1].virt_start, 0x4000);
    assert_eq!(sections[1].prot.bits, 3);
}

#[test]
fn kernel_sections_split_at_gaps() {
    let maps = vec![mapping(0x10_0000, 0x50_0000, 0)];
    let g = GuestMem::new(maps, zero_regs(), &sregs(0x1000, 0)).unwrap();
    let entries = vec![
        leaf(0x2000, 3, 0x2000 | 1),
        // a virtual gap
        leaf(0x5000, 3, 0x3000 | 1),
        // physically elsewhere
        leaf(0x6000, 3, 0x8000 | 1),
        // continues the one before
        leaf(0x7000, 3, 0x9000 | 1),
    ];
    let sections = g.kernel_sections(4096, &entries, 0x1000..0x9000).unwrap();
    assert_eq!(sections.len(), 3);
    assert_eq!((sections[0].virt_start, sections[0].len), (0x2000, 0x1000));
    assert_eq!((sections[1].virt_start, sections[1].len), (0x5000, 0x1000));
    assert_eq!((sections[2].virt_start, sections[2].len), (0x6000, 0x2000));
    assert_eq!(sections[2].phys_start.value, 0x8000);
}

#[test]
fn kernel_sections_errors() {
    let maps = vec![mapping(0x10_0000, 0x50_0000, 0)];
    let g = GuestMem::new(maps, zero_regs(), &sregs(0x1000, 0)).unwrap();
    let below = vec![leaf(0x1000, 3, 0x1000 | 1)];
    assert_eq!(g.kernel_sections(4096, &below, 0x1000..0x9000).err(), Some(Error::NoKernel));
    let outside = vec![leaf(0x2000, 3, 0x900_0000 | 1)];
    assert_eq!(g.kernel_sections(4096, &outside, 0x1000..0x9000).err(), Some(Error::NoMemslot));
}

#[test]
fn find_kernel_sections_refuses_user_mode() {
    let maps = vec![mapping(0x10_0000, 0x50_0000, 0)];
    let mut regs = zero_regs();
    regs.cs = 0x33;
    let g = GuestMem::new(maps, regs, &sregs(0x1000, 0)).unwrap();
    assert_eq!(g.find_kernel_sections(nix::unistd::getpid().as_raw(), 0..0x1000).err(), Some(Error::UserMode));
}

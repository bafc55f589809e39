use vmsh::error::Error;
use vmsh::guest_mem::MappedMemory;
use vmsh::page_math::{
    compute_host_offset, huge_page_size, huge_page_size_with, is_page_aligned, is_page_aligned_with, page_align,
    page_align_with, page_size, page_start, page_start_with,
};
use vmsh::page_table::{check_written, estimate_page_table_size};
use vmsh::page_table::{
    estimate_page_table_size_with, is_power_of_two, map_memory, map_memory_tables, table_align, walk_tables, PageTable, PageTableEntry,
    PageTableFlags, PhysAddr, ADDR_MASK, FLAGS_MASK,
};
use vmsh::prot::ProtFlags;

#[test]
fn page_rounding() {
    assert_eq!(page_start_with(4096, 0x1234), 0x1000);
    assert_eq!(page_align_with(4096, 0x1234), 0x2000);
    assert_eq!(page_align_with(4096, 0x2000), 0x2000);
    assert!(is_page_aligned_with(4096, 0x3000));
    assert!(!is_page_aligned_with(4096, 0x3001));
    let ps = page_size();
    assert_eq!(page_start(ps + 1), ps);
    assert_eq!(page_align(ps + 1), 2 * ps);
    assert!(is_page_aligned(2 * ps));
}

#[test]
fn page_align_wraps_at_end_of_address_space() {
    assert_eq!(page_align_with(4096, usize::MAX), 0);
}

#[test]
fn huge_pages() {
    assert_eq!(huge_page_size_with(4096, 3), 4096);
    assert_eq!(huge_page_size_with(4096, 2), 2 * 1024 * 1024);
    assert_eq!(huge_page_size_with(4096, 1), 1024 * 1024 * 1024);
    assert_eq!(huge_page_size(3), page_size());
}

#[test]
fn host_offset_round_trip() {
    let host = 0x7f12_3456_0000usize;
    let phys = 0x1000usize;
    let off = compute_host_offset(host, phys);
    assert_eq!(off, 0x7f12_3455_f000isize);
    assert_eq!(PhysAddr { value: phys, host_offset: off }.host_addr(), host);
    let back = compute_host_offset(0x1000, 0x7f12_3456_0000);
    assert_eq!(PhysAddr { value: 0x7f12_3456_0000, host_offset: back }.host_addr(), 0x1000);
}

#[test]
fn phys_addr_add_and_alignment() {
    let a = PhysAddr { value: 0x1000, host_offset: -5 };
    assert_eq!(a.add(0x20), PhysAddr { value: 0x1020, host_offset: -5 });
    assert!(a.is_page_aligned_with(4096));
    assert!(!a.add(1).is_page_aligned_with(4096));
}

#[test]
fn entry_round_trip() {
    let mut e = PageTableEntry::unused();
    assert!(e.is_unused());
    let flags = PageTableFlags::present().union(PageTableFlags::writable()).union(PageTableFlags::no_execute());
    e.set_addr(&PhysAddr { value: 0x1234_5000, host_offset: 0 }, flags);
    assert_eq!(e.addr(), 0x1234_5000);
    assert_eq!(e.flags(), flags);
    assert!(e.flags().contains(PageTableFlags::writable()));
    assert!(!e.flags().contains(PageTableFlags::huge_page()));
    assert!(!e.is_unused());
    e.set_unused();
    assert!(e.is_unused());
    assert_eq!(ADDR_MASK & FLAGS_MASK, 0);
    assert_eq!(PageTableFlags::from_bits_truncate(0x1234_5067).bits(), 0x67);
}

#[test]
fn table_rounding() {
    assert_eq!(table_align(0), 0);
    assert_eq!(table_align(1), 512);
    assert_eq!(table_align(512), 512);
    assert_eq!(table_align(513), 1024);
    assert!(is_power_of_two(4096));
    assert!(!is_power_of_two(4097));
    assert!(!is_power_of_two(0));
}

#[test]
fn page_table_size_estimates() {
    assert_eq!(estimate_page_table_size_with(4096, 0), 0);
    assert_eq!(estimate_page_table_size_with(4096, 1), 4 * 4096);
    assert_eq!(estimate_page_table_size_with(4096, 512 * 4096 + 1), 5 * 4096);
    assert_eq!(estimate_page_table_size_with(4096, 512 * 512 * 4096 + 1), (513 + 2 + 1 + 1) * 4096);
}

#[test]
fn read_refuses_address_outside_address_space() {
    let pid = nix::unistd::getpid().as_raw();
    let addr = PhysAddr { value: 0x10, host_offset: -0x20 };
    assert_eq!(PageTable::read(pid, &addr, 0, 0).err(), Some(Error::InvalidAddress));
}

#[test]
fn map_memory_then_walk_then_restore() {
    if page_size() != 4096 {
        return;
    }
    let pid = nix::unistd::getpid().as_raw();
    // guest physical memory from address 0, held in this process
    let guest = vec![0u8; 0x10000];
    let host_offset = guest.as_ptr() as isize;
    let pml4_addr = PhysAddr { value: 0, host_offset };
    let mut pml4 = PageTable::read(pid, &pml4_addr, 0, 0).unwrap();
    let mappings = vec![MappedMemory {
        phys_start: PhysAddr { value: 0x1000, host_offset },
        virt_start: 0x40_0000,
        len: 0x2000,
        prot: ProtFlags::prot_read().union(ProtFlags::prot_write()),
    }];
    let virt = map_memory(pid, &mut pml4, &mappings).unwrap();
    assert_eq!(virt.mappings, mappings);

    let leaves = PageTable::read(pid, &pml4_addr, 0, 0).unwrap().iter(pid, 0, usize::MAX);
    assert_eq!(leaves.len(), 2);
    assert_eq!(leaves[0].virt_addr, 0x40_0000);
    assert_eq!(leaves[0].level, 3);
    assert_eq!(leaves[0].entry.addr(), 0x1000);
    assert!(leaves[0].entry.flags().contains(PageTableFlags::writable()));
    assert_eq!(leaves[1].virt_addr, 0x40_1000);
    assert_eq!(leaves[1].entry.addr(), 0x2000);

    // mapping the same memory again finds the pages mapped
    let mut pml4_again = PageTable::read(pid, &pml4_addr, 0, 0).unwrap();
    assert_eq!(map_memory(pid, &mut pml4_again, &mappings).err(), Some(Error::PageAlreadyMapped));

    virt.restore().unwrap();
    let after = PageTable::read(pid, &pml4_addr, 0, 0).unwrap().iter(pid, 0, usize::MAX);
    assert_eq!(after.len(), 0);
    drop(guest);
}

#[test]
fn map_memory_refuses_invalid_mappings() {
    let pid = nix::unistd::getpid().as_raw();
    let mut pml4 = PageTable::empty(PhysAddr { value: 0, host_offset: 0 });
    let unaligned = vec![MappedMemory {
        phys_start: PhysAddr { value: 0x1001, host_offset: 0 },
        virt_start: 0x40_0000,
        len: 0x1000,
        prot: ProtFlags::prot_read(),
    }];
    assert_eq!(map_memory(pid, &mut pml4, &unaligned).err(), Some(Error::InvalidMapping));
}

#[test]
fn fresh_mapping_needs_no_guest_reads() {
    // no process memory is read: every table on the way is new
    let mut pml4 = PageTable::empty(PhysAddr { value: 0, host_offset: 0 });
    let mappings = vec![MappedMemory {
        phys_start: PhysAddr { value: 0x10_0000, host_offset: 0 },
        virt_start: 0x40_0000,
        len: 0x3000,
        prot: ProtFlags::prot_read(),
    }];
    let (upsert, old, end) = map_memory_tables(-1, 4096, &mut pml4, &mappings).unwrap();
    // a page table, a directory, a pointer table and the top level table
    assert_eq!(upsert.len(), 4);
    // the three new tables follow the mapped memory
    assert_eq!(end, 0x10_3000 + 3 * 4096);
    // the new tables fit in what the estimate reserves
    assert!(3 * 4096 <= estimate_page_table_size_with(4096, 0x3000));
    assert_eq!(old.len(), 1);
    // the same mapping again reads the (unwritten) tables below from the guest
    assert_eq!(map_memory_tables(-1, 4096, &mut pml4, &mappings).err(), Some(Error::RemoteRead));
}

#[test]
fn new_tables_map_each_page_at_its_address() {
    let mut pml4 = PageTable::empty(PhysAddr { value: 0, host_offset: 0 });
    let mappings = vec![MappedMemory {
        phys_start: PhysAddr { value: 0x10_0000, host_offset: 0 },
        virt_start: 0x40_0000,
        len: 0x3000,
        prot: ProtFlags::prot_read().union(ProtFlags::prot_write()),
    }];
    let (upsert, _old, _end) = map_memory_tables(-1, 4096, &mut pml4, &mappings).unwrap();
    let mut out = Vec::new();
    walk_tables(&upsert, &pml4, 0, 0, 0, usize::MAX, &mut out);
    assert_eq!(out.len(), 3);
    for (k, v) in out.iter().enumerate() {
        assert_eq!(v.virt_addr, 0x40_0000 + 0x1000 * k as u64);
        assert_eq!(v.level, 3);
        assert_eq!(v.entry.addr(), 0x10_0000 + 0x1000 * k as u64);
        assert!(v.entry.flags().contains(PageTableFlags::writable()));
    }
    // a range that starts past the mapping finds nothing
    let mut none = Vec::new();
    walk_tables(&upsert, &pml4, 0, 0, 0x40_3000, usize::MAX, &mut none);
    assert!(none.is_empty());
}

#[test]
fn table_reads_and_writes_are_checked() {
    let at = PhysAddr { value: 0x5000, host_offset: 0 };
    let bytes = vec![0u8; 4096];
    assert_eq!(PageTable::from_read(&at, 0, 1, &bytes, 4095).err(), Some(Error::ShortRead));
    assert_eq!(PageTable::from_read(&at, 0, 1, &bytes, 0).err(), Some(Error::ShortRead));
    assert!(PageTable::from_read(&at, 0, 1, &bytes, 4096).is_ok());
    assert_eq!(check_written(3 * 4096, 3 * 4096), Ok(()));
    assert_eq!(check_written(4096, 3 * 4096), Err(Error::ShortWrite));
    assert_eq!(check_written(0, 4096), Err(Error::ShortWrite));
}

#[test]
fn estimate_covers_a_mapping_that_starts_at_a_gigabyte() {
    // two pages at the start of a 1 GiB block need three new tables below
    // the top level table; the estimate makes room for four
    assert_eq!(estimate_page_table_size_with(4096, 2 * 4096), 4 * 4096);
    if vmsh::page_math::page_size() == 4096 {
        assert_eq!(estimate_page_table_size(2 * 4096), 4 * 4096);
    }
    // pages of 2 MiB: one table on each of the four levels
    assert_eq!(estimate_page_table_size_with(0x20_0000, 0x20_0000), 4 * 4096);
    // a large size with 4 KiB pages does not overflow
    assert!(estimate_page_table_size_with(4096, usize::MAX / 2) > 0);
}

#[test]
fn every_mapping_is_placed_at_its_address() {
    let mut pml4 = PageTable::empty(PhysAddr { value: 0, host_offset: 0 });
    let mappings = vec![
        MappedMemory {
            phys_start: PhysAddr { value: 0x10_0000, host_offset: 0 },
            virt_start: 0x40_0000,
            len: 0x1000,
            prot: ProtFlags::prot_read(),
        },
        MappedMemory {
            phys_start: PhysAddr { value: 0x10_1000, host_offset: 0 },
            virt_start: 0x80_0000_0000,
            len: 0x2000,
            prot: ProtFlags::prot_read().union(ProtFlags::prot_write()),
        },
    ];
    let (upsert, _old, _end) = map_memory_tables(-1, 4096, &mut pml4, &mappings).unwrap();
    let mut out = Vec::new();
    walk_tables(&upsert, &pml4, 0, 0, 0, usize::MAX, &mut out);
    assert_eq!(out.len(), 3);
    assert_eq!((out[0].virt_addr, out[0].entry.addr()), (0x40_0000, 0x10_0000));
    assert!(!out[0].entry.flags().contains(PageTableFlags::writable()));
    assert_eq!((out[1].virt_addr, out[1].entry.addr()), (0x80_0000_0000, 0x10_1000));
    assert_eq!((out[2].virt_addr, out[2].entry.addr()), (0x80_0000_1000, 0x10_2000));
    assert!(out[2].entry.flags().contains(PageTableFlags::writable()));
}

#[test]
fn new_tables_end_where_the_estimate_says() {
    // two pages at the start of a 1 GiB block: three new tables, within the estimate
    let mut pml4 = PageTable::empty(PhysAddr { value: 0, host_offset: 0 });
    let at_boundary = vec![MappedMemory {
        phys_start: PhysAddr { value: 0x10_0000, host_offset: 0 },
        virt_start: 0x4000_0000,
        len: 0x2000,
        prot: ProtFlags::prot_read(),
    }];
    let (_, _, end) = map_memory_tables(-1, 4096, &mut pml4, &at_boundary).unwrap();
    assert_eq!(end - 0x10_2000, 3 * 4096);
    assert!(end - 0x10_2000 <= estimate_page_table_size_with(4096, 0x2000));
    // two pages on both sides of a 1 GiB boundary need five tables, one more
    // than the estimate makes room for
    let mut pml4 = PageTable::empty(PhysAddr { value: 0, host_offset: 0 });
    let straddling = vec![MappedMemory {
        phys_start: PhysAddr { value: 0x10_0000, host_offset: 0 },
        virt_start: 0x3fff_f000,
        len: 0x2000,
        prot: ProtFlags::prot_read(),
    }];
    let (_, _, end) = map_memory_tables(-1, 4096, &mut pml4, &straddling).unwrap();
    assert_eq!(end - 0x10_2000, 5 * 4096);
    assert_eq!(estimate_page_table_size_with(4096, 0x2000), 4 * 4096);
}

#[test]
fn mappings_that_share_tables_keep_each_other() {
    // the second mapping continues in the tables the first one made: they are
    // taken from the queue, not read again from the guest
    let mut pml4 = PageTable::empty(PhysAddr { value: 0, host_offset: 0 });
    let mappings = vec![
        MappedMemory {
            phys_start: PhysAddr { value: 0x10_0000, host_offset: 0 },
            virt_start: 0x40_0000,
            len: 0x1000,
            prot: ProtFlags::prot_read(),
        },
        MappedMemory {
            phys_start: PhysAddr { value: 0x10_1000, host_offset: 0 },
            virt_start: 0x40_1000,
            len: 0x2000,
            prot: ProtFlags::prot_read().union(ProtFlags::prot_write()),
        },
    ];
    let (upsert, old, end) = map_memory_tables(-1, 4096, &mut pml4, &mappings).unwrap();
    // only the top level table was read; three tables were made
    assert_eq!(old.len(), 1);
    assert_eq!(end, 0x10_3000 + 3 * 4096);
    let mut out = Vec::new();
    walk_tables(&upsert, &pml4, 0, 0, 0, usize::MAX, &mut out);
    assert_eq!(out.len(), 3);
    for (k, v) in out.iter().enumerate() {
        assert_eq!(v.virt_addr, 0x40_0000 + 0x1000 * k as u64);
        assert_eq!(v.entry.addr(), 0x10_0000 + 0x1000 * k as u64);
    }
    assert!(!out[0].entry.flags().contains(PageTableFlags::writable()));
    assert!(out[1].entry.flags().contains(PageTableFlags::writable()));
}

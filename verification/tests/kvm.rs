use vmsh::cpu::Regs;
use vmsh::error::Error;
use vmsh::guest_mem::GuestMem;
use vmsh::kvm::allocator::{
    get_first_allocation, sme_sev_bits, MmioRange, PhysMemAllocator, VirtAlloc, ADDRESS_SIZE_FUNCTION,
    EXTEND_CPU_INFO_FUNCTION, LONG_MODE,
};
use vmsh::kvm::cpus::{kvm_dtable, kvm_segment, kvm_sregs};
use vmsh::kvm::ioctls::{
    ioctl_expr, ioregionfd_cmd, ioregionfd_resp, kvm_cpuid2, kvm_cpuid_entry2, kvm_ioregion, response_data, Cmd, Info,
    Size, KVM_CHECK_EXTENSION, KVM_RUN,
};
use vmsh::kvm_memslots::MemSlot;
use vmsh::page_table::PhysAddr;
use vmsh::proc::Mapping;
use vmsh::prot::ProtFlags;

fn entry(function: u32, eax: u32, edx: u32) -> kvm_cpuid_entry2 {
    kvm_cpuid_entry2 { function, index: 0, flags: 0, eax, ebx: 0, ecx: 0, edx, padding: [0; 3] }
}

fn cpuid(entries: &[kvm_cpuid_entry2]) -> kvm_cpuid2 {
    let mut c = kvm_cpuid2 { nent: entries.len() as u32, padding: 0, entries: [entry(0, 0, 0); 256] };
    for (i, e) in entries.iter().enumerate() {
        c.entries[i] = *e;
    }
    c
}

#[test]
fn info_round_trip() {
    for cmd in [Cmd::Read, Cmd::Write] {
        for size in [Size::b8, Size::b16, Size::b32, Size::b64] {
            for response in [false, true] {
                let info = Info::new(cmd, size, response);
                assert_eq!(info.cmd(), cmd);
                assert_eq!(info.size(), size);
                assert_eq!(info.is_response(), !response);
            }
        }
    }
    assert_eq!(Info::new(Cmd::Write, Size::b32, true).0, 0x61);
}

#[test]
fn command_data_follows_access_size() {
    let mut cmd = ioregionfd_cmd {
        info: Info::new(Cmd::Write, Size::b16, false),
        pad: 0,
        user_data: 7,
        offset: 0x10,
        data: 0x1122_3344_5566_7788,
    };
    assert_eq!(cmd.data(), vec![0x88, 0x77]);
    cmd.data_mut(&[0xaa, 0xbb]);
    assert_eq!(cmd.data, 0x1122_3344_5566_bbaa);
    assert_eq!(cmd.user_data, 7);
    cmd.info = Info::new(Cmd::Read, Size::b64, false);
    assert_eq!(cmd.data().len(), 8);
}

#[test]
fn ioregion_and_response() {
    let r = kvm_ioregion::new(0xd000_0000, 0x1000, 3, 4);
    assert_eq!(r.guest_paddr, 0xd000_0000);
    assert_eq!(r.memory_size, 0x1000);
    assert_eq!((r.rfd, r.wfd, r.flags), (3, 4, 0));
    let resp = ioregionfd_resp::new(42);
    assert_eq!(resp.data, 42);
    assert_eq!(resp.pad, [0u8; 24]);
}

#[test]
fn ioctl_numbers() {
    assert_eq!(KVM_RUN(), 0xAE80);
    assert_eq!(KVM_CHECK_EXTENSION(), 0xAE03);
    // KVM_GET_REGS: _IOR(KVMIO, 0x81, struct kvm_regs) with 144 bytes
    assert_eq!(ioctl_expr(2, 0xAE, 0x81, 144), 0x8090_AE81);
}

#[test]
fn memory_encryption_bits() {
    assert_eq!(sme_sev_bits(0, 0xffff_ffff), 0);
    assert_eq!(sme_sev_bits(1, 5 << 6), 5);
    assert_eq!(sme_sev_bits(2, 0x3f << 6 | 0x1000), 0x3f);
}

#[test]
fn first_allocation() {
    let good = cpuid(&[entry(EXTEND_CPU_INFO_FUNCTION, 0, LONG_MODE), entry(ADDRESS_SIZE_FUNCTION, 48 << 8 | 40, 0)]);
    assert_eq!(get_first_allocation(&good, 48 << 8 | 46, 0, 0), Ok(1 << 40));
    assert_eq!(get_first_allocation(&good, 48 << 8 | 39, 0, 0), Ok(1 << 39));
    assert_eq!(get_first_allocation(&good, 48 << 8 | 46, 1, 7 << 6), Ok(1 << 39));
    assert_eq!(get_first_allocation(&good, 3, 1, 7 << 6), Err(Error::InvalidAddressWidth));
    let no_long_mode = cpuid(&[entry(EXTEND_CPU_INFO_FUNCTION, 0, 0), entry(ADDRESS_SIZE_FUNCTION, 48 << 8 | 40, 0)]);
    assert_eq!(get_first_allocation(&no_long_mode, 46, 0, 0), Err(Error::Not64Bit));
    let five_level = cpuid(&[entry(EXTEND_CPU_INFO_FUNCTION, 0, LONG_MODE), entry(ADDRESS_SIZE_FUNCTION, 57 << 8 | 40, 0)]);
    assert_eq!(get_first_allocation(&five_level, 46, 0, 0), Err(Error::UnsupportedVirtualAddressWidth));
    let missing = cpuid(&[entry(EXTEND_CPU_INFO_FUNCTION, 0, LONG_MODE)]);
    assert_eq!(get_first_allocation(&missing, 46, 0, 0), Err(Error::MissingCpuid));
}

fn zero_segment() -> kvm_segment {
    kvm_segment {
        base: 0,
        limit: 0,
        selector: 0,
        _type: 0,
        present: 0,
        dpl: 0,
        db: 0,
        s: 0,
        l: 0,
        g: 0,
        avl: 0,
        unusable: 0,
        padding: 0,
    }
}

fn guest() -> GuestMem {
    let dt = kvm_dtable { base: 0, limit: 0, padding: [0; 3] };
    let sregs = kvm_sregs {
        cs: zero_segment(),
        ds: zero_segment(),
        es: zero_segment(),
        fs: zero_segment(),
        gs: zero_segment(),
        ss: zero_segment(),
        tr: zero_segment(),
        ldt: zero_segment(),
        gdt: dt,
        idt: dt,
        cr0: 0,
        cr2: 0,
        cr3: 0x1000,
        cr4: 0,
        cr8: 0,
        efer: 0,
        apic_base: 0,
        interrupt_bitmap: [0; 256],
    };
    let regs = Regs {
        r15: 0,
        r14: 0,
        r13: 0,
        r12: 0,
        rbp: 0,
        rbx: 0,
        r11: 0,
        r10: 0,
        r9: 0,
        r8: 0,
        rax: 0,
        rcx: 0,
        rdx: 0,
        rsi: 0,
        rdi: 0,
        orig_rax: 0,
        rip: 0,
        cs: 0,
        eflags: 0,
        rsp: 0,
        ss: 0,
        fs_base: 0,
        gs_base: 0,
        ds: 0,
        es: 0,
        fs: 0,
        gs: 0,
    };
    let maps = vec![Mapping { start: 0x7f00_0000_0000, end: 0x7f00_1000_0000, phys_addr: 0, prot_flags: ProtFlags::prot_read() }];
    GuestMem::new(maps, regs, &sregs).unwrap()
}

#[test]
fn allocations_go_down_from_the_top() {
    let ps = vmsh::page_math::page_size();
    let mut alloc = PhysMemAllocator::new(guest(), 0x2_0000_0000);
    let a = alloc.phys_alloc(1).unwrap();
    assert_eq!(a.len, ps);
    assert_eq!(a.start, 0x2_0000_0000 - ps);
    assert_eq!(a.previous_next, 0x2_0000_0000);
    let b = alloc.phys_alloc(ps + 1).unwrap();
    assert_eq!(b.start + b.len, a.start);
    alloc.undo_phys_alloc(&b);
    let m = alloc.alloc_mmio_range(0x1000).unwrap();
    assert_eq!(m, MmioRange { base: (a.start - 0x1000) as u64, size: 0x1000 });
    assert_eq!(alloc.alloc_mmio_range(0).err(), Some(Error::InvalidMmioRange));
}

#[test]
fn allocation_errors() {
    let mut low = PhysMemAllocator::new(guest(), 0x1000_1000);
    assert_eq!(low.alloc_mmio_range(0x2000).err(), Some(Error::AllocationConflict));
    assert_eq!(low.alloc_mmio_range(0x2000_0000).err(), Some(Error::OutOfMemory));
    assert_eq!(low.alloc_mmio_range(0x1000).map(|r| r.base), Ok(0x1000_0000));
}

#[test]
fn virtual_allocation_size() {
    let allocs = [VirtAlloc { len: 0x1000, prot: ProtFlags::prot_read() }, VirtAlloc { len: 0x3000, prot: ProtFlags::prot_write() }];
    if vmsh::page_math::page_size() == 4096 {
        assert_eq!(PhysMemAllocator::virt_alloc_size(&allocs), Ok(0x4000 + 4 * 4096));
    }
    let huge = [VirtAlloc { len: usize::MAX / 2 + 1, prot: ProtFlags::prot_read() }, VirtAlloc { len: usize::MAX / 2 + 1, prot: ProtFlags::prot_read() }];
    assert_eq!(PhysMemAllocator::virt_alloc_size(&huge), Err(Error::OutOfAddressSpace));
    if vmsh::page_math::page_size() == 4096 {
        // a total beyond a sixteenth of the address space still fits with 4 KiB pages
        let big = [VirtAlloc { len: usize::MAX / 8 + 1, prot: ProtFlags::prot_read() }];
        assert!(PhysMemAllocator::virt_alloc_size(&big).is_ok());
        let almost_all = [VirtAlloc { len: usize::MAX - 4095, prot: ProtFlags::prot_read() }];
        assert_eq!(PhysMemAllocator::virt_alloc_size(&almost_all), Err(Error::OutOfAddressSpace));
    }
}

#[test]
fn virtual_allocation_out_of_address_space() {
    let mut alloc = PhysMemAllocator::new(guest(), 0x2_0000_0000);
    let allocs = [VirtAlloc { len: 0x2000, prot: ProtFlags::prot_read() }];
    let r = alloc.virt_alloc(nix::unistd::getpid().as_raw(), usize::MAX - 0x1000, PhysAddr { value: 0x1000, host_offset: 0 }, &allocs);
    assert_eq!(r.err(), Some(Error::OutOfAddressSpace));
}

#[test]
fn memory_slots() {
    let s = MemSlot::new(0x10, 4, 0x7f00_0000_0000);
    assert_eq!(s.start(), 0x7f00_0000_0000);
    assert_eq!(s.size_with(4096), 0x4000);
    assert_eq!(s.end_with(4096), 0x7f00_0000_4000);
    assert_eq!(s.physical_start_with(4096), 0x10000);
    let ps = vmsh::page_math::page_size() as u64;
    assert_eq!(s.size(), 4 * ps);
    assert_eq!(s.physical_start(), 0x10 * ps);
}

#[test]
fn wire_format_round_trip() {
    let cmd = ioregionfd_cmd {
        info: Info::new(Cmd::Read, Size::b32, true),
        pad: 0,
        user_data: 0x0102_0304_0506_0708,
        offset: 0x40,
        data: 0xdead_beef,
    };
    let bytes = cmd.to_bytes();
    assert_eq!(bytes.len(), 32);
    assert_eq!(&bytes[0..4], &cmd.info.0.to_le_bytes());
    assert_eq!(&bytes[16..24], &0x40u64.to_le_bytes());
    assert_eq!(ioregionfd_cmd::from_bytes(&bytes), Some(cmd));
    assert_eq!(ioregionfd_cmd::from_bytes(&bytes[..31]), None);
    let resp = ioregionfd_resp::new(0x1234).to_bytes();
    assert_eq!(resp.len(), 32);
    assert_eq!(&resp[0..8], &0x1234u64.to_le_bytes());
    assert!(resp[8..].iter().all(|b| *b == 0));
    assert_eq!(response_data(&[0x11, 0x22]), 0x2211);
    assert_eq!(response_data(&[]), 0);
    assert_eq!(response_data(&[1, 2, 3, 4, 5, 6, 7, 8]), 0x0807_0605_0403_0201);
}

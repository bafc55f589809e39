use vmsh::cpu::Regs;
use vmsh::error::Error;
use vmsh::guest_mem::{GuestMem, MappedMemory};
use vmsh::kernel::{
    apply_offset, cast_kernel_sym, check_kernel_sym, find_kernel, find_ksymtab_strings_section, find_subsequence,
    get_kernel_symbols, get_ksymtab_start, kernel_symbols_in, linux_kernel_kaslr_range, not_printable, round_up,
};
use vmsh::kernel::{check_read, kernel_range, next_read_only, section_host_addr};
use vmsh::loader::{relocate, relocate_glob_dat, Loadable, R_X86_64_GLOB_DAT, R_X86_64_RELATIVE};
use vmsh::kvm::cpus::{kvm_dtable, kvm_segment, kvm_sregs};
use vmsh::page_math::page_size;
use vmsh::page_table::{map_memory, PageTable, PhysAddr};
use vmsh::proc::Mapping;
use vmsh::prot::ProtFlags;

const VALUE_B: i32 = -0x100;
const VALUE_A: i32 = 0x40;

/// A tiny kernel image: `__ksymtab` with two entries at 16 and 28, and
/// `__ksymtab_strings` with `init_task` and `foo` from 40.
fn image() -> Vec<u8> {
    let mut mem = vec![0u8; 64];
    // entry A at 16: value offset, name offset (to "foo" at 50 from field 20), namespace
    mem[16..20].copy_from_slice(&VALUE_A.to_le_bytes());
    mem[20..24].copy_from_slice(&30i32.to_le_bytes());
    // entry B at 28: value offset, name offset (to "init_task" at 40 from field 32), namespace
    mem[28..32].copy_from_slice(&VALUE_B.to_le_bytes());
    mem[32..36].copy_from_slice(&8i32.to_le_bytes());
    mem[40..49].copy_from_slice(b"init_task");
    mem[50..53].copy_from_slice(b"foo");
    mem
}

#[test]
fn subsequences() {
    assert_eq!(find_subsequence(b"abcabc", b"ca"), Some(2));
    assert_eq!(find_subsequence(b"abcabc", b"abc"), Some(0));
    assert_eq!(find_subsequence(b"abcabc", b"abd"), None);
    assert_eq!(find_subsequence(b"ab", b"abc"), None);
}

#[test]
fn printable_bytes_and_rounding() {
    assert!(not_printable(0));
    assert!(not_printable(b' '));
    assert!(!not_printable(b'a'));
    assert!(not_printable(b'~'));
    assert_eq!(round_up(0, 4), 0);
    assert_eq!(round_up(5, 4), 8);
    assert_eq!(round_up(8, 4), 8);
}

#[test]
fn offsets_are_relative_to_their_field() {
    assert_eq!(apply_offset(0x1000, 0x10), 0x1010);
    assert_eq!(apply_offset(0x1000, -0x10), 0xff0);
    assert_eq!(apply_offset(0x1000 + 12, 0x100), 0x110c);
    assert_eq!(apply_offset(0x1000, i32::MIN), 0x1000usize.wrapping_sub(0x8000_0000));
    assert_eq!(apply_offset(usize::MAX, 1), 0);
}

#[test]
fn strings_section_is_found() {
    let mem = image();
    assert_eq!(find_ksymtab_strings_section(&mem), Some(40..54));
    assert_eq!(find_ksymtab_strings_section(&mem[..45]), None);
    let sym = cast_kernel_sym(&mem, 28);
    assert_eq!(sym.value_offset, VALUE_B);
    assert_eq!(sym.name_offset, 8);
}

#[test]
fn ksymtab_end_is_found() {
    let mem = image();
    assert_eq!(check_kernel_sym(&mem, &(40..54), 12, 40), Some(12));
    assert_eq!(check_kernel_sym(&mem, &(40..54), 8, 40), None);
    assert_eq!(get_ksymtab_start(&mem, &(40..54)), Some((40, 12)));
    assert_eq!(get_ksymtab_start(&mem, &(0..10)), None);
}

#[test]
fn symbols_are_read() {
    let mem = image();
    let base = 0xffff_ffff_8100_0000usize;
    let syms = get_kernel_symbols(&mem, base, 40..54).unwrap();
    assert_eq!(syms.len(), 2);
    assert_eq!(syms.get("init_task"), Some(&(base + 28 - 0x100)));
    assert_eq!(syms.get("foo"), Some(&(base + 16 + 0x40)));
    let found = kernel_symbols_in(&mem, base).unwrap().unwrap();
    assert_eq!(found.get("foo"), Some(&(base + 16 + 0x40)));
    assert!(kernel_symbols_in(&mem[..30], base).is_none());
}

#[test]
fn symbol_errors() {
    let mem = image();
    assert_eq!(get_kernel_symbols(&mem, 0, 0..10).err(), Some(Error::NoKsymtab));
    assert_eq!(get_kernel_symbols(&mem[..53], 0, 40..53).err(), Some(Error::UnterminatedSymbol));
    let mut bad = image();
    bad[51] = 0xff;
    assert_eq!(get_kernel_symbols(&bad, 0, 40..54).err(), Some(Error::InvalidSymbolName));
}

fn zero_segment() -> kvm_segment {
    kvm_segment {
        base: 0,
        limit: 0,
        selector: 0,
        _type: 0,
        present: 0,
        dpl: 0,
        db: 0,
        s: 0,
        l: 0,
        g: 0,
        avl: 0,
        unusable: 0,
        padding: 0,
    }
}

fn sregs(cr3: u64) -> kvm_sregs {
    let dt = kvm_dtable { base: 0, limit: 0, padding: [0; 3] };
    kvm_sregs {
        cs: zero_segment(),
        ds: zero_segment(),
        es: zero_segment(),
        fs: zero_segment(),
        gs: zero_segment(),
        ss: zero_segment(),
        tr: zero_segment(),
        ldt: zero_segment(),
        gdt: dt,
        idt: dt,
        cr0: 0,
        cr2: 0,
        cr3,
        cr4: 0,
        cr8: 0,
        efer: 0,
        apic_base: 0,
        interrupt_bitmap: [0; 256],
    }
}

fn kernel_regs() -> Regs {
    Regs {
        r15: 0,
        r14: 0,
        r13: 0,
        r12: 0,
        rbp: 0,
        rbx: 0,
        r11: 0,
        r10: 0,
        r9: 0,
        r8: 0,
        rax: 0,
        rcx: 0,
        rdx: 0,
        rsi: 0,
        rdi: 0,
        orig_rax: 0,
        rip: 0,
        cs: 0x10,
        eflags: 0,
        rsp: 0,
        ss: 0,
        fs_base: 0,
        gs_base: 0,
        ds: 0,
        es: 0,
        fs: 0,
        gs: 0,
    }
}

#[test]
fn kernel_is_found_in_guest_memory() {
    if page_size() != 4096 {
        return;
    }
    let pid = nix::unistd::getpid().as_raw();
    let mut guest = vec![0u8; 0x10000];
    guest[0x2000..0x2040].copy_from_slice(&image());
    let host = guest.as_ptr() as usize;
    let host_offset = host as isize;
    let kernel_virt = 0xffff_ffff_8100_0000usize;
    let mut pml4 = PageTable::read(pid, &PhysAddr { value: 0, host_offset }, 0, 0).unwrap();
    let sections = vec![MappedMemory {
        phys_start: PhysAddr { value: 0x2000, host_offset },
        virt_start: kernel_virt,
        len: 0x1000,
        prot: ProtFlags::prot_read(),
    }];
    let _mapped = map_memory(pid, &mut pml4, &sections).unwrap();

    let maps = vec![Mapping { start: host, end: host + 0x10000, phys_addr: 0, prot_flags: ProtFlags::prot_read() }];
    let guest_mem = GuestMem::new(maps, kernel_regs(), &sregs(0)).unwrap();
    let found = guest_mem.find_kernel_sections(pid, linux_kernel_kaslr_range()).unwrap();
    assert_eq!(found.len(), 1);
    assert_eq!(found[0].virt_start, kernel_virt);
    assert_eq!(found[0].phys_start, PhysAddr { value: 0x2000, host_offset });
    assert_eq!(found[0].prot, ProtFlags::prot_read());

    let kernel = find_kernel(&guest_mem, pid).unwrap();
    assert_eq!(kernel.range, kernel_virt..kernel_virt + 0x1000);
    assert_eq!(kernel.symbols.get("init_task"), Some(&(kernel_virt + 28 - 0x100)));
    assert_eq!(kernel.space_before(), 0x100_0000);
    assert_eq!(kernel.space_after(), 0xffff_ffff_c000_0000 - (kernel_virt + 0x1000));
    drop(guest);
}

#[test]
fn glob_dat_relocation_uses_kernel_symbols() {
    let mem = image();
    let base = 0xffff_ffff_8100_0000usize;
    let syms = get_kernel_symbols(&mem, base, 40..54).unwrap();
    let vbase = 0x1000_0000usize;
    let fresh = || {
        vec![Loadable {
            content: vec![0u8; 32],
            mapping: MappedMemory {
                phys_start: PhysAddr { value: 0x20_0000, host_offset: 0 },
                virt_start: vbase,
                len: 0x1000,
                prot: ProtFlags::prot_read(),
            },
            load_offset: 0,
        }]
    };
    let mut ls = fresh();
    relocate_glob_dat(&mut ls, &syms, vbase, 0x10, 4, "foo", false).unwrap();
    let mut expected = vec![0u8; 32];
    expected[16..24].copy_from_slice(&((base + 16 + 0x40 + 4) as u64).to_le_bytes());
    assert_eq!(ls[0].content, expected);

    let mut ls = fresh();
    assert_eq!(relocate_glob_dat(&mut ls, &syms, vbase, 0x10, 0, "bar", true), Ok(()));
    assert_eq!(ls[0].content, vec![0u8; 32]);
    assert_eq!(relocate_glob_dat(&mut ls, &syms, vbase, 0x10, 0, "bar", false), Err(Error::UnknownSymbol));
    assert_eq!(relocate_glob_dat(&mut ls, &syms, vbase, 0x2000, 0, "foo", false), Err(Error::NoLoadableForRelocation));
    assert_eq!(relocate_glob_dat(&mut ls, &syms, vbase, 0x1c, 0, "foo", false), Err(Error::RelocationOutOfBounds));
    assert_eq!(ls[0].content, vec![0u8; 32]);
}

#[test]
fn relocations_are_dispatched_by_type() {
    let mem = image();
    let base = 0xffff_ffff_8100_0000usize;
    let syms = get_kernel_symbols(&mem, base, 40..54).unwrap();
    let vbase = 0x1000_0000usize;
    let mut ls = vec![Loadable {
        content: vec![0u8; 32],
        mapping: MappedMemory {
            phys_start: PhysAddr { value: 0x20_0000, host_offset: 0 },
            virt_start: vbase,
            len: 0x1000,
            prot: ProtFlags::prot_read(),
        },
        load_offset: 0,
    }];
    relocate(&mut ls, &syms, vbase, R_X86_64_RELATIVE, 0x8, 0x100, "", false).unwrap();
    relocate(&mut ls, &syms, vbase, R_X86_64_GLOB_DAT, 0x10, 0, "init_task", false).unwrap();
    let mut expected = vec![0u8; 32];
    expected[8..16].copy_from_slice(&((vbase + 0x100) as u64).to_le_bytes());
    expected[16..24].copy_from_slice(&((base + 28 - 0x100) as u64).to_le_bytes());
    assert_eq!(ls[0].content, expected);
    assert_eq!(relocate(&mut ls, &syms, vbase, 1, 0x8, 0, "", false), Err(Error::UnsupportedRelocation));
    assert_eq!(relocate(&mut ls, &syms, vbase, 1, 0x4000, 0, "", false), Err(Error::NoLoadableForRelocation));
    assert_eq!(ls[0].content, expected);
}

fn section(virt_start: usize, len: usize, prot: ProtFlags) -> MappedMemory {
    MappedMemory { phys_start: PhysAddr { value: 0x1000, host_offset: 0 }, virt_start, len, prot }
}

#[test]
fn kernel_range_spans_first_to_last_section() {
    let secs = vec![section(0x1000, 0x2000, ProtFlags::prot_read()), section(0x8000, 0x1000, ProtFlags::prot_read())];
    let r = kernel_range(&secs).unwrap();
    assert_eq!((r.start, r.end), (0x1000, 0x9000));
    let past = vec![section(usize::MAX - 0xfff, 0x2000, ProtFlags::prot_read())];
    assert_eq!(kernel_range(&past).err(), Some(Error::OutOfAddressSpace));
}

#[test]
fn next_read_only_skips_other_sections() {
    let rw = ProtFlags::prot_read().union(ProtFlags::prot_write());
    let secs = vec![section(0x1000, 0x1000, rw), section(0x2000, 0x1000, ProtFlags::prot_read()), section(0x3000, 0x1000, rw)];
    assert_eq!(next_read_only(&secs, 0), Some(1));
    assert_eq!(next_read_only(&secs, 1), Some(1));
    assert_eq!(next_read_only(&secs, 2), None);
    assert_eq!(next_read_only(&secs, 7), None);
}

#[test]
fn section_reads_are_checked() {
    assert_eq!(check_read(0x1000, 0x1000), Ok(()));
    assert_eq!(check_read(0x800, 0x1000), Err(Error::ShortRead));
    let s = MappedMemory { phys_start: PhysAddr { value: 0x1000, host_offset: 0x7f00_0000 }, virt_start: 0, len: 0x1000, prot: ProtFlags::prot_read() };
    assert_eq!(section_host_addr(&s), Ok(0x7f00_1000));
    let below = MappedMemory { phys_start: PhysAddr { value: 0x1000, host_offset: -0x2000 }, virt_start: 0, len: 0x1000, prot: ProtFlags::prot_read() };
    assert_eq!(section_host_addr(&below), Err(Error::InvalidAddress));
}

use vmsh::devices::{device_mmio_configs, CONSOLE_MEM_START, MMIO_MEM_START, MMIO_MEM_STOP};
use vmsh::shovel::{FilePair, FilePairProgress, FilePairState, BUF_SIZE};
use vmsh::console::{shell_escape, whitelisted};
use vmsh::coredump::{core_prpsinfo, core_prstatus, note_plan, regs_array, NoteEntry, NoteOwner};
use vmsh::coredump::{core_layout, elf_header, note_header, note_size, protection_flags, pt_load_header};
use vmsh::cpu::Regs;
use vmsh::device::mmio::{MmioDeviceSpace, MMIO_MAGIC_VALUE};
use vmsh::devices::virtio::block::{
    activated_features, check_activation, completion, device_features, plan_request, ActivateError, BlockError, BlockOp,
    RequestType,
};
use vmsh::devices::virtio::console::{build_config_space, console_device_features};
use vmsh::devices::virtio::{signal_used_queue_status, IrqAckHandler, VIRTIO_MMIO_INT_VRING};
use vmsh::elf::{EHDR_SIZE, ET_CORE, NT_PRPSINFO, NT_PRSTATUS, NT_PRXFPREG, NT_PRXREG, PF_W, PF_X, PHDR_SIZE, PT_LOAD, PT_NOTE};
use vmsh::error::Error;
use vmsh::proc::Mapping;
use vmsh::prot::ProtFlags;

#[test]
fn shell_quoting() {
    assert_eq!(shell_escape("foo"), "foo");
    assert_eq!(shell_escape("a/b-c_d=e,f.g+h"), "a/b-c_d=e,f.g+h");
    assert_eq!(shell_escape("foo bar"), "'foo bar'");
    assert_eq!(shell_escape("x;y"), "'x;y'");
    assert_eq!(shell_escape("it's"), r"'it'\''s'");
    assert_eq!(shell_escape("   "), "'   '");
    assert_eq!(shell_escape(""), "''");
    assert_eq!(shell_escape("'!"), "''\\'''\\!''");
    assert!(whitelisted('a'));
    assert!(whitelisted('+'));
    assert!(!whitelisted(' '));
    assert!(!whitelisted('\''));
}

#[test]
fn segment_flags() {
    let r = ProtFlags::prot_read();
    let w = ProtFlags::prot_write();
    let x = ProtFlags::prot_exec();
    assert_eq!(protection_flags(&r), PF_X);
    assert_eq!(protection_flags(&w), PF_W);
    assert_eq!(protection_flags(&r.union(w)), PF_X | PF_W);
    assert_eq!(protection_flags(&x), PF_X);
    assert_eq!(protection_flags(&ProtFlags { bits: 0 }), 0);
}

#[test]
fn core_file_headers() {
    let h = elf_header(3);
    assert_eq!(h.e_type, ET_CORE);
    assert_eq!(h.e_phnum, 3);
    let bytes = h.to_bytes();
    assert_eq!(bytes.len(), EHDR_SIZE);
    assert_eq!(&bytes[0..6], &[0x7f, b'E', b'L', b'F', 2, 1]);
    assert_eq!(&bytes[16..18], &[4, 0]);
    assert_eq!(&bytes[56..58], &[3, 0]);
    let m = Mapping { start: 0x1000, end: 0x3000, phys_addr: 0x8000, prot_flags: ProtFlags::prot_read() };
    let p = pt_load_header(&m, 0x2000, 4096);
    assert_eq!((p.p_type, p.p_offset, p.p_vaddr, p.p_filesz, p.p_align), (PT_LOAD, 0x2000, 0x8000, 0x2000, 4096));
    assert_eq!(p.to_bytes().len(), PHDR_SIZE);
    let n = note_header(NT_PRSTATUS, 336);
    assert_eq!(n.to_bytes(), vec![5, 0, 0, 0, 0x50, 1, 0, 0, 1, 0, 0, 0]);
    assert_eq!(note_size::<u64>(), 12 + 8 + 8);
}

#[test]
fn core_file_layout() {
    let maps = [
        Mapping { start: 0x1000, end: 0x3000, phys_addr: 0, prot_flags: ProtFlags::prot_read() },
        Mapping { start: 0x9000, end: 0xa000, phys_addr: 0x2000, prot_flags: ProtFlags::prot_write() },
    ];
    let l = core_layout(&maps, 100, 4096).unwrap();
    assert_eq!(l.ehdr.e_phnum, 3);
    assert_eq!(l.headers.len(), 3);
    assert_eq!(l.headers[0].p_type, PT_NOTE);
    assert_eq!(l.headers[0].p_offset, (EHDR_SIZE + 3 * PHDR_SIZE) as u64);
    assert_eq!(l.headers[0].p_filesz, 100);
    assert_eq!(l.dump_offset, 4096);
    assert_eq!(l.headers[1].p_offset, 4096);
    assert_eq!(l.headers[2].p_offset, 4096 + 0x2000);
    assert_eq!(l.core_size, 4096 + 0x3000);
    let huge = [Mapping { start: 0, end: usize::MAX, phys_addr: 0, prot_flags: ProtFlags::prot_read() }];
    assert_eq!(core_layout(&huge, 0, 4096).err(), Some(Error::OutOfAddressSpace));
}

#[test]
fn mmio_registers() {
    let d = MmioDeviceSpace::new(2, 0x10, 256, 7, 1);
    let bytes = d.to_bytes();
    assert_eq!(bytes.len(), 0x100);
    assert_eq!(&bytes[0..4], &MMIO_MAGIC_VALUE.to_le_bytes());
    assert_eq!(&bytes[4..8], &2u32.to_le_bytes());
    assert_eq!(&bytes[8..12], &2u32.to_le_bytes());
    assert_eq!(&bytes[16..20], &0x10u32.to_le_bytes());
    assert_eq!(&bytes[0x34..0x38], &256u32.to_le_bytes());
    assert_eq!(&bytes[0x70..0x74], &7u32.to_le_bytes());
    assert_eq!(&bytes[0xfc..0x100], &1u32.to_le_bytes());
    assert!(bytes[0x38..0x70].iter().all(|b| *b == 0));
}

#[test]
fn interrupt_acknowledgement_timeouts() {
    let mut h = IrqAckHandler::new(0);
    h.irq_sent(100);
    assert!(!h.handle_timeouts(500, true));
    assert!(!h.handle_timeouts(1100, false));
    assert!(h.handle_timeouts(1100, true));
    assert!(!h.handle_timeouts(50, true));
    h.ack_timeout_resent();
}

#[test]
fn syscall_registers() {
    let regs = Regs {
        r15: 1,
        r14: 2,
        r13: 3,
        r12: 4,
        rbp: 5,
        rbx: 6,
        r11: 7,
        r10: 8,
        r9: 9,
        r8: 10,
        rax: 11,
        rcx: 12,
        rdx: 13,
        rsi: 14,
        rdi: 15,
        orig_rax: 16,
        rip: 0x4000,
        cs: 0x33,
        eflags: 0,
        rsp: 0x7000,
        ss: 0,
        fs_base: 0,
        gs_base: 0,
        ds: 0,
        es: 0,
        fs: 0,
        gs: 0,
    };
    let p = regs.prepare_syscall(&[60, 1, 2, 3, 4, 5, 6]);
    assert_eq!((p.rax, p.rdi, p.rsi, p.rdx, p.r10, p.r8, p.r9), (60, 1, 2, 3, 4, 5, 6));
    assert_eq!(p.ip(), 0x4000);
    assert_eq!(p.syscall_ret(), 60);
    assert_eq!(p.rsp, 0x7000);
    assert_eq!(regs.syscall_ret(), 11);
}

#[test]
fn block_device_features_and_activation() {
    assert_eq!(device_features(false, false), (1 << 32) | (1 << 35) | (1 << 29));
    assert_eq!(device_features(true, true), (1 << 32) | (1 << 35) | (1 << 29) | (1 << 5) | (1 << 9));
    assert_eq!(check_activation(true, 1 << 32), Err(ActivateError::AlreadyActivated));
    assert_eq!(check_activation(false, 1 << 29), Err(ActivateError::BadFeatures(1 << 29)));
    assert_eq!(check_activation(false, 1 << 32), Ok(false));
    assert_eq!(check_activation(false, (1 << 32) | (1 << 29)), Ok(true));
    assert_eq!(activated_features(1 << 32, true), (1 << 32) | (1 << 5));
    assert_eq!(activated_features(1 << 32, false), 1 << 32);
}

#[test]
fn block_requests() {
    assert_eq!(plan_request(RequestType::In, 2, 1024, 10), Ok(BlockOp::Read { offset: 1024, len: 1024 }));
    assert_eq!(plan_request(RequestType::Out, 8, 1024, 10), Ok(BlockOp::Write { offset: 4096, len: 1024 }));
    assert_eq!(plan_request(RequestType::Out, 9, 1024, 10), Err(BlockError::InvalidAccess));
    assert_eq!(plan_request(RequestType::In, 0, 100, 10), Err(BlockError::InvalidDataLength));
    assert_eq!(plan_request(RequestType::Flush, 0, 100, 10), Ok(BlockOp::Flush { offset: 0, len: 100 }));
    assert_eq!(plan_request(RequestType::Flush, u64::MAX, 512, 10), Err(BlockError::InvalidAccess));
    assert_eq!(plan_request(RequestType::Other(8), 0, 0, 0), Ok(BlockOp::Delegate));
    assert_eq!(plan_request(RequestType::In, 0, 1 << 33, 1 << 30), Err(BlockError::InvalidDataLength));
    assert_eq!(completion(Ok(512)), (0, 513));
    assert_eq!(completion(Ok(u32::MAX)), (0, u32::MAX));
    assert_eq!(completion(Err(BlockError::Unsupported)), (2, 1));
    assert_eq!(completion(Err(BlockError::Io)), (1, 1));
}

#[test]
fn console_device_space() {
    assert_eq!(console_device_features(), (1 << 32) | (1 << 35) | (1 << 29) | 1);
    assert_eq!(build_config_space(), vec![80, 0, 24, 0, 2, 0, 0, 0, 0, 0, 0, 0]);
}

#[test]
fn file_pair_alternates_between_reading_and_writing() {
    let mut p = FilePairProgress::new();
    assert_eq!(p.state, FilePairState::Read);
    p.read_done(100);
    assert_eq!(p.pending(), (0, 100));
    p.write_done(40);
    assert_eq!(p.state, FilePairState::Write);
    assert_eq!(p.pending(), (40, 100));
    p.write_done(60);
    assert_eq!(p, FilePairProgress::new());
    // end of file: nothing read, nothing to write
    p.read_done(0);
    p.write_done(0);
    assert_eq!(p.state, FilePairState::Read);
    assert_eq!(BUF_SIZE, 8192);
}

#[test]
fn file_pair_writes_what_it_read_in_order() {
    let mut p = FilePair::new();
    assert_eq!(p.wait_for(), FilePairState::Read);
    assert_eq!(p.to_write(), Vec::<u8>::new());
    p.read_done(b"hello");
    assert_eq!(p.to_write(), b"hello".to_vec());
    p.write_done(2);
    assert_eq!(p.wait_for(), FilePairState::Write);
    assert_eq!(p.to_write(), b"llo".to_vec());
    p.write_done(3);
    assert_eq!(p.wait_for(), FilePairState::Read);
    assert_eq!(p.to_write(), Vec::<u8>::new());
    p.read_done(b"!");
    assert_eq!(p.to_write(), b"!".to_vec());
    p.write_done(1);
    assert_eq!(p.wait_for(), FilePairState::Read);
}

#[test]
fn devices_sit_one_page_apart_below_four_gib() {
    assert_eq!(MMIO_MEM_START, 0xd000_0000);
    let (block, console) = device_mmio_configs();
    assert_eq!((block.range.base, block.range.size, block.gsi), (0xd000_0000, 0x1000, 5));
    assert_eq!((console.range.base, console.range.size, console.gsi), (0xd000_1000, 0x1000, 5));
    assert_eq!(CONSOLE_MEM_START, 0xd000_1000);
    assert_eq!(MMIO_MEM_STOP, 0xd000_2000);
}

fn counting_regs() -> Regs {
    Regs {
        r15: 0, r14: 1, r13: 2, r12: 3, rbp: 4, rbx: 5, r11: 6, r10: 7, r9: 8, r8: 9, rax: 10, rcx: 11, rdx: 12,
        rsi: 13, rdi: 14, orig_rax: 15, rip: 16, cs: 17, eflags: 18, rsp: 19, ss: 20, fs_base: 21, gs_base: 22,
        ds: 23, es: 24, fs: 25, gs: 26,
    }
}

#[test]
fn notes_describe_process_and_vcpus() {
    let info = core_prpsinfo();
    assert_eq!(&info.pr_fname, b"qemu-system-x86_");
    assert_eq!((info.pr_pid, info.pr_ppid, info.pr_uid), (1, 1, 0));
    assert!(info.pr_psargs.iter().all(|c| *c == 0));

    let regs = counting_regs();
    let reg_array = regs_array(&regs);
    for (k, v) in reg_array.iter().enumerate() {
        assert_eq!(*v, k as u64);
    }
    let status = core_prstatus(2, &regs);
    assert_eq!((status.pr_pid, status.pr_ppid, status.pr_fpvalid), (3, 1, 1));
    assert_eq!(status.pr_reg, reg_array);

    let plan = note_plan(2);
    assert_eq!(plan.len(), 7);
    assert_eq!(plan[0], NoteEntry { n_type: NT_PRPSINFO, owner: NoteOwner::Core, vcpu: None });
    assert_eq!(plan[1], NoteEntry { n_type: NT_PRSTATUS, owner: NoteOwner::Core, vcpu: Some(0) });
    assert_eq!(plan[2], NoteEntry { n_type: NT_PRXREG, owner: NoteOwner::Core, vcpu: Some(0) });
    assert_eq!(plan[3], NoteEntry { n_type: NT_PRXFPREG, owner: NoteOwner::Linux, vcpu: Some(0) });
    assert_eq!(plan[4].vcpu, Some(1));
    assert_eq!(plan[6].owner, NoteOwner::Linux);
    assert_eq!(note_plan(0).len(), 1);
}

#[test]
fn signalling_a_queue_sets_the_vring_bit() {
    assert_eq!(signal_used_queue_status(0), VIRTIO_MMIO_INT_VRING);
    assert_eq!(signal_used_queue_status(2), 3);
    assert_eq!(signal_used_queue_status(1), 1);
}

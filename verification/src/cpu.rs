//! x86-64 user registers as ptrace and core files lay them out.
use vstd::prelude::*;

verus! {

/// General purpose registers, in the order of `struct user_regs_struct`.
#[derive(Clone, Copy, Debug, PartialEq, Eq, Structural)]
pub struct Regs {
    pub r15: u64,
    pub r14: u64,
    pub r13: u64,
    pub r12: u64,
    pub rbp: u64,
    pub rbx: u64,
    pub r11: u64,
    pub r10: u64,
    pub r9: u64,
    pub r8: u64,
    pub rax: u64,
    pub rcx: u64,
    pub rdx: u64,
    pub rsi: u64,
    pub rdi: u64,
    pub orig_rax: u64,
    pub rip: u64,
    pub cs: u64,
    pub eflags: u64,
    pub rsp: u64,
    pub ss: u64,
    pub fs_base: u64,
    pub gs_base: u64,
    pub ds: u64,
    pub es: u64,
    pub fs: u64,
    pub gs: u64,
}

/// Floating point registers, as `struct user_fpregs_struct`.
#[allow(non_camel_case_types)]
#[derive(Clone, Copy)]
pub struct elf_fpregset_t {
    pub cwd: u16,
    pub swd: u16,
    pub ftw: u16,
    pub fop: u16,
    pub rip: u64,
    pub rdp: u64,
    pub mxcsr: u32,
    pub mxcr_mask: u32,
    pub st_space: [u32; 32],
    pub xmm_space: [u32; 64],
    pub padding: [u32; 24],
}

/// The instruction `syscall`, as it lies in memory.
pub const SYSCALL_TEXT: u64 = 0x050F;
/// Bytes of the instruction `syscall`.
pub const SYSCALL_SIZE: u64 = 2;

impl Regs {
    /// The instruction pointer.
    pub fn ip(&self) -> (r: u64)
        ensures
            r == self.rip,
    {
        self.rip
    }

    /// These registers with a system call loaded: `args[0]` is the call
    /// number, `args[1..7]` its arguments in the order of the x86-64 Linux
    /// calling convention.
    pub fn prepare_syscall(&self, args: &[u64; 7]) -> (r: Regs)
        ensures
            r == (Regs {
                rax: args[0],
                rdi: args[1],
                rsi: args[2],
                rdx: args[3],
                r10: args[4],
                r8: args[5],
                r9: args[6],
                ..*self
            }),
    {
        let mut copy = *self;
        copy.rax = args[0];
        copy.rdi = args[1];
        copy.rsi = args[2];
        copy.rdx = args[3];
        copy.r10 = args[4];
        copy.r8 = args[5];
        copy.r9 = args[6];
        copy
    }

    /// The return value of a system call.
    pub fn syscall_ret(&self) -> (r: u64)
        ensures
            r == self.rax,
    {
        self.rax
    }
}

/// After a system call is loaded, the register that returns its result
/// holds the call number, and the instruction pointer has not moved.
pub proof fn lemma_prepare_syscall(regs: Regs, args: [u64; 7], prepared: Regs)
    requires
        prepared == (Regs {
            rax: args[0],
            rdi: args[1],
            rsi: args[2],
            rdx: args[3],
            r10: args[4],
            r8: args[5],
            r9: args[6],
            ..regs
        }),
    ensures
        prepared.rax == args[0],
        prepared.rip == regs.rip,
        prepared.cs == regs.cs,
        prepared.rsp == regs.rsp,
{
}

} // verus!

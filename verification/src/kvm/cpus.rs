//! Register layouts of the KVM vcpu ioctls.
use vstd::prelude::*;

verus! {

/// General purpose registers (`KVM_GET_REGS`).
#[allow(non_camel_case_types)]
#[derive(Clone, Copy, Debug)]
pub struct kvm_regs {
    pub rax: u64,
    pub rbx: u64,
    pub rcx: u64,
    pub rdx: u64,
    pub rsi: u64,
    pub rdi: u64,
    pub rsp: u64,
    pub rbp: u64,
    pub r8: u64,
    pub r9: u64,
    pub r10: u64,
    pub r11: u64,
    pub r12: u64,
    pub r13: u64,
    pub r14: u64,
    pub r15: u64,
    pub rip: u64,
    pub rflags: u64,
}

/// A segment register (`struct kvm_segment`).
#[allow(non_camel_case_types)]
#[derive(Clone, Copy, Debug)]
pub struct kvm_segment {
    pub base: u64,
    pub limit: u32,
    pub selector: u16,
    pub _type: u8,
    pub present: u8,
    pub dpl: u8,
    pub db: u8,
    pub s: u8,
    pub l: u8,
    pub g: u8,
    pub avl: u8,
    pub unusable: u8,
    pub padding: u8,
}

/// A descriptor table register (`struct kvm_dtable`).
#[allow(non_camel_case_types)]
#[derive(Clone, Copy, Debug)]
pub struct kvm_dtable {
    pub base: u64,
    pub limit: u16,
    pub padding: [u16; 3],
}

/// Number of interrupts the special registers keep a bitmap entry for.
pub const KVM_NR_INTERRUPTS: usize = 256;

/// Special registers (`KVM_GET_SREGS`).
#[allow(non_camel_case_types)]
#[derive(Clone, Copy)]
pub struct kvm_sregs {
    pub cs: kvm_segment,
    pub ds: kvm_segment,
    pub es: kvm_segment,
    pub fs: kvm_segment,
    pub gs: kvm_segment,
    pub ss: kvm_segment,
    pub tr: kvm_segment,
    pub ldt: kvm_segment,
    pub gdt: kvm_dtable,
    pub idt: kvm_dtable,
    pub cr0: u64,
    pub cr2: u64,
    pub cr3: u64,
    pub cr4: u64,
    pub cr8: u64,
    pub efer: u64,
    pub apic_base: u64,
    pub interrupt_bitmap: [u64; KVM_NR_INTERRUPTS],
}

/// A model specific register and its value (`struct kvm_msr_entry`).
#[allow(non_camel_case_types)]
#[derive(Clone, Copy, Debug)]
pub struct kvm_msr_entry {
    pub index: u32,
    pub reserved: u32,
    pub data: u64,
}

} // verus!

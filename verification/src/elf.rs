//! ELF-64 definitions for x86-64 core files.
#![allow(non_camel_case_types)]
use vstd::prelude::*;

verus! {

/// Unsigned half word of ELF-64.
pub type Elf_Half = u16;
/// Unsigned word of ELF-64.
pub type Elf_Word = u32;
/// File offset of ELF-64.
pub type Elf_Off = u64;
/// Address of ELF-64.
pub type Elf_Addr = u64;

/// 32-bit objects (`EI_CLASS`).
pub const ELFCLASS32: u8 = 1;
/// 64-bit objects (`EI_CLASS`).
pub const ELFCLASS64: u8 = 2;
/// The class of the objects written here.
pub const ELFCLASS: u8 = ELFCLASS64;

/// No file type
pub const ET_NONE: Elf_Half = 0;
/// Relocatable file (object file)
pub const ET_REL: Elf_Half = 1;
/// Executable file
pub const ET_EXEC: Elf_Half = 2;
/// Shared object file
pub const ET_DYN: Elf_Half = 3;
/// Core file
pub const ET_CORE: Elf_Half = 4;

/// AMD x86-64 (`e_machine`).
pub const EM_X86_64: Elf_Half = 62;
/// The machine of the objects written here.
pub const ELFARCH: Elf_Half = EM_X86_64;
/// Number of general purpose registers in a core file's `pr_reg`.
pub const ELF_NGREG: usize = 27;

/// Note with `struct elf_prstatus`.
pub const NT_PRSTATUS: Elf_Word = 1;
/// Note with the floating point registers.
pub const NT_PRFPREG: Elf_Word = 2;
/// Note with `struct elf_prpsinfo`.
pub const NT_PRPSINFO: Elf_Word = 3;
/// Note with extra registers.
pub const NT_PRXREG: Elf_Word = 4;
/// Note with the task struct.
pub const NT_TASKSTRUCT: Elf_Word = 4;
/// Note with the platform string.
pub const NT_PLATFORM: Elf_Word = 5;
/// Note with the auxiliary vector.
pub const NT_AUXV: Elf_Word = 6;
/// Note with register windows.
pub const NT_GWINDOWS: Elf_Word = 7;
/// Note with ancillary state registers.
pub const NT_ASRS: Elf_Word = 8;
/// Note with the process status.
pub const NT_PSTATUS: Elf_Word = 10;
/// Note with the process info.
pub const NT_PSINFO: Elf_Word = 13;
/// Note with the credentials.
pub const NT_PRCRED: Elf_Word = 14;
/// Note with `uname` data.
pub const NT_UTSNAME: Elf_Word = 15;
/// Note with a thread's status.
pub const NT_LWPSTATUS: Elf_Word = 16;
/// Note with a thread's info.
pub const NT_LWPSINFO: Elf_Word = 17;
/// Note with extra floating point registers.
pub const NT_PRFPXREG: Elf_Word = 20;
/// Note with signal info.
pub const NT_SIGINFO: Elf_Word = 0x53494749;
/// Note with mapped files.
pub const NT_FILE: Elf_Word = 0x46494c45;
/// Note with the extended floating point registers of x86.
pub const NT_PRXFPREG: Elf_Word = 0x46e62b7f;

/// Invalid version.
pub const EV_NONE: Elf_Word = 0;
/// Current version.
pub const EV_CURRENT: Elf_Word = 1;
/// Number of versions.
pub const EV_NUM: Elf_Word = 2;

/// Undefined section (`e_shstrndx`).
pub const SHN_UNDEF: Elf_Half = 0;

/// Loadable segment.
pub const PT_LOAD: Elf_Word = 1;
/// Segment of notes.
pub const PT_NOTE: Elf_Word = 4;

/// Executable segment.
pub const PF_X: Elf_Word = 1;
/// Writable segment.
pub const PF_W: Elf_Word = 2;
/// Readable segment.
pub const PF_R: Elf_Word = 4;

/// First magic byte.
pub const ELFMAG0: u8 = 0x7f;
/// Second magic byte, `E`.
pub const ELFMAG1: u8 = 0x45;
/// Third magic byte, `L`.
pub const ELFMAG2: u8 = 0x4c;
/// Fourth magic byte, `F`.
pub const ELFMAG3: u8 = 0x46;

/// Little endian data.
pub const ELFDATA2LSB: u8 = 1;
/// Big endian data.
pub const ELFDATA2MSB: u8 = 2;
/// The data encoding of the objects written here.
pub const ELFDATA2: u8 = ELFDATA2LSB;

/// Bytes of an ELF-64 file header.
pub const EHDR_SIZE: usize = 64;
/// Bytes of an ELF-64 program header.
pub const PHDR_SIZE: usize = 56;
/// Bytes of an ELF-64 section header.
pub const SHDR_SIZE: usize = 64;
/// Bytes of a note header.
pub const NHDR_SIZE: usize = 12;

/// ELF-64 file header (`Elf64_Ehdr`).
#[derive(Clone, Copy, Debug)]
pub struct Ehdr {
    pub e_ident: [u8; 16],
    pub e_type: Elf_Half,
    pub e_machine: Elf_Half,
    pub e_version: Elf_Word,
    pub e_entry: Elf_Addr,
    pub e_phoff: Elf_Off,
    pub e_shoff: Elf_Off,
    pub e_flags: Elf_Word,
    pub e_ehsize: Elf_Half,
    pub e_phentsize: Elf_Half,
    pub e_phnum: Elf_Half,
    pub e_shentsize: Elf_Half,
    pub e_shnum: Elf_Half,
    pub e_shstrndx: Elf_Half,
}

/// ELF-64 program header (`Elf64_Phdr`).
#[derive(Clone, Copy, Debug, PartialEq, Eq, Structural)]
pub struct Phdr {
    pub p_type: Elf_Word,
    pub p_flags: Elf_Word,
    pub p_offset: Elf_Off,
    pub p_vaddr: Elf_Addr,
    pub p_paddr: Elf_Addr,
    pub p_filesz: u64,
    pub p_memsz: u64,
    pub p_align: u64,
}

/// Note header.
#[derive(Clone, Copy, Debug, PartialEq, Eq, Structural)]
pub struct Nhdr {
    pub n_namesz: Elf_Word,
    pub n_descsz: Elf_Word,
    pub n_type: Elf_Word,
}

/// Signal information of a core file.
#[allow(non_camel_case_types)]
#[derive(Clone, Copy, Debug)]
pub struct elf_siginfo {
    pub si_signo: i32,
    pub si_code: i32,
    pub si_errno: i32,
}

/// A point in time of a core file (`struct timeval`).
#[allow(non_camel_case_types)]
#[derive(Clone, Copy, Debug)]
pub struct timeval {
    pub tv_sec: i64,
    pub tv_usec: i64,
}

/// Length of the argument string in `elf_prpsinfo`.
pub const ELF_PRARGSZ: usize = 80;

/// Status of a thread in a core file.
#[allow(non_camel_case_types)]
#[derive(Clone, Copy, Debug)]
pub struct elf_prstatus {
    pub pr_info: elf_siginfo,
    pub pr_cursig: i16,
    pub pr_sigpend: u64,
    pub pr_sighold: u64,
    pub pr_pid: i32,
    pub pr_ppid: i32,
    pub pr_pgrp: i32,
    pub pr_sid: i32,
    pub pr_utime: timeval,
    pub pr_stime: timeval,
    pub pr_cutime: timeval,
    pub pr_cstime: timeval,
    pub pr_reg: [u64; ELF_NGREG],
    pub pr_fpvalid: i32,
}

/// Information about the process of a core file.
#[allow(non_camel_case_types)]
#[derive(Clone, Copy, Debug)]
pub struct elf_prpsinfo {
    pub pr_state: i8,
    pub pr_sname: i8,
    pub pr_zomb: i8,
    pub pr_nice: i8,
    pub pr_flag: u64,
    pub pr_uid: u32,
    pub pr_gid: u32,
    pub pr_pid: i32,
    pub pr_ppid: i32,
    pub pr_pgrp: i32,
    pub pr_sid: i32,
    pub pr_fname: [u8; 16],
    pub pr_psargs: [i8; ELF_PRARGSZ],
}

} // verus!

//! Verified core of vmsh: page arithmetic, x86-64 page table construction,
//! guest physical memory lookup, kernel symbol discovery and the small wire
//! formats used to talk to KVM.
use vstd::prelude::*;

pub mod console;
pub mod coredump;
pub mod cpu;
pub mod device;
pub mod devices;
pub mod elf;
pub mod error;
pub mod guest_mem;
pub mod kernel;
pub mod kvm;
pub mod kvm_memslots;
pub mod loader;
pub mod page_math;
pub mod page_table;
pub mod proc;
pub mod prot;
pub mod shovel;
pub mod sort;

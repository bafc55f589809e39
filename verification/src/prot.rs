//! Memory protection of a mapping, as `mmap` and `mprotect` take it.
use vstd::prelude::*;

verus! {

/// Bit of `PROT_READ` on Linux.
pub const PROT_READ_BIT: i32 = 1;
/// Bit of `PROT_WRITE` on Linux.
pub const PROT_WRITE_BIT: i32 = 2;
/// Bit of `PROT_EXEC` on Linux.
pub const PROT_EXEC_BIT: i32 = 4;

/// A set of memory protection bits (`PROT_*`).
#[derive(Clone, Copy, Debug, PartialEq, Eq, Structural)]
pub struct ProtFlags {
    pub bits: i32,
}

impl ProtFlags {
    /// Readable memory.
    pub fn prot_read() -> (r: ProtFlags)
        ensures
            r.bits == PROT_READ_BIT,
    {
        ProtFlags { bits: PROT_READ_BIT }
    }

    /// Writable memory.
    pub fn prot_write() -> (r: ProtFlags)
        ensures
            r.bits == PROT_WRITE_BIT,
    {
        ProtFlags { bits: PROT_WRITE_BIT }
    }

    /// Executable memory.
    pub fn prot_exec() -> (r: ProtFlags)
        ensures
            r.bits == PROT_EXEC_BIT,
    {
        ProtFlags { bits: PROT_EXEC_BIT }
    }

    /// Whether every bit of `other` is set in `self`.
    pub fn contains(&self, other: ProtFlags) -> (r: bool)
        ensures
            r == (self.bits & other.bits == other.bits),
    {
        self.bits & other.bits == other.bits
    }

    /// The bits of both sets.
    pub fn union(&self, other: ProtFlags) -> (r: ProtFlags)
        ensures
            r.bits == self.bits | other.bits,
    {
        ProtFlags { bits: self.bits | other.bits }
    }
}

} // verus!

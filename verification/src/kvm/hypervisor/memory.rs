//! Access to the memory of the hypervisor process.
use std::marker::PhantomData;
use vstd::prelude::*;

verus! {

/// `nix::errno::Errno`, the error of the system calls below.
#[verifier::external_type_specification]
#[verifier::external_body]
pub struct ExErrno(nix::errno::Errno);

/// Reads `len` bytes at `addr` in the address space of process `pid`.
///
/// Trusted: calls `nix::sys::uio::process_vm_readv` with one local buffer of
/// `len` bytes and one remote range `addr..addr + len`.  The contract claims
/// that on success the buffer has `len` bytes and the count of bytes read is
/// at most `len`, as the system call documents; what the bytes are depends on
/// the other process and is not stated.
#[verifier::external_body]
pub(crate) fn process_read_bytes(pid: i32, addr: usize, len: usize) -> (r: Result<
    (Vec<u8>, usize),
    nix::errno::Errno,
>)
    ensures
        r matches Ok((buf, n)) ==> buf@.len() == len && n <= len,
{
    let mut buf = vec![0u8; len];
    let res = nix::sys::uio::process_vm_readv(
        nix::unistd::Pid::from_raw(pid),
        &mut [std::io::IoSliceMut::new(&mut buf)],
        &[nix::sys::uio::RemoteIoVec { base: addr, len }],
    );
    res.map(|n| (buf, n))
}

/// Writes `data` into the address space of process `pid`, filling the
/// remote ranges `(base, len)` of `remote` in order.
///
/// Trusted: calls `nix::sys::uio::process_vm_writev` with `data` as the one
/// local buffer.  The contract claims that on success at most `data.len()`
/// bytes were written, as the system call documents.
#[verifier::external_body]
pub(crate) fn process_write_bytes(pid: i32, data: &[u8], remote: &[(usize, usize)]) -> (r: Result<
    usize,
    nix::errno::Errno,
>)
    ensures
        r matches Ok(n) ==> n <= data@.len(),
{
    let remote_iovs: Vec<nix::sys::uio::RemoteIoVec> = remote.iter().map(
        |&(base, len)| nix::sys::uio::RemoteIoVec { base, len },
    ).collect();
    nix::sys::uio::process_vm_writev(
        nix::unistd::Pid::from_raw(pid),
        &[std::io::IoSlice::new(data)],
        &remote_iovs,
    )
}

/// A marker for the type of a value held in another process.
#[derive(Debug)]
pub struct SendPhantom<T> {
    phantom: PhantomData<T>,
}

impl<T> SendPhantom<T> {
    /// The marker, which holds nothing.
    pub closed spec fn is_marker(&self) -> bool {
        self.phantom == PhantomData::<T>
    }
}

impl<T> Default for SendPhantom<T> {
    fn default() -> (r: Self)
        ensures
            r.is_marker(),
    {
        SendPhantom { phantom: PhantomData }
    }
}

} // verus!

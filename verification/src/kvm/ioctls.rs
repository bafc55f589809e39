//! KVM ioctl numbers and the ioregionfd wire protocol.
use vstd::bytes::{
    spec_u32_from_le_bytes, spec_u32_to_le_bytes, spec_u64_from_le_bytes, spec_u64_to_le_bytes, u32_from_le_bytes,
    u32_to_le_bytes, u64_from_le_bytes, u64_to_le_bytes,
};
use vstd::prelude::*;

verus! {

/// Bits of the command number in an ioctl request.
pub const IOC_NRBITS: u32 = 8;
/// Bits of the type in an ioctl request.
pub const IOC_TYPEBITS: u32 = 8;
/// Bits of the argument size in an ioctl request.
pub const IOC_SIZEBITS: u32 = 14;
/// Bits of the direction in an ioctl request.
pub const IOC_DIRBITS: u32 = 2;
/// Position of the command number in an ioctl request.
pub const IOC_NRSHIFT: u32 = 0;
/// Position of the type in an ioctl request.
pub const IOC_TYPESHIFT: u32 = 8;
/// Position of the argument size in an ioctl request.
pub const IOC_SIZESHIFT: u32 = 16;
/// Position of the direction in an ioctl request.
pub const IOC_DIRSHIFT: u32 = 30;
/// The ioctl transfers no data.
pub const IOC_NONE: u32 = 0;
/// The ioctl writes its argument to the kernel.
pub const IOC_WRITE: u32 = 1;
/// The ioctl reads its argument from the kernel.
pub const IOC_READ: u32 = 2;
/// The ioctl type of KVM.
pub const KVMIO: u32 = 0xAE;

/// The ioctl request number for direction `dir`, type `ty`, command `nr`
/// and an argument of `size` bytes.
pub open spec fn ioctl_expr_spec(dir: u32, ty: u32, nr: u32, size: u32) -> u64 {
    ((dir << IOC_DIRSHIFT) | (ty << IOC_TYPESHIFT) | (nr << IOC_NRSHIFT) | (size << IOC_SIZESHIFT)) as u64
}

/// The ioctl request number for direction `dir`, type `ty`, command `nr`
/// and an argument of `size` bytes.
pub fn ioctl_expr(dir: u32, ty: u32, nr: u32, size: u32) -> (r: u64)
    ensures
        r == ioctl_expr_spec(dir, ty, nr, size),
{
    ((dir << IOC_DIRSHIFT) | (ty << IOC_TYPESHIFT) | (nr << IOC_NRSHIFT) | (size << IOC_SIZESHIFT)) as u64
}

/// `KVM_CHECK_EXTENSION`: asks whether KVM has a capability.
#[allow(non_snake_case)]
pub fn KVM_CHECK_EXTENSION() -> (r: u64)
    ensures
        r == ioctl_expr_spec(IOC_NONE, KVMIO, 0x03, 0),
{
    ioctl_expr(IOC_NONE, KVMIO, 0x03, 0)
}

/// `KVM_RUN`: runs a vcpu.
#[allow(non_snake_case)]
pub fn KVM_RUN() -> (r: u64)
    ensures
        r == ioctl_expr_spec(IOC_NONE, KVMIO, 0x80, 0),
{
    ioctl_expr(IOC_NONE, KVMIO, 0x80, 0)
}

/// Most cpuid entries KVM reports, according to
/// `arch/x86/include/asm/kvm_host.h`.
pub const KVM_MAX_CPUID_ENTRIES: usize = 256;

/// One cpuid leaf as KVM reports it (`struct kvm_cpuid_entry2`).
#[allow(non_camel_case_types)]
#[derive(Clone, Copy, Debug)]
pub struct kvm_cpuid_entry2 {
    pub function: u32,
    pub index: u32,
    pub flags: u32,
    pub eax: u32,
    pub ebx: u32,
    pub ecx: u32,
    pub edx: u32,
    pub padding: [u32; 3],
}

/// The cpuid leaves of a vcpu (`KVM_GET_CPUID2`), with room for the most
/// entries KVM reports.
#[allow(non_camel_case_types)]
#[derive(Clone, Copy, Debug)]
pub struct kvm_cpuid2 {
    pub nent: u32,
    pub padding: u32,
    pub entries: [kvm_cpuid_entry2; KVM_MAX_CPUID_ENTRIES],
}

/// An ioregion: guest physical memory whose accesses KVM forwards over file
/// descriptors (`struct kvm_ioregion`).
#[allow(non_camel_case_types)]
#[derive(Clone, Copy, Debug)]
pub struct kvm_ioregion {
    /// guest physical address
    pub guest_paddr: u64,
    /// bytes
    pub memory_size: u64,
    pub user_data: u64,
    pub rfd: i32,
    pub wfd: i32,
    pub flags: u32,
    pub pad: [u8; 28],
}

impl kvm_ioregion {
    /// An ioregion of `len` bytes at `guest_paddr`, read from `rfd` and
    /// answered on `wfd`, with no flags.
    pub fn new(guest_paddr: u64, len: usize, rfd: i32, wfd: i32) -> (r: kvm_ioregion)
        ensures
            r.guest_paddr == guest_paddr,
            r.memory_size == len as u64,
            r.user_data == 0,
            r.rfd == rfd,
            r.wfd == wfd,
            r.flags == 0,
            forall|i: int| 0 <= i < 28 ==> r.pad[i] == 0,
    {
        kvm_ioregion { guest_paddr, memory_size: len as u64, user_data: 0, rfd, wfd, flags: 0, pad: [0u8; 28] }
    }
}

/// The ioregion serves port I/O (`1 << pio`).
pub const KVM_IOREGION_PIO: u32 = 1;
/// Writes to the ioregion need no answer (`1 << posted_writes`).
pub const KVM_IOREGION_POSTED_WRITES: u32 = 2;
/// All flags of an ioregion (`(1 << max) - 1`).
pub const KVM_IOREGION_VALID_FLAG_MASK: u32 = 3;
/// The capability number of ioregionfd.
pub const KVM_CAP_IOREGIONFD: u32 = 195;

/// Position of the command bit in `Info`.
pub const IOREGIONFD_CMD_OFFSET: u32 = 0;
/// Width of the command field in `Info`.
pub const IOREGIONFD_CMD_LEN: u32 = 1;
/// Position of the size field in `Info`.
pub const IOREGIONFD_SIZE_OFFSET: u32 = 4;
/// Width of the size field in `Info`.
pub const IOREGIONFD_SIZE_LEN: u32 = 2;
/// Position of the response bit in `Info`.
pub const IOREGIONFD_RESP_OFFSET: u32 = 6;
/// Width of the response field in `Info`.
pub const IOREGIONFD_RESP_LEN: u32 = 1;

/// The kind of access.
#[derive(Clone, Copy, Debug, PartialEq, Eq, Structural)]
pub enum Cmd {
    Read,
    Write,
}

/// The width of an access.
#[allow(non_camel_case_types)]
#[derive(Clone, Copy, Debug, PartialEq, Eq, Structural)]
pub enum Size {
    b8,
    b16,
    b32,
    b64,
}

/// The number of a command on the wire.
pub open spec fn cmd_bits(cmd: Cmd) -> u32 {
    match cmd {
        Cmd::Read => 0,
        Cmd::Write => 1,
    }
}

/// The number of a size on the wire.
pub open spec fn size_bits(size: Size) -> u32 {
    match size {
        Size::b8 => 0,
        Size::b16 => 1,
        Size::b32 => 2,
        Size::b64 => 3,
    }
}

/// Bytes of an access of `size`.
pub open spec fn size_bytes(size: Size) -> nat {
    match size {
        Size::b8 => 1,
        Size::b16 => 2,
        Size::b32 => 4,
        Size::b64 => 8,
    }
}

/// The bits of an `Info` with these fields.
pub open spec fn info_bits(cmd: Cmd, size: Size, response: bool) -> u32 {
    (cmd_bits(cmd) << IOREGIONFD_CMD_OFFSET) | (size_bits(size) << IOREGIONFD_SIZE_OFFSET) | ((if response {
        1u32
    } else {
        0u32
    }) << IOREGIONFD_RESP_OFFSET)
}

/// The command that the low bit of `bits` names.
pub open spec fn cmd_of(bits: u32) -> Cmd {
    if (bits >> IOREGIONFD_CMD_OFFSET) & 1 == 0 {
        Cmd::Read
    } else {
        Cmd::Write
    }
}

/// The size that bits 4 and 5 of `bits` name.
pub open spec fn size_of_bits(bits: u32) -> Size {
    let s = (bits >> IOREGIONFD_SIZE_OFFSET) & 3;
    if s == 0 {
        Size::b8
    } else if s == 1 {
        Size::b16
    } else if s == 2 {
        Size::b32
    } else {
        Size::b64
    }
}

/// The first word of an ioregionfd command: command, access size and
/// response bit.
#[derive(Clone, Copy, Debug, PartialEq, Eq, Structural)]
pub struct Info(pub u32);

impl Info {
    /// The info word for `cmd` with `size`, with the response bit set if
    /// `response`.
    pub fn new(cmd: Cmd, size: Size, response: bool) -> (r: Info)
        ensures
            r.0 == info_bits(cmd, size, response),
    {
        let c: u32 = match cmd {
            Cmd::Read => 0,
            Cmd::Write => 1,
        };
        let s: u32 = match size {
            Size::b8 => 0,
            Size::b16 => 1,
            Size::b32 => 2,
            Size::b64 => 3,
        };
        let resp: u32 = if response {
            1
        } else {
            0
        };
        let mut ret: u32 = 0;
        ret |= c << IOREGIONFD_CMD_OFFSET;
        ret |= s << IOREGIONFD_SIZE_OFFSET;
        ret |= resp << IOREGIONFD_RESP_OFFSET;
        proof {
            assert((0u32 | (c << 0u32)) | (s << 4u32) | (resp << 6u32) == (c << 0u32) | (s << 4u32) | (resp << 6u32))
                by (bit_vector);
        }
        Info(ret)
    }

    /// The command.
    pub fn cmd(&self) -> (r: Cmd)
        ensures
            r == cmd_of(self.0),
    {
        let mut i: u32 = self.0 >> IOREGIONFD_CMD_OFFSET;
        let valid_bits: u32 = !(!0u32 << IOREGIONFD_CMD_LEN);
        proof {
            assert(!(!0u32 << 1u32) == 1u32) by (bit_vector);
        }
        i &= valid_bits;
        if i == 0 {
            Cmd::Read
        } else {
            Cmd::Write
        }
    }

    /// The width of the access.
    pub fn size(&self) -> (r: Size)
        ensures
            r == size_of_bits(self.0),
    {
        let mut i: u32 = self.0 >> IOREGIONFD_SIZE_OFFSET;
        let valid_bits: u32 = !(!0u32 << IOREGIONFD_SIZE_LEN);
        proof {
            assert(!(!0u32 << 2u32) == 3u32) by (bit_vector);
        }
        i &= valid_bits;
        if i == 0 {
            Size::b8
        } else if i == 1 {
            Size::b16
        } else if i == 2 {
            Size::b32
        } else {
            Size::b64
        }
    }

    /// Whether the response bit is clear.
    pub fn is_response(&self) -> (r: bool)
        ensures
            r == ((self.0 >> IOREGIONFD_RESP_OFFSET) & 1 == 0),
    {
        let mut i: u32 = self.0 >> IOREGIONFD_RESP_OFFSET;
        let valid_bits: u32 = !(!0u32 << IOREGIONFD_RESP_LEN);
        proof {
            assert(!(!0u32 << 1u32) == 1u32) by (bit_vector);
        }
        i &= valid_bits;
        i == 0
    }
}

/// An info word built from a command, a size and a response flag gives back
/// the command and the size, and `is_response` reports the response flag
/// inverted (it is true when the bit is clear).
pub proof fn lemma_info_round_trip(cmd: Cmd, size: Size, response: bool)
    ensures
        cmd_of(info_bits(cmd, size, response)) == cmd,
        size_of_bits(info_bits(cmd, size, response)) == size,
        ((info_bits(cmd, size, response) >> IOREGIONFD_RESP_OFFSET) & 1 == 0) == !response,
{
    let c = cmd_bits(cmd);
    let s = size_bits(size);
    let r: u32 = if response {
        1
    } else {
        0
    };
    assert(c <= 1 && s <= 3 && r <= 1 ==> {
        let b = (c << 0u32) | (s << 4u32) | (r << 6u32);
        &&& (b >> 0u32) & 1 == c
        &&& (b >> 4u32) & 3 == s
        &&& (b >> 6u32) & 1 == r
    }) by (bit_vector);
}

/// A command sent from the guest to the host over an ioregionfd.
#[allow(non_camel_case_types)]
#[derive(Clone, Copy, Debug, PartialEq, Eq, Structural)]
pub struct ioregionfd_cmd {
    pub info: Info,
    pub pad: u32,
    pub user_data: u64,
    pub offset: u64,
    pub data: u64,
}

impl ioregionfd_cmd {
    /// The bytes of `data` that the access covers, in memory order.
    pub fn data(&self) -> (r: Vec<u8>)
        ensures
            r@ == spec_u64_to_le_bytes(self.data).take(size_bytes(size_of_bits(self.info.0)) as int),
    {
        let bytes = u64_to_le_bytes(self.data);
        let n: usize = match self.info.size() {
            Size::b8 => 1,
            Size::b16 => 2,
            Size::b32 => 4,
            Size::b64 => 8,
        };
        let mut r: Vec<u8> = Vec::new();
        let mut i: usize = 0;
        while i < n
            invariant
                n <= 8,
                bytes@.len() == 8,
                bytes@ == spec_u64_to_le_bytes(self.data),
                i <= n,
                r@ == bytes@.take(i as int),
            decreases n - i,
        {
            r.push(bytes[i]);
            i += 1;
            assert(r@ =~= bytes@.take(i as int));
        }
        r
    }

    /// Replaces the bytes of `data` that the access covers with `bytes`.
    pub fn data_mut(&mut self, bytes: &[u8])
        requires
            bytes@.len() == size_bytes(size_of_bits(old(self).info.0)),
        ensures
            final(self).info == old(self).info,
            final(self).pad == old(self).pad,
            final(self).user_data == old(self).user_data,
            final(self).offset == old(self).offset,
            spec_u64_to_le_bytes(final(self).data) == bytes@ + spec_u64_to_le_bytes(old(self).data).skip(
                bytes@.len() as int,
            ),
    {
        proof {
            vstd::bytes::lemma_auto_spec_u64_to_from_le_bytes();
        }
        let mut buf = u64_to_le_bytes(self.data);
        let ghost orig = buf@;
        let n = bytes.len();
        let mut i: usize = 0;
        while i < n
            invariant
                n == bytes@.len(),
                n <= 8,
                buf@.len() == 8,
                i <= n,
                buf@ == bytes@.take(i as int) + orig.skip(i as int),
                orig.len() == 8,
            decreases n - i,
        {
            buf.set(i, bytes[i]);
            i += 1;
            assert(buf@ =~= bytes@.take(i as int) + orig.skip(i as int));
        }
        assert(bytes@.take(n as int) =~= bytes@);
        self.data = u64_from_le_bytes(buf.as_slice());
    }
}

/// Bytes of a command on the wire.
pub const IOREGIONFD_CMD_SIZE: usize = 32;
/// Bytes of an answer on the wire.
pub const IOREGIONFD_RESP_SIZE: usize = 32;

/// A command as it comes over the wire (little endian, no padding beyond
/// `pad`).
pub open spec fn cmd_bytes(c: ioregionfd_cmd) -> Seq<u8> {
    spec_u32_to_le_bytes(c.info.0) + spec_u32_to_le_bytes(c.pad) + spec_u64_to_le_bytes(c.user_data)
        + spec_u64_to_le_bytes(c.offset) + spec_u64_to_le_bytes(c.data)
}

impl ioregionfd_cmd {
    /// The command as it comes over the wire.
    pub fn to_bytes(&self) -> (r: Vec<u8>)
        ensures
            r@ == cmd_bytes(*self),
            r@.len() == IOREGIONFD_CMD_SIZE,
    {
        proof {
            vstd::bytes::lemma_auto_spec_u32_to_from_le_bytes();
            vstd::bytes::lemma_auto_spec_u64_to_from_le_bytes();
        }
        let mut out = u32_to_le_bytes(self.info.0);
        out.append(&mut u32_to_le_bytes(self.pad));
        out.append(&mut u64_to_le_bytes(self.user_data));
        out.append(&mut u64_to_le_bytes(self.offset));
        out.append(&mut u64_to_le_bytes(self.data));
        out
    }

    /// The command that `bytes` hold, if they are exactly one command long.
    pub fn from_bytes(bytes: &[u8]) -> (r: Option<ioregionfd_cmd>)
        ensures
            r is Some <==> bytes@.len() == IOREGIONFD_CMD_SIZE,
            r matches Some(c) ==> cmd_bytes(c) == bytes@,
    {
        if bytes.len() != IOREGIONFD_CMD_SIZE {
            return None;
        }
        proof {
            vstd::bytes::lemma_auto_spec_u32_to_from_le_bytes();
            vstd::bytes::lemma_auto_spec_u64_to_from_le_bytes();
        }
        let ghost b = bytes@;
        let c = ioregionfd_cmd {
            info: Info(u32_from_le_bytes(&bytes[0..4])),
            pad: u32_from_le_bytes(&bytes[4..8]),
            user_data: u64_from_le_bytes(&bytes[8..16]),
            offset: u64_from_le_bytes(&bytes[16..24]),
            data: u64_from_le_bytes(&bytes[24..32]),
        };
        assert(spec_u32_to_le_bytes(c.info.0) == b.subrange(0, 4));
        assert(spec_u32_to_le_bytes(c.pad) == b.subrange(4, 8));
        assert(spec_u64_to_le_bytes(c.user_data) == b.subrange(8, 16));
        assert(spec_u64_to_le_bytes(c.offset) == b.subrange(16, 24));
        assert(spec_u64_to_le_bytes(c.data) == b.subrange(24, 32));
        assert(cmd_bytes(c) =~= b);
        Some(c)
    }
}

/// A command read back from its bytes is the command that was written: the
/// encoding loses nothing.
pub proof fn lemma_cmd_bytes_injective(a: ioregionfd_cmd, b: ioregionfd_cmd)
    requires
        cmd_bytes(a) == cmd_bytes(b),
    ensures
        a == b,
{
    vstd::bytes::lemma_auto_spec_u32_to_from_le_bytes();
    vstd::bytes::lemma_auto_spec_u64_to_from_le_bytes();
    let x = cmd_bytes(a);
    assert(x.subrange(0, 4) =~= spec_u32_to_le_bytes(a.info.0));
    assert(x.subrange(4, 8) =~= spec_u32_to_le_bytes(a.pad));
    assert(x.subrange(8, 16) =~= spec_u64_to_le_bytes(a.user_data));
    assert(x.subrange(16, 24) =~= spec_u64_to_le_bytes(a.offset));
    assert(x.subrange(24, 32) =~= spec_u64_to_le_bytes(a.data));
    let y = cmd_bytes(b);
    assert(y.subrange(0, 4) =~= spec_u32_to_le_bytes(b.info.0));
    assert(y.subrange(4, 8) =~= spec_u32_to_le_bytes(b.pad));
    assert(y.subrange(8, 16) =~= spec_u64_to_le_bytes(b.user_data));
    assert(y.subrange(16, 24) =~= spec_u64_to_le_bytes(b.offset));
    assert(y.subrange(24, 32) =~= spec_u64_to_le_bytes(b.data));
    assert(spec_u32_from_le_bytes(spec_u32_to_le_bytes(a.info.0)) == a.info.0);
    assert(spec_u32_from_le_bytes(spec_u32_to_le_bytes(a.pad)) == a.pad);
    assert(spec_u64_from_le_bytes(spec_u64_to_le_bytes(a.user_data)) == a.user_data);
    assert(spec_u64_from_le_bytes(spec_u64_to_le_bytes(a.offset)) == a.offset);
    assert(spec_u64_from_le_bytes(spec_u64_to_le_bytes(a.data)) == a.data);
}

/// An answer sent from the host to the guest over an ioregionfd.
#[allow(non_camel_case_types)]
#[derive(Clone, Copy, Debug)]
pub struct ioregionfd_resp {
    pub data: u64,
    pub pad: [u8; 24],
}

impl ioregionfd_resp {
    /// The answer carrying `data`.
    pub fn new(data: u64) -> (r: ioregionfd_resp)
        ensures
            r.data == data,
            forall|i: int| 0 <= i < 24 ==> r.pad[i] == 0,
    {
        ioregionfd_resp { data, pad: [0u8; 24] }
    }
}

/// An answer as it goes over the wire: the data in little endian, then
/// the padding.
pub open spec fn resp_bytes(r: ioregionfd_resp) -> Seq<u8> {
    spec_u64_to_le_bytes(r.data) + r.pad@
}

impl ioregionfd_resp {
    /// The answer as it goes over the wire.
    pub fn to_bytes(&self) -> (r: Vec<u8>)
        ensures
            r@ == resp_bytes(*self),
            r@.len() == IOREGIONFD_RESP_SIZE,
    {
        proof {
            vstd::bytes::lemma_auto_spec_u64_to_from_le_bytes();
        }
        let mut out = u64_to_le_bytes(self.data);
        let mut pad = vstd::slice::slice_to_vec(self.pad.as_slice());
        out.append(&mut pad);
        out
    }
}

/// The answer word for the bytes `data` of a read (at most eight): the
/// bytes in memory order, padded with zeros.
pub fn response_data(data: &[u8]) -> (r: u64)
    requires
        data@.len() <= 8,
    ensures
        spec_u64_to_le_bytes(r) == data@ + Seq::new((8 - data@.len()) as nat, |i: int| 0u8),
{
    proof {
        vstd::bytes::lemma_auto_spec_u64_to_from_le_bytes();
    }
    let mut arr: Vec<u8> = vec![0u8; 8];
    let mut i: usize = 0;
    while i < data.len()
        invariant
            data@.len() <= 8,
            arr@.len() == 8,
            i <= data@.len(),
            forall|k: int| 0 <= k < i ==> arr@[k] == data@[k],
            forall|k: int| i <= k < 8 ==> arr@[k] == 0u8,
        decreases data@.len() - i,
    {
        arr.set(i, data[i]);
        i += 1;
    }
    let r = u64_from_le_bytes(arr.as_slice());
    assert(arr@ =~= data@ + Seq::new((8 - data@.len()) as nat, |i: int| 0u8));
    r
}

} // verus!

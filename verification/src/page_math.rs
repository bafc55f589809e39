//! Page size arithmetic.
//!
//! The page size is a property of the machine: it is read once with
//! `sysconf(_SC_PAGESIZE)`.  Every computation is available in two forms: one
//! that takes the page size as an argument (`*_with`), with an exact contract,
//! and one that asks the machine, whose contract holds for whatever page size
//! the machine reports.
use vstd::prelude::*;
use vstd::arithmetic::power2::pow2;
use vstd::bits::{lemma_usize_low_bits_mask_is_mod, lemma_usize_pow2_no_overflow, low_bits_mask};

verus! {

/// A power of two that fits in a `usize`.
pub open spec fn is_pow2(n: usize) -> bool {
    exists|k: nat| k < usize::BITS && n == pow2(k)
}

/// The mask that clears the offset inside a page of `ps` bytes.
pub open spec fn page_mask(ps: usize) -> usize {
    !((ps - 1) as usize)
}

/// `v` rounded down with the page mask.
pub open spec fn page_start_spec(ps: usize, v: usize) -> usize {
    v & page_mask(ps)
}

/// `v + ps - 1` rounded down with the page mask; the addition wraps around
/// at the end of the address space, as it does in a release build.
pub open spec fn page_align_spec(ps: usize, v: usize) -> usize {
    v.wrapping_add((ps - 1) as usize) & page_mask(ps)
}

/// Whether the offset of `v` inside its page is zero.
pub open spec fn is_page_aligned_spec(ps: usize, v: usize) -> bool {
    v & ((ps - 1) as usize) == 0
}

/// Size of the memory a page table entry of `level` covers (level 3 maps
/// single pages, level 0 covers 512 GiB with 4 KiB pages).
pub open spec fn huge_page_size_spec(ps: usize, level: u8) -> usize {
    ps << (9 * (3 - level) as usize)
}

/// Host address minus physical address, as a signed offset.
pub open spec fn host_offset_spec(host_addr: usize, phys_addr: usize) -> isize {
    (host_addr - phys_addr) as isize
}

/// With a power of two page size, masking is the same as subtracting the
/// remainder.
pub proof fn lemma_mask_is_mod(ps: usize, v: usize)
    requires
        is_pow2(ps),
    ensures
        v & ((ps - 1) as usize) == v % ps,
        v & page_mask(ps) == v - v % ps,
{
    let k = choose|k: nat| k < usize::BITS && ps == pow2(k);
    lemma_usize_low_bits_mask_is_mod(v, k);
    lemma_usize_pow2_no_overflow(k);
    assert(low_bits_mask(k) == ps - 1);
    assert(ps != 0 ==> v & !((ps - 1) as usize) == v - (v & ((ps - 1) as usize))) by (bit_vector);
}

/// A power of two is at least one.
pub proof fn lemma_pow2_positive(n: usize)
    requires
        is_pow2(n),
    ensures
        n >= 1,
{
    let k = choose|k: nat| k < usize::BITS && n == pow2(k);
    lemma_usize_pow2_no_overflow(k);
}

/// A multiple of a multiple of `d` is a multiple of `d`.
pub proof fn lemma_mod_mod(a: int, b: int, d: int)
    requires
        d > 0,
        b > 0,
        a % b == 0,
        b % d == 0,
    ensures
        a % d == 0,
{
    let x = a / b;
    let q = b / d;
    vstd::arithmetic::div_mod::lemma_fundamental_div_mod(a, b);
    vstd::arithmetic::div_mod::lemma_fundamental_div_mod(b, d);
    assert(a == (x * q) * d) by (nonlinear_arith)
        requires a == b * x, b == d * q;
    vstd::arithmetic::div_mod::lemma_mod_multiples_basic(x * q, d);
}

/// The sum of two multiples of `d` is a multiple of `d`.
pub proof fn lemma_mod_add(a: int, b: int, d: int)
    requires
        d > 0,
        a % d == 0,
        b % d == 0,
    ensures
        (a + b) % d == 0,
{
    vstd::arithmetic::div_mod::lemma_fundamental_div_mod(a, d);
    vstd::arithmetic::div_mod::lemma_fundamental_div_mod(b, d);
    let x = a / d;
    let y = b / d;
    assert(a + b == (x + y) * d) by (nonlinear_arith)
        requires a == d * x, b == d * y;
    vstd::arithmetic::div_mod::lemma_mod_multiples_basic(x + y, d);
}

/// The machine's page size.
///
/// Trusted: calls `nix::unistd::sysconf(SysconfVar::PAGE_SIZE)` and takes the
/// value out of its `Result<Option<c_long>>`.  The contract claims only that
/// the page size is at least one byte, which POSIX requires of `PAGESIZE`;
/// nothing else about the value is stated, and two calls are not claimed to
/// agree.  On a system that does not report `PAGESIZE` the call panics.
#[verifier::external_body]
pub fn page_size() -> (ps: usize)
    ensures
        ps >= 1,
{
    nix::unistd::sysconf(nix::unistd::SysconfVar::PAGE_SIZE).unwrap().unwrap() as usize
}

/// Size covered by one entry of a page table at `level`, for page size `ps`.
pub fn huge_page_size_with(ps: usize, level: u8) -> (r: usize)
    requires
        level <= 3,
    ensures
        r == huge_page_size_spec(ps, level),
        level == 3 ==> r == ps,
{
    let shift: usize = 9 * (3 - level) as usize;
    proof {
        if level == 3 {
            assert(ps << 0usize == ps) by (bit_vector);
        }
    }
    ps << shift
}

/// Size covered by one entry of a page table at `level`.
pub fn huge_page_size(level: u8) -> (r: usize)
    requires
        level <= 3,
    ensures
        exists|ps: usize| ps >= 1 && r == huge_page_size_spec(ps, level),
{
    let ps = page_size();
    huge_page_size_with(ps, level)
}

/// Start of the page that holds `v`, for page size `ps`.
pub fn page_start_with(ps: usize, v: usize) -> (r: usize)
    requires
        ps >= 1,
    ensures
        r == page_start_spec(ps, v),
        r <= v,
        is_pow2(ps) ==> r == v - v % ps && r % ps == 0 && v < r + ps,

{
    proof {
        assert(ps != 0 ==> v & !((ps - 1) as usize) <= v) by (bit_vector);
        if is_pow2(ps) {
            lemma_mask_is_mod(ps, v);
            let vi = v as int;
            let p = ps as int;
            assert((vi - vi % p) % p == 0) by (nonlinear_arith)
                requires p > 0;
            assert(vi % p < p) by (nonlinear_arith) requires p > 0;
        }
    }
    v & !(ps - 1)
}

/// Start of the page that holds `v`.
pub fn page_start(v: usize) -> (r: usize)
    ensures
        r <= v,
        exists|ps: usize| ps >= 1 && r == page_start_spec(ps, v),
{
    let ps = page_size();
    page_start_with(ps, v)
}

/// `v` rounded up to the next page boundary, for page size `ps`.
pub fn page_align_with(ps: usize, v: usize) -> (r: usize)
    requires
        ps >= 1,
    ensures
        r == page_align_spec(ps, v),
        is_pow2(ps) && v + ps - 1 <= usize::MAX ==> {
            &&& v <= r
            &&& r < v + ps
            &&& r % ps == 0
            &&& r == ((v + ps - 1) / (ps as int)) * ps
        },
{
    let up = v.wrapping_add(ps - 1);
    proof {
        if is_pow2(ps) && v + ps - 1 <= usize::MAX {
            assert(up == v + ps - 1);
            lemma_mask_is_mod(ps, up);
            let u = up as int;
            assert(u - u % (ps as int) == (u / (ps as int)) * ps) by (nonlinear_arith)
                requires ps > 0;
            assert(((u / (ps as int)) * ps) % (ps as int) == 0) by (nonlinear_arith)
                requires ps > 0;
            assert(u % (ps as int) < ps) by (nonlinear_arith) requires ps > 0;
            assert(u - u % (ps as int) >= v) by (nonlinear_arith)
                requires ps > 0, u == v + ps - 1, 0 <= u % (ps as int) < ps;
        }
    }
    up & !(ps - 1)
}

/// `v` rounded up to the next page boundary.
pub fn page_align(v: usize) -> (r: usize)
    ensures
        exists|ps: usize| ps >= 1 && r == page_align_spec(ps, v),
{
    let ps = page_size();
    page_align_with(ps, v)
}

/// Whether `v` is at the start of a page, for page size `ps`.
pub fn is_page_aligned_with(ps: usize, v: usize) -> (r: bool)
    requires
        ps >= 1,
    ensures
        r == is_page_aligned_spec(ps, v),
        is_pow2(ps) ==> (r <==> v % ps == 0),
{
    proof {
        if is_pow2(ps) {
            lemma_mask_is_mod(ps, v);
        }
    }
    v & (ps - 1) == 0
}

/// Whether `v` is at the start of a page.
pub fn is_page_aligned(v: usize) -> (r: bool)
    ensures
        exists|ps: usize| ps >= 1 && r == is_page_aligned_spec(ps, v),
{
    let ps = page_size();
    is_page_aligned_with(ps, v)
}

/// Offset to add to a guest physical address to get the host address it is
/// mapped to.
pub fn compute_host_offset(host_addr: usize, phys_addr: usize) -> (r: isize)
    requires
        phys_addr - host_addr != isize::MAX + 1,
    ensures
        r == host_offset_spec(host_addr, phys_addr),
        isize::MIN <= host_addr - phys_addr <= isize::MAX ==> r == host_addr - phys_addr,
{
    let d: i128 = host_addr as i128 - phys_addr as i128;
    d as isize
}

/// The start of the page that holds `v` is page aligned, and `v` lies in
/// that page.
pub proof fn lemma_page_start_aligned(ps: usize, v: usize)
    requires
        is_pow2(ps),
    ensures
        is_page_aligned_spec(ps, page_start_spec(ps, v)),
        page_start_spec(ps, v) <= v < page_start_spec(ps, v) + ps,
{
    lemma_pow2_positive(ps);
    lemma_mask_is_mod(ps, v);
    let s = page_start_spec(ps, v);
    lemma_mask_is_mod(ps, s);
    let vi = v as int;
    let p = ps as int;
    assert((vi - vi % p) % p == 0) by (nonlinear_arith)
        requires p > 0;
    assert(vi % p < p) by (nonlinear_arith)
        requires p > 0;
}

/// Rounding up to the next page boundary gives a page aligned address no
/// less than `v` and less than a page above it, and leaves page aligned
/// addresses as they are.
pub proof fn lemma_page_align_aligned(ps: usize, v: usize)
    requires
        is_pow2(ps),
        v + ps - 1 <= usize::MAX,
    ensures
        is_page_aligned_spec(ps, page_align_spec(ps, v)),
        v <= page_align_spec(ps, v) < v + ps,
        is_page_aligned_spec(ps, v) ==> page_align_spec(ps, v) == v,
{
    lemma_pow2_positive(ps);
    let up = (v + ps - 1) as usize;
    assert(v.wrapping_add((ps - 1) as usize) == up);
    lemma_mask_is_mod(ps, up);
    let r = page_align_spec(ps, v);
    assert(r == up - up % ps);
    let u = up as int;
    let p = ps as int;
    let vi = v as int;
    assert((u - u % p) % p == 0) by (nonlinear_arith)
        requires p > 0;
    assert(u % p < p) by (nonlinear_arith)
        requires p > 0;
    assert(u - u % p >= vi) by (nonlinear_arith)
        requires p > 0, u == vi + p - 1, 0 <= u % p < p;
    lemma_mask_is_mod(ps, r);
    lemma_mask_is_mod(ps, v);
    if v & ((ps - 1) as usize) == 0 {
        assert(vi % p == 0);
        assert((vi + p - 1) % p == p - 1) by (nonlinear_arith)
            requires vi % p == 0, p > 0;
    }
}

/// A physical address with the host offset computed from a host address
/// maps back to that host address.
pub proof fn lemma_host_offset_round_trip(host_addr: usize, phys_addr: usize)
    requires
        isize::MIN <= host_addr - phys_addr <= isize::MAX,
    ensures
        phys_addr + host_offset_spec(host_addr, phys_addr) == host_addr,
{
}

} // verus!

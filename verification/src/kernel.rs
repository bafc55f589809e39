//! Finding the Linux kernel in guest memory and reading the symbols it
//! exports (`__ksymtab` and `__ksymtab_strings`).
use std::ops::Range;
use vstd::bytes::{spec_u32_from_le_bytes, u32_from_le_bytes};
use vstd::hash_map::StringHashMap;
use vstd::prelude::*;
use vstd::utf8::{decode_utf8, valid_utf8};

use crate::error::Error;
use crate::guest_mem::{kernel_sections_spec, GuestMem, MappedMemory};
use crate::kvm::hypervisor::memory::process_read_bytes;
use crate::page_table::PageTableIteratorValue;
use crate::prot::PROT_READ_BIT;

verus! {

/// `needle` occurs in `haystack` at `p`.
pub open spec fn matches_at(haystack: Seq<u8>, needle: Seq<u8>, p: int) -> bool {
    &&& 0 <= p
    &&& p + needle.len() <= haystack.len()
    &&& forall|j: int| 0 <= j < needle.len() ==> #[trigger] haystack[p + j] == needle[j]
}

/// `p` is the first position at which `needle` occurs in `haystack`.
pub open spec fn first_match(haystack: Seq<u8>, needle: Seq<u8>, p: int) -> bool {
    &&& matches_at(haystack, needle, p)
    &&& forall|q: int| 0 <= q < p ==> !#[trigger] matches_at(haystack, needle, q)
}

/// The first position at which `needle` occurs in `haystack`.
pub fn find_subsequence(haystack: &[u8], needle: &[u8]) -> (r: Option<usize>)
    requires
        needle@.len() > 0,
    ensures
        r matches Some(p) ==> first_match(haystack@, needle@, p as int),
        r is None ==> forall|q: int| !#[trigger] matches_at(haystack@, needle@, q),
{
    let n = needle.len();
    if haystack.len() < n {
        return None;
    }
    let last = haystack.len() - n;
    let mut p: usize = 0;
    while p <= last
        invariant
            n == needle@.len(),
            n > 0,
            haystack@.len() == haystack.len(),
            last == haystack@.len() - n,
            p <= last + 1,
            forall|q: int| 0 <= q < p ==> !#[trigger] matches_at(haystack@, needle@, q),
        decreases last + 1 - p,
    {
        let mut k: usize = 0;
        let mut same = true;
        while k < n && same
            invariant
                n == needle@.len(),
                haystack@.len() == haystack.len(),
                p <= last,
                last == haystack@.len() - n,
                k <= n,
                same <==> forall|j: int| 0 <= j < k ==> #[trigger] haystack@[p + j] == needle@[j],
            decreases n - k,
        {
            if haystack[p + k] != needle[k] {
                same = false;
            }
            k += 1;
        }
        if same {
            return Some(p);
        }
        assert(!matches_at(haystack@, needle@, p as int)) by {
            let j = choose|j: int| 0 <= j < k && haystack@[p + j] != needle@[j];
        }
        p += 1;
    }
    assert forall|q: int| !#[trigger] matches_at(haystack@, needle@, q) by {
        if q > last {
            assert(q + needle@.len() > haystack@.len());
        }
    }
    None
}

/// A byte that is not a printable character other than space and `~`.
pub open spec fn not_printable_spec(byte: u8) -> bool {
    !(0x20 < byte && byte < 0x7E)
}

/// Whether `byte` is not a printable character other than space and `~`.
pub fn not_printable(byte: u8) -> (r: bool)
    ensures
        r == not_printable_spec(byte),
{
    !(0x20 < byte && byte < 0x7E)
}

/// `num` rounded up to a multiple of `align`.
pub open spec fn round_up_spec(num: int, align: int) -> int {
    ((num + align - 1) / align) * align
}

/// `num` rounded up to a multiple of `align`.
pub fn round_up(num: usize, align: usize) -> (r: usize)
    requires
        align > 0,
        num + align - 1 <= usize::MAX,
    ensures
        r == round_up_spec(num as int, align as int),
        r % align == 0,
        num <= r < num + align,
{
    let x = num + (align - 1);
    let q = x / align;
    proof {
        vstd::arithmetic::div_mod::lemma_fundamental_div_mod(x as int, align as int);
        vstd::arithmetic::mul::lemma_mul_is_commutative(q as int, align as int);
        vstd::arithmetic::div_mod::lemma_mod_multiples_basic(q as int, align as int);
    }
    q * align
}

/// The bytes of `init_task`, the first symbol name in `__ksymtab_strings`.
pub open spec fn init_task_bytes() -> Seq<u8> {
    seq![105u8, 110u8, 105u8, 116u8, 95u8, 116u8, 97u8, 115u8, 107u8]
}

/// The bytes at `w` and `w + 1` are both not printable.
pub open spec fn np_pair(mem: Seq<u8>, w: int) -> bool {
    &&& 0 <= w
    &&& w + 1 < mem.len()
    &&& not_printable_spec(mem[w])
    &&& not_printable_spec(mem[w + 1])
}

/// `w` is the last pair of non-printable bytes that ends before `idx`.
pub open spec fn last_pair_before(mem: Seq<u8>, idx: int, w: int) -> bool {
    &&& w + 2 <= idx
    &&& np_pair(mem, w)
    &&& forall|v: int| w < v && v + 2 <= idx ==> !#[trigger] np_pair(mem, v)
}

/// `w` is the first pair of non-printable bytes that starts at or after
/// `idx`.
pub open spec fn first_pair_from(mem: Seq<u8>, idx: int, w: int) -> bool {
    &&& idx <= w
    &&& np_pair(mem, w)
    &&& forall|v: int| idx <= v < w ==> !#[trigger] np_pair(mem, v)
}

/// `idx` is the first `init_task`, and `w` and `v` the pairs of
/// non-printable bytes around it that bound `__ksymtab_strings`.
pub open spec fn strings_section_at(mem: Seq<u8>, idx: int, w: int, v: int) -> bool {
    &&& first_match(mem, init_task_bytes(), idx)
    &&& last_pair_before(mem, idx, w)
    &&& first_pair_from(mem, idx, v)
}

/// The byte range of `__ksymtab_strings` in a kernel image, if it can be
/// found; see `find_ksymtab_strings_section`.
pub open spec fn ksymtab_strings_spec(mem: Seq<u8>) -> Option<Range<usize>> {
    if exists|t: (int, int, int)| strings_section_at(mem, t.0, t.1, t.2) {
        let t = choose|t: (int, int, int)| strings_section_at(mem, t.0, t.1, t.2);
        Some(Range { start: round_up_spec(t.1 + 2, 4) as usize, end: (t.2 + 1) as usize })
    } else {
        None
    }
}

proof fn lemma_strings_section_unique(mem: Seq<u8>, i1: int, w1: int, v1: int, i2: int, w2: int, v2: int)
    requires
        strings_section_at(mem, i1, w1, v1),
        strings_section_at(mem, i2, w2, v2),
    ensures
        i1 == i2 && w1 == w2 && v1 == v2,
{
    assert(i1 == i2) by {
        if i1 < i2 {
            assert(!matches_at(mem, init_task_bytes(), i1));
        } else if i2 < i1 {
            assert(!matches_at(mem, init_task_bytes(), i2));
        }
    }
    assert(w1 == w2) by {
        if w1 < w2 {
            assert(!np_pair(mem, w2));
        } else if w2 < w1 {
            assert(!np_pair(mem, w1));
        }
    }
    assert(v1 == v2) by {
        if v1 < v2 {
            assert(!np_pair(mem, v1));
        } else if v2 < v1 {
            assert(!np_pair(mem, v2));
        }
    }
}

fn last_pair_before_exec(mem: &[u8], idx: usize) -> (r: Option<usize>)
    requires
        idx <= mem@.len(),
    ensures
        r matches Some(w) ==> last_pair_before(mem@, idx as int, w as int),
        r is None ==> forall|w: int| w + 2 <= idx ==> !#[trigger] np_pair(mem@, w),
{
    let mut j: usize = idx;
    while j >= 2
        invariant
            j <= idx <= mem@.len(),
            forall|v: int| j - 2 < v && v + 2 <= idx ==> !#[trigger] np_pair(mem@, v),
        decreases j,
    {
        if not_printable(mem[j - 2]) && not_printable(mem[j - 1]) {
            return Some(j - 2);
        }
        j -= 1;
    }
    None
}

fn first_pair_from_exec(mem: &[u8], idx: usize) -> (r: Option<usize>)
    requires
        idx <= mem@.len(),
    ensures
        r matches Some(w) ==> first_pair_from(mem@, idx as int, w as int),
        r is None ==> forall|w: int| idx <= w ==> !#[trigger] np_pair(mem@, w),
{
    let mut j: usize = idx;
    while j < mem.len() && mem.len() - j > 1
        invariant
            idx <= j,
            mem@.len() == mem.len(),
            forall|v: int| idx <= v < j ==> !#[trigger] np_pair(mem@, v),
        decreases mem@.len() - j,
    {
        if not_printable(mem[j]) && not_printable(mem[j + 1]) {
            return Some(j);
        }
        j += 1;
    }
    None
}

/// The byte range of `__ksymtab_strings` in a kernel image: around the first
/// `init_task`, from the end of the last pair of non-printable bytes before
/// it (rounded up to four bytes, as the symbol tables before it are four
/// byte aligned) to the first byte of the first such pair after it.
pub fn find_ksymtab_strings_section(mem: &[u8]) -> (r: Option<Range<usize>>)
    ensures
        r matches Some(range) ==> exists|idx: int, w: int, v: int| {
            &&& first_match(mem@, init_task_bytes(), idx)
            &&& last_pair_before(mem@, idx, w)
            &&& first_pair_from(mem@, idx, v)
            &&& range.start == round_up_spec(w + 2, 4)
            &&& range.end == v + 1
        },
        r is None ==> forall|idx: int, w: int, v: int| !{
            &&& first_match(mem@, init_task_bytes(), idx)
            &&& last_pair_before(mem@, idx, w)
            &&& first_pair_from(mem@, idx, v)
        },
        r == ksymtab_strings_spec(mem@),
{
    let needle: [u8; 9] = [105u8, 110u8, 105u8, 116u8, 95u8, 116u8, 97u8, 115u8, 107u8];
    let needle_slice = needle.as_slice();
    assert(needle_slice@ =~= init_task_bytes());
    let idx = match find_subsequence(mem, needle_slice) {
        Some(i) => i,
        None => return None,
    };
    assert(mem@.len() == mem.len());
    assert(matches_at(mem@, init_task_bytes(), idx as int));
    let w = match last_pair_before_exec(mem, idx) {
        Some(w) => w,
        None => return None,
    };
    let start = round_up(w + 2, 4);
    let v = match first_pair_from_exec(mem, idx) {
        Some(v) => v,
        None => return None,
    };
    proof {
        let wt: (int, int, int) = (idx as int, w as int, v as int);
        assert(strings_section_at(mem@, wt.0, wt.1, wt.2));
        let t = choose|t: (int, int, int)| strings_section_at(mem@, t.0, t.1, t.2);
        lemma_strings_section_unique(mem@, idx as int, w as int, v as int, t.0, t.1, t.2);
    }
    Some(start..v + 1)
}

/// `struct kernel_symbol` of `include/linux/export.h` with relative
/// references (`CONFIG_HAVE_ARCH_PREL32_RELOCATIONS`): each field holds the
/// offset from the field itself to what it refers to.
#[allow(non_camel_case_types)]
#[derive(Clone, Copy, Debug, PartialEq, Eq, Structural)]
pub struct kernel_symbol {
    pub value_offset: i32,
    pub name_offset: i32,
    pub namespace_offset: i32,
}

/// `struct kernel_symbol` before Linux 5.4, without a namespace.
#[allow(non_camel_case_types)]
#[derive(Clone, Copy, Debug, PartialEq, Eq, Structural)]
pub struct kernel_symbol_5_3 {
    pub value_offset: i32,
    pub name_offset: i32,
}

/// Size of `struct kernel_symbol` in bytes.
pub const KERNEL_SYMBOL_SIZE: usize = 12;

/// Size of `struct kernel_symbol` before Linux 5.4 in bytes.
pub const KERNEL_SYMBOL_5_3_SIZE: usize = 8;

/// Offset of `name_offset` inside both layouts.
pub const NAME_OFFSET_FIELD: usize = 4;

/// The `i32` stored little-endian at `at`.
pub open spec fn le_i32(mem: Seq<u8>, at: int) -> i32 {
    spec_u32_from_le_bytes(mem.subrange(at, at + 4)) as i32
}

fn read_i32(mem: &[u8], at: usize) -> (r: i32)
    requires
        at + 4 <= mem@.len(),
    ensures
        r == le_i32(mem@, at as int),
{
    assert(mem@.len() == mem.len());
    let bytes = &mem[at..at + 4];
    assert(bytes@ =~= mem@.subrange(at as int, at + 4));
    u32_from_le_bytes(bytes) as i32
}

/// The value and name offsets of the kernel symbol that starts at `at`.
pub fn cast_kernel_sym(mem: &[u8], at: usize) -> (r: kernel_symbol_5_3)
    requires
        at + KERNEL_SYMBOL_5_3_SIZE <= mem@.len(),
    ensures
        r.value_offset == le_i32(mem@, at as int),
        r.name_offset == le_i32(mem@, at + 4),
{
    assert(mem@.len() == mem.len());
    kernel_symbol_5_3 { value_offset: read_i32(mem, at), name_offset: read_i32(mem, at + 4) }
}

/// `x` lies in `range`.
pub open spec fn range_has(range: Range<usize>, x: usize) -> bool {
    range.start <= x < range.end
}

/// Whether a kernel symbol of `sym_size` bytes that ends at `ii` has a name
/// offset that points into `strings_range`, both counted from `ii` and
/// from the field itself.
pub open spec fn check_kernel_sym_spec(mem: Seq<u8>, strings_range: Range<usize>, sym_size: usize, ii: usize) -> Option<usize> {
    let off = le_i32(mem, ii - sym_size + 4);
    let name_idx = ii.wrapping_add(off as usize).wrapping_add(NAME_OFFSET_FIELD);
    if range_has(strings_range, name_idx) && ii > sym_size && range_has(strings_range, name_idx.wrapping_sub(sym_size)) {
        Some(sym_size)
    } else {
        None
    }
}

/// `Some(sym_size)` if the kernel symbol of `sym_size` bytes that ends at
/// `ii` looks like an entry of `__ksymtab`: its name offset, taken from `ii`
/// and from the field, points into `strings_range`.
pub fn check_kernel_sym(mem: &[u8], strings_range: &Range<usize>, sym_size: usize, ii: usize) -> (r: Option<usize>)
    requires
        KERNEL_SYMBOL_5_3_SIZE <= sym_size <= ii <= mem@.len(),
    ensures
        r == check_kernel_sym_spec(mem@, *strings_range, sym_size, ii),
{
    let sym = cast_kernel_sym(mem, ii - sym_size);
    let name_idx = ii.wrapping_add(sym.name_offset as usize).wrapping_add(NAME_OFFSET_FIELD);
    if strings_range.start <= name_idx && name_idx < strings_range.end && ii > sym_size {
        let name_idx_2 = name_idx.wrapping_sub(sym_size);
        if strings_range.start <= name_idx_2 && name_idx_2 < strings_range.end {
            return Some(sym_size);
        }
    }
    None
}

/// Where `__ksymtab` ends and the size of its entries, scanning down in
/// steps of four bytes from `ii`: the first position where a symbol of
/// the current layout, or else of the layout before Linux 5.4, fits.  The
/// scan stops when no symbol fits below the position any more.
pub open spec fn ksymtab_start_from(mem: Seq<u8>, strings_range: Range<usize>, ii: int) -> Option<(usize, usize)>
    decreases ii,
{
    if ii < KERNEL_SYMBOL_SIZE {
        None
    } else if check_kernel_sym_spec(mem, strings_range, KERNEL_SYMBOL_SIZE, ii as usize) is Some {
        Some((ii as usize, KERNEL_SYMBOL_SIZE))
    } else if check_kernel_sym_spec(mem, strings_range, KERNEL_SYMBOL_5_3_SIZE, ii as usize) is Some {
        Some((ii as usize, KERNEL_SYMBOL_5_3_SIZE))
    } else {
        ksymtab_start_from(mem, strings_range, ii - 4)
    }
}

/// A kernel symbol of `sym_size` bytes that ends at `k` looks like an entry
/// of `__ksymtab`.
pub open spec fn sym_fits(mem: Seq<u8>, strings_range: Range<usize>, sym_size: usize, k: int) -> bool {
    check_kernel_sym_spec(mem, strings_range, sym_size, k as usize) is Some
}

/// Where the scan from `top` down in steps of four bytes stops: at the
/// highest position `p` no higher than `ii` with `top - p` a multiple of
/// four where a symbol of the current layout fits, or else one of the
/// layout before Linux 5.4 (and that layout's size); no such position above
/// `p` has a symbol of either layout.  `None` if there is none from
/// `KERNEL_SYMBOL_SIZE` up.
pub open spec fn highest_symbol_end(
    mem: Seq<u8>,
    strings_range: Range<usize>,
    top: int,
    ii: int,
    r: Option<(usize, usize)>,
) -> bool {
    &&& r matches Some((p, size)) ==> {
        &&& KERNEL_SYMBOL_SIZE <= p <= ii
        &&& (top - p) % 4 == 0
        &&& size == KERNEL_SYMBOL_SIZE && sym_fits(mem, strings_range, KERNEL_SYMBOL_SIZE, p as int) || size
            == KERNEL_SYMBOL_5_3_SIZE && !sym_fits(mem, strings_range, KERNEL_SYMBOL_SIZE, p as int) && sym_fits(
            mem,
            strings_range,
            KERNEL_SYMBOL_5_3_SIZE,
            p as int,
        )
        &&& forall|k: int|
            p < k <= ii && (top - k) % 4 == 0 ==> !#[trigger] sym_fits(mem, strings_range, KERNEL_SYMBOL_SIZE, k)
                && !sym_fits(mem, strings_range, KERNEL_SYMBOL_5_3_SIZE, k)
    }
    &&& r is None ==> forall|k: int|
        KERNEL_SYMBOL_SIZE <= k <= ii && (top - k) % 4 == 0 ==> !#[trigger] sym_fits(
            mem,
            strings_range,
            KERNEL_SYMBOL_SIZE,
            k,
        ) && !sym_fits(mem, strings_range, KERNEL_SYMBOL_5_3_SIZE, k)
}

/// The scan for the end of `__ksymtab` tries every position four bytes
/// apart below the strings and stops at the highest one where a symbol
/// fits.
pub proof fn lemma_ksymtab_start_highest(mem: Seq<u8>, strings_range: Range<usize>, ii: int)
    requires
        ii <= strings_range.start,
        (strings_range.start - ii) % 4 == 0,
    ensures
        highest_symbol_end(mem, strings_range, strings_range.start as int, ii, ksymtab_start_from(mem, strings_range, ii)),
    decreases ii,
{
    let top = strings_range.start as int;
    if ii >= KERNEL_SYMBOL_SIZE && !sym_fits(mem, strings_range, KERNEL_SYMBOL_SIZE, ii) && !sym_fits(
        mem,
        strings_range,
        KERNEL_SYMBOL_5_3_SIZE,
        ii,
    ) {
        lemma_step_of_four(top, ii, ii);
        lemma_ksymtab_start_highest(mem, strings_range, ii - 4);
        assert forall|k: int|
            KERNEL_SYMBOL_SIZE <= k <= ii && (top - k) % 4 == 0 && #[trigger] sym_fits(
                mem,
                strings_range,
                KERNEL_SYMBOL_SIZE,
                k,
            ) implies k <= ii - 4 by {
            lemma_step_of_four(top, ii, k);
        }
        assert forall|k: int|
            KERNEL_SYMBOL_SIZE <= k <= ii && (top - k) % 4 == 0 && #[trigger] sym_fits(
                mem,
                strings_range,
                KERNEL_SYMBOL_5_3_SIZE,
                k,
            ) implies k <= ii - 4 by {
            lemma_step_of_four(top, ii, k);
        }
    }
}

/// Positions a multiple of four below `top` lie four bytes apart.
proof fn lemma_step_of_four(top: int, ii: int, k: int)
    requires
        (top - ii) % 4 == 0,
        (top - k) % 4 == 0,
    ensures
        (top - (ii - 4)) % 4 == 0,
        k < ii ==> k <= ii - 4,
{
    vstd::arithmetic::div_mod::lemma_fundamental_div_mod(top - ii, 4);
    vstd::arithmetic::div_mod::lemma_fundamental_div_mod(top - k, 4);
    let a = (top - ii) / 4;
    let b = (top - k) / 4;
    assert(top - (ii - 4) == (a + 1) * 4);
    vstd::arithmetic::div_mod::lemma_mod_multiples_basic(a + 1, 4);
    assert(k < ii ==> b >= a + 1) by (nonlinear_arith)
        requires top - ii == 4 * a, top - k == 4 * b;
}

/// Skips over `__kcrctab` if present and finds where `__ksymtab` ends, and
/// the size of its entries, by trying each four byte aligned position below
/// `strings_range.start`; see `ksymtab_start_from`.
pub fn get_ksymtab_start(mem: &[u8], strings_range: &Range<usize>) -> (r: Option<(usize, usize)>)
    requires
        strings_range.start <= mem@.len(),
    ensures
        r == ksymtab_start_from(mem@, *strings_range, strings_range.start as int),
        highest_symbol_end(mem@, *strings_range, strings_range.start as int, strings_range.start as int, r),
{
    proof {
        lemma_ksymtab_start_highest(mem@, *strings_range, strings_range.start as int);
    }
    // each entry in kcrctab is 4 bytes
    let step_size: usize = 4;
    let mut ii = strings_range.start;
    while ii >= KERNEL_SYMBOL_SIZE
        invariant
            step_size == 4,
            ii <= strings_range.start <= mem@.len(),
            highest_symbol_end(
                mem@,
                *strings_range,
                strings_range.start as int,
                strings_range.start as int,
                ksymtab_start_from(mem@, *strings_range, strings_range.start as int),
            ),
            ksymtab_start_from(mem@, *strings_range, ii as int) == ksymtab_start_from(
                mem@,
                *strings_range,
                strings_range.start as int,
            ),
        decreases ii,
    {
        if let Some(sym_size) = check_kernel_sym(mem, strings_range, KERNEL_SYMBOL_SIZE, ii) {
            return Some((ii, sym_size));
        }
        if let Some(sym_size) = check_kernel_sym(mem, strings_range, KERNEL_SYMBOL_5_3_SIZE, ii) {
            return Some((ii, sym_size));
        }
        ii -= step_size;
    }
    None
}

/// The address an offset of the kernel's symbol table points to: the
/// address of the offset field itself plus the signed offset.
pub open spec fn apply_offset_spec(addr: usize, offset: i32) -> usize {
    if offset < 0 {
        addr.wrapping_sub((-offset) as usize)
    } else {
        addr.wrapping_add(offset as usize)
    }
}

/// The address an offset of the kernel's symbol table points to:
/// `ptr = (unsigned long)&sym.offset + sym.offset`, where `addr` is the
/// address of the offset field.
pub fn apply_offset(addr: usize, offset: i32) -> (r: usize)
    ensures
        r == apply_offset_spec(addr, offset),
{
    if offset < 0 {
        let magnitude: i64 = -(offset as i64);
        addr.wrapping_sub(magnitude as usize)
    } else {
        addr.wrapping_add(offset as usize)
    }
}

/// `j` is the first zero byte at or after `i`.
pub open spec fn first_nul_from(mem: Seq<u8>, i: int, j: int) -> bool {
    &&& i <= j < mem.len()
    &&& mem[j] == 0
    &&& forall|k: int| i <= k < j ==> mem[k] != 0
}

/// The first zero byte at or after `i`.
pub open spec fn nul_after(mem: Seq<u8>, i: int) -> Option<int> {
    if exists|j: int| first_nul_from(mem, i, j) {
        Some(choose|j: int| first_nul_from(mem, i, j))
    } else {
        None
    }
}

fn find_nul(mem: &[u8], i: usize) -> (r: Option<usize>)
    requires
        i <= mem@.len(),
    ensures
        r matches Some(j) ==> nul_after(mem@, i as int) == Some(j as int),
        r is None ==> nul_after(mem@, i as int) is None,
{
    let mut j = i;
    while j < mem.len()
        invariant
            i <= j <= mem@.len(),
            mem@.len() == mem.len(),
            forall|k: int| i <= k < j ==> mem@[k] != 0,
        decreases mem@.len() - j,
    {
        if mem[j] == 0 {
            proof {
                let c = choose|c: int| first_nul_from(mem@, i as int, c);
                assert(first_nul_from(mem@, i as int, j as int));
                if c < j {
                    assert(mem@[c] != 0);
                } else if c > j {
                    assert(mem@[j as int] != 0);
                }
            }
            return Some(j);
        }
        j += 1;
    }
    None
}

/// The string that `bytes` encode in UTF-8, if they are valid UTF-8.
///
/// Trusted: calls `std::str::from_utf8` and copies the slice it returns.
/// Its documentation says that it succeeds exactly when the bytes are valid
/// UTF-8 and then returns them as a string slice; the contract says this
/// with vstd's `valid_utf8` and `decode_utf8`, which reject overlong
/// encodings, surrogates and code points above U+10FFFF as std does.
#[verifier::external_body]
fn utf8_to_string(bytes: &[u8]) -> (r: Option<String>)
    ensures
        r is Some <==> valid_utf8(bytes@),
        r matches Some(s) ==> s@ == decode_utf8(bytes@),
{
    match std::str::from_utf8(bytes) {
        Ok(s) => Some(s.to_owned()),
        Err(_) => None,
    }
}

/// The symbols of `__ksymtab` from the entry that ends at `ii` down, added
/// to `acc`: each entry's name is the zero terminated string its name
/// offset points to in `strings_range`, its value the address its value
/// offset gives relative to `base`, where `mem` is mapped.  The table ends
/// at the first entry whose name lies outside `strings_range`, or where no
/// entry fits below.
pub open spec fn symbols_from(
    mem: Seq<u8>,
    base: usize,
    strings_range: Range<usize>,
    sym_size: usize,
    ii: int,
    acc: Map<Seq<char>, usize>,
) -> Result<Map<Seq<char>, usize>, Error>
    decreases ii,
{
    if ii < sym_size || sym_size < KERNEL_SYMBOL_5_3_SIZE {
        Ok(acc)
    } else {
        let sym_start = (ii - sym_size) as usize;
        let name_idx = sym_start.wrapping_add(NAME_OFFSET_FIELD).wrapping_add(le_i32(mem, sym_start + 4) as usize);
        let value = apply_offset_spec(base.wrapping_add(sym_start), le_i32(mem, sym_start as int));
        if !range_has(strings_range, name_idx) {
            Ok(acc)
        } else {
            match nul_after(mem, name_idx as int) {
                None => Err(Error::UnterminatedSymbol),
                Some(end) => {
                    let bytes = mem.subrange(name_idx as int, end);
                    if !valid_utf8(bytes) {
                        Err(Error::InvalidSymbolName)
                    } else {
                        symbols_from(mem, base, strings_range, sym_size, ii - sym_size, acc.insert(decode_utf8(bytes), value))
                    }
                }
            }
        }
    }
}

/// The exported symbols of a kernel image `mem` mapped at `base`, whose
/// `__ksymtab_strings` is `strings_range`.
pub open spec fn kernel_symbols_spec(mem: Seq<u8>, base: usize, strings_range: Range<usize>) -> Result<Map<Seq<char>, usize>, Error> {
    match ksymtab_start_from(mem, strings_range, strings_range.start as int) {
        None => Err(Error::NoKsymtab),
        Some((start, sym_size)) => symbols_from(mem, base, strings_range, sym_size, start as int, Map::empty()),
    }
}

/// Reads the exported symbols from the kernel image `mem`, mapped at
/// virtual address `mem_base`, whose `__ksymtab_strings` section is
/// `ksymtab_strings`: finds the end of `__ksymtab` below it and reads the
/// table downwards.  Fails with `NoKsymtab` if no table is found, with
/// `UnterminatedSymbol` if a name does not end inside the image and with
/// `InvalidSymbolName` if a name is not valid UTF-8.
pub fn get_kernel_symbols(mem: &[u8], mem_base: usize, ksymtab_strings: Range<usize>) -> (r: Result<StringHashMap<usize>, Error>)
    requires
        ksymtab_strings.start <= mem@.len(),
        ksymtab_strings.end <= mem@.len(),
    ensures
        match kernel_symbols_spec(mem@, mem_base, ksymtab_strings) {
            Ok(m) => r is Ok && r.unwrap()@ == m,
            Err(e) => r is Err && r->Err_0 == e,
        },
{
    let (start, sym_size) = match get_ksymtab_start(mem, &ksymtab_strings) {
        Some(x) => x,
        None => return Err(Error::NoKsymtab),
    };
    proof {
        lemma_ksymtab_start_bounds(mem@, ksymtab_strings, ksymtab_strings.start as int);
    }
    let ghost total = kernel_symbols_spec(mem@, mem_base, ksymtab_strings);
    let mut syms: StringHashMap<usize> = StringHashMap::new();
    let mut ii = start;
    while ii >= sym_size
        invariant
            KERNEL_SYMBOL_5_3_SIZE <= sym_size,
            ii <= ksymtab_strings.start <= mem@.len(),
            ksymtab_strings.end <= mem@.len(),
            mem@.len() == mem.len(),
            total == kernel_symbols_spec(mem@, mem_base, ksymtab_strings),
            symbols_from(mem@, mem_base, ksymtab_strings, sym_size, ii as int, syms@) == total,
        decreases ii,
    {
        let sym_start = ii - sym_size;
        let sym = cast_kernel_sym(mem, sym_start);
        let name_idx = sym_start.wrapping_add(NAME_OFFSET_FIELD).wrapping_add(sym.name_offset as usize);
        let value_ptr = apply_offset(mem_base.wrapping_add(sym_start), sym.value_offset);
        if !(ksymtab_strings.start <= name_idx && name_idx < ksymtab_strings.end) {
            return Ok(syms);
        }
        let end = match find_nul(mem, name_idx) {
            Some(e) => e,
            None => return Err(Error::UnterminatedSymbol),
        };
        let bytes = &mem[name_idx..end];
        assert(bytes@ =~= mem@.subrange(name_idx as int, end as int));
        let name = match utf8_to_string(bytes) {
            Some(n) => n,
            None => return Err(Error::InvalidSymbolName),
        };
        syms.insert(name, value_ptr);
        ii = sym_start;
    }
    Ok(syms)
}

proof fn lemma_ksymtab_start_bounds(mem: Seq<u8>, strings_range: Range<usize>, ii: int)
    ensures
        ksymtab_start_from(mem, strings_range, ii) matches Some((start, sym_size)) ==> {
            &&& start <= ii
            &&& KERNEL_SYMBOL_5_3_SIZE <= sym_size
        },
    decreases ii,
{
    if ii >= KERNEL_SYMBOL_SIZE {
        lemma_ksymtab_start_bounds(mem, strings_range, ii - 4);
    }
}

/// The exported symbols of a kernel image `mem` mapped at `base`, if its
/// `__ksymtab_strings` section can be found.
pub open spec fn kernel_symbols_in_spec(mem: Seq<u8>, base: usize) -> Option<Result<Map<Seq<char>, usize>, Error>> {
    match ksymtab_strings_spec(mem) {
        None => None,
        Some(range) => Some(kernel_symbols_spec(mem, base, range)),
    }
}

/// The exported symbols of the kernel image `mem`, mapped at virtual
/// address `base`: `None` if it holds no `__ksymtab_strings` section, else
/// what `get_kernel_symbols` reads from it.
pub fn kernel_symbols_in(mem: &[u8], base: usize) -> (r: Option<Result<StringHashMap<usize>, Error>>)
    ensures
        match kernel_symbols_in_spec(mem@, base) {
            None => r is None,
            Some(Ok(m)) => r is Some && r.unwrap() is Ok && r.unwrap().unwrap()@ == m,
            Some(Err(e)) => r is Some && r.unwrap() is Err && r.unwrap()->Err_0 == e,
        },
{
    let strings_range = match find_ksymtab_strings_section(mem) {
        Some(range) => range,
        None => return None,
    };
    proof {
        let t = choose|t: (int, int, int)| strings_section_at(mem@, t.0, t.1, t.2);
        assert(matches_at(mem@, init_task_bytes(), t.0));
    }
    Some(get_kernel_symbols(mem, base, strings_range))
}

proof fn lemma_symbols_from_not_user_mode(
    mem: Seq<u8>,
    base: usize,
    strings_range: Range<usize>,
    sym_size: usize,
    ii: int,
    acc: Map<Seq<char>, usize>,
)
    ensures
        symbols_from(mem, base, strings_range, sym_size, ii, acc) != Err::<Map<Seq<char>, usize>, Error>(Error::UserMode),
    decreases ii,
{
    if !(ii < sym_size || sym_size < KERNEL_SYMBOL_5_3_SIZE) {
        let sym_start = (ii - sym_size) as usize;
        let name_idx = sym_start.wrapping_add(NAME_OFFSET_FIELD).wrapping_add(le_i32(mem, sym_start + 4) as usize);
        let value = apply_offset_spec(base.wrapping_add(sym_start), le_i32(mem, sym_start as int));
        match nul_after(mem, name_idx as int) {
            None => {},
            Some(end) => {
                let bytes = mem.subrange(name_idx as int, end);
                lemma_symbols_from_not_user_mode(mem, base, strings_range, sym_size, ii - sym_size, acc.insert(decode_utf8(bytes), value));
            },
        }
    }
}

proof fn lemma_symbols_not_user_mode(mem: Seq<u8>, base: usize)
    ensures
        kernel_symbols_in_spec(mem, base) != Some(Err::<Map<Seq<char>, usize>, Error>(Error::UserMode)),
{
    if let Some(range) = ksymtab_strings_spec(mem) {
        if let Some((start, sym_size)) = ksymtab_start_from(mem, range, range.start as int) {
            lemma_symbols_from_not_user_mode(mem, base, range, sym_size, start as int, Map::empty());
        }
    }
}

/// First virtual address of the range where Linux places its kernel on
/// x86-64 with KASLR.
pub const LINUX_KERNEL_KASLR_RANGE_START: u64 = 0xFFFFFFFF80000000;

/// End of the range where Linux places its kernel on x86-64 with KASLR.
pub const LINUX_KERNEL_KASLR_RANGE_END: u64 = 0xFFFFFFFFC0000000;

/// The range of virtual addresses where Linux places its kernel on x86-64
/// with KASLR.
pub fn linux_kernel_kaslr_range() -> (r: Range<usize>)
    ensures
        r.start == LINUX_KERNEL_KASLR_RANGE_START as usize,
        r.end == LINUX_KERNEL_KASLR_RANGE_END as usize,
{
    (LINUX_KERNEL_KASLR_RANGE_START as usize)..(LINUX_KERNEL_KASLR_RANGE_END as usize)
}

/// The kernel found in the guest: its virtual address range, its memory
/// sections and its exported symbols.
pub struct Kernel {
    pub range: Range<usize>,
    pub memory_sections: Vec<MappedMemory>,
    pub symbols: StringHashMap<usize>,
}

impl Kernel {
    /// Free virtual address space below the kernel, inside the KASLR range.
    pub fn space_before(&self) -> (r: usize)
        requires
            self.range.start >= LINUX_KERNEL_KASLR_RANGE_START as usize,
        ensures
            r == self.range.start - LINUX_KERNEL_KASLR_RANGE_START as usize,
    {
        self.range.start - LINUX_KERNEL_KASLR_RANGE_START as usize
    }

    /// Free virtual address space above the kernel, inside the KASLR range.
    pub fn space_after(&self) -> (r: usize)
        requires
            self.range.end <= LINUX_KERNEL_KASLR_RANGE_END as usize,
        ensures
            r == LINUX_KERNEL_KASLR_RANGE_END as usize - self.range.end,
    {
        LINUX_KERNEL_KASLR_RANGE_END as usize - self.range.end
    }
}

/// The virtual range of the kernel with `sections`: from the start of the
/// first to the end of the last; `None` if that end leaves the address
/// space.
pub open spec fn kernel_range_spec(sections: Seq<MappedMemory>) -> Option<(usize, usize)> {
    let last = sections.last();
    if last.virt_start + last.len > usize::MAX {
        None
    } else {
        Some((sections[0].virt_start, (last.virt_start + last.len) as usize))
    }
}

/// The virtual range of the kernel with `sections`; fails with
/// `OutOfAddressSpace` if the last section ends past the address space.
pub fn kernel_range(sections: &Vec<MappedMemory>) -> (r: Result<Range<usize>, Error>)
    requires
        sections@.len() > 0,
    ensures
        match kernel_range_spec(sections@) {
            None => r == Err::<Range<usize>, Error>(Error::OutOfAddressSpace),
            Some((start, end)) => r matches Ok(range) && range.start == start && range.end == end,
        },
{
    let n = sections.len();
    let last = sections[n - 1];
    match last.virt_start.checked_add(last.len) {
        Some(end) => Ok(sections[0].virt_start..end),
        None => Err(Error::OutOfAddressSpace),
    }
}

/// The first read-only section of `sections` from index `from` on.
pub open spec fn next_read_only_spec(sections: Seq<MappedMemory>, from: int) -> Option<int>
    decreases sections.len() - from,
{
    if from < 0 || from >= sections.len() {
        None
    } else if sections[from].prot.bits == PROT_READ_BIT {
        Some(from)
    } else {
        next_read_only_spec(sections, from + 1)
    }
}

/// The first read-only section of `sections` from index `from` on: where
/// the kernel's symbols are looked for next.
pub fn next_read_only(sections: &Vec<MappedMemory>, from: usize) -> (r: Option<usize>)
    ensures
        match next_read_only_spec(sections@, from as int) {
            None => r is None,
            Some(i) => r matches Some(k) && k == i,
        },
        r matches Some(k) ==> from <= k < sections@.len() && sections@[k as int].prot.bits == PROT_READ_BIT,
        r matches Some(k) ==> forall|j: int| from <= j < k ==> #[trigger] sections@[j].prot.bits != PROT_READ_BIT,
        r is None ==> forall|j: int| from <= j < sections@.len() ==> #[trigger] sections@[j].prot.bits != PROT_READ_BIT,
    decreases sections@.len() - from,
{
    if from >= sections.len() {
        return None;
    }
    if sections[from].prot.bits == PROT_READ_BIT {
        return Some(from);
    }
    next_read_only(sections, from + 1)
}

/// The host address of section `s` in the hypervisor; fails with
/// `InvalidAddress` if it lies outside the address space.
pub fn section_host_addr(s: &MappedMemory) -> (r: Result<usize, Error>)
    ensures
        !(0 <= s.phys_start.host_addr_spec() <= usize::MAX) <==> r == Err::<usize, Error>(Error::InvalidAddress),
        r is Err ==> r == Err::<usize, Error>(Error::InvalidAddress),
        r matches Ok(h) ==> h == s.phys_start.host_addr_spec(),
{
    let host: i128 = s.phys_start.value as i128 + s.phys_start.host_offset as i128;
    if host < 0 || host > usize::MAX as i128 {
        return Err(Error::InvalidAddress);
    }
    Ok(s.phys_start.host_addr())
}

/// Whether a read that was to give `expected` bytes and gave `count` is
/// complete: anything else is a short read.
pub fn check_read(count: usize, expected: usize) -> (r: Result<(), Error>)
    ensures
        r == (if count == expected { Ok::<(), Error>(()) } else { Err::<(), Error>(Error::ShortRead) }),
{
    if count != expected {
        return Err(Error::ShortRead);
    }
    Ok(())
}

/// Section `s` may hold no symbols: some contents of its length give none.
pub open spec fn may_hold_no_symbols(s: MappedMemory) -> bool {
    exists|mem: Seq<u8>| mem.len() == s.len && #[trigger] kernel_symbols_in_spec(mem, s.virt_start) is None
}

/// Section `s` may hold the symbols `syms`: some contents of its length
/// give them.
pub open spec fn may_hold_symbols(s: MappedMemory, syms: Map<Seq<char>, usize>) -> bool {
    exists|mem: Seq<u8>|
        mem.len() == s.len && #[trigger] kernel_symbols_in_spec(mem, s.virt_start) == Some(
            Ok::<Map<Seq<char>, usize>, Error>(syms),
        )
}

/// Finds the kernel in the guest: its sections in the KASLR range of the
/// page table (as `find_kernel_sections` finds them), the range from the
/// first to the last, and its exported symbols from the first read-only
/// section whose contents hold them, read from the memory of the hypervisor
/// process `pid`.  Fails as `find_kernel_sections` does, with
/// `OutOfAddressSpace` if the last section ends past the address space, with
/// `InvalidAddress`, `RemoteRead` or `ShortRead` if a section cannot be
/// read, as `get_kernel_symbols` does, and with `NoSymbolSection` if no
/// read-only section holds the symbols.
pub fn find_kernel(guest_mem: &GuestMem, pid: i32) -> (r: Result<Kernel, Error>)
    requires
        guest_mem.wf(),
    ensures
        (guest_mem.regs_spec().cs & 3 == 3) <==> r is Err && r->Err_0 == Error::UserMode,
        r matches Ok(k) ==> {
            let secs = k.memory_sections@;
            &&& exists|ps: usize, es: Seq<PageTableIteratorValue>|
                ps >= 1 && #[trigger] kernel_sections_spec(
                    ps,
                    guest_mem.maps_spec(),
                    es,
                    LINUX_KERNEL_KASLR_RANGE_START as usize,
                    LINUX_KERNEL_KASLR_RANGE_END as usize,
                ) == Ok::<Seq<MappedMemory>, Error>(secs)
            &&& secs.len() > 0
            &&& kernel_range_spec(secs) == Some((k.range.start, k.range.end))
            &&& exists|i: int|
                0 <= i < secs.len() && secs[i].prot.bits == PROT_READ_BIT && #[trigger] may_hold_symbols(secs[i], k.symbols@)
                    && forall|j: int| 0 <= j < i && secs[j].prot.bits == PROT_READ_BIT ==> #[trigger] may_hold_no_symbols(secs[j])
        },
{
    let memory_sections = match guest_mem.find_kernel_sections(pid, linux_kernel_kaslr_range()) {
        Ok(v) => v,
        Err(e) => return Err(e),
    };
    let range = match kernel_range(&memory_sections) {
        Ok(r) => r,
        Err(e) => return Err(e),
    };
    let mut from: usize = 0;
    while from < memory_sections.len()
        invariant
            memory_sections@.len() > 0,
            guest_mem.regs_spec().cs & 3 != 3,
            exists|ps: usize, es: Seq<PageTableIteratorValue>|
                ps >= 1 && #[trigger] kernel_sections_spec(
                    ps,
                    guest_mem.maps_spec(),
                    es,
                    LINUX_KERNEL_KASLR_RANGE_START as usize,
                    LINUX_KERNEL_KASLR_RANGE_END as usize,
                ) == Ok::<Seq<MappedMemory>, Error>(memory_sections@),
            kernel_range_spec(memory_sections@) == Some((range.start, range.end)),
            forall|j: int|
                0 <= j < from && memory_sections@[j].prot.bits == PROT_READ_BIT ==> #[trigger] may_hold_no_symbols(
                    memory_sections@[j],
                ),
        decreases memory_sections@.len() - from,
    {
        let i = match next_read_only(&memory_sections, from) {
            Some(i) => i,
            None => break,
        };
        let s = memory_sections[i];
        let host = match section_host_addr(&s) {
            Ok(h) => h,
            Err(e) => return Err(e),
        };
        let (mem, count) = match process_read_bytes(pid, host, s.len) {
            Ok(x) => x,
            Err(_) => return Err(Error::RemoteRead),
        };
        match check_read(count, s.len) {
            Ok(()) => {},
            Err(e) => return Err(e),
        }
        match kernel_symbols_in(mem.as_slice(), s.virt_start) {
            None => {
                proof {
                    assert(may_hold_no_symbols(memory_sections@[i as int]));
                    assert forall|j: int|
                        0 <= j < i + 1 && memory_sections@[j].prot.bits == PROT_READ_BIT implies #[trigger] may_hold_no_symbols(
                            memory_sections@[j],
                        ) by {
                        if j < from {
                        } else if j < i {
                            assert(memory_sections@[j].prot.bits != PROT_READ_BIT);
                        }
                    }
                }
            },
            Some(Err(e)) => {
                proof {
                    lemma_symbols_not_user_mode(mem@, s.virt_start);
                }
                return Err(e);
            },
            Some(Ok(symbols)) => {
                proof {
                    assert(may_hold_symbols(memory_sections@[i as int], symbols@));
                    assert forall|j: int|
                        0 <= j < i && memory_sections@[j].prot.bits == PROT_READ_BIT implies #[trigger] may_hold_no_symbols(
                            memory_sections@[j],
                        ) by {
                        if j >= from {
                            assert(memory_sections@[j].prot.bits != PROT_READ_BIT);
                        }
                    }
                }
                let k = Kernel { range, memory_sections, symbols };
                proof {
                    let ii = i as int;
                    let secs = k.memory_sections@;
                    assert(0 <= ii < secs.len() && secs[ii].prot.bits == PROT_READ_BIT && may_hold_symbols(
                        secs[ii],
                        k.symbols@,
                    ) && forall|j: int|
                        0 <= j < ii && secs[j].prot.bits == PROT_READ_BIT ==> #[trigger] may_hold_no_symbols(secs[j]));
                }
                return Ok(k);
            },
        }
        from = i + 1;
    }
    Err(Error::NoSymbolSection)
}

} // verus!

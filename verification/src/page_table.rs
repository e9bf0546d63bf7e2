//! `x86_64` 4-level page-table index arithmetic (pure logic, no hardware).
//!
//! A 64-bit virtual address is split into five fields when 4-level (48-bit)
//! paging is active. From most-significant to least-significant:
//!
//! ```text
//! bits 63..48  sign extension of bit 47 (canonical form; not a table index)
//! bits 47..39  PML4 index  (9 bits, range 0..512)
//! bits 38..30  PDPT index  (9 bits, range 0..512)
//! bits 29..21  PD index    (9 bits, range 0..512)
//! bits 20..12  PT index    (9 bits, range 0..512)
//! bits 11..0   page offset (12 bits, range 0..4096)
//! ```
//!
//! The model reads the fields as digits of the address, by division and
//! remainder. Splitting a canonical address and putting it together again is the
//! identity ([`roundtrip_for_canonical_addresses`]).
use vstd::prelude::*;

verus! {

/// Number of entries in each page-table level (2^9).
pub const TABLE_ENTRIES: usize = 512;

/// Size of a 4 KiB base page in bytes (2^12).
pub const PAGE_SIZE: u64 = 4096;

/// Bit-width of the page offset field.
pub const OFFSET_BITS: u64 = 12;

/// Bit-width of each table-index field.
pub const INDEX_BITS: u64 = 9;

/// Mask selecting a single table index.
pub const INDEX_MASK: u64 = 0x1FF;

/// The first address of the lower half's end: bit 47 alone.
pub const LOWER_HALF_END: u64 = 0x0000_8000_0000_0000;

/// The first address of the higher half.
pub const HIGHER_HALF_START: u64 = 0xFFFF_8000_0000_0000;

/// The bits above the 48 that are translated.
pub const SIGN_BITS: u64 = 0xFFFF_0000_0000_0000;

/// The four levels of a 4-level page table hierarchy, from the walk entry point
/// (`L4`) down to the leaf (`L1`).
#[derive(Debug, Clone, Copy, PartialEq, Eq, Structural)]
pub enum PageTableLevel {
    /// Level 4: `PML4` (page-map level 4), bits 47..39 of the virtual address.
    L4,
    /// Level 3: `PDPT` (page-directory-pointer table), bits 38..30.
    L3,
    /// Level 2: `PD` (page directory), bits 29..21.
    L2,
    /// Level 1: `PT` (page table), bits 20..12.
    L1,
}

/// `vaddr` lies in the lower or the higher half: its upper 17 bits are equal.
pub open spec fn canonical(vaddr: u64) -> bool {
    vaddr < LOWER_HALF_END || vaddr >= HIGHER_HALF_START
}

/// The index of `vaddr` in the table at `level`: which of the 512 equal parts of
/// the range that the table translates it lies in.
pub open spec fn index_at(vaddr: u64, level: PageTableLevel) -> usize {
    match level {
        PageTableLevel::L4 => (vaddr / 0x80_0000_0000 % 512) as usize,
        PageTableLevel::L3 => (vaddr / 0x4000_0000 % 512) as usize,
        PageTableLevel::L2 => (vaddr / 0x20_0000 % 512) as usize,
        PageTableLevel::L1 => (vaddr / 0x1000 % 512) as usize,
    }
}

/// The four indices of `vaddr`, in walk order.
pub open spec fn indices_of(vaddr: u64) -> Seq<usize> {
    seq![
        index_at(vaddr, PageTableLevel::L4),
        index_at(vaddr, PageTableLevel::L3),
        index_at(vaddr, PageTableLevel::L2),
        index_at(vaddr, PageTableLevel::L1),
    ]
}

/// The 48-bit number that four indices and an offset are the digits of, each
/// reduced to its range.
pub open spec fn assembled(idx: Seq<usize>, offset: u64) -> u64 {
    ((idx[0] % 512) * 0x80_0000_0000 + (idx[1] % 512) * 0x4000_0000 + (idx[2] % 512) * 0x20_0000 + (
    idx[3] % 512) * 0x1000 + offset % 4096) as u64
}

/// The canonical address whose translated bits are `raw`, a 48-bit number.
pub open spec fn sign_extended(raw: u64) -> u64 {
    if raw < LOWER_HALF_END {
        raw
    } else {
        (raw + SIGN_BITS) as u64
    }
}

proof fn lemma_fields(v: u64)
    ensures
        v & 0xFFF == v % 4096,
        (v >> 12) & 0x1FF == (v / 0x1000) % 512,
        (v >> 21) & 0x1FF == (v / 0x20_0000) % 512,
        (v >> 30) & 0x1FF == (v / 0x4000_0000) % 512,
        (v >> 39) & 0x1FF == (v / 0x80_0000_0000) % 512,
        v & 0x1FF == v % 512,
{
    assert({
        &&& v & 0xFFF == v % 4096
        &&& (v >> 12) & 0x1FF == (v / 0x1000) % 512
        &&& (v >> 21) & 0x1FF == (v / 0x20_0000) % 512
        &&& (v >> 30) & 0x1FF == (v / 0x4000_0000) % 512
        &&& (v >> 39) & 0x1FF == (v / 0x80_0000_0000) % 512
        &&& v & 0x1FF == v % 512
    }) by (bit_vector);
}

proof fn lemma_assemble(a: u64, b: u64, c: u64, d: u64, o: u64)
    requires
        a < 512,
        b < 512,
        c < 512,
        d < 512,
        o < 4096,
    ensures
        ((a << 39) | (b << 30) | (c << 21) | (d << 12) | o) == a * 0x80_0000_0000 + b * 0x4000_0000
            + c * 0x20_0000 + d * 0x1000 + o,
        ((a << 39) | (b << 30) | (c << 21) | (d << 12) | o) < 0x1_0000_0000_0000,
{
    assert(((a << 39) | (b << 30) | (c << 21) | (d << 12) | o) == a * 0x80_0000_0000 + b
        * 0x4000_0000 + c * 0x20_0000 + d * 0x1000 + o && ((a << 39) | (b << 30) | (c << 21) | (d
        << 12) | o) < 0x1_0000_0000_0000) by (bit_vector)
        requires
            a < 512,
            b < 512,
            c < 512,
            d < 512,
            o < 4096,
    ;
}

/// Returns `true` if `vaddr` is a canonical `x86_64` virtual address: bits 63..48
/// are all copies of bit 47.
#[inline]
#[must_use]
pub fn is_canonical(vaddr: u64) -> (b: bool)
    ensures
        b == canonical(vaddr),
        b <==> vaddr / 0x8000_0000_0000 == 0 || vaddr / 0x8000_0000_0000 == 0x1_FFFF,
{
    vaddr < LOWER_HALF_END || vaddr >= HIGHER_HALF_START
}

/// Returns the 12-bit page offset of `vaddr` (always in `0..4096`).
#[inline]
#[must_use]
pub fn page_offset(vaddr: u64) -> (offset: u64)
    ensures
        offset == vaddr % 4096,
        offset < PAGE_SIZE,
{
    proof {
        lemma_fields(vaddr);
    }
    vaddr & (PAGE_SIZE - 1)
}

/// Returns the 9-bit `PT` (level-1) index of `vaddr` (always in `0..512`).
#[inline]
#[must_use]
pub fn pt_index(vaddr: u64) -> (i: usize)
    ensures
        i == index_at(vaddr, PageTableLevel::L1),
        i == (vaddr / 0x1000) % 512,
        i < TABLE_ENTRIES,
{
    proof {
        lemma_fields(vaddr);
    }
    ((vaddr >> OFFSET_BITS) & INDEX_MASK) as usize
}

/// Returns the 9-bit `PD` (level-2) index of `vaddr` (always in `0..512`).
#[inline]
#[must_use]
pub fn pd_index(vaddr: u64) -> (i: usize)
    ensures
        i == index_at(vaddr, PageTableLevel::L2),
        i == (vaddr / 0x20_0000) % 512,
        i < TABLE_ENTRIES,
{
    proof {
        lemma_fields(vaddr);
    }
    ((vaddr >> (OFFSET_BITS + INDEX_BITS)) & INDEX_MASK) as usize
}

/// Returns the 9-bit `PDPT` (level-3) index of `vaddr` (always in `0..512`).
#[inline]
#[must_use]
pub fn pdpt_index(vaddr: u64) -> (i: usize)
    ensures
        i == index_at(vaddr, PageTableLevel::L3),
        i == (vaddr / 0x4000_0000) % 512,
        i < TABLE_ENTRIES,
{
    proof {
        lemma_fields(vaddr);
    }
    ((vaddr >> (OFFSET_BITS + 2 * INDEX_BITS)) & INDEX_MASK) as usize
}

/// Returns the 9-bit `PML4` (level-4) index of `vaddr` (always in `0..512`).
#[inline]
#[must_use]
pub fn pml4_index(vaddr: u64) -> (i: usize)
    ensures
        i == index_at(vaddr, PageTableLevel::L4),
        i == (vaddr / 0x80_0000_0000) % 512,
        i < TABLE_ENTRIES,
{
    proof {
        lemma_fields(vaddr);
    }
    ((vaddr >> (OFFSET_BITS + 3 * INDEX_BITS)) & INDEX_MASK) as usize
}

/// Returns the table index for `vaddr` at the given `level` (always in `0..512`).
#[inline]
#[must_use]
pub fn table_index(vaddr: u64, level: PageTableLevel) -> (i: usize)
    ensures
        i == index_at(vaddr, level),
        level is L4 ==> i == (vaddr / 0x80_0000_0000) % 512,
        level is L3 ==> i == (vaddr / 0x4000_0000) % 512,
        level is L2 ==> i == (vaddr / 0x20_0000) % 512,
        level is L1 ==> i == (vaddr / 0x1000) % 512,
        i < TABLE_ENTRIES,
{
    match level {
        PageTableLevel::L4 => pml4_index(vaddr),
        PageTableLevel::L3 => pdpt_index(vaddr),
        PageTableLevel::L2 => pd_index(vaddr),
        PageTableLevel::L1 => pt_index(vaddr),
    }
}

/// Returns all four table indices for `vaddr` as `[pml4, pdpt, pd, pt]`, in the
/// order of the hardware walk.
#[inline]
#[must_use]
pub fn indices(vaddr: u64) -> (idx: [usize; 4])
    ensures
        idx@ == indices_of(vaddr),
        idx[0] == (vaddr / 0x80_0000_0000) % 512,
        idx[1] == (vaddr / 0x4000_0000) % 512,
        idx[2] == (vaddr / 0x20_0000) % 512,
        idx[3] == (vaddr / 0x1000) % 512,
{
    let idx = [pml4_index(vaddr), pdpt_index(vaddr), pd_index(vaddr), pt_index(vaddr)];
    assert(idx@ =~= indices_of(vaddr));
    idx
}

/// Reconstructs a canonical virtual address from four table indices
/// `[pml4, pdpt, pd, pt]` and a page offset.
///
/// Bits of an index or of the offset that are out of range are masked off, and
/// the result is sign-extended.
#[inline]
#[must_use]
pub fn from_parts(idx: [usize; 4], offset: u64) -> (vaddr: u64)
    ensures
        vaddr == sign_extended(assembled(idx@, offset)),
        canonical(vaddr),
        vaddr % 0x1_0000_0000_0000 == (idx[0] % 512) * 0x80_0000_0000 + (idx[1] % 512)
            * 0x4000_0000 + (idx[2] % 512) * 0x20_0000 + (idx[3] % 512) * 0x1000 + offset % 4096,
        vaddr / 0x8000_0000_0000 == 0 || vaddr / 0x8000_0000_0000 == 0x1_FFFF,
{
    let a: u64 = idx[0] as u64 & INDEX_MASK;
    let b: u64 = idx[1] as u64 & INDEX_MASK;
    let c: u64 = idx[2] as u64 & INDEX_MASK;
    let d: u64 = idx[3] as u64 & INDEX_MASK;
    let o: u64 = offset & (PAGE_SIZE - 1);
    proof {
        lemma_fields(idx[0] as u64);
        lemma_fields(idx[1] as u64);
        lemma_fields(idx[2] as u64);
        lemma_fields(idx[3] as u64);
        lemma_fields(offset);
        lemma_assemble(a, b, c, d, o);
    }
    let raw: u64 = (a << (OFFSET_BITS + 3 * INDEX_BITS)) | (b << (OFFSET_BITS + 2 * INDEX_BITS)) | (c
        << (OFFSET_BITS + INDEX_BITS)) | (d << OFFSET_BITS) | o;
    assert(raw == assembled(idx@, offset));
    // copy bit 47 into the upper 16 bits.
    if raw < LOWER_HALF_END {
        raw
    } else {
        assert(raw | 0xFFFF_0000_0000_0000 == raw + 0xFFFF_0000_0000_0000) by (bit_vector)
            requires
                raw < 0x1_0000_0000_0000,
        ;
        raw | SIGN_BITS
    }
}

/// For any canonical address, putting its indices and its offset together again
/// yields the address.
pub proof fn roundtrip_for_canonical_addresses(vaddr: u64)
    requires
        canonical(vaddr),
    ensures
        sign_extended(assembled(indices_of(vaddr), (vaddr % 4096) as u64)) == vaddr,
{
    lemma_digits(vaddr);
    lemma_low_bits_determine(vaddr, assembled(indices_of(vaddr), (vaddr % 4096) as u64));
}

/// An address is canonical exactly if its seventeen upper bits are all equal, which is to
/// say that its low 48 bits, with the uppermost of them copied upwards, are the address.
pub proof fn canonical_addresses_are_sign_extended(vaddr: u64)
    ensures
        canonical(vaddr) <==> vaddr / 0x8000_0000_0000 == 0 || vaddr / 0x8000_0000_0000
            == 0x1_FFFF,
        canonical(vaddr) <==> sign_extended((vaddr % 0x1_0000_0000_0000) as u64) == vaddr,
        canonical(sign_extended((vaddr % 0x1_0000_0000_0000) as u64)),
        sign_extended((vaddr % 0x1_0000_0000_0000) as u64) % 0x1_0000_0000_0000 == vaddr
            % 0x1_0000_0000_0000,
{
}

/// The fields of an address, each times its weight, add up to the low 48 bits of it, and no
/// field exceeds its width: they are the digits of the address. So an address is put
/// together from its own fields exactly if it is canonical.
pub proof fn fields_add_up_to_the_address(vaddr: u64)
    ensures
        index_at(vaddr, PageTableLevel::L4) * 0x80_0000_0000 + index_at(vaddr, PageTableLevel::L3)
            * 0x4000_0000 + index_at(vaddr, PageTableLevel::L2) * 0x20_0000 + index_at(
            vaddr,
            PageTableLevel::L1,
        ) * 0x1000 + vaddr % 4096 == vaddr % 0x1_0000_0000_0000,
        forall|level: PageTableLevel| #[trigger] index_at(vaddr, level) < 512,
        indices_of(vaddr).len() == 4,
        indices_of(vaddr)[0] == index_at(vaddr, PageTableLevel::L4),
        indices_of(vaddr)[1] == index_at(vaddr, PageTableLevel::L3),
        indices_of(vaddr)[2] == index_at(vaddr, PageTableLevel::L2),
        indices_of(vaddr)[3] == index_at(vaddr, PageTableLevel::L1),
        sign_extended(assembled(indices_of(vaddr), (vaddr % 4096) as u64)) == vaddr <==> canonical(
            vaddr,
        ),
{
    lemma_digits(vaddr);
    canonical_addresses_are_sign_extended(vaddr);
}

/// A canonical address is the sign extension of its low 48 bits.
proof fn lemma_low_bits_determine(v: u64, raw: u64)
    requires
        canonical(v),
        raw == v % 0x1_0000_0000_0000,
    ensures
        sign_extended(raw) == v,
{
}

/// The digits of an address make up its low 48 bits.
proof fn lemma_digits(v: u64)
    ensures
        assembled(indices_of(v), (v % 4096) as u64) == v % 0x1_0000_0000_0000,
{
    assert(((v / 0x80_0000_0000) % 512) * 0x80_0000_0000 + ((v / 0x4000_0000) % 512) * 0x4000_0000
        + ((v / 0x20_0000) % 512) * 0x20_0000 + ((v / 0x1000) % 512) * 0x1000 + v % 4096 == v
        % 0x1_0000_0000_0000) by (bit_vector);
}

/// Splitting a reconstructed address gives back the parts, reduced to their
/// ranges.
pub proof fn parts_survive_reconstruction(idx: Seq<usize>, offset: u64)
    requires
        idx.len() == 4,
    ensures
        canonical(sign_extended(assembled(idx, offset))),
        indices_of(sign_extended(assembled(idx, offset))) == idx.map_values(
            |i: usize| (i % 512) as usize,
        ),
        sign_extended(assembled(idx, offset)) % 4096 == offset % 4096,
{
    let a: u64 = (idx[0] % 512) as u64;
    let b: u64 = (idx[1] % 512) as u64;
    let c: u64 = (idx[2] % 512) as u64;
    let d: u64 = (idx[3] % 512) as u64;
    let o: u64 = (offset % 4096) as u64;
    let raw: u64 = (a << 39) | (b << 30) | (c << 21) | (d << 12) | o;
    let v = sign_extended(raw);
    lemma_assemble(a, b, c, d, o);
    assert(raw == assembled(idx, offset));
    lemma_fields(v);
    assert({
        let high = raw + 0xFFFF_0000_0000_0000;
        &&& (raw / 0x80_0000_0000) % 512 == a && (high / 0x80_0000_0000) % 512 == a
        &&& (raw / 0x4000_0000) % 512 == b && (high / 0x4000_0000) % 512 == b
        &&& (raw / 0x20_0000) % 512 == c && (high / 0x20_0000) % 512 == c
        &&& (raw / 0x1000) % 512 == d && (high / 0x1000) % 512 == d
        &&& raw % 4096 == o && high % 4096 == o
    }) by (bit_vector)
        requires
            raw == (a << 39) | (b << 30) | (c << 21) | (d << 12) | o,
            a < 512,
            b < 512,
            c < 512,
            d < 512,
            o < 4096,
    ;
    assert(indices_of(v) =~= idx.map_values(|i: usize| (i % 512) as usize));
}

} // verus!

//! `x86_64` page-table *entry* encoding (pure logic, no hardware).
//!
//! A page-table entry pairs a physical frame address with a set of flag bits:
//!
//! ```text
//! bit 63        NX (no-execute)            -- a flag
//! bits 62..52   available / reserved       -- treated as flag bits
//! bits 51..12   physical frame address     -- the 40-bit aligned frame field
//! bits 11..0    flags (P, RW, US, ...)     -- flag bits
//! ```
//!
//! [`ADDR_MASK`] selects exactly the frame field and [`FLAGS_MASK`] is its
//! complement. What is encoded is what is read back, and neither field ever bleeds
//! into the other ([`encode_isolates_fields`], [`encode_decode_roundtrip`]).
use vstd::prelude::*;

verus! {

/// Mask selecting the physical frame-address field of an entry (bits `51..12`).
pub const ADDR_MASK: u64 = 0x000F_FFFF_FFFF_F000;

/// Mask selecting the flag bits of an entry: the complement of [`ADDR_MASK`].
pub const FLAGS_MASK: u64 = !ADDR_MASK;

/// Mask selecting the ten flags that [`PteFlags`] names: bits `8..0` and bit 63.
pub const NAMED_FLAGS_MASK: u64 = 0x8000_0000_0000_01FF;

/// The page-table entry flags, as a set of bits outside the frame field.
///
/// The named flags are a subset of the architectural ones, those that the kernel's
/// mapper works with; every one of them lies within [`FLAGS_MASK`] (the low 12
/// bits, plus no-execute at bit 63), so flags never collide with the frame address.
#[derive(Debug, Clone, Copy, PartialEq, Eq, Structural)]
pub struct PteFlags(u64);

/// The named flags lie outside the frame field.
proof fn lemma_named_flags()
    ensures
        1u64 & ADDR_MASK == 0 && 2u64 & ADDR_MASK == 0 && 4u64 & ADDR_MASK == 0,
        8u64 & ADDR_MASK == 0 && 16u64 & ADDR_MASK == 0 && 32u64 & ADDR_MASK == 0,
        64u64 & ADDR_MASK == 0 && 128u64 & ADDR_MASK == 0 && 256u64 & ADDR_MASK == 0,
        0x8000_0000_0000_0000u64 & ADDR_MASK == 0 && 0u64 & ADDR_MASK == 0,
{
    assert({
        &&& 1u64 & ADDR_MASK == 0 && 2u64 & ADDR_MASK == 0 && 4u64 & ADDR_MASK == 0
        &&& 8u64 & ADDR_MASK == 0 && 16u64 & ADDR_MASK == 0 && 32u64 & ADDR_MASK == 0
        &&& 64u64 & ADDR_MASK == 0 && 128u64 & ADDR_MASK == 0 && 256u64 & ADDR_MASK == 0
        &&& 0x8000_0000_0000_0000u64 & ADDR_MASK == 0 && 0u64 & ADDR_MASK == 0
    }) by (bit_vector);
}

impl PteFlags {
    /// The bits of the set.
    pub closed spec fn raw(self) -> u64 {
        self.0
    }

    /// The flags whose bits are `bits`.
    pub closed spec fn of(bits: u64) -> Self {
        PteFlags(bits)
    }

    /// No bit of the frame field is set.
    pub open spec fn valid(self) -> bool {
        self.raw() & ADDR_MASK == 0
    }

    #[verifier::type_invariant]
    closed spec fn inv(self) -> bool {
        self.valid()
    }

    /// The flags whose bits are those of `bits` outside the frame field.
    pub open spec fn truncated(bits: u64) -> Self {
        Self::of(bits & FLAGS_MASK)
    }

    /// The named flags that are set in `bits`.
    pub open spec fn named(bits: u64) -> Self {
        Self::of(bits & NAMED_FLAGS_MASK)
    }

    /// The union of two sets.
    pub open spec fn united(self, other: Self) -> Self {
        Self::of(self.raw() | other.raw())
    }

    /// The entry maps a present page; a walk through a not-present entry faults.
    #[inline]
    #[must_use]
    pub fn present() -> (f: Self)
        ensures
            f.raw() == 1,
            f.valid(),
    {
        proof {
            lemma_named_flags();
        }
        PteFlags(1)
    }

    /// The mapped page is writable (else read-only).
    #[inline]
    #[must_use]
    pub fn writable() -> (f: Self)
        ensures
            f.raw() == 2,
            f.valid(),
    {
        proof {
            lemma_named_flags();
        }
        PteFlags(2)
    }

    /// The mapped page is reachable from ring 3 (user mode).
    #[inline]
    #[must_use]
    pub fn user() -> (f: Self)
        ensures
            f.raw() == 4,
            f.valid(),
    {
        proof {
            lemma_named_flags();
        }
        PteFlags(4)
    }

    /// Writes bypass the cache (write-through).
    #[inline]
    #[must_use]
    pub fn write_through() -> (f: Self)
        ensures
            f.raw() == 8,
            f.valid(),
    {
        proof {
            lemma_named_flags();
        }
        PteFlags(8)
    }

    /// The page is not cached.
    #[inline]
    #[must_use]
    pub fn no_cache() -> (f: Self)
        ensures
            f.raw() == 16,
            f.valid(),
    {
        proof {
            lemma_named_flags();
        }
        PteFlags(16)
    }

    /// Set by the cpu when the entry is used in a translation.
    #[inline]
    #[must_use]
    pub fn accessed() -> (f: Self)
        ensures
            f.raw() == 32,
            f.valid(),
    {
        proof {
            lemma_named_flags();
        }
        PteFlags(32)
    }

    /// Set by the cpu when the mapped page is written.
    #[inline]
    #[must_use]
    pub fn dirty() -> (f: Self)
        ensures
            f.raw() == 64,
            f.valid(),
    {
        proof {
            lemma_named_flags();
        }
        PteFlags(64)
    }

    /// At a non-leaf level, marks the entry as mapping a large page rather than
    /// pointing to the next table.
    #[inline]
    #[must_use]
    pub fn huge_page() -> (f: Self)
        ensures
            f.raw() == 128,
            f.valid(),
    {
        proof {
            lemma_named_flags();
        }
        PteFlags(128)
    }

    /// The mapping is global (not flushed on a `CR3` reload).
    #[inline]
    #[must_use]
    pub fn global() -> (f: Self)
        ensures
            f.raw() == 256,
            f.valid(),
    {
        proof {
            lemma_named_flags();
        }
        PteFlags(256)
    }

    /// The mapped page is non-executable (requires `EFER.NXE`).
    #[inline]
    #[must_use]
    pub fn no_execute() -> (f: Self)
        ensures
            f.raw() == 0x8000_0000_0000_0000,
            f.valid(),
    {
        proof {
            lemma_named_flags();
        }
        PteFlags(0x8000_0000_0000_0000)
    }

    /// The empty flag set.
    #[inline]
    #[must_use]
    pub fn empty() -> (f: Self)
        ensures
            f.raw() == 0,
            f.valid(),
    {
        proof {
            lemma_named_flags();
        }
        PteFlags(0)
    }

    /// Returns the raw `u64` bit pattern of these flags, which has no bit of the
    /// frame field set.
    #[inline]
    #[must_use]
    pub fn bits(self) -> (bits: u64)
        ensures
            bits == self.raw(),
            self.valid(),
    {
        proof {
            use_type_invariant(&self);
        }
        self.0
    }

    /// Keeps only the bits that fall within [`FLAGS_MASK`], dropping any that
    /// would collide with the frame-address field.
    #[inline]
    #[must_use]
    pub fn from_bits_truncate(bits: u64) -> (f: Self)
        ensures
            f == Self::truncated(bits),
            f.raw() == bits & FLAGS_MASK,
            f.valid(),
    {
        proof {
            lemma_masks(bits, bits);
        }
        PteFlags(bits & FLAGS_MASK)
    }

    /// Returns the union of two flag sets (bitwise OR).
    #[inline]
    #[must_use]
    pub fn union(self, other: Self) -> (f: Self)
        ensures
            f == self.united(other),
            f.raw() == self.raw() | other.raw(),
            f.valid(),
    {
        proof {
            use_type_invariant(&self);
            use_type_invariant(&other);
            lemma_masks(self.0, other.0);
        }
        PteFlags(self.0 | other.0)
    }

    /// Returns `true` if every bit in `other` is also set in `self`.
    #[inline]
    #[must_use]
    pub fn contains(self, other: Self) -> (b: bool)
        ensures
            b == (self.raw() & other.raw() == other.raw()),
    {
        (self.0 & other.0) == other.0
    }
}

impl core::ops::BitOr for PteFlags {
    type Output = Self;

    /// The union of two flag sets.
    #[inline]
    fn bitor(self, rhs: Self) -> (f: Self)
        ensures
            f.raw() == self.raw() | rhs.raw(),
    {
        self.union(rhs)
    }
}

impl vstd::std_specs::ops::BitOrSpecImpl for PteFlags {
    open spec fn obeys_bitor_spec() -> bool {
        true
    }

    open spec fn bitor_req(self, rhs: Self) -> bool {
        true
    }

    open spec fn bitor_spec(self, rhs: Self) -> Self {
        self.united(rhs)
    }
}

/// A set of flags is determined by its bits.
pub broadcast proof fn lemma_of(bits: u64)
    ensures
        #[trigger] PteFlags::of(bits).raw() == bits,
{
}

/// Every set of flags is the one that its bits determine.
pub broadcast proof fn lemma_raw(f: PteFlags)
    ensures
        PteFlags::of(#[trigger] f.raw()) == f,
{
}

/// How flags and their bits determine each other.
pub broadcast group group_pte_flags {
    lemma_of,
    lemma_raw,
}

/// How the two masks cut up a word.
proof fn lemma_masks(a: u64, b: u64)
    ensures
        ADDR_MASK & FLAGS_MASK == 0,
        ADDR_MASK | FLAGS_MASK == u64::MAX,
        (a & FLAGS_MASK) & ADDR_MASK == 0,
        (a & ADDR_MASK) & FLAGS_MASK == 0,
        (a & ADDR_MASK) & !ADDR_MASK == 0,
        (a & ADDR_MASK) % 4096 == 0,
        (a & ADDR_MASK) < 0x10_0000_0000_0000,
        a & ADDR_MASK == 0 && b & ADDR_MASK == 0 ==> (a | b) & ADDR_MASK == 0,
        ((a & ADDR_MASK) | (b & FLAGS_MASK)) & ADDR_MASK == a & ADDR_MASK,
        ((a & ADDR_MASK) | (b & FLAGS_MASK)) & FLAGS_MASK == b & FLAGS_MASK,
        (a & ADDR_MASK) | (a & FLAGS_MASK) == a,
        a & !ADDR_MASK == 0 ==> a & ADDR_MASK == a,
        b & ADDR_MASK == 0 ==> b & FLAGS_MASK == b,
        (a & FLAGS_MASK) & FLAGS_MASK == a & FLAGS_MASK,
        a % 4096 == 0 && a < 0x10_0000_0000_0000 <==> a & !ADDR_MASK == 0,
        a & 1 != 0 <==> a % 2 == 1,
{
    assert({
        &&& ADDR_MASK & FLAGS_MASK == 0
        &&& ADDR_MASK | FLAGS_MASK == 0xffff_ffff_ffff_ffffu64
        &&& (a & FLAGS_MASK) & ADDR_MASK == 0
        &&& (a & ADDR_MASK) & FLAGS_MASK == 0
        &&& (a & ADDR_MASK) & !ADDR_MASK == 0
        &&& (a & ADDR_MASK) % 4096 == 0
        &&& (a & ADDR_MASK) < 0x10_0000_0000_0000
        &&& a & ADDR_MASK == 0 && b & ADDR_MASK == 0 ==> (a | b) & ADDR_MASK == 0
        &&& ((a & ADDR_MASK) | (b & FLAGS_MASK)) & ADDR_MASK == a & ADDR_MASK
        &&& ((a & ADDR_MASK) | (b & FLAGS_MASK)) & FLAGS_MASK == b & FLAGS_MASK
        &&& (a & ADDR_MASK) | (a & FLAGS_MASK) == a
        &&& a & !ADDR_MASK == 0 ==> a & ADDR_MASK == a
        &&& b & ADDR_MASK == 0 ==> b & FLAGS_MASK == b
        &&& (a & FLAGS_MASK) & FLAGS_MASK == a & FLAGS_MASK
        &&& (a % 4096 == 0 && a < 0x10_0000_0000_0000) <==> a & !ADDR_MASK == 0
        &&& a & 1 != 0 <==> a % 2 == 1
    }) by (bit_vector);
}

/// The named flags lie in the flag field, and are those of the ten single bits.
proof fn lemma_named(a: u64)
    ensures
        ((a & FLAGS_MASK) & NAMED_FLAGS_MASK) & FLAGS_MASK == a & NAMED_FLAGS_MASK,
        (a & NAMED_FLAGS_MASK) & ADDR_MASK == 0,
        a & !NAMED_FLAGS_MASK == 0 ==> a & NAMED_FLAGS_MASK == a,
        NAMED_FLAGS_MASK == 1u64 | 2 | 4 | 8 | 16 | 32 | 64 | 128 | 256 | 0x8000_0000_0000_0000,
{
    assert({
        &&& ((a & FLAGS_MASK) & NAMED_FLAGS_MASK) & FLAGS_MASK == a & NAMED_FLAGS_MASK
        &&& (a & NAMED_FLAGS_MASK) & ADDR_MASK == 0
        &&& a & !NAMED_FLAGS_MASK == 0 ==> a & NAMED_FLAGS_MASK == a
        &&& NAMED_FLAGS_MASK == 1u64 | 2 | 4 | 8 | 16 | 32 | 64 | 128 | 256 | 0x8000_0000_0000_0000
    }) by (bit_vector);
}

/// The entry made of an address field and a flag field.
pub open spec fn entry_of(addr: u64, flags: u64) -> u64 {
    (addr & ADDR_MASK) | (flags & FLAGS_MASK)
}

/// Builds a page-table entry from a physical frame address and flag bits.
///
/// Both are masked, so that stray bits are dropped rather than allowed to corrupt
/// the other field.
#[inline]
#[must_use]
pub fn encode(addr: u64, flags: u64) -> (entry: u64)
    ensures
        entry == entry_of(addr, flags),
        entry & 0x000F_FFFF_FFFF_F000 == addr & 0x000F_FFFF_FFFF_F000,
        entry & !0x000F_FFFF_FFFF_F000 == flags & !0x000F_FFFF_FFFF_F000,
{
    proof {
        lemma_masks(addr, flags);
    }
    (addr & ADDR_MASK) | (flags & FLAGS_MASK)
}

/// Builds a page-table entry from a physical frame address and typed
/// [`PteFlags`].
#[inline]
#[must_use]
pub fn encode_flags(addr: u64, flags: PteFlags) -> (entry: u64)
    ensures
        entry == entry_of(addr, flags.raw()),
        entry & 0x000F_FFFF_FFFF_F000 == addr & 0x000F_FFFF_FFFF_F000,
        entry & !0x000F_FFFF_FFFF_F000 == flags.raw(),
{
    proof {
        use_type_invariant(&flags);
        lemma_masks(addr, flags.0);
    }
    encode(addr, flags.bits())
}

/// Extracts the physical frame address from a page-table entry.
///
/// The result is always 4 KiB-aligned and within the 52-bit physical range.
#[inline]
#[must_use]
pub fn frame_addr(entry: u64) -> (addr: u64)
    ensures
        addr == entry & ADDR_MASK,
        addr % 4096 == 0,
        addr < 0x10_0000_0000_0000,
{
    proof {
        lemma_masks(entry, entry);
    }
    entry & ADDR_MASK
}

/// Extracts the raw flag bits from a page-table entry (everything that is not
/// the frame address).
#[inline]
#[must_use]
pub fn flags(entry: u64) -> (bits: u64)
    ensures
        bits == entry & FLAGS_MASK,
        bits & ADDR_MASK == 0,
{
    proof {
        lemma_masks(entry, entry);
    }
    entry & FLAGS_MASK
}

/// Extracts the typed [`PteFlags`] from a page-table entry, dropping any flag bits
/// not modeled by [`PteFlags`]: what remains is made of the ten named flags.
#[inline]
#[must_use]
pub fn pte_flags(entry: u64) -> (f: PteFlags)
    ensures
        f == PteFlags::named(entry),
        f.raw() == entry & 0x8000_0000_0000_01FF,
        f.valid(),
{
    proof {
        lemma_named(entry);
    }
    PteFlags::from_bits_truncate(flags(entry) & NAMED_FLAGS_MASK)
}

/// Returns `true` if the entry's present bit is set (a walk may follow it).
#[inline]
#[must_use]
pub fn is_present(entry: u64) -> (b: bool)
    ensures
        b == (entry % 2 == 1),
{
    proof {
        lemma_masks(entry, entry);
    }
    entry & PteFlags::present().bits() != 0
}

/// The two masks partition all 64 bits: every bit of an entry belongs to exactly
/// one of the two fields.
pub proof fn masks_partition_all_bits(entry: u64)
    ensures
        ADDR_MASK & FLAGS_MASK == 0,
        ADDR_MASK | FLAGS_MASK == u64::MAX,
        (entry & ADDR_MASK) | (entry & FLAGS_MASK) == entry,
        entry_of(entry & ADDR_MASK, entry & FLAGS_MASK) == entry,
{
    lemma_masks(entry, entry);
    lemma_masks(entry & ADDR_MASK, entry & FLAGS_MASK);
}

/// Encoding never lets one field bleed into the other, whatever the inputs: the
/// address field of an entry depends on the address only, the flag field on the
/// flags only.
pub proof fn encode_isolates_fields(addr: u64, flags: u64)
    ensures
        entry_of(addr, flags) & ADDR_MASK == addr & ADDR_MASK,
        entry_of(addr, flags) & FLAGS_MASK == flags & FLAGS_MASK,
{
    lemma_masks(addr, flags);
}

/// The frame field is bits 12 to 51 and the flags are all others, whatever the inputs: an
/// entry's frame is the address without what lies below a page and above the physical
/// range, and every flag bit is that of the flags.
pub proof fn fields_lie_where_the_layout_says(addr: u64, flags: u64, b: u64)
    requires
        b < 64,
    ensures
        12 <= b < 52 ==> (entry_of(addr, flags) >> b) & 1 == (addr >> b) & 1,
        !(12 <= b < 52) ==> (entry_of(addr, flags) >> b) & 1 == (flags >> b) & 1,
        (entry_of(addr, flags) & ADDR_MASK) as int == (addr % 0x10_0000_0000_0000) - (addr % 4096),
{
    let entry = entry_of(addr, flags);
    assert({
        &&& 12 <= b < 52 ==> (entry >> b) & 1 == (addr >> b) & 1
        &&& !(12 <= b < 52) ==> (entry >> b) & 1 == (flags >> b) & 1
        &&& entry & ADDR_MASK == (addr % 0x10_0000_0000_0000) - (addr % 4096)
    }) by (bit_vector)
        requires
            b < 64,
            entry == (addr & ADDR_MASK) | (flags & FLAGS_MASK),
    ;
}

/// For an aligned, in-range address and flags confined to the flag bits, encoding
/// and then decoding is the identity on both, and the entry is their union.
pub proof fn encode_decode_roundtrip(addr: u64, flags: u64)
    requires
        addr % 4096 == 0,
        addr < 0x10_0000_0000_0000,
        flags & ADDR_MASK == 0,
    ensures
        entry_of(addr, flags) & ADDR_MASK == addr,
        entry_of(addr, flags) & FLAGS_MASK == flags,
        entry_of(addr, flags) == addr | flags,
{
    lemma_masks(addr, flags);
}

/// Typed flags survive the way through an entry: what was encoded of the named flags
/// is what is read back.
pub proof fn typed_flags_roundtrip(addr: u64, f: PteFlags)
    requires
        f.valid(),
        f.raw() & !0x8000_0000_0000_01FF == 0,
    ensures
        PteFlags::named(entry_of(addr, f.raw())) == f,
{
    let raw = f.raw();
    let entry = entry_of(addr, raw);
    lemma_named(raw);
    assert(entry & NAMED_FLAGS_MASK == raw & NAMED_FLAGS_MASK) by (bit_vector)
        requires
            entry == (addr & ADDR_MASK) | (raw & FLAGS_MASK),
    ;
}

/// Reading typed flags drops exactly the flag bits that have no name, and the
/// address: every named flag is read as it stands in the entry.
pub proof fn unnamed_bits_are_dropped(entry: u64, flag: u64)
    requires
        flag & !0x8000_0000_0000_01FF == 0,
    ensures
        PteFlags::named(entry).raw() & flag == entry & flag,
        PteFlags::named(entry).raw() & !0x8000_0000_0000_01FF == 0,
        NAMED_FLAGS_MASK == 1u64 | 2 | 4 | 8 | 16 | 32 | 64 | 128 | 256 | 0x8000_0000_0000_0000,
{
    lemma_named(entry);
    assert((entry & NAMED_FLAGS_MASK) & flag == entry & flag && (entry & NAMED_FLAGS_MASK)
        & !0x8000_0000_0000_01FFu64 == 0) by (bit_vector)
        requires
            flag & !0x8000_0000_0000_01FFu64 == 0,
    ;
}

} // verus!

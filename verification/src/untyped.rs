//! Untyped-memory retype arithmetic: pure logic, no hardware.
//!
//! The kernel never calls a general allocator: all typed kernel objects are
//! carved from a contiguous untyped memory region through a watermark. User space
//! invokes `Retype`, and [`retype_fits`] checks the request against the region's
//! watermark.
//!
//! # Object sizes
//!
//! | Type | Size (bytes) | Alignment (bytes) |
//! |------|-------------|-------------------|
//! | `Endpoint` | 128 | 64 |
//! | `CNode { size_bits }` | `2^size_bits` | `2^size_bits` |
//! | `Untyped { size_bits }` | `2^size_bits` | `2^size_bits` |
//! | `PageTable` | 4096 | 4096 |
//! | `Tcb` | 512 | 64 |
//!
//! `size_bits` is the log2 of the byte size. A `size_bits` that no `usize` can
//! hold the power of saturates at `usize::MAX`; no such object ever fits, but for
//! one that takes a whole region of `usize::MAX` bytes.
use vstd::arithmetic::power2;
use vstd::prelude::*;

verus! {

/// Size of one `Endpoint` object in bytes.
pub const ENDPOINT_SIZE: usize = 128;

/// Alignment requirement of an `Endpoint` object in bytes (one cache line).
pub const ENDPOINT_ALIGN: usize = 64;

/// Size and alignment of a `PageTable` object in bytes (one 4 KiB page).
pub const PAGE_TABLE_SIZE: usize = 4096;

/// Size of one `Tcb` (thread control block) object in bytes.
pub const TCB_SIZE: usize = 512;

/// Alignment requirement of a `Tcb` object in bytes (one cache line).
pub const TCB_ALIGN: usize = 64;

/// Size of the kernel's `CNode` object in bytes, which is `size_bits = 12`.
pub const CNODE_SIZE: usize = 4096;

/// Alignment of the kernel's `CNode` object in bytes (equals its size).
pub const CNODE_ALIGN: usize = 4096;

/// The set of kernel object types that can be created via the `Retype` call.
#[derive(Copy, Clone, Debug, PartialEq, Eq, Structural)]
pub enum ObjectType {
    /// A synchronous IPC endpoint.
    Endpoint,
    /// A capability-node table of `2^size_bits` bytes, naturally aligned.
    CNode {
        /// Log2 of the byte size of this `CNode`.
        size_bits: u8,
    },
    /// An untyped sub-region of `2^size_bits` bytes, naturally aligned.
    Untyped {
        /// Log2 of the byte size of this untyped sub-region.
        size_bits: u8,
    },
    /// A page table: one 4 KiB page of 512 entries.
    PageTable,
    /// A thread control block.
    Tcb,
}

/// `2^size_bits`, saturated at the largest `usize`.
pub open spec fn saturated_pow2(size_bits: u8) -> usize {
    if size_bits < usize::BITS {
        power2::pow2(size_bits as nat) as usize
    } else {
        usize::MAX
    }
}

impl ObjectType {
    /// The size in bytes of an object of this type.
    pub open spec fn size(self) -> usize {
        match self {
            ObjectType::Endpoint => ENDPOINT_SIZE,
            ObjectType::CNode { size_bits } => saturated_pow2(size_bits),
            ObjectType::Untyped { size_bits } => saturated_pow2(size_bits),
            ObjectType::PageTable => PAGE_TABLE_SIZE,
            ObjectType::Tcb => TCB_SIZE,
        }
    }

    /// The alignment in bytes of an object of this type.
    pub open spec fn align(self) -> usize {
        match self {
            ObjectType::Endpoint => ENDPOINT_ALIGN,
            ObjectType::CNode { size_bits } => saturated_pow2(size_bits),
            ObjectType::Untyped { size_bits } => saturated_pow2(size_bits),
            ObjectType::PageTable => PAGE_TABLE_SIZE,
            ObjectType::Tcb => TCB_ALIGN,
        }
    }
}

/// `n` is a power of two that a `usize` can hold.
pub open spec fn is_power_of_two(n: usize) -> bool {
    exists|k: nat| k < usize::BITS && n == #[trigger] power2::pow2(k)
}

/// The least multiple of `align` at or above `value`.
pub open spec fn rounded_up(value: int, align: int) -> int {
    ((value + align - 1) / align) * align
}

/// `rounded_up` is the least multiple at or above the value.
pub proof fn lemma_rounded_up(value: int, align: int)
    requires
        align > 0,
    ensures
        rounded_up(value, align) % align == 0,
        value <= rounded_up(value, align) < value + align,
        forall|m: int| value <= m && #[trigger] (m % align) == 0 ==> rounded_up(value, align) <= m,
{
    let x = value + align - 1;
    let up = rounded_up(value, align);
    vstd::arithmetic::div_mod::lemma_fundamental_div_mod(x, align);
    vstd::arithmetic::div_mod::lemma_mod_bound(x, align);
    assert(up == align * (x / align)) by (nonlinear_arith)
        requires
            up == (x / align) * align,
    ;
    vstd::arithmetic::div_mod::lemma_mod_multiples_basic(x / align, align);
    assert forall|m: int| value <= m && #[trigger] (m % align) == 0 implies up <= m by {
        vstd::arithmetic::div_mod::lemma_fundamental_div_mod(m, align);
        let q = m / align;
        let p = x / align;
        if m < up {
            assert(q < p) by (nonlinear_arith)
                requires
                    align > 0,
                    align * q < align * p,
            ;
            assert(align * p - align * q >= align) by (nonlinear_arith)
                requires
                    align > 0,
                    q < p,
            ;
        }
    }
}

/// Clearing the low bits of `x` below a power of two subtracts the remainder.
proof fn lemma_clear_low_bits(x: usize, k: nat, align: usize)
    requires
        k < usize::BITS,
        align == power2::pow2(k),
    ensures
        align >= 1,
        x & !((align - 1) as usize) == x - x % align,
{
    power2::lemma_pow2_pos(k);
    vstd::bits::lemma_usize_pow2_no_overflow(k);
    vstd::bits::lemma_usize_low_bits_mask_is_mod(x, k);
    let mask: usize = (align - 1) as usize;
    assert(mask == vstd::bits::low_bits_mask(k) as usize);
    assert(x & !mask == x - (x & mask) && x & mask <= x) by (bit_vector);
}

/// `usize::MAX` is one less than a multiple of every power of two.
proof fn lemma_max_remainder(k: nat, align: usize)
    requires
        k < usize::BITS,
        align == power2::pow2(k),
    ensures
        usize::MAX % align == align - 1,
{
    let top: usize = !0usize;
    let mask: usize = (align - 1) as usize;
    lemma_clear_low_bits(top, k, align);
    vstd::bits::lemma_usize_low_bits_mask_is_mod(top, k);
    vstd::bits::lemma_usize_pow2_no_overflow(k);
    let max: usize = usize::MAX;
    assert(!0usize & mask == mask && max <= !0usize) by (bit_vector);
}

/// Every alignment is a power of two, or the object is of a size that saturated;
/// sizes are non-zero multiples of the alignment.
pub proof fn layouts_are_well_formed(ty: ObjectType)
    ensures
        ty.size() >= 1,
        ty.align() >= 1,
        ty.size() >= ty.align(),
        ty.size() % ty.align() == 0,
        is_power_of_two(ty.align()) || (ty.align() == usize::MAX && ty.size() == usize::MAX),
        is_power_of_two(ty.size()) || (ty.align() == usize::MAX && ty.size() == usize::MAX),
{
    power2::lemma2_to64();
    match ty {
        ObjectType::Endpoint | ObjectType::Tcb | ObjectType::PageTable => {
            assert(power2::pow2(6) == 64);
            assert(power2::pow2(7) == 128);
            assert(power2::pow2(9) == 512);
            assert(power2::pow2(12) == 4096);
        },
        ObjectType::CNode { size_bits } | ObjectType::Untyped { size_bits } => {
            if size_bits < usize::BITS {
                vstd::bits::lemma_usize_pow2_no_overflow(size_bits as nat);
            }
        },
    }
}

// `2^size_bits`, saturating so the function stays total.
fn byte_size(size_bits: u8) -> (size: usize)
    ensures
        size == saturated_pow2(size_bits),
{
    if (size_bits as u32) < usize::BITS {
        proof {
            vstd::bits::lemma_usize_pow2_no_overflow(size_bits as nat);
            vstd::bits::lemma_usize_shl_is_mul(1, size_bits as usize);
        }
        1usize << (size_bits as usize)
    } else {
        usize::MAX
    }
}

/// Returns the `(size_bytes, align_bytes)` for an object of type `ty`.
///
/// Both are non-zero, and the alignment divides the size.
#[inline]
#[must_use]
pub fn object_layout(ty: ObjectType) -> (r: (usize, usize))
    ensures
        r.0 == ty.size(),
        r.1 == ty.align(),
        ty is Endpoint ==> r == (128usize, 64usize),
        ty is PageTable ==> r == (4096usize, 4096usize),
        ty is Tcb ==> r == (512usize, 64usize),
        ty is CNode || ty is Untyped ==> r.0 == r.1,
{
    match ty {
        ObjectType::Endpoint => (ENDPOINT_SIZE, ENDPOINT_ALIGN),
        ObjectType::CNode { size_bits } => {
            let size: usize = byte_size(size_bits);
            (size, size)
        },
        ObjectType::Untyped { size_bits } => {
            let size: usize = byte_size(size_bits);
            (size, size)
        },
        ObjectType::PageTable => (PAGE_TABLE_SIZE, PAGE_TABLE_SIZE),
        ObjectType::Tcb => (TCB_SIZE, TCB_ALIGN),
    }
}

/// Rounds `value` up to the next multiple of `align`, a power of two.
///
/// Where `value + align - 1` does not fit a `usize`, the sum is clamped, and the
/// result is the largest multiple of `align` that does, which may lie below
/// `value`.
#[inline]
#[must_use]
pub fn align_up(value: usize, align: usize) -> (r: usize)
    requires
        align >= 1,
    ensures
        r == (if value + align - 1 <= usize::MAX {
            (value + align - 1) as usize
        } else {
            usize::MAX
        }) & !((align - 1) as usize),
        is_power_of_two(align) && value + align - 1 <= usize::MAX ==> r == rounded_up(
            value as int,
            align as int,
        ) && r >= value && r % align == 0,
        is_power_of_two(align) && value + align - 1 > usize::MAX ==> r == usize::MAX - (align - 1),
{
    let mask: usize = align - 1;
    let sum: usize = value.saturating_add(mask);
    proof {
        if is_power_of_two(align) {
            let k = choose|k: nat| k < usize::BITS && align == #[trigger] power2::pow2(k);
            lemma_clear_low_bits(sum, k, align);
            if value + align - 1 <= usize::MAX {
                lemma_rounded_up(value as int, align as int);
                vstd::arithmetic::div_mod::lemma_fundamental_div_mod(sum as int, align as int);
                assert((sum as int / align as int) * align as int == align as int * (sum as int
                    / align as int)) by (nonlinear_arith);
            } else {
                lemma_max_remainder(k, align);
            }
        }
    }
    sum & !mask
}

/// Where an object of type `ty` is placed in a region whose watermark is
/// `watermark`: the least offset at or above it that is aligned.
pub open spec fn placement_start(watermark: usize, ty: ObjectType) -> int {
    rounded_up(watermark as int, ty.align() as int)
}

/// The watermark allocator gate for a single `Retype` operation.
///
/// Returns the watermark after committing the object, which then occupies the
/// bytes from [`placement_start`] up to it, or `None` if the object does not fit
/// in the region.
#[must_use]
pub fn retype_fits(region_size: usize, watermark: usize, ty: ObjectType) -> (r: Option<usize>)
    ensures
        r == (if placement_start(watermark, ty) + ty.size() <= region_size {
            Some((placement_start(watermark, ty) + ty.size()) as usize)
        } else {
            None
        }),
        r matches Some(end) ==> {
            &&& watermark <= end - ty.size()
            &&& (end - ty.size()) % ty.align() as int == 0
            &&& end <= region_size
            &&& forall|offset: int|
                watermark <= offset && #[trigger] (offset % ty.align() as int) == 0 ==> end
                    - ty.size() <= offset
        },
        r is None ==> forall|offset: int|
            watermark <= offset && #[trigger] (offset % ty.align() as int) == 0 ==> offset
                + ty.size() > region_size,
{
    let (size, align) = object_layout(ty);
    proof {
        layouts_are_well_formed(ty);
        lemma_rounded_up(watermark as int, align as int);
        if !is_power_of_two(align) {
            lemma_saturated_alignment(watermark);
        }
    }
    // aligned + size is checked so that it cannot wrap; if it would, the object
    // cannot possibly fit.
    let aligned: usize = align_up(watermark, align);
    match aligned.checked_add(size) {
        Some(new_watermark) => if new_watermark <= region_size {
            Some(new_watermark)
        } else {
            None
        },
        None => None,
    }
}

/// How rounding up comes out for the alignment `usize::MAX`.
proof fn lemma_saturated_alignment(value: usize)
    ensures
        value == 0 ==> (value + usize::MAX - 1) as usize & !((usize::MAX - 1) as usize) == 0,
        value >= 1 ==> usize::MAX & !((usize::MAX - 1) as usize) >= 1,
        rounded_up(value as int, usize::MAX as int) == if value == 0 {
            0int
        } else {
            usize::MAX as int
        },
{
    let max: usize = usize::MAX;
    let low: usize = (max - 1) as usize;
    assert(max <= !0usize) by (bit_vector);
    assert(low & !low == 0 && max & !low == 1) by (bit_vector)
        requires
            max == !0usize,
            low == max - 1,
    ;
    let m = usize::MAX as int;
    let q = (value + m - 1) / m;
    assert(q * m == if value == 0 {
        0int
    } else {
        m
    }) by (nonlinear_arith)
        requires
            q == (value + m - 1) / m,
            0 <= value <= m,
            m > 1,
    ;
}

/// An object is placed at the first place that it can have: whatever other aligned offset
/// at or above the watermark leaves room for it, the one chosen lies no higher and leaves
/// room too. So a request is refused only where no such offset is left.
pub proof fn objects_take_the_first_place_that_fits(
    region_size: usize,
    watermark: usize,
    ty: ObjectType,
    offset: int,
)
    requires
        watermark <= offset,
        offset % ty.align() as int == 0,
    ensures
        watermark <= placement_start(watermark, ty) <= offset,
        placement_start(watermark, ty) % ty.align() as int == 0,
        offset + ty.size() <= region_size ==> placement_start(watermark, ty) + ty.size()
            <= region_size,
        watermark % ty.align() == 0 ==> placement_start(watermark, ty) == watermark,
{
    layouts_are_well_formed(ty);
    lemma_rounded_up(watermark as int, ty.align() as int);
    if watermark % ty.align() == 0 {
        assert(watermark as int % ty.align() as int == 0);
    }
}

/// The sizes and alignments of the objects in bytes. A node or an untyped region is as
/// large as its alignment: one byte for zero bits, twice as much with each further bit,
/// and the largest `usize` once that is exceeded.
pub proof fn object_sizes_are_fixed_or_double(ty: ObjectType, size_bits: u8)
    ensures
        ty is Endpoint ==> ty.size() == 128 && ty.align() == 64,
        ty is PageTable ==> ty.size() == 4096 && ty.align() == 4096,
        ty is Tcb ==> ty.size() == 512 && ty.align() == 64,
        ty is CNode || ty is Untyped ==> ty.align() == ty.size(),
        (ObjectType::CNode { size_bits }).size() == (ObjectType::Untyped { size_bits }).size(),
        (ObjectType::Untyped { size_bits: 0 }).size() == 1,
        (ObjectType::Untyped { size_bits: 12 }).size() == 4096,
        (ObjectType::CNode { size_bits: 12 }).size() == CNODE_SIZE,
        (ObjectType::CNode { size_bits: 12 }).align() == CNODE_ALIGN,
        size_bits + 1 < usize::BITS ==> (ObjectType::Untyped {
            size_bits: (size_bits + 1) as u8,
        }).size() == 2 * (ObjectType::Untyped { size_bits }).size(),
        size_bits >= usize::BITS ==> (ObjectType::Untyped { size_bits }).size() == usize::MAX,
{
    power2::lemma2_to64();
    if size_bits + 1 < usize::BITS {
        power2::lemma_pow2_unfold((size_bits + 1) as nat);
        vstd::bits::lemma_usize_pow2_no_overflow(size_bits as nat);
        vstd::bits::lemma_usize_pow2_no_overflow((size_bits + 1) as nat);
    }
}

/// Whenever an object fits, the new watermark stays in the region and strictly
/// advances, and the object starts aligned, at or above the old watermark.
pub proof fn retype_keeps_the_watermark_in_range(
    region_size: usize,
    watermark: usize,
    ty: ObjectType,
)
    requires
        placement_start(watermark, ty) + ty.size() <= region_size,
    ensures
        watermark < placement_start(watermark, ty) + ty.size() <= region_size,
        watermark <= placement_start(watermark, ty),
        placement_start(watermark, ty) % ty.align() as int == 0,
{
    layouts_are_well_formed(ty);
    lemma_rounded_up(watermark as int, ty.align() as int);
}

/// Two objects that are carved one after the other occupy disjoint bands: the
/// second starts at or after the end of the first, and both bands are non-empty.
pub proof fn two_retypes_occupy_disjoint_bands(
    watermark: usize,
    first: ObjectType,
    second: ObjectType,
    between: usize,
)
    requires
        placement_start(watermark, first) + first.size() <= between,
    ensures
        placement_start(watermark, first) < placement_start(watermark, first) + first.size(),
        placement_start(watermark, first) + first.size() <= placement_start(between, second),
        placement_start(between, second) < placement_start(between, second) + second.size(),
{
    layouts_are_well_formed(first);
    layouts_are_well_formed(second);
    lemma_rounded_up(watermark as int, first.align() as int);
    lemma_rounded_up(between as int, second.align() as int);
}

} // verus!

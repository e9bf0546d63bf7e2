//! Placement of kernel objects into untyped memory.
//!
//! Carves an object out of an untyped region's bytes, with no heap allocation.
//! [`retype_fits`] decides whether the object fits at the current watermark and
//! where it lands; [`plan`] adds the checks on the object's layout and on the
//! region's base address, and [`place`] writes the object's bytes there.
//!
//! Because a placement starts at or above the watermark and the watermark only
//! advances, objects placed one after the other occupy disjoint byte ranges, and
//! an earlier object survives every later placement
//! ([`placements_do_not_corrupt_each_other`]).
use crate::untyped;
use crate::untyped::{object_layout, retype_fits, ObjectType};
use vstd::prelude::*;

verus! {

/// Errors from [`plan`] and [`place`].
#[derive(Debug, Clone, Copy, PartialEq, Eq, Structural)]
pub enum PlaceError {
    /// The object does not fit at the current watermark (region exhausted).
    DoesNotFit,
    /// The object's layout does not match the `ObjectType`'s declared size and
    /// alignment.
    LayoutMismatch,
    /// The region's base address is not aligned enough for the object.
    RegionMisaligned,
}

/// What planning a placement comes to: the first check that fails, or the offset
/// of the object and the watermark after it.
pub open spec fn planned(
    size: usize,
    align: usize,
    base: usize,
    region_len: usize,
    watermark: usize,
    ty: ObjectType,
) -> Result<(usize, usize), PlaceError> {
    let start = untyped::placement_start(watermark, ty);
    if size != ty.size() || align != ty.align() {
        Err(PlaceError::LayoutMismatch)
    } else if base % align != 0 {
        Err(PlaceError::RegionMisaligned)
    } else if start + size > region_len {
        Err(PlaceError::DoesNotFit)
    } else {
        Ok((start as usize, (start + size) as usize))
    }
}

/// The region after `value` has been written at offset `start`.
pub open spec fn placed(region: Seq<u8>, start: int, value: Seq<u8>) -> Seq<u8> {
    region.take(start) + value + region.skip(start + value.len())
}

/// Decides where an object of `size` bytes and alignment `align` is placed in a
/// region of `region_len` bytes that starts at the address `base`.
///
/// Returns `(start_offset, new_watermark)`: the object takes the bytes in between.
///
/// # Errors
///
/// - [`PlaceError::LayoutMismatch`] if the layout differs from that of `ty`.
/// - [`PlaceError::RegionMisaligned`] if the base is under-aligned for the object.
/// - [`PlaceError::DoesNotFit`] if the object does not fit at the watermark.
pub fn plan(
    size: usize,
    align: usize,
    base: usize,
    region_len: usize,
    watermark: usize,
    ty: ObjectType,
) -> (r: Result<(usize, usize), PlaceError>)
    ensures
        r == planned(size, align, base, region_len, watermark, ty),
        r matches Ok((start, end)) ==> watermark <= start && start + size == end && end
            <= region_len && start % align == 0 && (base + start) % align as int == 0,
        r == Err::<(usize, usize), PlaceError>(PlaceError::LayoutMismatch) <==> size != ty.size()
            || align != ty.align(),
        r == Err::<(usize, usize), PlaceError>(PlaceError::RegionMisaligned) <==> size == ty.size()
            && align == ty.align() && base % align != 0,
        r matches Ok((start, _)) ==> forall|offset: int|
            watermark <= offset && #[trigger] (offset % align as int) == 0 ==> start <= offset,
        r == Err::<(usize, usize), PlaceError>(PlaceError::DoesNotFit) ==> forall|offset: int|
            watermark <= offset && #[trigger] (offset % align as int) == 0 ==> offset + size
                > region_len,
{
    let (decl_size, decl_align) = object_layout(ty);
    // the object must match the declared layout, or the watermark arithmetic is
    // about a different object than the one to be placed.
    if size != decl_size || align != decl_align {
        return Err(PlaceError::LayoutMismatch);
    }
    proof {
        untyped::layouts_are_well_formed(ty);
        untyped::lemma_rounded_up(watermark as int, align as int);
    }
    // placement offsets are relative to the base, and retype_fits only guarantees
    // that the offset is aligned.
    if base % align != 0 {
        return Err(PlaceError::RegionMisaligned);
    }
    match retype_fits(region_len, watermark, ty) {
        Some(new_watermark) => {
            let start: usize = new_watermark - size;
            proof {
                lemma_aligned_sum(base as int, start as int, align as int);
            }
            Ok((start, new_watermark))
        },
        None => Err(PlaceError::DoesNotFit),
    }
}

proof fn lemma_aligned_sum(a: int, b: int, align: int)
    requires
        align > 0,
        a % align == 0,
        b % align == 0,
    ensures
        (a + b) % align == 0,
{
    vstd::arithmetic::div_mod::lemma_add_mod_noop(a, b, align);
    vstd::arithmetic::div_mod::lemma_small_mod(0, align as nat);
}

/// Places an object, given by its bytes `value` and its alignment, into `region`
/// at the watermark. `base` is the address at which the region starts.
///
/// Returns `(start_offset, new_watermark)` on success: the object now lives at
/// `region[start_offset..new_watermark]`, every other byte is as it was, and the
/// caller should record `new_watermark` as the region's advanced watermark.
///
/// # Errors
///
/// Those of [`plan`]; the region is then unchanged.
pub fn place(
    region: &mut [u8],
    base: usize,
    watermark: usize,
    ty: ObjectType,
    align: usize,
    value: &[u8],
) -> (r: Result<(usize, usize), PlaceError>)
    ensures
        r == planned(
            value@.len() as usize,
            align,
            base,
            old(region)@.len() as usize,
            watermark,
            ty,
        ),
        match r {
            Ok((start, end)) => {
                &&& watermark <= start
                &&& end == start + value@.len()
                &&& end <= old(region)@.len()
                &&& start % align == 0
                &&& final(region)@ == placed(old(region)@, start as int, value@)
                &&& final(region)@.len() == old(region)@.len()
                &&& final(region)@.subrange(start as int, end as int) == value@
                &&& forall|i: int|
                    0 <= i < old(region)@.len() && !(start <= i < end) ==> #[trigger]
                        final(region)@[i] == old(region)@[i]
            },
            Err(_) => final(region)@ == old(region)@,
        },
{
    let ghost before = region@;
    let (start, end) = match plan(value.len(), align, base, region.len(), watermark, ty) {
        Ok(range) => range,
        Err(e) => {
            return Err(e);
        },
    };
    let mut i: usize = 0;
    while i < value.len()
        invariant
            i <= value@.len(),
            start + value@.len() == end,
            end <= before.len(),
            region@.len() == before.len(),
            forall|j: int|
                0 <= j < before.len() ==> #[trigger] region@[j] == if start <= j < start + i {
                    value@[j - start]
                } else {
                    before[j]
                },
        decreases value@.len() - i,
    {
        region[start + i] = value[i];
        i = i + 1;
    }
    assert(region@ =~= placed(before, start as int, value@));
    assert(region@.subrange(start as int, end as int) =~= value@);
    Ok((start, end))
}

/// Writing an object writes its bytes, in order, and nothing else: the region keeps its
/// length and every byte outside.
pub proof fn writing_an_object_writes_its_bytes(
    region: Seq<u8>,
    start: int,
    value: Seq<u8>,
    i: int,
)
    requires
        0 <= start,
        start + value.len() <= region.len(),
        0 <= i < region.len(),
    ensures
        placed(region, start, value).len() == region.len(),
        start <= i < start + value.len() ==> placed(region, start, value)[i] == value[i - start],
        !(start <= i < start + value.len()) ==> placed(region, start, value)[i] == region[i],
{
}

/// When a plan fails and how, and what it comes to otherwise. A wrong layout is reported
/// before a misaligned base, and that before a full region. A plan fails for want of room
/// exactly where no aligned offset at or above the watermark leaves enough of it, and
/// otherwise it takes the first such offset.
pub proof fn plans_take_the_first_place_that_fits(
    size: usize,
    align: usize,
    base: usize,
    region_len: usize,
    watermark: usize,
    ty: ObjectType,
    offset: int,
)
    requires
        watermark <= offset,
        offset % ty.align() as int == 0,
    ensures
        ({
            let r = planned(size, align, base, region_len, watermark, ty);
            let matching = size == ty.size() && align == ty.align();
            &&& !matching <==> r == Err::<(usize, usize), PlaceError>(PlaceError::LayoutMismatch)
            &&& matching && base % align != 0 <==> r == Err::<(usize, usize), PlaceError>(
                PlaceError::RegionMisaligned,
            )
            &&& matching && base % align == 0 && offset + size <= region_len ==> r is Ok
            &&& r matches Ok((start, end)) ==> {
                &&& watermark <= start <= offset
                &&& start % align == 0
                &&& end == start + size
                &&& end <= region_len
            }
        }),
{
    untyped::layouts_are_well_formed(ty);
    untyped::objects_take_the_first_place_that_fits(region_len, watermark, ty, offset);
}

/// Two objects placed one after the other lie in disjoint byte ranges, both read
/// back intact, and no byte outside the two ranges has changed.
pub proof fn placements_do_not_corrupt_each_other(
    region: Seq<u8>,
    watermark: usize,
    first_ty: ObjectType,
    first: Seq<u8>,
    between: usize,
    second_ty: ObjectType,
    second: Seq<u8>,
)
    requires
        first.len() == first_ty.size(),
        second.len() == second_ty.size(),
        untyped::placement_start(watermark, first_ty) + first.len() <= between,
        untyped::placement_start(between, second_ty) + second.len() <= region.len(),
    ensures
        ({
            let s1 = untyped::placement_start(watermark, first_ty);
            let s2 = untyped::placement_start(between, second_ty);
            let after = placed(placed(region, s1, first), s2, second);
            &&& 0 <= s1 < s1 + first.len() <= s2 < s2 + second.len() <= region.len()
            &&& after.len() == region.len()
            &&& after.subrange(s1, s1 + first.len()) == first
            &&& after.subrange(s2, s2 + second.len()) == second
            &&& forall|i: int|
                0 <= i < region.len() && !(s1 <= i < s1 + first.len()) && !(s2 <= i < s2
                    + second.len()) ==> #[trigger] after[i] == region[i]
        }),
{
    let s1 = untyped::placement_start(watermark, first_ty);
    let s2 = untyped::placement_start(between, second_ty);
    untyped::two_retypes_occupy_disjoint_bands(watermark, first_ty, second_ty, between);
    untyped::layouts_are_well_formed(first_ty);
    untyped::lemma_rounded_up(watermark as int, first_ty.align() as int);
    let once = placed(region, s1, first);
    let after = placed(once, s2, second);
    assert(once.len() == region.len());
    assert(after.subrange(s1, s1 + first.len()) =~= first);
    assert(after.subrange(s2, s2 + second.len()) =~= second);
}

} // verus!

use jos_core::placement::{place, plan, PlaceError};
use jos_core::untyped::ObjectType;

// the bytes of a stand-in object whose layout matches ObjectType::Endpoint
// (128 bytes, 64-aligned): a tag word, then zeros.
fn fake_endpoint(tag: u64) -> [u8; 128] {
    let mut bytes = [0u8; 128];
    bytes[0..8].copy_from_slice(&tag.to_ne_bytes());
    bytes
}

// places a stand-in endpoint into a region, at the region's real address.
fn place_endpoint(region: &mut [u8], watermark: usize, tag: u64) -> Result<(usize, usize), PlaceError> {
    let base = region.as_ptr() as usize;
    place(region, base, watermark, ObjectType::Endpoint, 64, &fake_endpoint(tag))
}

// returns a heap-backed byte buffer and the offset of its first `align`-aligned
// byte.
fn aligned_buf(len: usize, align: usize) -> (Box<[u8]>, usize) {
    // over-allocate, then report the offset to the first aligned byte.
    let buf = vec![0u8; len + align].into_boxed_slice();
    let base = buf.as_ptr() as usize;
    let offset = (align - (base % align)) % align;
    (buf, offset)
}

#[test]
fn places_endpoint_and_advances_watermark() {
    let (mut buf, off) = aligned_buf(256, 64);
    let region = &mut buf[off..off + 128];
    let (start, new_wm) = place_endpoint(region, 0, 0xABCD).unwrap();
    assert_eq!(start, 0);
    assert_eq!(new_wm, 128);
    // the placed tag reads back from the first 8 bytes.
    let tag = u64::from_ne_bytes(region[0..8].try_into().unwrap());
    assert_eq!(tag, 0xABCD);
}

#[test]
fn second_placement_respects_alignment_padding() {
    let (mut buf, off) = aligned_buf(384, 64);
    let region = &mut buf[off..off + 300];
    // first endpoint at 0..128.
    let (_, wm1) = place_endpoint(region, 0, 1).unwrap();
    assert_eq!(wm1, 128);
    // second endpoint: watermark 128 is already 64-aligned, lands at 128..256.
    let (start2, wm2) = place_endpoint(region, wm1, 2).unwrap();
    assert_eq!(start2, 128);
    assert_eq!(wm2, 256);
}

#[test]
fn two_placements_occupy_disjoint_ranges_without_corruption() {
    // two objects placed back to back land in disjoint byte ranges, and writing
    // the second does not disturb the first.
    let (mut buf, off) = aligned_buf(384, 64);
    let region = &mut buf[off..off + 300];

    let (start1, wm1) = place_endpoint(region, 0, 0x1111).unwrap();
    let (start2, wm2) = place_endpoint(region, wm1, 0x2222).unwrap();

    // the two committed bands are [start1, wm1) and [start2, wm2); disjoint
    // means the first ends at or before the second begins.
    assert!(wm1 <= start2, "second placement overlaps the first");
    assert!(wm2 > start2, "second band is empty");
    assert!(start1 < start2, "placements not in ascending order");

    // both tags read back intact: writing the second object did not corrupt
    // the first (which it would if the ranges overlapped).
    let tag1 = u64::from_ne_bytes(region[start1..start1 + 8].try_into().unwrap());
    let tag2 = u64::from_ne_bytes(region[start2..start2 + 8].try_into().unwrap());
    assert_eq!(tag1, 0x1111, "first object was corrupted by the second placement");
    assert_eq!(tag2, 0x2222, "second object did not land correctly");
}

#[test]
fn does_not_fit_when_region_too_small() {
    let (mut buf, off) = aligned_buf(128, 64);
    let region = &mut buf[off..off + 32]; // smaller than one 128-byte endpoint
    assert_eq!(place_endpoint(region, 0, 0), Err(PlaceError::DoesNotFit));
}

#[test]
fn layout_mismatch_is_rejected() {
    let (mut buf, off) = aligned_buf(128, 64);
    let region = &mut buf[off..off + 128];
    let base = region.as_ptr() as usize;
    // a u64 (8 bytes) does not match Endpoint's declared layout.
    assert_eq!(
        place(region, base, 0, ObjectType::Endpoint, 8, &0u64.to_ne_bytes()),
        Err(PlaceError::LayoutMismatch)
    );
}

#[test]
fn misaligned_region_is_rejected() {
    let (mut buf, off) = aligned_buf(256, 64);
    // start one byte past the aligned base, so the region is not 64-aligned.
    let region = &mut buf[off + 1..off + 1 + 128];
    assert_eq!(place_endpoint(region, 0, 0), Err(PlaceError::RegionMisaligned));
}

#[test]
fn placement_pads_and_leaves_other_bytes_alone() {
    let mut region = [0xEEu8; 300];
    // watermark 1 is padded up to 64; the object takes 64..192.
    let r = place(&mut region, 4096, 1, ObjectType::Endpoint, 64, &fake_endpoint(7));
    assert_eq!(r, Ok((64, 192)));
    assert!(region[..64].iter().all(|b| *b == 0xEE));
    assert!(region[192..].iter().all(|b| *b == 0xEE));
    assert_eq!(region[64..192], fake_endpoint(7));
}

#[test]
fn a_refused_placement_changes_nothing() {
    let mut region = [0xEEu8; 100];
    let r = place(&mut region, 4096, 0, ObjectType::Endpoint, 64, &fake_endpoint(7));
    assert_eq!(r, Err(PlaceError::DoesNotFit));
    assert!(region.iter().all(|b| *b == 0xEE));
}

#[test]
fn plan_reports_the_first_failing_check() {
    // the layout comes first, then the base, then the room.
    assert_eq!(plan(8, 8, 1, 0, 0, ObjectType::Endpoint), Err(PlaceError::LayoutMismatch));
    assert_eq!(plan(128, 64, 1, 0, 0, ObjectType::Endpoint), Err(PlaceError::RegionMisaligned));
    assert_eq!(plan(128, 64, 64, 0, 0, ObjectType::Endpoint), Err(PlaceError::DoesNotFit));
    assert_eq!(plan(512, 64, 64, 4096, 100, ObjectType::Tcb), Ok((128, 640)));
}

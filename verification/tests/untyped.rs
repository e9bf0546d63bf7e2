use jos_core::untyped::{
    CNODE_ALIGN, CNODE_SIZE, ENDPOINT_ALIGN, ENDPOINT_SIZE, ObjectType, PAGE_TABLE_SIZE,
    TCB_ALIGN, TCB_SIZE, align_up,
    object_layout, retype_fits,
};


// ---- object_layout returns power-of-two alignments --------------------

#[test]
fn endpoint_layout_is_power_of_two() {
    let (size, align) = object_layout(ObjectType::Endpoint);
    assert_eq!(size, ENDPOINT_SIZE);
    assert_eq!(align, ENDPOINT_ALIGN);
    assert!(size.is_power_of_two(), "Endpoint size must be a power of two");
    assert!(align.is_power_of_two(), "Endpoint align must be a power of two");
}

#[test]
fn cnode_layout_power_of_two() {
    // byte-size semantics: size = 2^size_bits bytes, align = size.
    for bits in 0_u8..=14 {
        let (size, align) = object_layout(ObjectType::CNode { size_bits: bits });
        let expected = 1_usize << bits;
        assert_eq!(size, expected, "CNode size_bits={bits}");
        assert_eq!(align, expected, "CNode align size_bits={bits}");
        assert!(
            size.is_power_of_two(),
            "CNode size must be a power of two for size_bits={bits}"
        );
        assert!(
            align.is_power_of_two(),
            "CNode align must be a power of two for size_bits={bits}"
        );
    }
}

#[test]
fn cnode_layout_matches_constants() {
    // the kernel's CNode is size_bits = 12 = one page.
    let (size, align) = object_layout(ObjectType::CNode { size_bits: 12 });
    assert_eq!(size, CNODE_SIZE);
    assert_eq!(align, CNODE_ALIGN);
    assert_eq!(size, 4096);
}

#[test]
fn untyped_layout_power_of_two() {
    for bits in 0_u8..=20 {
        let (size, align) = object_layout(ObjectType::Untyped { size_bits: bits });
        let expected = 1_usize << bits;
        assert_eq!(size, expected, "Untyped size_bits={bits}");
        assert_eq!(align, expected, "Untyped align size_bits={bits}");
        assert!(
            size.is_power_of_two(),
            "Untyped size must be a power of two for size_bits={bits}"
        );
    }
}

#[test]
fn page_table_layout_is_one_page() {
    let (size, align) = object_layout(ObjectType::PageTable);
    assert_eq!(size, PAGE_TABLE_SIZE);
    assert_eq!(align, PAGE_TABLE_SIZE);
    assert_eq!(size, 4096);
    // a page table must be page-aligned to serve as a hardware table frame.
    assert_eq!(align, 4096);
}

#[test]
fn tcb_layout_matches_constants() {
    let (size, align) = object_layout(ObjectType::Tcb);
    assert_eq!(size, TCB_SIZE);
    assert_eq!(align, TCB_ALIGN);
    // align divides size (like Endpoint), so a TCB_ALIGN-aligned placement
    // satisfies the object.
    assert_eq!(size % align, 0);
}

#[test]
fn page_table_and_tcb_fit_and_advance() {
    // both new object types place and advance the watermark like the others.
    let region = 8192;
    let pt = retype_fits(region, 0, ObjectType::PageTable).expect("page table fits");
    assert_eq!(pt, PAGE_TABLE_SIZE);
    let tcb = retype_fits(region, pt, ObjectType::Tcb).expect("tcb fits after page table");
    assert!(tcb > pt, "watermark must advance");
    // the tcb placement start is TCB_ALIGN-aligned.
    let (size, align) = object_layout(ObjectType::Tcb);
    assert_eq!((tcb - size) % align, 0);
}

// ---- cnode size scales with size_bits ---------------------------------

#[test]
fn cnode_size_scales_with_size_bits() {
    // byte-size semantics: size = 2^size_bits bytes.
    let (size0, _) = object_layout(ObjectType::CNode { size_bits: 0 });
    let (size4, _) = object_layout(ObjectType::CNode { size_bits: 4 });
    let (size12, _) = object_layout(ObjectType::CNode { size_bits: 12 });
    assert_eq!(size0, 1); // 2^0 = 1 byte
    assert_eq!(size4, 16); // 2^4 = 16 bytes
    assert_eq!(size12, 4096); // 2^12 = one page (the kernel CNode)
}

// ---- retype_fits places Endpoint at aligned offset --------------------

#[test]
fn retype_fits_endpoint_at_start() {
    // watermark=0, region large enough: should place at 0..ENDPOINT_SIZE.
    let region = 4096;
    let result = retype_fits(region, 0, ObjectType::Endpoint);
    assert_eq!(result, Some(ENDPOINT_SIZE));
}

#[test]
fn retype_fits_endpoint_applies_alignment_padding() {
    // watermark=1 requires padding to 64-byte boundary.
    // aligned = 64, new_watermark = 64 + 64 = 128.
    let region = 4096;
    let result = retype_fits(region, 1, ObjectType::Endpoint);
    assert_eq!(
        result,
        Some(ENDPOINT_ALIGN + ENDPOINT_SIZE),
        "watermark=1 should be padded to 64 then advance by 64"
    );
}

#[test]
fn retype_fits_endpoint_watermark_already_aligned() {
    // watermark=64 is already aligned; no padding needed.
    let result = retype_fits(4096, ENDPOINT_ALIGN, ObjectType::Endpoint);
    assert_eq!(result, Some(ENDPOINT_ALIGN + ENDPOINT_SIZE));
}

// ---- watermark advances correctly across two sequential retypes -------

#[test]
fn two_sequential_endpoints_advance_watermark() {
    let region = 4096;

    let nw1 = retype_fits(region, 0, ObjectType::Endpoint)
        .expect("first endpoint must fit");
    assert_eq!(nw1, ENDPOINT_SIZE); // placed at [0, ENDPOINT_SIZE)

    let nw2 = retype_fits(region, nw1, ObjectType::Endpoint)
        .expect("second endpoint must fit");
    // the second is 64-aligned already (ENDPOINT_SIZE is a multiple of
    // ENDPOINT_ALIGN), so it lands flush at [ENDPOINT_SIZE, 2*ENDPOINT_SIZE).
    assert_eq!(nw2, 2 * ENDPOINT_SIZE);

    // watermark strictly advanced both times
    assert!(nw1 > 0);
    assert!(nw2 > nw1);
}

#[test]
fn endpoint_then_cnode_sequential() {
    let region = 8192;

    let nw1 = retype_fits(region, 0, ObjectType::Endpoint)
        .expect("endpoint must fit");
    // endpoint: [0, ENDPOINT_SIZE)

    let cnode_ty = ObjectType::CNode { size_bits: 4 }; // 2^4 = 16 bytes
    let (cnode_size, cnode_align) = object_layout(cnode_ty);
    let nw2 = retype_fits(region, nw1, cnode_ty).expect("cnode must fit");

    let aligned_start = align_up(nw1, cnode_align);
    assert_eq!(nw2, aligned_start + cnode_size);
    assert!(nw2 > nw1, "watermark must advance");
}

// ---- returns None when object does not fit ----------------------------

#[test]
fn endpoint_does_not_fit_in_tiny_region() {
    // region smaller than one endpoint
    assert!(retype_fits(32, 0, ObjectType::Endpoint).is_none());
}

#[test]
fn endpoint_does_not_fit_after_region_full() {
    // watermark already at region_size: nothing can fit.
    let region = 128;
    assert!(retype_fits(region, region, ObjectType::Endpoint).is_none());
}

#[test]
fn object_does_not_fit_after_alignment_padding_pushes_past_end() {
    // region=65, watermark=1: align_up(1,64)=64, 64+ENDPOINT_SIZE > 65 => None.
    assert!(retype_fits(65, 1, ObjectType::Endpoint).is_none());
}

#[test]
fn untyped_does_not_fit_when_too_large() {
    // 2^20 = 1 MiB untyped in a 512 KiB region => None.
    let region: usize = 512 * 1024;
    assert!(
        retype_fits(region, 0, ObjectType::Untyped { size_bits: 20 }).is_none()
    );
}

// ---- align_up correctness -------------------------------------------

#[test]
fn align_up_already_aligned() {
    assert_eq!(align_up(64, 64), 64);
    assert_eq!(align_up(128, 64), 128);
    assert_eq!(align_up(0, 4096), 0);
}

#[test]
fn align_up_rounds_up() {
    assert_eq!(align_up(1, 64), 64);
    assert_eq!(align_up(63, 64), 64);
    assert_eq!(align_up(65, 64), 128);
    assert_eq!(align_up(1, 4096), 4096);
}

#[test]
fn align_up_align_one_is_identity() {
    // align=1: every value is already a multiple of 1.
    for v in [0_usize, 1, 17, 1023, 65535] {
        assert_eq!(align_up(v, 1), v);
    }
}

#[test]
fn align_up_overflow_does_not_panic() {
    // value near usize::MAX with align > 1: saturating_add must not panic,
    // and the result may be less than value (saturation clears low bits of
    // usize::MAX, which is already below the rounded-up ideal value).
    // the key property is that this call completes without panicking.
    let big = usize::MAX - 3;
    let _result = align_up(big, 64);

    // also verify values that are far from overflow round up correctly.
    let not_near_max = 1_usize;
    let result2 = align_up(not_near_max, 64);
    assert_eq!(result2, 64);
    assert!(result2 >= not_near_max);
}

// ---- new_watermark in range invariant --------------------------------

#[test]
fn retype_fits_new_watermark_in_range() {
    let region = 4096;
    let mut wm = 0_usize;
    let types = vec![
        ObjectType::Endpoint,
        ObjectType::CNode { size_bits: 2 },
        ObjectType::Untyped { size_bits: 6 },
        ObjectType::Endpoint,
    ];
    for ty in types {
        if let Some(nw) = retype_fits(region, wm, ty) {
            assert!(nw >= wm, "new_watermark must be >= old watermark");
            assert!(nw <= region, "new_watermark must not exceed region_size");
            assert!(nw > wm, "new_watermark must strictly advance");
            wm = nw;
        }
    }
}

// ---- placement start is aligned --------------------------------------

#[test]
fn placement_start_is_aligned_for_various_watermarks() {
    let region = 8192;
    for wm_start in [0_usize, 1, 7, 63, 64, 100, 127, 500] {
        for bits in 0_u8..=4 {
            let ty = ObjectType::CNode { size_bits: bits };
            let (size, align) = object_layout(ty);
            if let Some(nw) = retype_fits(region, wm_start, ty) {
                let start = nw - size;
                assert_eq!(
                    start % align,
                    0,
                    "placement start must be {align}-aligned \
                     (wm_start={wm_start}, size_bits={bits})"
                );
            }
        }
    }
}

// ---- extreme sizes -----------------------------------------------------

#[test]
fn an_oversized_layout_saturates() {
    for size_bits in [usize::BITS as u8, 200, 255] {
        assert_eq!(object_layout(ObjectType::CNode { size_bits }), (usize::MAX, usize::MAX));
        assert_eq!(object_layout(ObjectType::Untyped { size_bits }), (usize::MAX, usize::MAX));
        assert_eq!(retype_fits(1 << 40, 0, ObjectType::Untyped { size_bits }), None);
    }
    // the whole of the largest region, and nothing above its first byte.
    let huge = ObjectType::Untyped { size_bits: 255 };
    assert_eq!(retype_fits(usize::MAX, 0, huge), Some(usize::MAX));
    assert_eq!(retype_fits(usize::MAX, 1, huge), None);
}

#[test]
fn a_watermark_at_the_end_of_the_address_space_fits_nothing() {
    assert_eq!(retype_fits(usize::MAX, usize::MAX, ObjectType::Endpoint), None);
    assert_eq!(retype_fits(usize::MAX, usize::MAX - 10, ObjectType::Tcb), None);
    assert_eq!(retype_fits(100, 200, ObjectType::Endpoint), None);
}

#[test]
fn two_retypes_occupy_disjoint_bands() {
    let first = retype_fits(8192, 1, ObjectType::Endpoint).unwrap();
    assert_eq!(first, 64 + 128);
    let second = retype_fits(8192, first, ObjectType::PageTable).unwrap();
    assert_eq!(second, 8192);
    assert!(second - PAGE_TABLE_SIZE >= first);
}

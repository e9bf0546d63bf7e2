use jos_core::bitmap::Bitmap;

// helper: allocate backing storage for a small bitmap
fn make_words(n_words: usize) -> Vec<u64> {
    vec![0u64; n_words]
}

// ------------------------------------------------------------------
// basic set / get / clear round-trips
// ------------------------------------------------------------------

#[test]
fn set_get_clear() {
    let mut storage = make_words(1);
    let mut bm = Bitmap::new(&mut storage, 64);

    assert!(!bm.get(0));
    assert!(!bm.get(63));

    bm.set(0);
    assert!(bm.get(0));
    assert!(!bm.get(1));

    bm.set(63);
    assert!(bm.get(63));

    bm.clear(0);
    assert!(!bm.get(0));
    assert!(bm.get(63));

    bm.clear(63);
    assert!(!bm.get(63));
}

// ------------------------------------------------------------------
// alloc until full, then None
// ------------------------------------------------------------------

#[test]
fn alloc_until_full() {
    const N: usize = 130;
    let mut storage = make_words((N + 63) / 64);
    let mut bm = Bitmap::new(&mut storage, N);

    for expected in 0..N {
        let got = bm.allocate().expect("should have free frames");
        assert_eq!(got, expected, "alloc should return lowest free frame");
    }
    assert!(bm.allocate().is_none(), "bitmap is full -- should return None");
}

// ------------------------------------------------------------------
// free then re-alloc reuses the released slot
// ------------------------------------------------------------------

#[test]
fn free_then_realloc() {
    let mut storage = make_words(2);
    let mut bm = Bitmap::new(&mut storage, 128);

    // alloc the first 10 frames
    for _ in 0..10 {
        bm.allocate().unwrap();
    }
    assert_eq!(bm.count_free(), 118);

    // free frame 3
    bm.free(3);
    assert_eq!(bm.count_free(), 119);

    // next alloc must reuse frame 3 (lowest free)
    assert_eq!(bm.allocate().unwrap(), 3);
    assert_eq!(bm.count_free(), 118);
}

// ------------------------------------------------------------------
// conservation invariant: count_free + count_used == len_bits
// ------------------------------------------------------------------

#[test]
fn conservation_after_op_sequence() {
    const N: usize = 200;
    let mut storage = make_words((N + 63) / 64);
    let mut bm = Bitmap::new(&mut storage, N);

    let check = |bm: &Bitmap| {
        let free = bm.count_free();
        let used = bm.count_used();
        assert_eq!(free + used, N, "conservation violated: free={free} used={used}");
    };

    check(&bm);

    // alloc 100 frames one by one
    let mut allocated = Vec::new();
    for _ in 0..100 {
        let idx = bm.allocate().unwrap();
        allocated.push(idx);
        check(&bm);
    }
    assert_eq!(bm.count_used(), 100);

    // free every other allocated frame
    for &idx in allocated.iter().step_by(2) {
        bm.free(idx);
        check(&bm);
    }
    assert_eq!(bm.count_used(), 50);

    // re-alloc 10 more
    for _ in 0..10 {
        bm.allocate().unwrap();
        check(&bm);
    }
}

// ------------------------------------------------------------------
// alloc_contiguous across word boundaries (bits 62,63,64,65)
// ------------------------------------------------------------------

#[test]
fn contiguous_across_word_boundary() {
    let mut storage = make_words(3);
    let mut bm = Bitmap::new(&mut storage, 192);

    // alloc frames 0..62 to push the free region near the boundary
    for _ in 0..62 {
        bm.allocate().unwrap();
    }
    // frames 62,63,64,65 are now free; ask for 4 consecutive
    let start = bm
        .alloc_contiguous(4)
        .expect("should find 4 consecutive frames at boundary");
    assert_eq!(start, 62, "run should start at bit 62");

    // those four frames are now used
    for i in 62..66 {
        assert!(bm.get(i), "frame {i} should be used");
    }
    // frame 66 is still free
    assert!(!bm.get(66));
}

#[test]
fn contiguous_none_when_full() {
    let mut storage = make_words(1);
    let mut bm = Bitmap::new(&mut storage, 64);

    // fill completely
    for _ in 0..64 {
        bm.allocate().unwrap();
    }
    assert!(bm.alloc_contiguous(1).is_none());
}

#[test]
fn contiguous_fragmented_fails() {
    let mut storage = make_words(1);
    let mut bm = Bitmap::new(&mut storage, 64);

    // alloc then free alternating bits: every even bit is free, every odd used
    for i in 0..64 {
        bm.set(i);
    }
    for i in (0..64).step_by(2) {
        bm.clear(i);
    }
    // no 2-consecutive free bits exist
    assert!(bm.alloc_contiguous(2).is_none());
}

#[test]
fn contiguous_zero_count() {
    let mut storage = make_words(1);
    let mut bm = Bitmap::new(&mut storage, 64);
    // count=0 always succeeds, returns 0
    assert_eq!(bm.alloc_contiguous(0), Some(0));
}

// ------------------------------------------------------------------
// non-power-of-64 size: tail padding must not leak as free frames
// ------------------------------------------------------------------

#[test]
fn tail_padding_not_allocable() {
    // 65 bits -> 2 words; bits 65..127 are padding
    let mut storage = make_words(2);
    let mut bm = Bitmap::new(&mut storage, 65);

    assert_eq!(bm.count_free(), 65);

    // drain all 65 frames
    for i in 0..65 {
        let idx = bm.allocate().expect("should still have frames");
        assert!(idx < 65, "alloc returned out-of-range frame {idx} at step {i}");
    }
    assert!(bm.allocate().is_none(), "no more frames -- None expected");
}

// ------------------------------------------------------------------
// count_free reflects actual state
// ------------------------------------------------------------------

#[test]
fn count_free_tracks_state() {
    let mut storage = make_words(2);
    let mut bm = Bitmap::new(&mut storage, 128);
    assert_eq!(bm.count_free(), 128);

    bm.set(0);
    assert_eq!(bm.count_free(), 127);

    bm.set(127);
    assert_eq!(bm.count_free(), 126);

    bm.clear(0);
    assert_eq!(bm.count_free(), 127);
}

// ------------------------------------------------------------------
// padding, independence and counts
// ------------------------------------------------------------------

#[test]
fn every_padding_word_is_out_of_reach() {
    // three backing words for ten frames: two whole words of padding.
    let mut storage = make_words(3);
    let mut bm = Bitmap::new(&mut storage, 10);
    assert_eq!(bm.count_free(), 10);
    for i in 0..10 {
        assert_eq!(bm.allocate(), Some(i));
    }
    assert_eq!(bm.allocate(), None);
    assert_eq!(bm.count_used(), 10);
    assert_eq!(bm.count_free(), 0);
}

#[test]
fn padding_is_set_in_the_backing_words() {
    let mut storage = vec![0xFFu64; 2];
    Bitmap::new(&mut storage, 4);
    assert_eq!(storage, vec![!0xFu64, u64::MAX]);
}

#[test]
fn an_empty_bitmap_has_nothing_to_give() {
    let mut storage = make_words(1);
    let mut bm = Bitmap::new(&mut storage, 0);
    assert!(bm.is_empty());
    assert_eq!(bm.allocate(), None);
    assert_eq!(bm.alloc_contiguous(1), None);
    assert_eq!(bm.count_free(), 0);
}

#[test]
fn bits_do_not_disturb_each_other() {
    let mut storage = make_words(2);
    let mut bm = Bitmap::new(&mut storage, 100);
    bm.set(63);
    bm.set(64);
    bm.clear(63);
    for i in 0..100 {
        assert_eq!(bm.get(i), i == 64);
    }
}

#[test]
fn a_contiguous_run_is_the_lowest_one_and_spans_words() {
    let mut storage = make_words(2);
    let mut bm = Bitmap::new(&mut storage, 128);
    bm.set(2);
    bm.set(60);
    // 0..2 is too short, 3..60 has room for 57.
    assert_eq!(bm.alloc_contiguous(57), Some(3));
    assert_eq!(bm.alloc_contiguous(60), Some(61));
    assert_eq!(bm.count_free(), 128 - 2 - 57 - 60);
    assert_eq!(bm.alloc_contiguous(0), Some(0));
    assert_eq!(bm.alloc_contiguous(129), None);
}

#[test]
fn counts_are_conserved() {
    let mut storage = make_words(2);
    let mut bm = Bitmap::new(&mut storage, 70);
    for i in [0, 3, 65, 69] {
        bm.set(i);
        assert_eq!(bm.count_free() + bm.count_used(), 70);
    }
    bm.free(65);
    assert_eq!(bm.count_used(), 3);
}

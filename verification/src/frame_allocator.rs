//! Physical frame allocator: pure logic, no hardware.
//!
//! A [`FrameAllocator`] wraps a [`Bitmap`] and a physical base address to manage a
//! contiguous range of 4 KiB page frames. The bitmap tracks which frames are free;
//! this module provides the address arithmetic on top:
//!
//! - the address of frame `i` is `base + i * FRAME_SIZE`,
//! - the frame at `addr` is `(addr - base) / FRAME_SIZE`,
//!
//! and the two are inverses on the managed range ([`address_of_index_of_address`],
//! [`index_of_address_of_index`]).
use crate::bitmap;
use crate::bitmap::Bitmap;
use vstd::prelude::*;

verus! {

/// Size of one physical page frame in bytes (4 KiB).
pub const FRAME_SIZE: u64 = 4096;

/// The address of frame `index`.
pub open spec fn address_of(base: u64, index: int) -> int {
    base + index * FRAME_SIZE
}

/// The frame that holds `addr`.
pub open spec fn index_of(base: u64, addr: int) -> int {
    (addr - base) / FRAME_SIZE as int
}

/// Frame `i` is free and no lower frame is.
pub open spec fn lowest_free(used: Seq<bool>, i: int) -> bool {
    &&& 0 <= i < used.len()
    &&& !used[i]
    &&& forall|j: int| 0 <= j < i ==> #[trigger] used[j]
}

/// The `n` frames from `start` on are free, and no lower such run is.
pub open spec fn lowest_free_run(used: Seq<bool>, start: int, n: int) -> bool {
    &&& bitmap::free_run(used, start, n)
    &&& forall|s: int| 0 <= s < start ==> !bitmap::free_run(used, s, n)
}

/// Returns the physical address of frame `index` in an allocator whose first
/// frame starts at `base`. The address must be one that a `u64` can hold.
#[inline]
#[must_use]
pub fn frame_addr(base: u64, index: usize) -> (addr: u64)
    requires
        address_of(base, index as int) <= u64::MAX,
    ensures
        addr == address_of(base, index as int),
        addr == base + index * 4096,
        base % FRAME_SIZE == 0 ==> addr % FRAME_SIZE == 0,
{
    base + (index as u64) * FRAME_SIZE
}

/// Returns the frame index for a physical address `addr`, given the allocator's
/// `base` address, which must not lie above it.
#[inline]
#[must_use]
pub fn frame_index(base: u64, addr: u64) -> (index: usize)
    requires
        addr >= base,
    ensures
        index == index_of(base, addr as int) as usize,
        index_of(base, addr as int) <= usize::MAX ==> index == index_of(base, addr as int),
        (addr - base) / 4096 <= usize::MAX ==> index == (addr - base) / 4096,
{
    ((addr - base) / FRAME_SIZE) as usize
}

/// The mathematical model of a [`FrameAllocator`].
#[verifier::ext_equal]
pub struct FrameState {
    /// The address of frame 0.
    pub base: u64,
    /// Which frames are allocated.
    pub used: Seq<bool>,
}

/// A physical frame allocator backed by a [`Bitmap`].
pub struct FrameAllocator<'a> {
    bitmap: Bitmap<'a>,
    base: u64,
    frame_count: usize,
}

impl<'a> View for FrameAllocator<'a> {
    type V = FrameState;

    closed spec fn view(&self) -> FrameState {
        FrameState { base: self.base, used: self.bitmap@ }
    }
}

impl<'a> FrameAllocator<'a> {
    /// The borrowed words. Their final value is what the lender gets back.
    pub closed spec fn lent(self) -> &'a mut [u64] {
        self.bitmap.lent()
    }

    /// The bitmap tracks every managed frame, and the base is frame-aligned.
    pub closed spec fn wf(&self) -> bool {
        &&& self.bitmap.wf()
        &&& self.frame_count == self.bitmap@.len()
        &&& self.base % FRAME_SIZE == 0
    }

    /// The borrowed words hold one bit for each managed frame, and every bit beyond
    /// them is set.
    pub proof fn lemma_lent(&self)
        requires
            self.wf(),
        ensures
            self@.used.len() <= self.lent()@.len() * 64,
            bitmap::sealed(self.lent()@, self@.used.len() as int),
            forall|i: int|
                0 <= i < self@.used.len() ==> #[trigger] self@.used[i] == bitmap::bit(
                    self.lent()@,
                    i,
                ),
    {
        self.bitmap.lemma_lent();
    }

    /// Once the allocator is no longer used, the words that it holds are those that
    /// the lender gets back.
    pub proof fn lemma_given_back(self)
        requires
            has_resolved(self),
        ensures
            final(self.lent())@ == self.lent()@,
    {
        self.bitmap.lemma_given_back();
    }

    /// Creates a new `FrameAllocator` from a backing word slice, with all
    /// `frame_count` frames free.
    ///
    /// `base`, the address of frame 0, must be frame-aligned, and `storage` must
    /// hold at least `frame_count` bits.
    #[must_use]
    pub fn new(storage: &'a mut [u64], base: u64, frame_count: usize) -> (fa: Self)
        requires
            base % FRAME_SIZE == 0,
            frame_count <= storage@.len() * 64,
            storage@.len() * 64 <= usize::MAX,
        ensures
            fa.wf(),
            fa@.base == base,
            fa@.used == Seq::new(frame_count as nat, |i: int| false),
            final(fa.lent())@ == final(storage)@,
            fa.lent()@.len() == old(storage)@.len(),
    {
        let bitmap = Bitmap::new(storage, frame_count);
        FrameAllocator { bitmap, base, frame_count }
    }

    /// Allocates the lowest free frame and returns its physical address.
    ///
    /// Returns `None` when all frames are in use. The address of the frame must be
    /// one that a `u64` can hold.
    pub fn allocate_frame(&mut self) -> (r: Option<u64>)
        requires
            old(self).wf(),
            forall|i: int|
                lowest_free(old(self)@.used, i) ==> address_of(old(self)@.base, i) <= u64::MAX,
        ensures
            final(self).wf(),
            final(final(self).lent())@ == final(old(self).lent())@,
            final(self).lent()@.len() == old(self).lent()@.len(),
            final(self)@.base == old(self)@.base,
            match r {
                Some(addr) => {
                    let i = index_of(old(self)@.base, addr as int);
                    &&& lowest_free(old(self)@.used, i)
                    &&& addr == address_of(old(self)@.base, i)
                    &&& final(self)@.used == old(self)@.used.update(i, true)
                    &&& addr % FRAME_SIZE == 0
                    &&& old(self)@.base <= addr
                    &&& addr < address_of(old(self)@.base, old(self)@.used.len() as int)
                },
                None => {
                    &&& forall|i: int| 0 <= i < old(self)@.used.len() ==> #[trigger] old(
                        self,
                    )@.used[i]
                    &&& final(self)@ == old(self)@
                },
            },
            r matches Some(addr) ==> ({
                let i = (addr - old(self)@.base) / 4096;
                &&& addr == old(self)@.base + i * 4096
                &&& 0 <= i < old(self)@.used.len()
                &&& !old(self)@.used[i]
                &&& forall|j: int| 0 <= j < i ==> #[trigger] old(self)@.used[j]
                &&& final(self)@.used == old(self)@.used.update(i, true)
            }),
    {
        let ghost before = self@;
        match self.bitmap.allocate() {
            Some(idx) => {
                assert(lowest_free(before.used, idx as int));
                assert(index_of(before.base, address_of(before.base, idx as int)) == idx);
                Some(frame_addr(self.base, idx))
            },
            None => None,
        }
    }

    /// Deallocates the frame at physical address `addr`, returning it to the free
    /// pool.
    ///
    /// The address must be frame-aligned and within the managed range, and the
    /// frame must currently be allocated.
    pub fn deallocate_frame(&mut self, addr: u64)
        requires
            old(self).wf(),
            addr % FRAME_SIZE == 0,
            old(self)@.base <= addr,
            addr < address_of(old(self)@.base, old(self)@.used.len() as int),
            old(self)@.used[index_of(old(self)@.base, addr as int)],
        ensures
            final(self).wf(),
            final(final(self).lent())@ == final(old(self).lent())@,
            final(self).lent()@.len() == old(self).lent()@.len(),
            final(self)@.base == old(self)@.base,
            final(self)@.used == old(self)@.used.update(
                index_of(old(self)@.base, addr as int),
                false,
            ),
            final(self)@.used == old(self)@.used.update((addr - old(self)@.base) / 4096, false),
    {
        let idx: usize = frame_index(self.base, addr);
        self.bitmap.free(idx);
    }

    /// Allocates the lowest `count` physically contiguous free frames and returns
    /// the address of the first one. A request for none succeeds with the base
    /// address and changes nothing.
    ///
    /// Returns `None` when no suitable run exists in the free pool. The address
    /// must be one that a `u64` can hold.
    pub fn allocate_contiguous(&mut self, count: usize) -> (r: Option<u64>)
        requires
            old(self).wf(),
            forall|s: int|
                lowest_free_run(old(self)@.used, s, count as int) ==> address_of(old(self)@.base, s)
                    <= u64::MAX,
        ensures
            final(self).wf(),
            final(final(self).lent())@ == final(old(self).lent())@,
            final(self).lent()@.len() == old(self).lent()@.len(),
            final(self)@.base == old(self)@.base,
            count == 0 ==> r == Some(old(self)@.base) && final(self)@ == old(self)@,
            count > 0 ==> match r {
                Some(addr) => {
                    let s = index_of(old(self)@.base, addr as int);
                    &&& lowest_free_run(old(self)@.used, s, count as int)
                    &&& addr == address_of(old(self)@.base, s)
                    &&& final(self)@.used == bitmap::with_run_used(
                        old(self)@.used,
                        s,
                        count as int,
                    )
                    &&& addr % FRAME_SIZE == 0
                    &&& old(self)@.base <= addr
                    &&& addr + count * FRAME_SIZE <= address_of(
                        old(self)@.base,
                        old(self)@.used.len() as int,
                    )
                },
                None => {
                    &&& forall|s: int| !bitmap::free_run(old(self)@.used, s, count as int)
                    &&& final(self)@ == old(self)@
                },
            },
            count > 0 ==> (r matches Some(addr) ==> ({
                let s = (addr - old(self)@.base) / 4096;
                &&& addr == old(self)@.base + s * 4096
                &&& 0 <= s
                &&& s + count <= old(self)@.used.len()
                &&& forall|i: int| s <= i < s + count ==> !#[trigger] old(self)@.used[i]
                &&& forall|i: int| s <= i < s + count ==> #[trigger] final(self)@.used[i]
                &&& forall|i: int|
                    0 <= i < old(self)@.used.len() && !(s <= i < s + count) ==> #[trigger]
                        final(self)@.used[i] == old(self)@.used[i]
                &&& final(self)@.used.len() == old(self)@.used.len()
            })),
    {
        let ghost before = self@;
        match self.bitmap.alloc_contiguous(count) {
            Some(idx) => {
                proof {
                    if count > 0 {
                        assert(lowest_free_run(before.used, idx as int, count as int));
                    }
                    assert(index_of(before.base, address_of(before.base, idx as int)) == idx);
                }
                Some(frame_addr(self.base, idx))
            },
            None => None,
        }
    }

    /// Returns the number of free (unallocated) frames.
    #[inline]
    #[must_use]
    pub fn free_frames(&self) -> (n: usize)
        requires
            self.wf(),
        ensures
            n == bitmap::free_count(self@.used),
            n <= self@.used.len(),
    {
        self.bitmap.count_free()
    }

    /// Returns the total number of frames managed by this allocator.
    #[inline]
    #[must_use]
    pub fn frame_count(&self) -> (n: usize)
        requires
            self.wf(),
        ensures
            n == self@.used.len(),
    {
        self.frame_count
    }

    /// Returns the physical base address (address of frame 0).
    #[inline]
    #[must_use]
    pub fn base(&self) -> (base: u64)
        ensures
            base == self@.base,
    {
        self.base
    }
}

/// The frames lie side by side from the base on, 4096 bytes each: an address at or above
/// the base is in frame `i` exactly if it lies between the start of that frame and the
/// start of the next.
pub proof fn frames_lie_side_by_side(base: u64, addr: int, i: int)
    requires
        addr >= base,
        i >= 0,
    ensures
        address_of(base, 0) == base,
        address_of(base, i + 1) - address_of(base, i) == 4096,
        index_of(base, addr) == i <==> address_of(base, i) <= addr < address_of(base, i + 1),
{
}

/// What is handed out is the lowest: of a single frame all below it are used, and of a run
/// every place below it is cut off by a used frame or the end. At most one place is the
/// lowest.
pub proof fn the_lowest_place_is_unique(used: Seq<bool>, a: int, b: int, n: int)
    requires
        n >= 0,
    ensures
        lowest_free(used, a) && lowest_free(used, b) ==> a == b,
        lowest_free_run(used, a, n) && lowest_free_run(used, b, n) ==> a == b,
        lowest_free(used, a) <==> lowest_free_run(used, a, 1),
        lowest_free_run(used, a, n) && 0 <= b < a ==> exists|i: int|
            b <= i < b + n && #[trigger] used[i],
        (exists|i: int| 0 <= i < used.len() && !#[trigger] used[i]) ==> exists|i: int|
            lowest_free(used, i),
{
    if lowest_free(used, a) {
        assert forall|s: int| 0 <= s < a implies !bitmap::free_run(used, s, 1) by {
            assert(used[s]);
        }
    }
    if lowest_free_run(used, a, 1) {
        assert forall|j: int| 0 <= j < a implies #[trigger] used[j] by {
            assert(!bitmap::free_run(used, j, 1));
        }
    }
    if lowest_free_run(used, a, n) && 0 <= b < a {
        assert(!bitmap::free_run(used, b, n));
    }
    if exists|i: int| 0 <= i < used.len() && !#[trigger] used[i] {
        let i = choose|i: int| 0 <= i < used.len() && !#[trigger] used[i];
        lemma_lowest_exists(used, i);
    }
}

/// Where a frame is free, a lowest one is.
proof fn lemma_lowest_exists(used: Seq<bool>, i: int)
    requires
        0 <= i < used.len(),
        !used[i],
    ensures
        exists|k: int| lowest_free(used, k),
    decreases i,
{
    if exists|j: int| 0 <= j < i && !#[trigger] used[j] {
        let j = choose|j: int| 0 <= j < i && !#[trigger] used[j];
        lemma_lowest_exists(used, j);
    } else {
        assert(lowest_free(used, i));
    }
}

/// Converting an index to an address and back yields the index.
pub proof fn index_of_address_of_index(base: u64, i: int)
    requires
        i >= 0,
    ensures
        index_of(base, address_of(base, i)) == i,
{
}

/// Converting a frame-aligned address at or above the base to an index and back
/// yields the address, and the index is in range exactly when the address is.
pub proof fn address_of_index_of_address(base: u64, addr: int, frames: int)
    requires
        base % FRAME_SIZE == 0,
        addr % FRAME_SIZE as int == 0,
        addr >= base,
    ensures
        address_of(base, index_of(base, addr)) == addr,
        index_of(base, addr) >= 0,
        index_of(base, addr) < frames <==> addr < address_of(base, frames),
{
}

/// Allocating a frame and deallocating it again is a no-op, and in between
/// exactly one frame fewer is free.
pub proof fn alloc_then_dealloc_is_identity(used: Seq<bool>, i: int)
    requires
        lowest_free(used, i),
    ensures
        used.update(i, true).update(i, false) == used,
        bitmap::free_count(used.update(i, true)) == bitmap::free_count(used) - 1,
        bitmap::free_count(used.update(i, true).update(i, false)) == bitmap::free_count(used),
{
    bitmap::marking_changes_the_count_by_one(used, i);
}

} // verus!

//! Bitmap frame allocator: pure logic, no hardware.
//!
//! Each bit in the backing `u64` slice represents one physical page frame: `1`
//! means the frame is **used**, `0` means it is **free**. Allocation is thus a
//! "find first zero" scan.
//!
//! `Bitmap<'a>` borrows its words rather than owning an array, since a real frame
//! allocator receives its backing store as a runtime-sized region at early boot.
//!
//! The model of a bitmap is the sequence of its tracked bits. The bits beyond
//! them, in `[len_bits, words.len() * 64)`, are always set, so that a scan over
//! whole words never takes one of them for a free frame.
use crate::counting;
use vstd::prelude::*;

verus! {

/// The number of bits packed into one backing word.
pub const BITS_PER_WORD: usize = 64;

/// Bit `b` of `word`.
pub open spec fn word_bit(word: u64, b: int) -> bool {
    (word >> (b as u64)) & 1 == 1
}

/// Bit `i` of the bit string that `words` hold.
pub open spec fn bit(words: Seq<u64>, i: int) -> bool {
    word_bit(words[i / 64], i % 64)
}

/// No bit at or after `len` is clear.
pub open spec fn sealed(words: Seq<u64>, len: int) -> bool {
    forall|i: int| len <= i < words.len() * 64 ==> #[trigger] bit(words, i)
}

/// The `n` frames from `start` on are all free.
pub open spec fn free_run(used: Seq<bool>, start: int, n: int) -> bool {
    &&& 0 <= start
    &&& start + n <= used.len()
    &&& forall|i: int| start <= i < start + n ==> !#[trigger] used[i]
}

/// `used` with the `n` frames from `start` on marked used.
pub open spec fn with_run_used(used: Seq<bool>, start: int, n: int) -> Seq<bool> {
    Seq::new(used.len(), |i: int| used[i] || start <= i < start + n)
}

/// The number of free frames.
pub open spec fn free_count(used: Seq<bool>) -> nat {
    counting::count(Seq::new(used.len(), |i: int| !used[i]))
}

/// What setting, clearing and testing one bit of a word does to each bit.
proof fn lemma_word_bits(word: u64, b: u64, c: u64)
    requires
        b < 64,
        c < 64,
    ensures
        (word & (1u64 << b) != 0) == word_bit(word, b as int),
        word_bit(word | (1u64 << b), c as int) == (b == c || word_bit(word, c as int)),
        word_bit(word & !(1u64 << b), c as int) == (b != c && word_bit(word, c as int)),
        word_bit(word | !(((1u64 << b) - 1) as u64), c as int) == (c >= b || word_bit(
            word,
            c as int,
        )),
        (1u64 << b) >= 1,
        !word_bit(0, c as int),
        word_bit(u64::MAX, c as int),
{
    assert({
        &&& (word & (1u64 << b) != 0) == ((word >> b) & 1 == 1)
        &&& ((word | (1u64 << b)) >> c) & 1 == 1 <==> (b == c || (word >> c) & 1 == 1)
        &&& ((word & !(1u64 << b)) >> c) & 1 == 1 <==> (b != c && (word >> c) & 1 == 1)
        &&& ((word | !(((1u64 << b) - 1) as u64)) >> c) & 1 == 1 <==> (c >= b || (word >> c) & 1
            == 1)
        &&& (1u64 << b) >= 1
        &&& (0u64 >> c) & 1 != 1
        &&& (0xffff_ffff_ffff_ffffu64 >> c) & 1 == 1
    }) by (bit_vector)
        requires
            b < 64,
            c < 64,
    ;
}

/// Writing the word of bit `idx` changes the bits of that word only.
proof fn lemma_other_words(words: Seq<u64>, k: int, word: u64, i: int)
    requires
        0 <= k < words.len(),
        0 <= i < words.len() * 64,
    ensures
        bit(words.update(k, word), i) == if i / 64 == k {
            word_bit(word, i % 64)
        } else {
            bit(words, i)
        },
{
}

/// Returns the index of the `u64` word that contains bit `idx`.
#[inline]
fn word_index(idx: usize) -> (k: usize)
    ensures
        k == idx / 64,
{
    idx / BITS_PER_WORD
}

/// Returns which bit within its word corresponds to `idx`, always in `0..64`.
#[inline]
fn bit_index(idx: usize) -> (b: usize)
    ensures
        b == idx % 64,
        b < 64,
{
    idx % BITS_PER_WORD
}

/// Returns a mask with exactly the one bit that represents `idx` set.
#[inline]
fn bit_mask(idx: usize) -> (mask: u64)
    ensures
        mask == 1u64 << (idx % 64) as u64,
{
    1u64 << bit_index(idx) as u64
}

/// A fixed-capacity bitmap backed by a borrowed slice of `u64` words.
pub struct Bitmap<'a> {
    words: &'a mut [u64],
    len_bits: usize,
}

impl<'a> View for Bitmap<'a> {
    type V = Seq<bool>;

    /// Which of the tracked frames are used.
    closed spec fn view(&self) -> Seq<bool> {
        Seq::new(self.len_bits as nat, |i: int| bit(self.words@, i))
    }
}

impl<'a> Bitmap<'a> {
    /// The borrowed words. Their final value is what the lender gets back.
    pub closed spec fn lent(self) -> &'a mut [u64] {
        self.words
    }

    /// Every tracked bit has a backing word, and every bit beyond is set.
    pub closed spec fn wf(&self) -> bool {
        &&& self.len_bits <= self.words@.len() * 64
        &&& self.words@.len() * 64 <= usize::MAX
        &&& sealed(self.words@, self.len_bits as int)
    }

    /// The borrowed words hold the tracked bits, and every bit beyond them is set.
    pub proof fn lemma_lent(&self)
        requires
            self.wf(),
        ensures
            self@.len() <= self.lent()@.len() * 64,
            sealed(self.lent()@, self@.len() as int),
            forall|i: int| 0 <= i < self@.len() ==> #[trigger] self@[i] == bit(self.lent()@, i),
    {
    }

    /// Once the bitmap is no longer used, the words that it holds are those that the
    /// lender gets back.
    pub proof fn lemma_given_back(self)
        requires
            has_resolved(self),
        ensures
            final(self.lent())@ == self.lent()@,
    {
    }

    /// Creates a new `Bitmap` from `words` tracking `len_bits` frames, all free.
    ///
    /// The words must hold at least `len_bits` bits, and a `usize` must be able to
    /// count the bits that they hold.
    pub fn new(words: &'a mut [u64], len_bits: usize) -> (bm: Self)
        requires
            len_bits <= words@.len() * 64,
            words@.len() * 64 <= usize::MAX,
        ensures
            bm.wf(),
            bm@ == Seq::new(len_bits as nat, |i: int| false),
            final(bm.lent())@ == final(words)@,
            bm.lent()@.len() == old(words)@.len(),
    {
        let n: usize = words.len();
        let mut k: usize = 0;
        while k < n
            invariant
                k <= n,
                n == words@.len(),
                forall|j: int| 0 <= j < k ==> words@[j] == 0,
            decreases n - k,
        {
            words[k] = 0;
            k = k + 1;
        }
        let mut bm = Bitmap { words, len_bits };
        bm.seal_tail();
        proof {
            assert forall|i: int| 0 <= i < len_bits implies !bit(bm.words@, i) by {
                assert(bm@[i] == bit(bm.words@, i));
                lemma_word_bits(0, 0, (i % 64) as u64);
            }
            assert(bm@ =~= Seq::new(len_bits as nat, |i: int| false));
        }
        bm
    }

    // forces all bits in `[len_bits, words.len() * 64)` to `1`.
    fn seal_tail(&mut self)
        requires
            old(self).len_bits <= old(self).words@.len() * 64,
            old(self).words@.len() * 64 <= usize::MAX,
        ensures
            final(self).wf(),
            final(self).len_bits == old(self).len_bits,
            final(final(self).lent())@ == final(old(self).lent())@,
            final(self).lent()@.len() == old(self).lent()@.len(),
            forall|i: int|
                0 <= i < old(self).len_bits ==> #[trigger] bit(final(self).words@, i) == bit(
                    old(self).words@,
                    i,
                ),
    {
        let n: usize = self.words.len();
        let mut k: usize = word_index(self.len_bits);
        let ghost before = self.words@;
        let ghost len = self.len_bits as int;
        if k < n {
            // the first padded word may be partially used by real bits; the mask
            // covers the bits above the last of them.
            let b: u64 = bit_index(self.len_bits) as u64;
            proof {
                lemma_word_bits(0, b, 0);
            }
            let tail_mask: u64 = !((1u64 << b) - 1);
            self.words[k] = self.words[k] | tail_mask;
            proof {
                assert forall|i: int| 0 <= i < (k + 1) * 64 implies #[trigger] bit(self.words@, i)
                    == (i >= len || bit(before, i)) by {
                    lemma_word_bits(before[k as int], b, (i % 64) as u64);
                    lemma_other_words(before, k as int, self.words@[k as int], i);
                    assert(self.words@ =~= before.update(k as int, self.words@[k as int]));
                }
            }
            k = k + 1;
        }
        while k < n
            invariant
                k <= n,
                n == self.words@.len(),
                self.len_bits == len,
                self.words@.len() == before.len(),
                final(self.lent())@ == final(old(self).lent())@,
                self.lent()@.len() == old(self).lent()@.len(),
                forall|i: int|
                    0 <= i < k * 64 ==> #[trigger] bit(self.words@, i) == (i >= len || bit(
                        before,
                        i,
                    )),
                len <= k * 64,
            decreases n - k,
        {
            let ghost current = self.words@;
            self.words[k] = u64::MAX;
            proof {
                assert forall|i: int| 0 <= i < (k + 1) * 64 implies #[trigger] bit(self.words@, i)
                    == (i >= len || bit(before, i)) by {
                    lemma_word_bits(0, 0, (i % 64) as u64);
                    lemma_other_words(current, k as int, u64::MAX, i);
                    if i < k * 64 {
                        assert(bit(current, i) == (i >= len || bit(before, i)));
                    }
                }
            }
            k = k + 1;
        }
    }

    /// Returns the total number of bits this bitmap tracks.
    #[must_use]
    #[inline]
    pub fn len_bits(&self) -> (n: usize)
        ensures
            n == self@.len(),
    {
        self.len_bits
    }

    /// Returns `true` if the bitmap tracks zero frames.
    #[must_use]
    #[inline]
    pub fn is_empty(&self) -> (b: bool)
        ensures
            b == (self@.len() == 0),
    {
        self.len_bits == 0
    }

    /// Returns `true` if frame `idx` is currently **used**.
    #[must_use]
    #[inline]
    pub fn get(&self, idx: usize) -> (used: bool)
        requires
            self.wf(),
            idx < self@.len(),
        ensures
            used == self@[idx as int],
    {
        proof {
            lemma_word_bits(self.words@[idx as int / 64], (idx % 64) as u64, 0);
        }
        let word: u64 = self.words[word_index(idx)];
        (word & bit_mask(idx)) != 0
    }

    /// Marks frame `idx` as **used**.
    #[inline]
    pub fn set(&mut self, idx: usize)
        requires
            old(self).wf(),
            idx < old(self)@.len(),
        ensures
            final(self).wf(),
            final(final(self).lent())@ == final(old(self).lent())@,
            final(self).lent()@.len() == old(self).lent()@.len(),
            final(self)@ == old(self)@.update(idx as int, true),
    {
        let ghost before = self.words@;
        let ghost used = self@;
        let k: usize = word_index(idx);
        let word: u64 = self.words[k];
        self.words[k] = word | bit_mask(idx);
        proof {
            assert forall|i: int| 0 <= i < before.len() * 64 implies #[trigger] bit(self.words@, i)
                == (i == idx || bit(before, i)) by {
                lemma_word_bits(word, (idx % 64) as u64, (i % 64) as u64);
                lemma_other_words(before, k as int, self.words@[k as int], i);
            }
            assert(self@ =~= used.update(idx as int, true));
        }
    }

    /// Marks frame `idx` as **free**.
    #[inline]
    pub fn clear(&mut self, idx: usize)
        requires
            old(self).wf(),
            idx < old(self)@.len(),
        ensures
            final(self).wf(),
            final(final(self).lent())@ == final(old(self).lent())@,
            final(self).lent()@.len() == old(self).lent()@.len(),
            final(self)@ == old(self)@.update(idx as int, false),
    {
        let ghost before = self.words@;
        let ghost used = self@;
        let k: usize = word_index(idx);
        let word: u64 = self.words[k];
        self.words[k] = word & !bit_mask(idx);
        proof {
            assert forall|i: int| 0 <= i < before.len() * 64 implies #[trigger] bit(self.words@, i)
                == (i != idx && bit(before, i)) by {
                lemma_word_bits(word, (idx % 64) as u64, (i % 64) as u64);
                lemma_other_words(before, k as int, self.words@[k as int], i);
            }
            assert(self@ =~= used.update(idx as int, false));
        }
    }

    /// Marks the used frame `idx` free. Freeing a free frame is ruled out.
    pub fn free(&mut self, idx: usize)
        requires
            old(self).wf(),
            idx < old(self)@.len(),
            old(self)@[idx as int],
        ensures
            final(self).wf(),
            final(final(self).lent())@ == final(old(self).lent())@,
            final(self).lent()@.len() == old(self).lent()@.len(),
            final(self)@ == old(self)@.update(idx as int, false),
    {
        self.clear(idx);
    }

    /// Finds the lowest free frame, marks it used, and returns its index.
    ///
    /// Returns `None` if no free frames remain.
    pub fn allocate(&mut self) -> (r: Option<usize>)
        requires
            old(self).wf(),
        ensures
            final(self).wf(),
            final(final(self).lent())@ == final(old(self).lent())@,
            final(self).lent()@.len() == old(self).lent()@.len(),
            match r {
                Some(idx) => {
                    &&& idx < old(self)@.len()
                    &&& !old(self)@[idx as int]
                    &&& forall|i: int| 0 <= i < idx ==> #[trigger] old(self)@[i]
                    &&& final(self)@ == old(self)@.update(idx as int, true)
                },
                None => {
                    &&& forall|i: int| 0 <= i < old(self)@.len() ==> #[trigger] old(self)@[i]
                    &&& final(self)@ == old(self)@
                },
            },
    {
        let n: usize = self.words.len();
        let mut k: usize = 0;
        while k < n
            invariant
                k <= n,
                n == self.words@.len(),
                *self == *old(self),
                self.wf(),
                forall|i: int| 0 <= i < k * 64 ==> #[trigger] bit(self.words@, i),
            decreases n - k,
        {
            let word: u64 = self.words[k];
            if word == u64::MAX {
                // all 64 bits are used: skip the whole word.
                proof {
                    assert forall|i: int| 0 <= i < (k + 1) * 64 implies #[trigger] bit(
                        self.words@,
                        i,
                    ) by {
                        lemma_word_bits(0, 0, (i % 64) as u64);
                    }
                }
                k = k + 1;
            } else {
                // the number of trailing ones is the position of the lowest zero.
                let bit_pos: u32 = word.trailing_ones();
                proof {
                    vstd::std_specs::bits::axiom_u64_trailing_ones(word);
                    assert(!word_bit(word, bit_pos as int)) by {
                        lemma_low_bit((word >> (bit_pos as u64)));
                    }
                    assert forall|i: int| 0 <= i < k * 64 + bit_pos implies #[trigger] bit(
                        self.words@,
                        i,
                    ) by {
                        if i >= k * 64 {
                            let j = (i % 64) as u64;
                            assert((word >> j) & 1u64 == 1u64);
                        }
                    }
                    let idx = k * 64 + bit_pos;
                    assert(!bit(self.words@, idx));
                    assert(idx < self.len_bits);
                    assert(forall|i: int|
                        0 <= i < self@.len() ==> self@[i] == bit(self.words@, i));
                    assert forall|i: int| 0 <= i < idx implies #[trigger] self@[i] by {
                        assert(bit(self.words@, i));
                    }
                }
                let idx: usize = k * BITS_PER_WORD + bit_pos as usize;
                self.set(idx);
                return Some(idx);
            }
        }
        proof {
            assert forall|i: int| 0 <= i < self@.len() implies #[trigger] self@[i] by {
                assert(bit(self.words@, i));
            }
        }
        None
    }

    /// Finds the first `count` consecutive free frames, marks them all used, and
    /// returns the index of the first frame. A request for none succeeds with
    /// index `0` and changes nothing.
    ///
    /// Returns `None` if no such run exists.
    pub fn alloc_contiguous(&mut self, count: usize) -> (r: Option<usize>)
        requires
            old(self).wf(),
        ensures
            final(self).wf(),
            final(final(self).lent())@ == final(old(self).lent())@,
            final(self).lent()@.len() == old(self).lent()@.len(),
            count == 0 ==> r == Some(0usize) && final(self)@ == old(self)@,
            count > 0 ==> match r {
                Some(start) => {
                    &&& free_run(old(self)@, start as int, count as int)
                    &&& forall|s: int| 0 <= s < start ==> !free_run(old(self)@, s, count as int)
                    &&& final(self)@ == with_run_used(old(self)@, start as int, count as int)
                },
                None => {
                    &&& forall|s: int| !free_run(old(self)@, s, count as int)
                    &&& final(self)@ == old(self)@
                },
            },
            r matches Some(start) ==> {
                &&& start + count <= old(self)@.len()
                &&& forall|i: int| start <= i < start + count ==> !#[trigger] old(self)@[i]
                &&& forall|i: int| start <= i < start + count ==> #[trigger] final(self)@[i]
                &&& forall|i: int|
                    0 <= i < old(self)@.len() && !(start <= i < start + count) ==> #[trigger]
                        final(self)@[i] == old(self)@[i]
                &&& final(self)@.len() == old(self)@.len()
            },
    {
        if count == 0 {
            return Some(0);
        }
        if count > self.len_bits {
            return None;
        }
        let limit: usize = self.len_bits - count;
        let mut start: usize = 0;
        while start <= limit
            invariant
                *self == *old(self),
                self.wf(),
                0 < count <= self.len_bits,
                limit == self.len_bits - count,
                start <= self.len_bits,
                forall|s: int| 0 <= s < start ==> !free_run(self@, s, count as int),
            decreases self.len_bits - start,
        {
            // look for the first used frame in [start, start + count).
            let mut offset: usize = 0;
            while offset < count && !self.get(start + offset)
                invariant
                    self.wf(),
                    offset <= count,
                    start + count <= self@.len(),
                    self@.len() == self.len_bits,
                    forall|i: int| start <= i < start + offset ==> !#[trigger] self@[i],
                decreases count - offset,
            {
                offset = offset + 1;
            }
            if offset == count {
                assert(free_run(self@, start as int, count as int));
                self.mark_run(start, count);
                return Some(start);
            }
            // that frame is used: advance past it.
            proof {
                let taken = (start + offset) as int;
                assert(self@[taken]);
                assert forall|s: int| 0 <= s < taken + 1 implies !free_run(
                    self@,
                    s,
                    count as int,
                ) by {
                    if s >= start {
                        assert(s <= taken < s + count);
                    }
                }
            }
            start = start + offset + 1;
        }
        proof {
            assert forall|s: int| !free_run(self@, s, count as int) by {
                assert(self@.len() == self.len_bits);
            }
        }
        None
    }

    // marks the frames in `[start, start + count)` used.
    fn mark_run(&mut self, start: usize, count: usize)
        requires
            old(self).wf(),
            start + count <= old(self)@.len(),
        ensures
            final(self).wf(),
            final(final(self).lent())@ == final(old(self).lent())@,
            final(self).lent()@.len() == old(self).lent()@.len(),
            final(self)@ == with_run_used(old(self)@, start as int, count as int),
    {
        let ghost used = self@;
        let mut offset: usize = 0;
        assert(self@ =~= with_run_used(used, start as int, 0));
        while offset < count
            invariant
                self.wf(),
                final(self.lent())@ == final(old(self).lent())@,
                self.lent()@.len() == old(self).lent()@.len(),
                offset <= count,
                start + count <= used.len(),
                self@ == with_run_used(used, start as int, offset as int),
            decreases count - offset,
        {
            assert(self@.len() == self.len_bits);
            self.set(start + offset);
            offset = offset + 1;
            assert(self@ =~= with_run_used(used, start as int, offset as int));
        }
    }

    /// Returns the number of free frames.
    #[must_use]
    pub fn count_free(&self) -> (n: usize)
        requires
            self.wf(),
        ensures
            n == free_count(self@),
            n <= self@.len(),
    {
        let ghost free = Seq::new(self@.len(), |i: int| !self@[i]);
        let mut n: usize = 0;
        let mut idx: usize = 0;
        while idx < self.len_bits
            invariant
                self.wf(),
                idx <= self.len_bits,
                self@.len() == self.len_bits,
                free == Seq::new(self@.len(), |i: int| !self@[i]),
                n == counting::count(free.take(idx as int)),
                n <= idx,
            decreases self.len_bits - idx,
        {
            proof {
                counting::lemma_count_push(free.take(idx as int), free[idx as int]);
                assert(free.take(idx as int).push(free[idx as int]) =~= free.take(idx + 1));
            }
            if !self.get(idx) {
                n = n + 1;
            }
            idx = idx + 1;
        }
        assert(free.take(self.len_bits as int) =~= free);
        n
    }

    /// Returns the number of used frames, padding excluded.
    #[must_use]
    pub fn count_used(&self) -> (n: usize)
        requires
            self.wf(),
        ensures
            n == counting::count(self@),
            n + free_count(self@) == self@.len(),
    {
        proof {
            conservation(self@);
        }
        self.len_bits - self.count_free()
    }
}

proof fn lemma_low_bit(x: u64)
    ensures
        x & 1 == 0 <==> x & 1 != 1,
{
    assert(x & 1 == 0 || x & 1 == 1) by (bit_vector);
}

/// Every tracked frame is either free or used.
pub proof fn conservation(used: Seq<bool>)
    ensures
        free_count(used) + counting::count(used) == used.len(),
{
    let free = Seq::new(used.len(), |i: int| !used[i]);
    let all = Seq::new(used.len(), |i: int| true);
    counting::lemma_count_split(free, used, all);
    counting::lemma_count_bounds(all);
}

/// Marking a free frame used takes one from the free count, and freeing it gives
/// it back.
pub proof fn marking_changes_the_count_by_one(used: Seq<bool>, i: int)
    requires
        0 <= i < used.len(),
        !used[i],
    ensures
        free_count(used.update(i, true)) == free_count(used) - 1,
        used.update(i, true).update(i, false) == used,
{
    conservation(used);
    conservation(used.update(i, true));
    counting::lemma_count_update(used, i, true);
    assert(used.update(i, true).update(i, false) =~= used);
}

/// Marking a free run used takes exactly its length from the free count.
pub proof fn marking_a_run_changes_the_count_by_its_length(used: Seq<bool>, start: int, n: int)
    requires
        n >= 0,
        free_run(used, start, n),
    ensures
        free_count(with_run_used(used, start, n)) == free_count(used) - n,
    decreases n,
{
    if n == 0 {
        assert(with_run_used(used, start, n) =~= used);
    } else {
        let fewer = with_run_used(used, start, n - 1);
        marking_a_run_changes_the_count_by_its_length(used, start, n - 1);
        assert(!used[start + n - 1]);
        marking_changes_the_count_by_one(fewer, start + n - 1);
        assert(with_run_used(used, start, n) =~= fewer.update(start + n - 1, true));
    }
}

/// A run of one frame is that frame, a run of none is a place in range, and a longer run
/// is free exactly if both parts are into which it can be cut at any point.
pub proof fn runs_are_made_of_frames(used: Seq<bool>, start: int, m: int, n: int)
    requires
        m >= 0,
        n >= 0,
    ensures
        free_run(used, start, 0) <==> 0 <= start <= used.len(),
        free_run(used, start, 1) <==> 0 <= start < used.len() && !used[start],
        free_run(used, start, m + n) <==> free_run(used, start, m) && free_run(used, start + m, n),
{
}

/// Marking a run used sets exactly the frames of the run, and marking it part by part is
/// marking it at once.
pub proof fn marking_a_run_sets_its_frames(used: Seq<bool>, start: int, m: int, n: int, i: int)
    requires
        0 <= i < used.len(),
        m >= 0,
        n >= 0,
    ensures
        with_run_used(used, start, n).len() == used.len(),
        start <= i < start + n ==> with_run_used(used, start, n)[i],
        !(start <= i < start + n) ==> with_run_used(used, start, n)[i] == used[i],
        with_run_used(with_run_used(used, start, m), start + m, n) == with_run_used(
            used,
            start,
            m + n,
        ),
{
    assert(with_run_used(with_run_used(used, start, m), start + m, n) =~= with_run_used(
        used,
        start,
        m + n,
    ));
}

/// The free count is zero exactly where every frame is used, and every frame counts where
/// none is.
pub proof fn free_count_counts_free_frames(used: Seq<bool>)
    ensures
        free_count(used) <= used.len(),
        free_count(used) == 0 <==> forall|i: int| 0 <= i < used.len() ==> #[trigger] used[i],
        free_count(used) == used.len() <==> forall|i: int|
            0 <= i < used.len() ==> !#[trigger] used[i],
{
    conservation(used);
    counting::lemma_count_bounds(used);
}

/// How frames lie in the words: sixty-four to a word, the first in the lowest bit.
pub proof fn frames_fill_words_from_the_lowest_bit(words: Seq<u64>, k: int, b: u64)
    requires
        0 <= k < words.len(),
        b < 64,
    ensures
        bit(words, 64 * k + b) <==> (words[k] as int / vstd::arithmetic::power2::pow2(
            b as nat,
        ) as int) % 2 == 1,
{
    let word = words[k];
    let i = 64 * k + b;
    assert(i / 64 == k && i % 64 == b);
    vstd::arithmetic::power2::lemma_pow2_strictly_increases(b as nat, 64);
    vstd::arithmetic::power2::lemma2_to64();
    vstd::bits::lemma_u64_shr_is_div(word, b);
    let x = word >> b;
    assert((x & 1 == 1) == (x % 2 == 1)) by (bit_vector);
}

/// Setting or clearing one frame leaves every other frame alone, and what was
/// set or cleared is what is read back.
pub proof fn bits_are_independent(used: Seq<bool>, i: int, j: int, b: bool)
    requires
        0 <= i < used.len(),
        0 <= j < used.len(),
    ensures
        used.update(i, b)[i] == b,
        i != j ==> used.update(i, b)[j] == used[j],
{
}

} // verus!

//! Bounded first-in first-out ring buffer over a fixed-size array.
//!
//! `head` is where the next push writes, `tail` where the next pop reads, and
//! `len` the number of live elements, which is the sole source of truth for empty
//! and full (`head == tail` holds in both cases). Live elements occupy the slots
//! from `tail` on, wrapping around at the end of the array; every other slot is
//! vacant. There is no power-of-two requirement on the capacity.
//!
//! The model of a buffer is the sequence of its elements, oldest first
//! ([`first_in_first_out`]).
use vstd::prelude::*;

verus! {

/// The slot at distance `i`, at most one lap, from the start of an array of `n`.
pub open spec fn wrapped(i: int, n: int) -> int {
    if i >= n {
        i - n
    } else {
        i
    }
}

/// A bounded, first-in first-out ring buffer of at most `N` elements.
///
/// Ownership of each element is transferred on push and returned on pop. When the
/// buffer is dropped, all live elements are dropped, oldest first.
pub struct RingBuffer<T, const N: usize> {
    storage: [Option<T>; N],
    head: usize,
    tail: usize,
    len: usize,
}

impl<T, const N: usize> View for RingBuffer<T, N> {
    type V = Seq<T>;

    /// The elements, oldest first.
    closed spec fn view(&self) -> Seq<T> {
        Seq::new(
            self.len as nat,
            |i: int| self.storage@[wrapped(self.tail + i, N as int)].unwrap(),
        )
    }
}

impl<T, const N: usize> RingBuffer<T, N> {
    /// The indices are in range, `head` lies `len` slots after `tail`, and exactly
    /// the slots in between are occupied.
    pub closed spec fn wf(&self) -> bool {
        &&& self.len <= N
        &&& N > 0 ==> self.tail < N && self.head == wrapped(self.tail + self.len, N as int)
        &&& N == 0 ==> self.tail == 0 && self.head == 0
        &&& forall|i: int|
            0 <= i < self.len ==> (#[trigger] self.storage@[wrapped(self.tail + i, N as int)]) is Some
        &&& forall|i: int|
            self.len <= i < N ==> (#[trigger] self.storage@[wrapped(
                self.tail + i,
                N as int,
            )]) is None
    }

    /// No slot holds an element.
    pub closed spec fn vacated(&self) -> bool {
        forall|i: int| 0 <= i < N ==> (#[trigger] self.storage@[i]) is None
    }

    /// A well-formed buffer holds at most `N` elements.
    pub proof fn lemma_capacity(&self)
        requires
            self.wf(),
        ensures
            self@.len() <= N,
    {
    }

    // the slot after `i`.
    fn next_slot(i: usize) -> (j: usize)
        requires
            i < N,
        ensures
            j == wrapped(i + 1, N as int),
    {
        if i + 1 == N {
            0
        } else {
            i + 1
        }
    }

    // a vacant slot.
    fn vacant() -> (slot: Option<T>)
        ensures
            slot is None,
    {
        None
    }

    /// Creates an empty ring buffer.
    #[must_use]
    pub fn new() -> (buf: Self)
        ensures
            buf.wf(),
            buf@ == Seq::<T>::empty(),
    {
        let storage: [Option<T>; N] = core::array::from_fn(
            |_i: usize| -> (slot: Option<T>)
                ensures
                    slot is None
                { Self::vacant() },
        );
        let buf = RingBuffer { storage, head: 0, tail: 0, len: 0 };
        proof {
            assert forall|i: int| 0 <= i < N implies (#[trigger] storage@[i]) is None by {
                assert(storage@[(i as usize) as int] == storage@[i]);
            }
            assert(buf@ =~= Seq::empty());
        }
        buf
    }

    /// Returns the maximum number of elements the buffer can hold, `N`.
    #[inline]
    #[must_use]
    pub fn capacity(&self) -> (n: usize)
        ensures
            n == N,
    {
        N
    }

    /// Returns the number of elements currently in the buffer.
    #[inline]
    #[must_use]
    pub fn len(&self) -> (n: usize)
        requires
            self.wf(),
        ensures
            n == self@.len(),
            n <= N,
    {
        self.len
    }

    /// Returns `true` if the buffer contains no elements.
    #[inline]
    #[must_use]
    pub fn is_empty(&self) -> (b: bool)
        requires
            self.wf(),
        ensures
            b == (self@.len() == 0),
    {
        self.len == 0
    }

    /// Returns `true` if the buffer has no remaining capacity.
    #[inline]
    #[must_use]
    pub fn is_full(&self) -> (b: bool)
        requires
            self.wf(),
        ensures
            b == (self@.len() == N),
    {
        self.len == N
    }

    /// Pushes `value` onto the back of the buffer.
    ///
    /// # Errors
    ///
    /// Returns `Err(value)` without modifying the buffer when it is at capacity.
    pub fn push(&mut self, value: T) -> (r: Result<(), T>)
        requires
            old(self).wf(),
        ensures
            final(self).wf(),
            old(self)@.len() < N ==> r == Ok::<(), T>(()) && final(self)@ == old(self)@.push(value),
            old(self)@.len() >= N ==> r == Err::<(), T>(value) && final(self)@ == old(self)@,
            final(self)@ == (BufferOp::Push { value }).after(old(self)@, N as nat),
    {
        if self.len == N {
            return Err(value);
        }
        let ghost before = self@;
        let ghost slots = self.storage@;
        let ghost tail = self.tail as int;
        let ghost n = N as int;
        self.storage[self.head] = Some(value);
        self.head = Self::next_slot(self.head);
        self.len = self.len + 1;
        proof {
            assert forall|i: int| 0 <= i < N implies #[trigger] self.storage@[wrapped(tail + i, n)]
                == if i == before.len() {
                Some(value)
            } else {
                slots[wrapped(tail + i, n)]
            } by {}
            assert(self@ =~= before.push(value));
        }
        Ok(())
    }

    /// Removes and returns the element at the front of the buffer.
    ///
    /// Returns `None` if the buffer is empty.
    pub fn pop(&mut self) -> (r: Option<T>)
        requires
            old(self).wf(),
        ensures
            final(self).wf(),
            old(self)@.len() > 0 ==> r == Some(old(self)@[0]) && final(self)@ == old(
                self,
            )@.drop_first(),
            old(self)@.len() == 0 ==> r is None && final(self)@ == old(self)@,
            final(self)@ == BufferOp::<T>::Pop.after(old(self)@, N as nat),
    {
        if self.len == 0 {
            return None;
        }
        let ghost before = self@;
        let ghost slots = self.storage@;
        let ghost tail = self.tail as int;
        let ghost n = N as int;
        assert(slots[wrapped(tail + 0, n)] is Some);
        let value: Option<T> = self.storage[self.tail].take();
        self.tail = Self::next_slot(self.tail);
        self.len = self.len - 1;
        proof {
            assert forall|i: int| 0 <= i < N implies #[trigger] self.storage@[wrapped(
                self.tail + i,
                n,
            )] == if i == n - 1 {
                None
            } else {
                slots[wrapped(tail + (i + 1), n)]
            } by {}
            assert(self@ =~= before.drop_first());
        }
        value
    }
}

impl<T, const N: usize> Drop for RingBuffer<T, N> {
    /// Empties every slot once, so that every element still held is dropped. The
    /// walk starts with the oldest element; that the elements are dropped in that
    /// order is shown by test.
    fn drop(&mut self)
        ensures
            final(self).vacated(),
        opens_invariants none
        no_unwind
    {
        let mut slot: usize = if self.tail < N {
            self.tail
        } else {
            0
        };
        let mut visited: usize = 0;
        let ghost start = slot as int;
        let ghost n = N as int;
        while visited < N
            invariant
                visited <= N,
                n == N,
                0 <= start,
                N > 0 ==> start < n && slot == wrapped(start + visited, n),
                forall|k: int|
                    0 <= k < visited ==> (#[trigger] self.storage@[wrapped(start + k, n)]) is None,
            decreases N - visited,
        {
            self.storage[slot] = None;
            slot = if slot + 1 < N {
                slot + 1
            } else {
                0
            };
            visited = visited + 1;
        }
        proof {
            assert forall|i: int| 0 <= i < N implies (#[trigger] self.storage@[i]) is None by {
                let k = if i >= start {
                    i - start
                } else {
                    i + n - start
                };
                assert(self.storage@[wrapped(start + k, n)] is None);
            }
        }
    }
}

impl<T, const N: usize> Default for RingBuffer<T, N> {
    fn default() -> (buf: Self)
        ensures
            buf.wf(),
            buf@ == Seq::<T>::empty(),
    {
        Self::new()
    }
}

/// What is pushed onto an empty buffer is what is popped.
pub proof fn push_then_pop_identity<T>(value: T)
    ensures
        Seq::<T>::empty().push(value)[0] == value,
        Seq::<T>::empty().push(value).drop_first() == Seq::<T>::empty(),
{
    assert(Seq::<T>::empty().push(value).drop_first() =~= Seq::<T>::empty());
}

/// One operation on a buffer.
pub enum BufferOp<T> {
    /// [`RingBuffer::push`].
    Push {
        /// The value offered.
        value: T,
    },
    /// [`RingBuffer::pop`].
    Pop,
}

impl<T> BufferOp<T> {
    /// The elements after the operation on a buffer of capacity `n`.
    pub open spec fn after(self, held: Seq<T>, n: nat) -> Seq<T> {
        match self {
            BufferOp::Push { value } => if held.len() < n {
                held.push(value)
            } else {
                held
            },
            BufferOp::Pop => if held.len() > 0 {
                held.drop_first()
            } else {
                held
            },
        }
    }

    /// What the operation puts in: the value, unless the buffer is full.
    pub open spec fn taken_in(self, held: Seq<T>, n: nat) -> Seq<T> {
        match self {
            BufferOp::Push { value } => if held.len() < n {
                seq![value]
            } else {
                Seq::empty()
            },
            BufferOp::Pop => Seq::empty(),
        }
    }

    /// What the operation takes out: the oldest element, if there is one.
    pub open spec fn given_out(self, held: Seq<T>) -> Seq<T> {
        match self {
            BufferOp::Push { .. } => Seq::empty(),
            BufferOp::Pop => held.take(if held.len() > 0 {
                1
            } else {
                0
            }),
        }
    }
}

/// The elements after `ops`.
pub open spec fn after_all<T>(held: Seq<T>, ops: Seq<BufferOp<T>>, n: nat) -> Seq<T>
    decreases ops.len(),
{
    if ops.len() == 0 {
        held
    } else {
        ops.last().after(after_all(held, ops.drop_last(), n), n)
    }
}

/// All that `ops` put in, in order.
pub open spec fn all_taken_in<T>(held: Seq<T>, ops: Seq<BufferOp<T>>, n: nat) -> Seq<T>
    decreases ops.len(),
{
    if ops.len() == 0 {
        Seq::empty()
    } else {
        all_taken_in(held, ops.drop_last(), n) + ops.last().taken_in(
            after_all(held, ops.drop_last(), n),
            n,
        )
    }
}

/// All that `ops` take out, in order.
pub open spec fn all_given_out<T>(held: Seq<T>, ops: Seq<BufferOp<T>>, n: nat) -> Seq<T>
    decreases ops.len(),
{
    if ops.len() == 0 {
        Seq::empty()
    } else {
        all_given_out(held, ops.drop_last(), n) + ops.last().given_out(
            after_all(held, ops.drop_last(), n),
        )
    }
}

/// First in, first out, however pushes and pops are interleaved: what has come out,
/// followed by what is still held, is what was held at first, followed by what has
/// gone in. No element is lost, duplicated or overtaken, and the capacity is kept.
pub proof fn first_in_first_out<T>(held: Seq<T>, ops: Seq<BufferOp<T>>, n: nat)
    requires
        held.len() <= n,
    ensures
        all_given_out(held, ops, n) + after_all(held, ops, n) == held + all_taken_in(held, ops, n),
        after_all(held, ops, n).len() <= n,
    decreases ops.len(),
{
    if ops.len() == 0 {
        assert(Seq::<T>::empty() + held =~= held + Seq::<T>::empty());
    } else {
        first_in_first_out(held, ops.drop_last(), n);
        let out = all_given_out(held, ops.drop_last(), n);
        let now = after_all(held, ops.drop_last(), n);
        let taken = all_taken_in(held, ops.drop_last(), n);
        let op = ops.last();
        assert(op.given_out(now) + op.after(now, n) =~= now + op.taken_in(now, n));
        assert((out + op.given_out(now)) + op.after(now, n) =~= out + (op.given_out(now) + op.after(
            now,
            n,
        )));
        assert(out + (now + op.taken_in(now, n)) =~= (out + now) + op.taken_in(now, n));
        assert((held + taken) + op.taken_in(now, n) =~= held + (taken + op.taken_in(now, n)));
    }
}

} // verus!

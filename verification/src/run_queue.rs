//! Deduplicating FIFO run queue for the cooperative scheduler.
//!
//! The run queue holds *task indices* in `[0, N)` in first-enqueued-first-out
//! order, with at most one occurrence of each. Two fields back this: a `fifo` (the
//! order) and a `queued` membership array.
//!
//! - membership: `queued[i]` is `true` iff index `i` is somewhere in `fifo`;
//! - dedup: enqueuing an index that is queued is a no-op;
//! - count: the number of `true` entries in `queued` equals `fifo.len()`.
//!
//! So the queue length never exceeds `N`, and enqueuing a fresh index never fails.
//!
//! The model of a queue is the sequence of its indices, in order.
use crate::counting;
use crate::ring_buffer::RingBuffer;
use vstd::prelude::*;

verus! {

/// The indices in `order` are in range and no two are equal.
pub open spec fn distinct_below(order: Seq<usize>, n: int) -> bool {
    &&& forall|i: int| 0 <= i < order.len() ==> #[trigger] order[i] < n
    &&& forall|i: int, j: int|
        0 <= i < order.len() && 0 <= j < order.len() && i != j ==> #[trigger] order[i]
            != #[trigger] order[j]
}

/// The queue of `n` indices after enqueuing `id`.
pub open spec fn enqueued(order: Seq<usize>, id: usize, n: int) -> Seq<usize> {
    if id < n && !order.contains(id) {
        order.push(id)
    } else {
        order
    }
}

/// A bounded FIFO of task indices in `[0, N)` that holds each index at most once.
pub struct RunQueue<const N: usize> {
    fifo: RingBuffer<usize, N>,
    queued: [bool; N],
}

impl<const N: usize> View for RunQueue<N> {
    type V = Seq<usize>;

    /// The queued indices, in order.
    closed spec fn view(&self) -> Seq<usize> {
        self.fifo@
    }
}

impl<const N: usize> RunQueue<N> {
    /// The indices are distinct and in range, the membership array mirrors them,
    /// and as many are flagged as are queued.
    pub closed spec fn wf(&self) -> bool {
        &&& self.fifo.wf()
        &&& distinct_below(self@, N as int)
        &&& forall|id: int|
            0 <= id < N ==> #[trigger] self.queued@[id] == self@.contains(id as usize)
        &&& counting::count(self.queued@) == self@.len()
    }

    /// The queued indices are distinct and in range, so there are at most `N`.
    pub proof fn lemma_distinct(&self)
        requires
            self.wf(),
        ensures
            distinct_below(self@, N as int),
            self@.len() <= N,
    {
        self.fifo.lemma_capacity();
    }

    /// Creates an empty run queue.
    #[must_use]
    pub fn new() -> (q: Self)
        ensures
            q.wf(),
            q@ == Seq::<usize>::empty(),
    {
        let q = RunQueue { fifo: RingBuffer::new(), queued: [false; N] };
        proof {
            counting::lemma_count_bounds(q.queued@);
        }
        q
    }

    /// Returns the maximum number of distinct indices the queue can hold, `N`.
    #[inline]
    #[must_use]
    pub fn capacity(&self) -> (n: usize)
        ensures
            n == N,
    {
        N
    }

    /// Returns the number of indices currently queued.
    #[inline]
    #[must_use]
    pub fn len(&self) -> (n: usize)
        requires
            self.wf(),
        ensures
            n == self@.len(),
            n <= N,
    {
        self.fifo.len()
    }

    /// Returns `true` if the queue holds no indices.
    #[inline]
    #[must_use]
    pub fn is_empty(&self) -> (b: bool)
        requires
            self.wf(),
        ensures
            b == (self@.len() == 0),
    {
        self.fifo.is_empty()
    }

    /// Returns `true` if every distinct index is already queued.
    #[inline]
    #[must_use]
    pub fn is_full(&self) -> (b: bool)
        requires
            self.wf(),
        ensures
            b == (self@.len() == N),
            b == forall|id: usize| id < N ==> self@.contains(id),
    {
        proof {
            counting::lemma_count_bounds(self.queued@);
            if self@.len() == N {
                assert forall|id: usize| id < N implies self@.contains(id) by {
                    assert(self.queued@[id as int]);
                }
            }
            if forall|id: usize| id < N ==> self@.contains(id) {
                assert forall|id: int| 0 <= id < N implies #[trigger] self.queued@[id] by {
                    assert(self@.contains(id as usize));
                }
            }
        }
        self.fifo.is_full()
    }

    /// Returns `true` if index `id` is currently in the queue.
    ///
    /// Out-of-range indices are never queued.
    #[inline]
    #[must_use]
    pub fn is_queued(&self, id: usize) -> (b: bool)
        requires
            self.wf(),
        ensures
            b == self@.contains(id),
    {
        proof {
            if self@.contains(id) {
                let i = choose|i: int| 0 <= i < self@.len() && self@[i] == id;
                assert(self@[i] < N);
            }
        }
        id < N && self.queued[id]
    }

    /// Enqueues task index `id`, returning `true` if it was newly added.
    ///
    /// Idempotent: enqueuing an index that is already queued (or an out-of-range
    /// index) is a no-op that returns `false`. A fresh in-range index always fits.
    pub fn enqueue(&mut self, id: usize) -> (added: bool)
        requires
            old(self).wf(),
        ensures
            final(self).wf(),
            added == (id < N && !old(self)@.contains(id)),
            final(self)@ == enqueued(old(self)@, id, N as int),
            added ==> final(self)@ == old(self)@.push(id),
            !added ==> final(self)@ == old(self)@,
    {
        if id >= N || self.queued[id] {
            return false;
        }
        let ghost order = self@;
        let ghost flags = self.queued@;
        proof {
            // an index that is not flagged leaves room in the queue.
            counting::lemma_count_bounds(flags);
            counting::lemma_count_update(flags, id as int, true);
        }
        match self.fifo.push(id) {
            Ok(()) => {
                self.queued[id] = true;
                proof {
                    assert(self@ =~= order.push(id));
                    assert forall|k: int| 0 <= k < N implies #[trigger] self.queued@[k]
                        == self@.contains(k as usize) by {
                        if order.contains(k as usize) {
                            let i = choose|i: int| 0 <= i < order.len() && order[i] == k as usize;
                            assert(self@[i] == k as usize);
                        }
                        assert(self@[order.len() as int] == id);
                        assert(flags[k] == order.contains(k as usize));
                    }
                    assert forall|i: int, j: int|
                        0 <= i < self@.len() && 0 <= j < self@.len() && i != j implies #[trigger] self@[i]
                        != #[trigger] self@[j] by {
                        if i == order.len() {
                            assert(order.contains(order[j]));
                        }
                        if j == order.len() {
                            assert(order.contains(order[i]));
                        }
                    }
                }
                true
            },
            Err(_) => false,
        }
    }

    /// Removes and returns the index at the front of the queue, or `None` if it is
    /// empty. The returned index is cleared from the membership set.
    pub fn dequeue(&mut self) -> (r: Option<usize>)
        requires
            old(self).wf(),
        ensures
            final(self).wf(),
            old(self)@.len() == 0 ==> r is None && final(self)@ == old(self)@,
            old(self)@.len() > 0 ==> r == Some(old(self)@[0]) && final(self)@ == old(
                self,
            )@.drop_first() && !final(self)@.contains(old(self)@[0]) && old(self)@[0] < N,
    {
        let ghost order = self@;
        let ghost flags = self.queued@;
        match self.fifo.pop() {
            Some(id) => {
                self.queued[id] = false;
                proof {
                    let rest = order.drop_first();
                    assert(order.contains(order[0]));
                    counting::lemma_count_update(flags, id as int, false);
                    assert forall|k: int| 0 <= k < N implies #[trigger] self.queued@[k]
                        == rest.contains(k as usize) by {
                        assert(flags[k] == order.contains(k as usize));
                        if rest.contains(k as usize) {
                            let i = choose|i: int| 0 <= i < rest.len() && rest[i] == k as usize;
                            assert(order[i + 1] == k as usize);
                            assert(order[0] != order[i + 1]);
                        }
                        if order.contains(k as usize) && k != id {
                            let i = choose|i: int| 0 <= i < order.len() && order[i] == k as usize;
                            assert(rest[i - 1] == k as usize);
                        }
                    }
                    if rest.contains(id) {
                        assert(self.queued@[id as int]);
                    }
                }
                Some(id)
            },
            None => None,
        }
    }

    /// Returns the number of indices flagged as queued, which is the length.
    #[must_use]
    pub fn queued_count(&self) -> (n: usize)
        requires
            self.wf(),
        ensures
            n == self@.len(),
    {
        let ghost flags = self.queued@;
        let mut n: usize = 0;
        let mut i: usize = 0;
        while i < N
            invariant
                i <= N,
                flags == self.queued@,
                n == counting::count(flags.take(i as int)),
                n <= i,
            decreases N - i,
        {
            proof {
                counting::lemma_count_push(flags.take(i as int), flags[i as int]);
                assert(flags.take(i as int).push(flags[i as int]) =~= flags.take(i + 1));
            }
            if self.queued[i] {
                n = n + 1;
            }
            i = i + 1;
        }
        assert(flags.take(N as int) =~= flags);
        n
    }
}

impl<const N: usize> Default for RunQueue<N> {
    fn default() -> (q: Self)
        ensures
            q.wf(),
            q@ == Seq::<usize>::empty(),
    {
        Self::new()
    }
}

/// Waking a task twice is waking it once: a second enqueue changes nothing.
pub proof fn enqueue_is_idempotent(order: Seq<usize>, id: usize, n: int)
    ensures
        enqueued(enqueued(order, id, n), id, n) == enqueued(order, id, n),
{
    if id < n && !order.contains(id) {
        assert(order.push(id)[order.len() as int] == id);
    }
}

/// A task in range that is woken is on the queue afterwards, behind all that were there:
/// those keep their places, and a task that was not queued takes the next one. A task out
/// of range never gets on.
pub proof fn a_woken_task_queues_at_the_back(order: Seq<usize>, id: usize, n: int)
    ensures
        enqueued(order, id, n).take(order.len() as int) == order,
        id < n ==> enqueued(order, id, n).contains(id),
        id < n && !order.contains(id) ==> enqueued(order, id, n).len() == order.len() + 1
            && enqueued(order, id, n).last() == id,
        id >= n || order.contains(id) ==> enqueued(order, id, n).len() == order.len(),
{
    assert(enqueued(order, id, n).take(order.len() as int) =~= order);
    if id < n && !order.contains(id) {
        assert(order.push(id)[order.len() as int] == id);
    }
}

/// One operation on a run queue.
pub enum QueueOp {
    /// [`RunQueue::enqueue`].
    Enqueue {
        /// The index offered.
        id: usize,
    },
    /// [`RunQueue::dequeue`].
    Dequeue,
}

/// The queue of `n` indices after `ops`, in order.
pub open spec fn after_all(order: Seq<usize>, ops: Seq<QueueOp>, n: int) -> Seq<usize>
    decreases ops.len(),
{
    if ops.len() == 0 {
        order
    } else {
        let now = after_all(order, ops.drop_last(), n);
        match ops.last() {
            QueueOp::Enqueue { id } => enqueued(now, id, n),
            QueueOp::Dequeue => if now.len() > 0 {
                now.drop_first()
            } else {
                now
            },
        }
    }
}

/// The number of dequeues among `ops`.
pub open spec fn dequeues(ops: Seq<QueueOp>) -> nat
    decreases ops.len(),
{
    if ops.len() == 0 {
        0
    } else {
        dequeues(ops.drop_last()) + if ops.last() is Dequeue {
            1nat
        } else {
            0nat
        }
    }
}

/// No task is overtaken, starved or lost: whatever else is enqueued meanwhile, what stands
/// at place `k` has moved up by one for each dequeue, until it is at the front and the next
/// dequeue takes it.
pub proof fn tasks_move_up_one_place_per_dequeue(
    order: Seq<usize>,
    ops: Seq<QueueOp>,
    n: int,
    k: int,
)
    requires
        0 <= k < order.len(),
        dequeues(ops) <= k,
    ensures
        after_all(order, ops, n).len() > k - dequeues(ops),
        after_all(order, ops, n)[k - dequeues(ops)] == order[k],
    decreases ops.len(),
{
    if ops.len() > 0 {
        tasks_move_up_one_place_per_dequeue(order, ops.drop_last(), n, k);
    }
}

/// A task is on the queue at most once, and never more than `n` tasks are, however
/// enqueues and dequeues are interleaved.
pub proof fn operations_keep_indices_distinct(order: Seq<usize>, id: usize, n: int)
    requires
        distinct_below(order, n),
        n >= 0,
    ensures
        distinct_below(enqueued(order, id, n), n),
        order.len() > 0 ==> distinct_below(order.drop_first(), n),
        order.len() <= n,
{
    let more = enqueued(order, id, n);
    assert forall|i: int, j: int|
        0 <= i < more.len() && 0 <= j < more.len() && i != j implies #[trigger] more[i]
        != #[trigger] more[j] by {
        if i == order.len() {
            assert(order.contains(order[j]));
        }
        if j == order.len() {
            assert(order.contains(order[i]));
        }
    }
    let ints = order.map_values(|id: usize| id as int);
    assert(ints.no_duplicates());
    ints.unique_seq_to_set();
    vstd::set_lib::lemma_int_range(0, n);
    assert forall|k: int| ints.to_set().contains(k) implies vstd::set_lib::set_int_range(
        0,
        n,
    ).contains(k) by {
        let i = choose|i: int| 0 <= i < ints.len() && ints[i] == k;
        assert(order[i] < n);
    }
    vstd::set_lib::lemma_len_subset(ints.to_set(), vstd::set_lib::set_int_range(0, n));
}

} // verus!

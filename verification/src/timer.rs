//! Deadline-ordered wakeups: a bounded, heap-free timer queue.
//!
//! A caller arms timers, each with a deadline and an opaque payload naming what to
//! wake, and then, as the clock advances, drains the timers that have come due,
//! earliest first. Storage is a fixed-capacity array with a packed prefix, and the
//! earliest timer is found by a linear scan.
//!
//! The model of a queue is the set of armed timers and the next id to hand out,
//! [`TimerState`]:
//!
//! 1. **Capacity.** [`TimerQueue::arm`] succeeds iff the queue is not full; a
//!    refused arm changes nothing and consumes no id.
//! 2. **No early fire.** [`TimerQueue::expire_next`] returns a timer only when its
//!    deadline has been reached.
//! 3. **Earliest first.** It then returns the one with the earliest deadline, ties
//!    broken by id, so repeated draining yields non-decreasing deadlines
//!    ([`draining_is_in_deadline_order`]).
//! 4. **Progress.** It fires whenever a due timer exists, so a drain leaves nothing
//!    due behind ([`a_full_drain_fires_exactly_the_due`]).
//! 5. **Cancel removes at most one.** Ids are unique and never reused
//!    ([`stale_ids_stay_stale`]).
//! 6. **Conservation.** Every armed timer leaves once or is still armed
//!    ([`timers_are_conserved`]).
use crate::clock::Instant;
use vstd::prelude::*;

verus! {

/// A handle to an armed timer, unique within a [`TimerQueue`]'s lifetime.
#[derive(Debug, Clone, Copy, PartialEq, Eq, PartialOrd, Ord, Hash, Structural)]
pub struct TimerId(pub u64);

/// An armed timer: a deadline, the payload to deliver when it fires, and its id.
#[derive(Debug, Clone, Copy, PartialEq, Eq, Structural)]
pub struct Timer {
    /// This timer's unique id, for cancellation and correlation.
    pub id: TimerId,
    /// The instant at or after which this timer is due to fire.
    pub deadline: Instant,
    /// Opaque payload naming what to wake; carried verbatim by the queue.
    pub data: u64,
}

impl Timer {
    /// `self` fires no later than `other`: an earlier deadline, or the same one
    /// and no larger id.
    pub open spec fn precedes(self, other: Timer) -> bool {
        self.deadline@ < other.deadline@ || (self.deadline@ == other.deadline@ && self.id.0
            <= other.id.0)
    }
}

/// The mathematical model of a [`TimerQueue`].
#[verifier::ext_equal]
pub struct TimerState {
    /// The armed timers.
    pub armed: Set<Timer>,
    /// The next id to hand out.
    pub next_id: u64,
}

impl TimerState {
    /// Ids are below the next one, and no two armed timers share one.
    pub open spec fn valid(self) -> bool {
        &&& self.armed.finite()
        &&& forall|t: Timer| #[trigger] self.armed.contains(t) ==> t.id.0 < self.next_id
        &&& forall|t: Timer, u: Timer| #[trigger]
            self.armed.contains(t) && #[trigger] self.armed.contains(u) && t.id == u.id ==> t == u
    }

    /// A timer with id `id` is armed.
    pub open spec fn has_id(self, id: TimerId) -> bool {
        exists|t: Timer| #[trigger] self.armed.contains(t) && t.id == id
    }

    /// `t` is the armed timer that fires next.
    pub open spec fn is_next(self, t: Timer) -> bool {
        self.armed.contains(t) && forall|u: Timer| #[trigger]
            self.armed.contains(u) ==> t.precedes(u)
    }

    /// The state after arming a timer.
    pub open spec fn with_armed(self, deadline: Instant, data: u64) -> Self {
        TimerState {
            armed: self.armed.insert(Timer { id: TimerId(self.next_id), deadline, data }),
            next_id: (self.next_id + 1) as u64,
        }
    }

    /// The state after removing `t`.
    pub open spec fn without(self, t: Timer) -> Self {
        TimerState { armed: self.armed.remove(t), next_id: self.next_id }
    }

    /// The state after removing what has the id `id`.
    pub open spec fn without_id(self, id: TimerId) -> Self {
        TimerState { armed: self.armed.filter(|t: Timer| t.id != id), next_id: self.next_id }
    }
}

/// A fixed-capacity, heap-free queue of pending timers, drained earliest-first as
/// a clock advances.
///
/// `CAP` is the maximum number of simultaneously armed timers.
#[derive(Debug, Clone)]
pub struct TimerQueue<const CAP: usize> {
    // live timers occupy slots[0..len], in arbitrary order; what lies beyond is
    // unused.
    slots: [Timer; CAP],
    len: usize,
    // the next id to hand out. strictly increasing, never reset.
    next_id: u64,
}

impl<const CAP: usize> View for TimerQueue<CAP> {
    type V = TimerState;

    closed spec fn view(&self) -> TimerState {
        TimerState { armed: self.stored().to_set(), next_id: self.next_id }
    }
}

impl<const CAP: usize> TimerQueue<CAP> {
    /// The armed timers, in storage order.
    pub closed spec fn stored(&self) -> Seq<Timer> {
        self.slots@.take(self.len as int)
    }

    /// The live timers fit, and their ids are distinct and already handed out.
    pub closed spec fn wf(&self) -> bool {
        &&& self.len <= CAP
        &&& forall|i: int| 0 <= i < self.len ==> (#[trigger] self.stored()[i]).id.0 < self.next_id
        &&& forall|i: int, j: int|
            0 <= i < self.len && 0 <= j < self.len && i != j ==> (#[trigger] self.stored()[i]).id
                != (#[trigger] self.stored()[j]).id
    }

    /// The storage holds each armed timer once, and the state is valid.
    pub proof fn lemma_stored(&self)
        requires
            self.wf(),
        ensures
            self@.valid(),
            self.stored().to_set() == self@.armed,
            self.stored().no_duplicates(),
            self.stored().len() == self@.armed.len(),
            self@.armed.len() <= CAP,
    {
        let s = self.stored();
        assert(s.no_duplicates()) by {
            assert forall|i: int, j: int| 0 <= i < s.len() && 0 <= j < s.len() && i != j implies s[i]
                != s[j] by {
                assert(s[i].id != s[j].id);
            }
        }
        s.unique_seq_to_set();
        vstd::seq_lib::seq_to_set_is_finite(s);
    }

    /// Creates an empty timer queue.
    #[must_use]
    pub fn new() -> (q: Self)
        ensures
            q.wf(),
            q@ == (TimerState { armed: Set::empty(), next_id: 0 }),
    {
        let unused = Timer { id: TimerId(0), deadline: Instant::zero(), data: 0 };
        let q = TimerQueue { slots: [unused; CAP], len: 0, next_id: 0 };
        proof {
            assert(q.stored() =~= Seq::empty());
            assert(q@.armed =~= Set::empty());
        }
        q
    }

    /// Returns the number of timers currently armed.
    #[inline]
    #[must_use]
    pub fn len(&self) -> (n: usize)
        requires
            self.wf(),
        ensures
            n == self@.armed.len(),
            n <= CAP,
    {
        proof {
            self.lemma_stored();
        }
        self.len
    }

    /// Returns `true` if no timers are armed.
    #[inline]
    #[must_use]
    pub fn is_empty(&self) -> (b: bool)
        requires
            self.wf(),
        ensures
            b == (self@.armed.len() == 0),
            b == (self@.armed == Set::<Timer>::empty()),
    {
        proof {
            self.lemma_stored();
            if self@.armed.len() == 0 {
                assert(self@.armed =~= Set::empty());
            }
        }
        self.len == 0
    }

    /// Returns `true` if the queue is at capacity and cannot accept another arm.
    #[inline]
    #[must_use]
    pub fn is_full(&self) -> (b: bool)
        requires
            self.wf(),
        ensures
            b == (self@.armed.len() == CAP),
    {
        proof {
            self.lemma_stored();
        }
        self.len == CAP
    }

    /// Returns the queue's capacity (`CAP`).
    #[inline]
    #[must_use]
    pub fn capacity(&self) -> (n: usize)
        ensures
            n == CAP,
    {
        CAP
    }

    /// Arms a timer for `deadline` carrying `data`, returning its [`TimerId`].
    ///
    /// Returns `None` if the queue is already full, in which case nothing is armed
    /// and no id is consumed. A deadline already in the past is allowed: such a
    /// timer simply fires on the next [`expire_next`](Self::expire_next). Unless
    /// the queue is full, there must be an id left to hand out.
    pub fn arm(&mut self, deadline: Instant, data: u64) -> (r: Option<TimerId>)
        requires
            old(self).wf(),
            old(self)@.armed.len() < CAP ==> old(self)@.next_id < u64::MAX,
        ensures
            final(self).wf(),
            old(self)@.armed.len() < CAP ==> r == Some(TimerId(old(self)@.next_id)) && final(self)@
                == old(self)@.with_armed(deadline, data) && final(self)@.armed.len() == old(
                self,
            )@.armed.len() + 1,
            old(self)@.armed.len() >= CAP ==> r is None && final(self)@ == old(self)@,
            old(self)@.armed.len() < CAP ==> final(self)@.armed == old(self)@.armed.insert(
                Timer { id: TimerId(old(self)@.next_id), deadline, data },
            ) && final(self)@.next_id == old(self)@.next_id + 1,
    {
        proof {
            self.lemma_stored();
        }
        if self.len >= CAP {
            return None;
        }
        let ghost before = self@;
        let ghost s = self.stored();
        let id = TimerId(self.next_id);
        let timer = Timer { id, deadline, data };
        self.next_id = self.next_id + 1;
        self.slots[self.len] = timer;
        self.len = self.len + 1;
        proof {
            assert(self.stored() =~= s.push(timer));
            assert(self@.armed =~= before.armed.insert(timer)) by {
                assert forall|t: Timer| self@.armed.contains(t) <==> before.armed.insert(
                    timer,
                ).contains(t) by {
                    if before.armed.contains(t) {
                        let i = choose|i: int| 0 <= i < s.len() && s[i] == t;
                        assert(s.push(timer)[i] == t);
                    }
                    assert(s.push(timer)[s.len() as int] == timer);
                }
            }
            assert forall|i: int, j: int|
                0 <= i < self.len && 0 <= j < self.len && i != j implies (
            #[trigger] self.stored()[i]).id != (#[trigger] self.stored()[j]).id by {
                if i < s.len() {
                    assert(s[i].id.0 < before.next_id);
                }
                if j < s.len() {
                    assert(s[j].id.0 < before.next_id);
                }
            }
            self.lemma_stored();
        }
        Some(id)
    }

    /// Cancels the timer with id `id`, returning `true` if one was removed.
    ///
    /// Cancelling an id that is not present is a no-op returning `false`.
    pub fn cancel(&mut self, id: TimerId) -> (removed: bool)
        requires
            old(self).wf(),
        ensures
            final(self).wf(),
            removed == old(self)@.has_id(id),
            final(self)@ == old(self)@.without_id(id),
            final(self)@.armed.len() == old(self)@.armed.len() - (if removed {
                1int
            } else {
                0int
            }),
            !final(self)@.has_id(id),
            removed <==> exists|t: Timer| #[trigger] old(self)@.armed.contains(t) && t.id == id,
            forall|t: Timer| #[trigger]
                final(self)@.armed.contains(t) <==> old(self)@.armed.contains(t) && t.id != id,
            final(self)@.next_id == old(self)@.next_id,
    {
        let mut i: usize = 0;
        proof {
            self.lemma_stored();
        }
        while i < self.len
            invariant
                *self == *old(self),
                self.wf(),
                i <= self.len,
                forall|j: int| 0 <= j < i ==> (#[trigger] self.stored()[j]).id != id,
            decreases self.len - i,
        {
            let t: Timer = self.slots[i];
            assert(self.stored()[i as int] == t);
            if t.id.0 == id.0 {
                let ghost before = self@;
                proof {
                    self.lemma_stored();
                    assert(before.armed.contains(t));
                }
                self.remove_at(i);
                proof {
                    self.lemma_stored();
                    assert(self@.armed =~= before.without_id(id).armed);
                }
                return true;
            }
            i = i + 1;
        }
        proof {
            assert forall|t: Timer| #[trigger] self@.armed.contains(t) implies t.id != id by {
                let j = choose|j: int| 0 <= j < self.stored().len() && self.stored()[j] == t;
                assert(self.stored()[j].id != id);
            }
            assert(self@.armed =~= self@.without_id(id).armed);
        }
        false
    }

    /// Returns the timer that fires next without removing it, or `None` if the
    /// queue is empty.
    #[must_use]
    pub fn peek_next(&self) -> (r: Option<Timer>)
        requires
            self.wf(),
        ensures
            match r {
                Some(t) => self@.is_next(t),
                None => self@.armed == Set::<Timer>::empty(),
            },
            r matches Some(t) ==> self@.armed.contains(t) && forall|u: Timer| #[trigger]
                self@.armed.contains(u) ==> t.deadline@ < u.deadline@ || (t.deadline@
                    == u.deadline@ && t.id.0 <= u.id.0),
    {
        match self.next_index() {
            Some(i) => Some(self.slots[i]),
            None => None,
        }
    }

    /// Returns the earliest pending deadline, or `None` if the queue is empty.
    #[must_use]
    pub fn next_deadline(&self) -> (r: Option<Instant>)
        requires
            self.wf(),
        ensures
            match r {
                Some(d) => exists|t: Timer| self@.is_next(t) && t.deadline == d,
                None => self@.armed == Set::<Timer>::empty(),
            },
            r matches Some(d) ==> {
                &&& exists|t: Timer| #[trigger] self@.armed.contains(t) && t.deadline == d
                &&& forall|u: Timer| #[trigger] self@.armed.contains(u) ==> d@ <= u.deadline@
            },
    {
        match self.peek_next() {
            Some(t) => Some(t.deadline),
            None => None,
        }
    }

    /// Removes and returns the timer that fires next if it is due at `now`, else
    /// `None`.
    ///
    /// Because the earliest deadline is the smallest, it is due iff any timer is
    /// due, so draining in a loop yields every due timer in non-decreasing deadline
    /// order and stops exactly when none remain due.
    pub fn expire_next(&mut self, now: Instant) -> (r: Option<Timer>)
        requires
            old(self).wf(),
        ensures
            final(self).wf(),
            match r {
                Some(t) => {
                    &&& old(self)@.is_next(t)
                    &&& now@ >= t.deadline@
                    &&& final(self)@ == old(self)@.without(t)
                    &&& final(self)@.armed.len() == old(self)@.armed.len() - 1
                },
                None => {
                    &&& forall|t: Timer| #[trigger]
                        old(self)@.armed.contains(t) ==> now@ < t.deadline@
                    &&& final(self)@ == old(self)@
                },
            },
            r matches Some(t) ==> {
                &&& old(self)@.armed.contains(t)
                &&& forall|u: Timer| #[trigger]
                    old(self)@.armed.contains(u) ==> t.deadline@ < u.deadline@ || (t.deadline@
                        == u.deadline@ && t.id.0 <= u.id.0)
                &&& final(self)@.armed == old(self)@.armed.remove(t)
                &&& final(self)@.next_id == old(self)@.next_id
            },
    {
        match self.next_index() {
            Some(i) => {
                let timer: Timer = self.slots[i];
                if now.reached(timer.deadline) {
                    proof {
                        self.lemma_stored();
                    }
                    let removed = self.remove_at(i);
                    proof {
                        self.lemma_stored();
                    }
                    Some(removed)
                } else {
                    None
                }
            },
            None => None,
        }
    }

    /// Returns `true` if a timer with id `id` is currently armed.
    #[must_use]
    pub fn contains(&self, id: TimerId) -> (b: bool)
        requires
            self.wf(),
        ensures
            b == self@.has_id(id),
            b <==> exists|t: Timer| #[trigger] self@.armed.contains(t) && t.id == id,
    {
        let mut i: usize = 0;
        while i < self.len
            invariant
                self.wf(),
                i <= self.len,
                forall|j: int| 0 <= j < i ==> (#[trigger] self.stored()[j]).id != id,
            decreases self.len - i,
        {
            let t: Timer = self.slots[i];
            assert(self.stored()[i as int] == t);
            if t.id.0 == id.0 {
                assert(self@.armed.contains(t));
                return true;
            }
            i = i + 1;
        }
        false
    }

    /// Iterates the armed timers, in arbitrary (storage) order, each exactly once.
    ///
    /// The order is not the firing order; use [`expire_next`](Self::expire_next)
    /// to drain in deadline order.
    pub fn iter(&self) -> (it: core::slice::Iter<'_, Timer>)
        requires
            self.wf(),
        ensures
            vstd::std_specs::iter::IteratorSpec::remaining(&it) == self.stored().as_ref(),
            self.stored().to_set() == self@.armed,
            self.stored().no_duplicates(),
    {
        proof {
            self.lemma_stored();
        }
        let live: &[Timer] = &self.slots[0..self.len];
        assert(live@ =~= self.stored());
        live.iter()
    }

    // the index of the timer that fires next, or None when empty. the single place
    // the firing order is decided.
    fn next_index(&self) -> (r: Option<usize>)
        requires
            self.wf(),
        ensures
            match r {
                Some(i) => i < self.len && self@.is_next(self.slots@[i as int]),
                None => self@.armed == Set::<Timer>::empty() && self.len == 0,
            },
    {
        if self.len == 0 {
            assert(self.stored() =~= Seq::empty());
            assert(self@.armed =~= Set::empty());
            return None;
        }
        let mut best: usize = 0;
        let mut i: usize = 1;
        while i < self.len
            invariant
                self.wf(),
                1 <= i <= self.len,
                best < i,
                forall|j: int| 0 <= j < i ==> self.stored()[best as int].precedes(
                    #[trigger] self.stored()[j],
                ),
            decreases self.len - i,
        {
            let cand: Timer = self.slots[i];
            let cur: Timer = self.slots[best];
            assert(self.stored()[i as int] == cand);
            assert(self.stored()[best as int] == cur);
            // order by (deadline, id): a total order, so the winner is unique.
            if cand.deadline.ticks() < cur.deadline.ticks() || (cand.deadline.ticks()
                == cur.deadline.ticks() && cand.id.0 < cur.id.0) {
                best = i;
            }
            i = i + 1;
        }
        proof {
            let t = self.slots@[best as int];
            assert(self.stored()[best as int] == t);
            assert forall|u: Timer| #[trigger] self@.armed.contains(u) implies t.precedes(u) by {
                let j = choose|j: int| 0 <= j < self.stored().len() && self.stored()[j] == u;
                assert(t.precedes(self.stored()[j]));
            }
        }
        Some(best)
    }

    // removes the timer at index `i` and returns it, keeping slots[0..len] packed by
    // moving the last live entry into the hole.
    fn remove_at(&mut self, i: usize) -> (removed: Timer)
        requires
            old(self).wf(),
            i < old(self).len,
        ensures
            final(self).wf(),
            removed == old(self).slots@[i as int],
            final(self)@ == old(self)@.without(removed),
            old(self)@.armed.contains(removed),
    {
        let ghost before = self@;
        let ghost s = self.stored();
        let removed: Timer = self.slots[i];
        self.len = self.len - 1;
        self.slots[i] = self.slots[self.len];
        proof {
            let last = s.len() - 1;
            assert(self.stored() =~= s.update(i as int, s[last]).drop_last());
            assert(s[i as int] == removed);
            assert forall|j: int| 0 <= j < self.len implies (#[trigger] self.stored()[j]) == (if j
                == i {
                s[last]
            } else {
                s[j]
            }) by {}
            assert(self@.armed =~= before.armed.remove(removed)) by {
                assert forall|t: Timer| self@.armed.contains(t) <==> before.armed.remove(
                    removed,
                ).contains(t) by {
                    if self@.armed.contains(t) {
                        let j = choose|j: int|
                            0 <= j < self.stored().len() && self.stored()[j] == t;
                        let k = if j == i {
                            last
                        } else {
                            j
                        };
                        assert(s[k] == t);
                        assert(s[k].id != s[i as int].id);
                    }
                    if before.armed.remove(removed).contains(t) {
                        let j = choose|j: int| 0 <= j < s.len() && s[j] == t;
                        if j == last {
                            assert(self.stored()[i as int] == t);
                        } else {
                            assert(self.stored()[j] == t);
                        }
                    }
                }
            }
        }
        removed
    }
}

impl<const CAP: usize> Default for TimerQueue<CAP> {
    fn default() -> (q: Self)
        ensures
            q.wf(),
            q@ == (TimerState { armed: Set::empty(), next_id: 0 }),
    {
        Self::new()
    }
}

/// The firing order is total on the armed timers: there is exactly one next timer
/// whenever any is armed, so that what fires is determined by what is armed.
pub proof fn next_timer_is_unique(state: TimerState, t: Timer, u: Timer)
    requires
        state.valid(),
        state.is_next(t),
        state.is_next(u),
    ensures
        t == u,
{
}

/// What fires next has the earliest deadline of all that is armed, and among those with
/// that deadline it was armed first; whatever has these is what fires next.
pub proof fn the_next_timer_is_earliest_and_oldest(state: TimerState, t: Timer)
    requires
        state.valid(),
    ensures
        state.is_next(t) <==> {
            &&& state.armed.contains(t)
            &&& forall|u: Timer| #[trigger]
                state.armed.contains(u) ==> t.deadline@ <= u.deadline@
            &&& forall|u: Timer| #[trigger]
                state.armed.contains(u) && u != t && t.deadline@ == u.deadline@ ==> t.id.0 < u.id.0
        },
{
    if state.armed.contains(t) {
        assert forall|u: Timer| #[trigger] state.armed.contains(u) && u != t implies t.id.0
            != u.id.0 by {
            if t.id.0 == u.id.0 {
                assert(t.id == u.id);
            }
        }
    }
}

/// Of any two timers one fires before the other: the firing order is reflexive, total and
/// transitive, and an earlier deadline always comes first.
pub proof fn the_firing_order_is_total(a: Timer, b: Timer, c: Timer)
    ensures
        a.precedes(a),
        a.precedes(b) || b.precedes(a),
        a.precedes(b) && b.precedes(c) ==> a.precedes(c),
        a.precedes(b) && b.precedes(a) ==> a.deadline@ == b.deadline@ && a.id == b.id,
        a.deadline@ < b.deadline@ ==> a.precedes(b),
        a.deadline@ == b.deadline@ && a.id.0 < b.id.0 ==> !b.precedes(a),
{
}

/// Timers with the same deadline fire in the order in which they were armed.
pub proof fn ties_fire_in_arming_order(
    states: Seq<TimerState>,
    fired: Seq<Timer>,
    i: int,
    j: int,
)
    requires
        drains(states, fired),
        states[0].valid(),
        0 <= i < j < fired.len(),
        fired[i].deadline@ == fired[j].deadline@,
    ensures
        fired[i].id.0 < fired[j].id.0,
{
    draining_is_in_deadline_order(states, fired, i, j);
    assert(states[i].is_next(fired[i]) && states[j].is_next(fired[j]));
    lemma_drained(states, fired, 0, i, fired[i]);
    lemma_drained(states, fired, 0, j, fired[j]);
    if fired[i].id.0 == fired[j].id.0 {
        assert(fired[i].id == fired[j].id);
    }
}

/// What each operation does to each timer. Arming adds the one timer with the deadline and
/// the data given, under the next id, and uses up that id. Cancelling takes out what has
/// the id and nothing else, and firing takes out the one timer; neither gives an id back.
pub proof fn operations_touch_one_timer(
    state: TimerState,
    deadline: Instant,
    data: u64,
    id: TimerId,
    fired: Timer,
    t: Timer,
)
    ensures
        state.with_armed(deadline, data).armed.contains(t) <==> state.armed.contains(t) || (
        t.deadline == deadline && t.data == data && t.id.0 == state.next_id),
        state.next_id < u64::MAX ==> state.with_armed(deadline, data).next_id == state.next_id + 1,
        state.without_id(id).armed.contains(t) <==> state.armed.contains(t) && t.id != id,
        state.without_id(id).next_id == state.next_id,
        state.without(fired).armed.contains(t) <==> state.armed.contains(t) && t != fired,
        state.without(fired).next_id == state.next_id,
        state.armed.contains(t) ==> state.has_id(t.id),
        !state.without_id(id).has_id(id),
{
}

/// If any armed timer is due, the next one is.
pub proof fn next_is_due_if_any_is(state: TimerState, next: Timer, t: Timer, now: u64)
    requires
        state.is_next(next),
        state.armed.contains(t),
        now >= t.deadline@,
    ensures
        now >= next.deadline@,
{
}

/// `fired` are the timers that a queue hands out one after the other while it goes
/// through `states`.
pub open spec fn drains(states: Seq<TimerState>, fired: Seq<Timer>) -> bool {
    &&& states.len() == fired.len() + 1
    &&& forall|i: int|
        0 <= i < fired.len() ==> states[i].is_next(#[trigger] fired[i]) && states[i + 1]
            == states[i].without(fired[i])
}

/// What is armed at a later point of a drain was armed before, and is preceded by
/// everything that has fired since.
proof fn lemma_drained(states: Seq<TimerState>, fired: Seq<Timer>, i: int, j: int, t: Timer)
    requires
        drains(states, fired),
        0 <= i <= j < states.len(),
        states[j].armed.contains(t),
    ensures
        states[i].armed.contains(t),
        i < j ==> fired[i].precedes(t) && fired[i] != t,
    decreases j - i,
{
    if i < j {
        assert(states[j - 1].is_next(fired[j - 1]));
        assert(states[j - 1 + 1] == states[j - 1].without(fired[j - 1]));
        lemma_drained(states, fired, i, j - 1, t);
        assert(states[i].is_next(fired[i]));
        assert(states[i + 1] == states[i].without(fired[i]));
    }
}

/// Draining yields the timers in order: non-decreasing deadlines, ties broken by
/// id, and no timer twice.
pub proof fn draining_is_in_deadline_order(
    states: Seq<TimerState>,
    fired: Seq<Timer>,
    i: int,
    j: int,
)
    requires
        drains(states, fired),
        0 <= i < j < fired.len(),
    ensures
        fired[i].precedes(fired[j]),
        fired[i].deadline@ <= fired[j].deadline@,
        fired[i] != fired[j],
{
    assert(states[j].is_next(fired[j]));
    lemma_drained(states, fired, i, j, fired[j]);
}

/// Draining at `now` until nothing more fires hands out exactly the timers that
/// were due, and leaves exactly the others: nothing due is left behind.
pub proof fn a_full_drain_fires_exactly_the_due(
    states: Seq<TimerState>,
    fired: Seq<Timer>,
    now: u64,
    t: Timer,
)
    requires
        drains(states, fired),
        forall|i: int| 0 <= i < fired.len() ==> now >= (#[trigger] fired[i]).deadline@,
        forall|u: Timer| #[trigger] states.last().armed.contains(u) ==> now < u.deadline@,
    ensures
        fired.contains(t) <==> states[0].armed.contains(t) && now >= t.deadline@,
        states.last().armed.contains(t) <==> states[0].armed.contains(t) && now < t.deadline@,
        (forall|u: Timer| #[trigger] states[0].armed.contains(u) ==> now >= u.deadline@)
            ==> states.last().armed == Set::<Timer>::empty(),
{
    let last = states.len() - 1;
    if states.last().armed.contains(t) {
        lemma_drained(states, fired, 0, last, t);
    }
    if fired.contains(t) {
        let i = choose|i: int| 0 <= i < fired.len() && fired[i] == t;
        assert(states[i].is_next(fired[i]));
        lemma_drained(states, fired, 0, i, t);
    }
    if states[0].armed.contains(t) {
        lemma_fires_or_stays(states, fired, t, last);
    }
    if forall|u: Timer| #[trigger] states[0].armed.contains(u) ==> now >= u.deadline@ {
        assert forall|u: Timer| !states.last().armed.contains(u) by {
            if states.last().armed.contains(u) {
                lemma_drained(states, fired, 0, last, u);
            }
        }
        assert(states.last().armed =~= Set::empty());
    }
}

/// A timer that was armed when a drain began has fired by step `k`, or is armed
/// still.
proof fn lemma_fires_or_stays(states: Seq<TimerState>, fired: Seq<Timer>, t: Timer, k: int)
    requires
        drains(states, fired),
        states[0].armed.contains(t),
        0 <= k < states.len(),
    ensures
        states[k].armed.contains(t) || fired.contains(t),
    decreases k,
{
    if k > 0 {
        lemma_fires_or_stays(states, fired, t, k - 1);
        assert(states[k - 1].is_next(fired[k - 1]));
        assert(states[k - 1 + 1] == states[k - 1].without(fired[k - 1]));
    }
}

/// Arming a timer and cancelling it again leaves the armed set as it was.
pub proof fn arm_then_cancel_is_identity(state: TimerState, deadline: Instant, data: u64)
    requires
        state.valid(),
        state.next_id < u64::MAX,
    ensures
        state.with_armed(deadline, data).without_id(TimerId(state.next_id)).armed == state.armed,
        state.with_armed(deadline, data).has_id(TimerId(state.next_id)),
        !state.has_id(TimerId(state.next_id)),
{
    let id = TimerId(state.next_id);
    let t = Timer { id, deadline, data };
    assert(state.with_armed(deadline, data).armed.contains(t));
    assert(state.with_armed(deadline, data).without_id(id).armed =~= state.armed);
}

/// What one operation did to a queue.
pub enum TimerEvent {
    /// A timer was armed.
    Armed {
        /// The timer.
        timer: Timer,
    },
    /// A timer left: it fired, or it was cancelled.
    Left {
        /// The timer.
        timer: Timer,
    },
    /// Nothing happened: the queue was full, the id unknown, or nothing was due.
    Nothing,
}

/// `event` takes a queue from `pre` to `post`.
pub open spec fn event_step(pre: TimerState, event: TimerEvent, post: TimerState) -> bool {
    match event {
        TimerEvent::Armed { timer } => pre.next_id < u64::MAX && timer.id == TimerId(pre.next_id)
            && post == pre.with_armed(timer.deadline, timer.data),
        TimerEvent::Left { timer } => pre.armed.contains(timer) && post == pre.without(timer),
        TimerEvent::Nothing => post == pre,
    }
}

/// `states` are what a queue goes through under `events`.
pub open spec fn event_run(states: Seq<TimerState>, events: Seq<TimerEvent>) -> bool {
    &&& states.len() == events.len() + 1
    &&& forall|i: int|
        0 <= i < events.len() ==> event_step(states[i], #[trigger] events[i], states[i + 1])
}

/// The operations of [`TimerQueue`] are such events: an arm, the removal of an
/// armed timer by its id, and the firing of the next timer.
pub proof fn operations_are_events(state: TimerState, deadline: Instant, data: u64, timer: Timer)
    requires
        state.valid(),
        state.next_id < u64::MAX,
    ensures
        event_step(
            state,
            TimerEvent::Armed { timer: Timer { id: TimerId(state.next_id), deadline, data } },
            state.with_armed(deadline, data),
        ),
        state.armed.contains(timer) ==> event_step(
            state,
            TimerEvent::Left { timer },
            state.without_id(timer.id),
        ),
        !state.has_id(timer.id) ==> state.without_id(timer.id) == state,
        state.is_next(timer) ==> event_step(
            state,
            TimerEvent::Left { timer },
            state.without(timer),
        ),
        state.with_armed(deadline, data).valid(),
        state.without(timer).valid(),
        state.without_id(timer.id).valid(),
{
    if state.armed.contains(timer) {
        assert(state.without_id(timer.id).armed =~= state.without(timer).armed);
    }
    if !state.has_id(timer.id) {
        assert(state.without_id(timer.id).armed =~= state.armed);
    }
}

/// Every timer that was ever armed leaves once or is still armed, never both; and
/// nothing leaves that was not armed. No timer is lost, duplicated or made up.
pub proof fn timers_are_conserved(states: Seq<TimerState>, events: Seq<TimerEvent>, t: Timer)
    requires
        event_run(states, events),
        states[0].valid(),
    ensures
        (states[0].armed.contains(t) || events.contains(TimerEvent::Armed { timer: t })) <==> (
        states.last().armed.contains(t) || events.contains(TimerEvent::Left { timer: t })),
        !(states.last().armed.contains(t) && events.contains(TimerEvent::Left { timer: t })),
        forall|i: int, j: int|
            0 <= i < events.len() && 0 <= j < events.len() && #[trigger] events[i]
                == (TimerEvent::Left { timer: t }) && #[trigger] events[j] == (TimerEvent::Left {
                timer: t,
            }) ==> i == j,
    decreases events.len(),
{
    let left = TimerEvent::Left { timer: t };
    let armed = TimerEvent::Armed { timer: t };
    if events.len() > 0 {
        let n = events.len() - 1;
        let states0 = states.drop_last();
        let events0 = events.drop_last();
        assert forall|i: int| 0 <= i < events0.len() implies event_step(
            states0[i],
            #[trigger] events0[i],
            states0[i + 1],
        ) by {
            assert(event_step(states[i], events[i], states[i + 1]));
        }
        timers_are_conserved(states0, events0, t);
        lemma_run_is_valid(states, events, n);
        assert(event_step(states[n], events[n], states[n + 1]));
        assert(events =~= events0.push(events[n]));
        assert(forall|e: TimerEvent| #[trigger]
            events.contains(e) <==> events0.contains(e) || events[n] == e) by {
            assert forall|e: TimerEvent| #[trigger] events.contains(e) <==> events0.contains(e)
                || events[n] == e by {
                if events0.contains(e) {
                    let i = choose|i: int| 0 <= i < events0.len() && events0[i] == e;
                    assert(events[i] == e);
                }
            }
        }
        if events0.contains(left) && events[n] == armed {
            // an id that was handed out is not handed out again.
            let i = choose|i: int| 0 <= i < events0.len() && events0[i] == left;
            assert(event_step(states[i], events[i], states[i + 1]));
            lemma_run_is_valid(states, events, i);
            lemma_ids_only_grow(states, events, i, n);
        }
        assert forall|i: int, j: int|
            0 <= i < events.len() && 0 <= j < events.len() && #[trigger] events[i] == left
                && #[trigger] events[j] == left implies i == j by {
            if i < n && j < n {
                assert(events0[i] == left && events0[j] == left);
            }
            if i < n && j == n {
                assert(events0[i] == left);
            }
            if j < n && i == n {
                assert(events0[j] == left);
            }
        }
    }
}

proof fn lemma_run_is_valid(states: Seq<TimerState>, events: Seq<TimerEvent>, k: int)
    requires
        event_run(states, events),
        states[0].valid(),
        0 <= k < states.len(),
    ensures
        states[k].valid(),
    decreases k,
{
    if k > 0 {
        lemma_run_is_valid(states, events, k - 1);
        assert(event_step(states[k - 1], events[k - 1], states[k - 1 + 1]));
    }
}

proof fn lemma_ids_only_grow(states: Seq<TimerState>, events: Seq<TimerEvent>, i: int, k: int)
    requires
        event_run(states, events),
        0 <= i <= k < states.len(),
    ensures
        states[i].next_id <= states[k].next_id,
    decreases k - i,
{
    if i < k {
        lemma_ids_only_grow(states, events, i, k - 1);
        assert(event_step(states[k - 1], events[k - 1], states[k - 1 + 1]));
    }
}

/// `post` follows from `pre` by one queue operation.
pub open spec fn timer_step(pre: TimerState, post: TimerState) -> bool {
    ||| post == pre
    ||| pre.next_id < u64::MAX && exists|deadline: Instant, data: u64|
        post == #[trigger] pre.with_armed(deadline, data)
    ||| exists|id: TimerId| post == #[trigger] pre.without_id(id)
    ||| exists|t: Timer| post == #[trigger] pre.without(t)
}

/// Ids are never reused: an id that was handed out and is no longer armed stays
/// that way through every later operation, so a stale id names no other timer.
pub proof fn stale_ids_stay_stale(history: Seq<TimerState>, id: TimerId, k: int)
    requires
        forall|i: int|
            0 <= i < history.len() - 1 ==> timer_step(#[trigger] history[i], history[i + 1]),
        0 <= k < history.len(),
        id.0 < history[0].next_id,
        !history[0].has_id(id),
    ensures
        id.0 < history[k].next_id,
        history[0].next_id <= history[k].next_id,
        !history[k].has_id(id),
    decreases k,
{
    if k > 0 {
        stale_ids_stay_stale(history, id, k - 1);
        let pre = history[k - 1];
        let post = history[k - 1 + 1];
        assert(timer_step(pre, post));
        if post.has_id(id) {
            let t = choose|t: Timer| #[trigger] post.armed.contains(t) && t.id == id;
            assert(!pre.armed.contains(t));
        }
    }
}

} // verus!

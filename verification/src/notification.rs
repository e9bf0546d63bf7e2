//! Asynchronous notification: a coalescing signal word, as pure logic.
//!
//! A signaller deposits badge bits and returns immediately; a waiter collects the
//! accumulated bits, blocking only when none are pending. A parked waiter is just
//! a flag here, and "wake the waiter" is an effect flag that the caller acts on.
//!
//! The model of a notification is its state, [`NotificationState`], and every
//! operation keeps it valid:
//!
//! 1. Signals coalesce by union: no signalled bit is lost, none is made up
//!    ([`signals_are_conserved`],
//!    [`pending_is_what_was_signalled_since_the_last_poll`]).
//! 2. A waiter is parked only while nothing is pending.
//! 3. A signal releases a parked waiter: none is ever left behind.
//! 4. Collecting returns exactly the pending bits and clears them.
use vstd::prelude::*;

verus! {

/// A set of badge bits carried by a signal.
#[derive(Debug, Clone, Copy, PartialEq, Eq, Structural)]
pub struct Badge(pub u64);

impl Badge {
    /// The union of two badges.
    pub open spec fn united(self, other: Self) -> Self {
        Badge(self.0 | other.0)
    }

    /// The empty badge: no bits set.
    #[inline]
    #[must_use]
    pub fn none() -> (b: Self)
        ensures
            b == Badge(0),
    {
        Badge(0)
    }

    /// Returns `true` if no bits are set.
    #[inline]
    #[must_use]
    pub fn is_empty(self) -> (b: bool)
        ensures
            b == (self.0 == 0),
    {
        self.0 == 0
    }

    /// Returns the union of two badges (the coalescing operation).
    #[inline]
    #[must_use]
    pub fn union(self, other: Self) -> (b: Self)
        ensures
            b == self.united(other),
    {
        Badge(self.0 | other.0)
    }
}

/// The outcome of a non-blocking [`Notification::signal`].
#[derive(Debug, Clone, Copy, PartialEq, Eq, Structural)]
pub struct SignalOutcome {
    /// Whether a parked waiter was released by this signal.
    pub woke_waiter: bool,
}

/// The outcome of a non-blocking [`Notification::poll`].
#[derive(Debug, Clone, Copy, PartialEq, Eq, Structural)]
pub enum PollOutcome {
    /// Badge bits were pending and have now been collected and cleared.
    Collected(Badge),
    /// Nothing was pending.
    Empty,
}

/// The mathematical model of a [`Notification`].
pub struct NotificationState {
    /// The accumulated badge that has not been collected.
    pub pending: Badge,
    /// A waiter is parked.
    pub waiter_parked: bool,
}

impl NotificationState {
    /// A waiter is parked only while nothing is pending.
    pub open spec fn valid(self) -> bool {
        self.waiter_parked ==> self.pending.0 == 0
    }

    /// Nothing pending, no waiter parked.
    pub open spec fn idle() -> Self {
        NotificationState { pending: Badge(0), waiter_parked: false }
    }

    /// The state after a signal with `badge`.
    pub open spec fn after_signal(self, badge: Badge) -> Self {
        NotificationState { pending: self.pending.united(badge), waiter_parked: false }
    }

    /// What a signal of any badge is answered in this state.
    pub open spec fn signal_outcome(self) -> SignalOutcome {
        SignalOutcome { woke_waiter: self.waiter_parked }
    }

    /// What a poll is answered in this state.
    pub open spec fn poll_outcome(self) -> PollOutcome {
        if self.pending.0 == 0 {
            PollOutcome::Empty
        } else {
            PollOutcome::Collected(self.pending)
        }
    }

    /// The state after the pending badge has been collected.
    pub open spec fn after_poll(self) -> Self {
        NotificationState { pending: Badge(0), waiter_parked: self.waiter_parked }
    }

    /// The state after parking a waiter, which a pending badge refuses.
    pub open spec fn after_park(self) -> Self {
        NotificationState {
            pending: self.pending,
            waiter_parked: self.waiter_parked || self.pending.0 == 0,
        }
    }

    /// The state after the parked flag has been cleared.
    pub open spec fn after_clear(self) -> Self {
        NotificationState { pending: self.pending, waiter_parked: false }
    }
}

/// An asynchronous notification: an accumulated badge plus the parked state of a
/// single waiter.
#[derive(Debug, Clone, Copy, PartialEq, Eq, Structural)]
pub struct Notification {
    pending: Badge,
    waiter_parked: bool,
}

impl View for Notification {
    type V = NotificationState;

    closed spec fn view(&self) -> NotificationState {
        NotificationState { pending: self.pending, waiter_parked: self.waiter_parked }
    }
}

impl Notification {
    /// Creates a fresh, idle notification: nothing pending, no waiter parked.
    #[must_use]
    pub fn new() -> (n: Self)
        ensures
            n@ == NotificationState::idle(),
            n@.valid(),
            n@.pending.0 == 0 && !n@.waiter_parked,
    {
        Notification { pending: Badge::none(), waiter_parked: false }
    }

    /// Returns the currently-pending (un-collected) badge.
    #[inline]
    #[must_use]
    pub fn pending(&self) -> (b: Badge)
        ensures
            b == self@.pending,
    {
        self.pending
    }

    /// Returns `true` if a waiter is parked on the notification.
    #[inline]
    #[must_use]
    pub fn waiter_parked(&self) -> (b: bool)
        ensures
            b == self@.waiter_parked,
    {
        self.waiter_parked
    }

    /// Signals the notification with `badge`, coalescing it into the pending set
    /// and releasing any parked waiter.
    ///
    /// A signal of the empty badge still releases a parked waiter.
    pub fn signal(&mut self, badge: Badge) -> (out: SignalOutcome)
        ensures
            final(self)@ == old(self)@.after_signal(badge),
            final(self)@.pending.0 == old(self)@.pending.0 | badge.0,
            !final(self)@.waiter_parked,
            final(self)@.valid(),
            out.woke_waiter == old(self)@.waiter_parked,
            out == old(self)@.signal_outcome(),
    {
        self.pending = self.pending.union(badge);
        let woke_waiter: bool = self.waiter_parked;
        self.waiter_parked = false;
        SignalOutcome { woke_waiter }
    }

    /// Collects the pending badge without blocking, clearing it.
    ///
    /// Returns [`PollOutcome::Empty`] when nothing is pending.
    pub fn poll(&mut self) -> (out: PollOutcome)
        ensures
            final(self)@ == old(self)@.after_poll(),
            old(self)@.pending.0 == 0 ==> final(self)@ == old(self)@,
            final(self)@.pending.0 == 0,
            final(self)@.waiter_parked == old(self)@.waiter_parked,
            old(self)@.valid() ==> final(self)@.valid(),
            out == old(self)@.poll_outcome(),
            out == (if old(self)@.pending.0 == 0 {
                PollOutcome::Empty
            } else {
                PollOutcome::Collected(old(self)@.pending)
            }),
    {
        if self.pending.is_empty() {
            PollOutcome::Empty
        } else {
            let collected: Badge = self.pending;
            self.pending = Badge::none();
            PollOutcome::Collected(collected)
        }
    }

    /// Records that a waiter is parked, waiting for a signal.
    ///
    /// A no-op when a badge is pending, since it would have been collected at once.
    /// Returns `true` if a waiter is now parked.
    pub fn park(&mut self) -> (parked: bool)
        ensures
            final(self)@ == old(self)@.after_park(),
            final(self)@.pending == old(self)@.pending,
            old(self)@.pending.0 == 0 ==> parked,
            old(self)@.pending.0 != 0 ==> final(self)@ == old(self)@,
            old(self)@.valid() ==> final(self)@.valid(),
            parked == final(self)@.waiter_parked,
    {
        if self.pending.is_empty() {
            self.waiter_parked = true;
        }
        self.waiter_parked
    }

    /// Clears the parked flag, returning whether a waiter was parked.
    ///
    /// Called when a notification's capability is revoked. The pending badge is
    /// left untouched.
    pub fn clear_parked(&mut self) -> (had_waiter: bool)
        ensures
            final(self)@ == old(self)@.after_clear(),
            final(self)@.pending == old(self)@.pending,
            !final(self)@.waiter_parked,
            final(self)@.valid(),
            had_waiter == old(self)@.waiter_parked,
    {
        let had_waiter: bool = self.waiter_parked;
        self.waiter_parked = false;
        had_waiter
    }
}

impl Default for Notification {
    fn default() -> (n: Self)
        ensures
            n@ == NotificationState::idle(),
            n@.valid(),
            n@.pending.0 == 0 && !n@.waiter_parked,
    {
        Self::new()
    }
}

/// One operation on a notification.
pub enum NotificationOp {
    /// [`Notification::signal`].
    Signal(Badge),
    /// [`Notification::poll`].
    Poll,
    /// [`Notification::park`].
    Park,
    /// [`Notification::clear_parked`].
    ClearParked,
}

impl NotificationState {
    /// The state after `op`.
    pub open spec fn after(self, op: NotificationOp) -> Self {
        match op {
            NotificationOp::Signal(badge) => self.after_signal(badge),
            NotificationOp::Poll => self.after_poll(),
            NotificationOp::Park => self.after_park(),
            NotificationOp::ClearParked => self.after_clear(),
        }
    }

    /// The state after all of `ops`.
    pub open spec fn after_all(self, ops: Seq<NotificationOp>) -> Self
        decreases ops.len(),
    {
        if ops.len() == 0 {
            self
        } else {
            self.after_all(ops.drop_last()).after(ops.last())
        }
    }
}

/// Every operation keeps a notification valid, so every state that is reached from
/// an idle notification is.
pub proof fn operations_keep_notifications_valid(
    state: NotificationState,
    ops: Seq<NotificationOp>,
)
    requires
        state.valid(),
    ensures
        state.after_all(ops).valid(),
    decreases ops.len(),
{
    if ops.len() > 0 {
        operations_keep_notifications_valid(state, ops.drop_last());
    }
}

/// Signals coalesce: after `a` and then `b`, what is pending has exactly the bits
/// of what was pending, of `a` and of `b`, in whichever order they came.
pub proof fn no_badge_bit_is_lost_or_fabricated(
    state: NotificationState,
    a: Badge,
    b: Badge,
    bit: u64,
)
    requires
        bit < 64,
    ensures
        ({
            let pending = state.after_signal(a).after_signal(b).pending.0;
            (pending >> bit) & 1 == 1 <==> (state.pending.0 >> bit) & 1 == 1 || (a.0 >> bit) & 1
                == 1 || (b.0 >> bit) & 1 == 1
        }),
        state.after_signal(a).after_signal(b).pending == state.after_signal(b).after_signal(
            a,
        ).pending,
        state.after_signal(a).after_signal(a).pending == state.after_signal(a).pending,
{
    let p = state.pending.0;
    let x = a.0;
    let y = b.0;
    assert({
        &&& ((p | x | y) >> bit) & 1 == 1 <==> (p >> bit) & 1 == 1 || (x >> bit) & 1 == 1 || (y
            >> bit) & 1 == 1
        &&& p | x | y == p | y | x
        &&& p | x | x == p | x
    }) by (bit_vector);
}

/// The union of every badge that `ops` signal.
pub open spec fn signalled(ops: Seq<NotificationOp>) -> Badge
    decreases ops.len(),
{
    if ops.len() == 0 {
        Badge(0)
    } else {
        match ops.last() {
            NotificationOp::Signal(badge) => signalled(ops.drop_last()).united(badge),
            _ => signalled(ops.drop_last()),
        }
    }
}

/// The operations after the last poll; all of them if there is none.
pub open spec fn since_last_poll(ops: Seq<NotificationOp>) -> Seq<NotificationOp>
    decreases ops.len(),
{
    if ops.len() == 0 || ops.last() is Poll {
        Seq::empty()
    } else {
        since_last_poll(ops.drop_last()).push(ops.last())
    }
}

impl NotificationState {
    /// The union of every badge that the polls among `ops` collect.
    pub open spec fn collected(self, ops: Seq<NotificationOp>) -> Badge
        decreases ops.len(),
    {
        if ops.len() == 0 {
            Badge(0)
        } else if ops.last() is Poll {
            self.collected(ops.drop_last()).united(self.after_all(ops.drop_last()).pending)
        } else {
            self.collected(ops.drop_last())
        }
    }
}

proof fn lemma_unions(a: u64, b: u64, c: u64)
    ensures
        a | 0 == a,
        0 | a == a,
        (a | b) | c == a | (b | c),
        a | b == b | a,
{
    assert(a | 0 == a && 0 | a == a && (a | b) | c == a | (b | c) && a | b == b | a) by (bit_vector);
}

/// No signal is lost and no bit is made up, over any sequence of operations: what
/// has been collected together with what is pending has exactly the bits that were
/// pending at first and those signalled since.
pub proof fn signals_are_conserved(state: NotificationState, ops: Seq<NotificationOp>)
    ensures
        state.collected(ops).united(state.after_all(ops).pending) == state.pending.united(
            signalled(ops),
        ),
    decreases ops.len(),
{
    let p = state.pending.0;
    if ops.len() == 0 {
        lemma_unions(p, 0, 0);
    } else {
        let front = ops.drop_last();
        let got = state.collected(front).0;
        let now = state.after_all(front).pending.0;
        signals_are_conserved(state, front);
        lemma_unions(got | now, 0, 0);
        if let NotificationOp::Signal(badge) = ops.last() {
            lemma_unions(got, now, badge.0);
            lemma_unions(p, signalled(front).0, badge.0);
        }
    }
}

/// Signals coalesce over any sequence of operations on a fresh notification: what is
/// pending is the union of every badge signalled after the last poll, and what was
/// collected together with it is the union of every badge signalled.
pub proof fn pending_is_what_was_signalled_since_the_last_poll(ops: Seq<NotificationOp>)
    ensures
        NotificationState::idle().after_all(ops).pending == signalled(since_last_poll(ops)),
        NotificationState::idle().collected(ops).united(signalled(since_last_poll(ops)))
            == signalled(ops),
        since_last_poll(ops).len() <= ops.len(),
        since_last_poll(ops) == ops.skip(ops.len() - since_last_poll(ops).len()),
        forall|i: int|
            0 <= i < since_last_poll(ops).len() ==> !((#[trigger] since_last_poll(ops)[i]) is Poll),
        since_last_poll(ops).len() < ops.len() ==> ops[ops.len() - since_last_poll(ops).len()
            - 1] is Poll,
    decreases ops.len(),
{
    signals_are_conserved(NotificationState::idle(), ops);
    lemma_unions(signalled(ops).0, 0, 0);
    if ops.len() > 0 && !(ops.last() is Poll) {
        let front = ops.drop_last();
        pending_is_what_was_signalled_since_the_last_poll(front);
        assert(since_last_poll(ops).drop_last() =~= since_last_poll(front));
        assert(since_last_poll(ops) =~= ops.skip(ops.len() - since_last_poll(ops).len()));
    } else {
        assert(since_last_poll(ops) =~= ops.skip(ops.len() - since_last_poll(ops).len()));
    }
}

/// What is answered says what happened: a poll collects exactly what was pending, and
/// nothing is pending after it, and a signal reports a waiter exactly if one was parked.
pub proof fn outcomes_report_what_happened(state: NotificationState, badge: Badge)
    ensures
        state.poll_outcome() is Empty <==> state.pending.0 == 0,
        state.poll_outcome() matches PollOutcome::Collected(b) ==> b == state.pending,
        state.after(NotificationOp::Poll).pending.0 == 0,
        state.signal_outcome().woke_waiter <==> state.waiter_parked && !state.after(
            NotificationOp::Signal(badge),
        ).waiter_parked,
{
}

/// An operation with nothing to do changes nothing: a poll that finds nothing
/// pending, and a park while a badge is pending, leave the whole notification as it
/// was, the parked waiter among it.
pub proof fn idle_operations_change_nothing(state: NotificationState)
    ensures
        state.pending.0 == 0 ==> state.after(NotificationOp::Poll) == state,
        state.pending.0 != 0 ==> state.after(NotificationOp::Park) == state,
        !state.waiter_parked ==> state.after(NotificationOp::ClearParked) == state,
{
}

/// A parked waiter is set free by a signal, whatever its badge, by a clear, and by
/// nothing else; only parking parks; and only signals and polls touch the badge.
pub proof fn a_parked_waiter_waits_for_a_signal(state: NotificationState, op: NotificationOp)
    ensures
        state.waiter_parked && !(op is Signal) && !(op is ClearParked) ==> state.after(
            op,
        ).waiter_parked,
        op is Signal || op is ClearParked ==> !state.after(op).waiter_parked,
        !state.waiter_parked && state.after(op).waiter_parked ==> op is Park && state.pending.0
            == 0,
        state.pending.0 == 0 ==> state.after(NotificationOp::Park).waiter_parked,
        op is Park || op is ClearParked ==> state.after(op).pending == state.pending,
        op is Poll ==> state.after(op).pending.0 == 0,
{
}

/// No wakeup is lost over any sequence: once a waiter is parked it stays parked, and
/// nothing becomes pending, through any operations without a signal or a clear. So the
/// first signal after a park, with no clear in between, reports that it woke the waiter,
/// and its badge is what is then pending.
pub proof fn a_parked_waiter_is_woken_by_the_next_signal(
    state: NotificationState,
    ops: Seq<NotificationOp>,
    badge: Badge,
)
    requires
        state.valid(),
        state.waiter_parked,
        forall|i: int|
            0 <= i < ops.len() ==> !((#[trigger] ops[i]) is Signal) && !(ops[i] is ClearParked),
    ensures
        state.after_all(ops).waiter_parked,
        state.after_all(ops).pending.0 == 0,
        state.after_all(ops).signal_outcome().woke_waiter,
        state.after_all(ops).poll_outcome() is Empty,
        !state.after_all(ops).after(NotificationOp::Signal(badge)).waiter_parked,
        state.after_all(ops).after(NotificationOp::Signal(badge)).pending == badge,
    decreases ops.len(),
{
    let x = badge.0;
    assert(0u64 | x == x) by (bit_vector);
    if ops.len() > 0 {
        let front = ops.drop_last();
        assert forall|i: int| 0 <= i < front.len() implies !((#[trigger] front[i]) is Signal) && !(
        front[i] is ClearParked) by {
            assert(ops[i] == front[i]);
        }
        a_parked_waiter_is_woken_by_the_next_signal(state, front, badge);
        assert(!(ops[ops.len() - 1] is Signal));
    }
}

/// What the parking invariant says: a waiter is parked only while nothing is pending,
/// in every state that is reached from a fresh notification.
pub proof fn reachable_notifications_park_only_without_a_badge(ops: Seq<NotificationOp>)
    ensures
        ({
            let state = NotificationState::idle().after_all(ops);
            state.waiter_parked ==> state.pending.0 == 0
        }),
        NotificationState::idle().pending.0 == 0 && !NotificationState::idle().waiter_parked,
{
    operations_keep_notifications_valid(NotificationState::idle(), ops);
}

/// No wakeup is lost: a signal never leaves a waiter parked, and from an idle or
/// parked notification the signalled bits are exactly what is then pending.
pub proof fn signal_wakes_and_delivers(state: NotificationState, badge: Badge)
    requires
        state.valid(),
        state.waiter_parked,
    ensures
        !state.after_signal(badge).waiter_parked,
        state.after_signal(badge).pending == badge,
{
    let x = badge.0;
    assert(0u64 | x == x) by (bit_vector);
}

/// Collecting returns what was signalled and clears it: an immediate second
/// collection finds nothing.
pub proof fn poll_returns_then_clears(badge: Badge)
    ensures
        NotificationState::idle().after_signal(badge).pending == badge,
        NotificationState::idle().after_signal(badge).after_poll().pending == Badge(0),
{
    let x = badge.0;
    assert(0u64 | x == x) by (bit_vector);
}

} // verus!

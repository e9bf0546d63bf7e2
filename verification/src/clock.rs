//! Monotonic time behind a trait, with verified deadline arithmetic.
//!
//! The kernel core never reads a real clock; it takes a [`KernelClock`] and is
//! handed either a hardware clock or the deterministic [`SimClock`] that the
//! simulation drives by hand. Same schedule, same timeline, every run.
//!
//! - A [`SimClock`]'s time never decreases: [`SimClock::advance`] saturates rather
//!   than wrapping, and [`SimClock::set`] ignores a backward move.
//! - A deadline is never computed in the past ([`deadline_never_in_the_past`]).
//! - [`Instant::reached`] is the threshold "at or after", monotone in the current
//!   time ([`reached_is_monotone_in_now`]).
use vstd::prelude::*;

verus! {

/// A monotonic point in time, in abstract ticks.
#[derive(Debug, Clone, Copy, PartialEq, Eq, PartialOrd, Ord, Structural)]
pub struct Instant(u64);

/// A span of time, in the same abstract ticks as [`Instant`].
#[derive(Debug, Clone, Copy, PartialEq, Eq, PartialOrd, Ord, Structural)]
pub struct Duration(u64);

impl View for Instant {
    type V = u64;

    /// The tick count.
    closed spec fn view(&self) -> u64 {
        self.0
    }
}

impl View for Duration {
    type V = u64;

    /// The number of ticks.
    closed spec fn view(&self) -> u64 {
        self.0
    }
}

/// `start` plus `span` ticks, clamped at the end of time.
pub open spec fn ticks_after(start: u64, span: u64) -> u64 {
    if start + span <= u64::MAX {
        (start + span) as u64
    } else {
        u64::MAX
    }
}

impl Instant {
    /// The earliest representable instant, tick `0`.
    #[inline]
    #[must_use]
    pub fn zero() -> (t: Self)
        ensures
            t@ == 0,
    {
        Instant(0)
    }

    /// Creates an instant at `ticks`.
    #[inline]
    #[must_use]
    pub fn new(ticks: u64) -> (t: Self)
        ensures
            t@ == ticks,
    {
        Instant(ticks)
    }

    /// Returns this instant's raw tick count.
    #[inline]
    #[must_use]
    pub fn ticks(self) -> (ticks: u64)
        ensures
            ticks == self@,
    {
        self.0
    }

    /// Returns the instant `d` ticks after this one, saturating at the maximum.
    ///
    /// A deadline computed as `now + d` must never wrap around to a small value,
    /// because a wrapped deadline would lie in the past and fire immediately. With
    /// saturation the worst case is a deadline pinned at the end of time.
    #[inline]
    #[must_use]
    pub fn saturating_add(self, d: Duration) -> (t: Instant)
        ensures
            t@ == ticks_after(self@, d@),
            self@ + d@ <= u64::MAX ==> t@ == self@ + d@,
            self@ + d@ > u64::MAX ==> t@ == u64::MAX,
    {
        Instant(self.0.saturating_add(d.0))
    }

    /// Returns `true` once this instant is at or after `deadline`.
    #[inline]
    #[must_use]
    pub fn reached(self, deadline: Instant) -> (b: bool)
        ensures
            b == (self@ >= deadline@),
    {
        self.0 >= deadline.0
    }
}

impl Duration {
    /// A zero-length span; advancing by it leaves the clock unchanged.
    #[inline]
    #[must_use]
    pub fn zero() -> (d: Self)
        ensures
            d@ == 0,
    {
        Duration(0)
    }

    /// Creates a span of `ticks` ticks.
    #[inline]
    #[must_use]
    pub fn new(ticks: u64) -> (d: Self)
        ensures
            d@ == ticks,
    {
        Duration(ticks)
    }

    /// Returns this span's raw tick count.
    #[inline]
    #[must_use]
    pub fn ticks(self) -> (ticks: u64)
        ensures
            ticks == self@,
    {
        self.0
    }
}

/// An instant and a span are determined by their tick counts.
pub proof fn ticks_determine_instants_and_spans(a: Instant, b: Instant, c: Duration, d: Duration)
    ensures
        a == b <==> a@ == b@,
        c == d <==> c@ == d@,
{
}

/// A source of monotonic time.
///
/// An implementation must never hand out a smaller [`Instant`] than before.
pub trait KernelClock {
    /// Returns the current time.
    #[must_use]
    fn now(&self) -> Instant;
}

/// One operation on a simulated clock.
pub enum ClockOp {
    /// [`SimClock::advance`].
    Advance { by: u64 },
    /// [`SimClock::set`].
    SetTo { to: u64 },
}

/// The tick after `op`.
pub open spec fn tick_after_op(now: u64, op: ClockOp) -> u64 {
    match op {
        ClockOp::Advance { by } => ticks_after(now, by),
        ClockOp::SetTo { to } => if to > now {
            to
        } else {
            now
        },
    }
}

/// A deterministic simulated clock: time advances only when told to.
///
/// Not `Copy`: a clock is the single source of truth for the current time, and an
/// accidental copy would silently desynchronize the timeline.
#[derive(Clone, Debug)]
pub struct SimClock {
    now: Instant,
}

impl View for SimClock {
    type V = u64;

    /// The current tick.
    closed spec fn view(&self) -> u64 {
        self.now@
    }
}

impl SimClock {
    /// Creates a clock started at tick `0`.
    #[inline]
    #[must_use]
    pub fn new() -> (clock: Self)
        ensures
            clock@ == 0,
    {
        SimClock { now: Instant::zero() }
    }

    /// Creates a clock started at tick `start`.
    #[inline]
    #[must_use]
    pub fn at(start: u64) -> (clock: Self)
        ensures
            clock@ == start,
    {
        SimClock { now: Instant::new(start) }
    }

    /// Advances the clock by `by`, saturating at the maximum instant.
    #[inline]
    pub fn advance(&mut self, by: Duration)
        ensures
            final(self)@ == tick_after_op(old(self)@, ClockOp::Advance { by: by@ }),
            old(self)@ + by@ <= u64::MAX ==> final(self)@ == old(self)@ + by@,
            old(self)@ + by@ > u64::MAX ==> final(self)@ == u64::MAX,
            final(self)@ >= old(self)@,
    {
        self.now = self.now.saturating_add(by);
    }

    /// Sets the clock to `t`, but never backward: a `t` at or before the current
    /// time is ignored.
    #[inline]
    pub fn set(&mut self, t: Instant)
        ensures
            final(self)@ == tick_after_op(old(self)@, ClockOp::SetTo { to: t@ }),
            t@ >= old(self)@ ==> final(self)@ == t@,
            t@ <= old(self)@ ==> final(self)@ == old(self)@,
            final(self)@ >= old(self)@,
    {
        if t.0 > self.now.0 {
            self.now = t;
        }
    }
}

impl Default for SimClock {
    fn default() -> (clock: Self)
        ensures
            clock@ == 0,
    {
        Self::new()
    }
}

impl KernelClock for SimClock {
    #[inline]
    fn now(&self) -> (t: Instant)
        ensures
            t@ == self@,
    {
        self.now
    }
}

/// A freshly computed deadline is never in the past, and it lies exactly the span
/// ahead unless that would pass the end of time: it is the end of time only where the
/// sum is at least that.
pub proof fn deadline_never_in_the_past(now: u64, span: u64)
    ensures
        ticks_after(now, span) >= now,
        ticks_after(now, span) == now + span || ticks_after(now, span) == u64::MAX,
        now + span <= u64::MAX ==> ticks_after(now, span) == now + span,
        ticks_after(now, span) == u64::MAX ==> now + span >= u64::MAX,
        now + span >= u64::MAX ==> ticks_after(now, span) == u64::MAX,
        ticks_after(now, span) - now <= span,
{
}

/// A deadline is reached exactly when its span has passed: an instant that lies some
/// ticks after now has reached the deadline if and only if these are no fewer than
/// the span, for every instant and every span that time has room for.
pub proof fn a_deadline_is_reached_after_its_span(now: u64, span: u64, passed: u64)
    requires
        now + span <= u64::MAX,
        now + passed <= u64::MAX,
    ensures
        ticks_after(now, passed) >= ticks_after(now, span) <==> passed >= span,
{
}

/// Spans add up: waiting for one and then for another is waiting for their sum, as
/// far as time reaches, and the order does not matter.
pub proof fn spans_add_up(now: u64, a: u64, b: u64)
    ensures
        a + b <= u64::MAX ==> ticks_after(ticks_after(now, a), b) == ticks_after(
            now,
            (a + b) as u64,
        ),
        ticks_after(ticks_after(now, a), b) == ticks_after(ticks_after(now, b), a),
        ticks_after(now, 0) == now,
        now < u64::MAX ==> ticks_after(now, 1) == now + 1,
        ticks_after(u64::MAX, a) == u64::MAX,
{
}

/// Setting a clock brings it to the later of the two times, and advancing it by a
/// span moves it by exactly that span, unless time ends first.
pub proof fn clock_operations_move_time_as_asked(now: u64, by: u64, to: u64)
    ensures
        now + by <= u64::MAX ==> tick_after_op(now, ClockOp::Advance { by }) - now == by,
        now + by > u64::MAX ==> tick_after_op(now, ClockOp::Advance { by }) == u64::MAX,
        tick_after_op(now, ClockOp::SetTo { to }) >= now,
        tick_after_op(now, ClockOp::SetTo { to }) >= to,
        tick_after_op(now, ClockOp::SetTo { to }) == now || tick_after_op(
            now,
            ClockOp::SetTo { to },
        ) == to,
        // setting twice is setting to the later time, in either order.
        forall|also: u64|
            tick_after_op(
                #[trigger] tick_after_op(now, ClockOp::SetTo { to: also }),
                ClockOp::SetTo { to },
            ) == tick_after_op(
                tick_after_op(now, ClockOp::SetTo { to }),
                ClockOp::SetTo { to: also },
            ),
{
}

/// Once an instant has reached a deadline, every later instant has too: a timeout
/// that has fired stays fired.
pub proof fn reached_is_monotone_in_now(now: u64, later: u64, deadline: u64)
    requires
        now >= deadline,
        later >= now,
    ensures
        later >= deadline,
{
}

/// However the operations are sequenced, the clock never runs backward.
pub proof fn time_is_monotone(ticks: Seq<u64>, ops: Seq<ClockOp>, i: int, j: int)
    requires
        ticks.len() == ops.len() + 1,
        forall|k: int|
            0 <= k < ops.len() ==> ticks[k + 1] == tick_after_op(ticks[k], #[trigger] ops[k]),
        0 <= i <= j < ticks.len(),
    ensures
        ticks[i] <= ticks[j],
    decreases j - i,
{
    if i < j {
        time_is_monotone(ticks, ops, i, j - 1);
        assert(ticks[j - 1 + 1] == tick_after_op(ticks[j - 1], ops[j - 1]));
    }
}

} // verus!

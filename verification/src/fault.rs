//! Deterministic fault injection for the capability-space simulation.
//!
//! A [`FaultInjector`] turns an incoming stream of [`CapOp`]s into a *realized*
//! stream by dropping, delaying (and so reordering), duplicating and corrupting
//! operations, as words drawn from a [`KernelRng`] decide. The same words always
//! produce the same fault schedule.
//!
//! - The combined per-mille weight of the four fault kinds is at most `1000`:
//!   [`FaultConfig::new`] rejects any configuration above it.
//! - The delay queue holds at most [`DELAY_MAX`] entries. A delay that would
//!   overflow it degrades to immediate passthrough rather than losing the op.
//! - A single [`FaultInjector::process`] call returns at most [`DELIVER_MAX`]
//!   operations.
//! - No operation is withheld for more steps than the configuration allows
//!   ([`no_op_waits_longer_than_the_longest_delay`],
//!   [`a_withheld_op_is_delivered_on_time`]).
//!
//! The model of an injector is its configuration and its delay queue,
//! [`FaultState`]; one step of it is a function of the incoming operation and the
//! words drawn.
use crate::cap_rights::Rights;
use crate::counting;
use crate::rng;
use crate::rng::KernelRng;
use crate::trace::{CapOp, ObjectToken};
use vstd::prelude::*;

verus! {

/// Maximum number of operations the delay queue can hold at once.
pub const DELAY_MAX: usize = 4;

/// Maximum number of operations a single [`FaultInjector::process`] call can
/// return: every delayed operation released at once, and a duplicated incoming
/// one.
pub const DELIVER_MAX: usize = DELAY_MAX + 2;

/// The category of fault applied to a capability operation.
///
/// Reorder is not a distinct kind: it emerges from [`Delay`](FaultKind::Delay),
/// since a delayed op is released after later ops that were not delayed.
#[derive(Debug, Clone, Copy, PartialEq, Eq, Structural)]
pub enum FaultKind {
    /// The operation is discarded.
    Drop,
    /// The operation is withheld for one or more steps, then released.
    Delay,
    /// The operation is delivered twice in succession.
    Duplicate,
    /// One field of the operation is perturbed before delivery.
    CorruptOp,
}

/// Probability weights controlling a fault-injection run, in per-mille.
#[derive(Debug, Clone, Copy, PartialEq, Eq, Structural)]
pub struct FaultConfig {
    /// Per-mille probability that an operation is dropped entirely.
    pub drop_ppm: u16,
    /// Per-mille probability that an operation is delayed.
    pub delay_ppm: u16,
    /// Per-mille probability that an operation is delivered twice.
    pub duplicate_ppm: u16,
    /// Per-mille probability that an operation's fields are corrupted.
    pub corrupt_op_ppm: u16,
    /// Maximum number of steps an operation may be delayed
    /// ([`no_op_waits_longer_than_the_longest_delay`]). A value of `0` is treated as
    /// `1`.
    pub max_delay_steps: u8,
}

impl FaultConfig {
    /// The combined weight of the four fault kinds.
    pub open spec fn weight(self) -> int {
        self.drop_ppm + self.delay_ppm + self.duplicate_ppm + self.corrupt_op_ppm
    }

    /// The longest delay.
    pub open spec fn longest_delay(self) -> u64 {
        if self.max_delay_steps == 0 {
            1
        } else {
            self.max_delay_steps as u64
        }
    }

    /// The fault that befalls an operation on the roll `roll`: the weights cut
    /// up the range from zero, and what they leave is passthrough.
    pub open spec fn fault_on(self, roll: u64) -> Option<FaultKind> {
        if roll < self.drop_ppm {
            Some(FaultKind::Drop)
        } else if roll < self.drop_ppm + self.delay_ppm {
            Some(FaultKind::Delay)
        } else if roll < self.drop_ppm + self.delay_ppm + self.duplicate_ppm {
            Some(FaultKind::Duplicate)
        } else if roll < self.weight() {
            Some(FaultKind::CorruptOp)
        } else {
            None
        }
    }

    /// No faults: every operation is delivered exactly once, in order.
    #[must_use]
    pub fn clear_sky() -> (c: Self)
        ensures
            c.weight() == 0,
            c == (FaultConfig {
                drop_ppm: 0,
                delay_ppm: 0,
                duplicate_ppm: 0,
                corrupt_op_ppm: 0,
                max_delay_steps: 1,
            }),
    {
        FaultConfig {
            drop_ppm: 0,
            delay_ppm: 0,
            duplicate_ppm: 0,
            corrupt_op_ppm: 0,
            max_delay_steps: 1,
        }
    }

    /// Moderate faults: drops, delays, reorders and duplicates, but no field
    /// corruption.
    #[must_use]
    pub fn stormy() -> (c: Self)
        ensures
            c.weight() <= 1000,
            c == (FaultConfig {
                drop_ppm: 80,
                delay_ppm: 120,
                duplicate_ppm: 60,
                corrupt_op_ppm: 0,
                max_delay_steps: 4,
            }),
    {
        FaultConfig {
            drop_ppm: 80,
            delay_ppm: 120,
            duplicate_ppm: 60,
            corrupt_op_ppm: 0,
            max_delay_steps: 4,
        }
    }

    /// Aggressive faults, including field corruption.
    #[must_use]
    pub fn apocalyptic() -> (c: Self)
        ensures
            c.weight() <= 1000,
            c == (FaultConfig {
                drop_ppm: 150,
                delay_ppm: 150,
                duplicate_ppm: 100,
                corrupt_op_ppm: 100,
                max_delay_steps: 4,
            }),
    {
        FaultConfig {
            drop_ppm: 150,
            delay_ppm: 150,
            duplicate_ppm: 100,
            corrupt_op_ppm: 100,
            max_delay_steps: 4,
        }
    }

    /// Creates a configuration, returning `None` if the four fault weights sum
    /// to more than `1000` per-mille.
    #[must_use]
    pub fn new(
        drop_ppm: u16,
        delay_ppm: u16,
        duplicate_ppm: u16,
        corrupt_op_ppm: u16,
        max_delay_steps: u8,
    ) -> (r: Option<Self>)
        ensures
            r == (if drop_ppm + delay_ppm + duplicate_ppm + corrupt_op_ppm <= 1000 {
                Some(
                    FaultConfig {
                        drop_ppm,
                        delay_ppm,
                        duplicate_ppm,
                        corrupt_op_ppm,
                        max_delay_steps,
                    },
                )
            } else {
                None
            }),
    {
        let config = FaultConfig {
            drop_ppm,
            delay_ppm,
            duplicate_ppm,
            corrupt_op_ppm,
            max_delay_steps,
        };
        if config.fault_weight_sum() <= 1000 {
            Some(config)
        } else {
            None
        }
    }

    /// Returns the fault that befalls an operation on the roll `roll`, or `None`
    /// for passthrough.
    #[must_use]
    pub fn fault_for(&self, roll: u64) -> (fault: Option<FaultKind>)
        ensures
            fault == self.fault_on(roll),
            fault == Some(FaultKind::Drop) <==> roll < self.drop_ppm,
            fault == Some(FaultKind::Delay) <==> self.drop_ppm <= roll < self.drop_ppm
                + self.delay_ppm,
            fault == Some(FaultKind::Duplicate) <==> self.drop_ppm + self.delay_ppm <= roll
                < self.drop_ppm + self.delay_ppm + self.duplicate_ppm,
            fault == Some(FaultKind::CorruptOp) <==> self.drop_ppm + self.delay_ppm
                + self.duplicate_ppm <= roll < self.drop_ppm + self.delay_ppm + self.duplicate_ppm
                + self.corrupt_op_ppm,
    {
        // cumulative per-mille thresholds; the trailing range is passthrough.
        let drop_to: u64 = self.drop_ppm as u64;
        let delay_to: u64 = drop_to + self.delay_ppm as u64;
        let dup_to: u64 = delay_to + self.duplicate_ppm as u64;
        let corrupt_to: u64 = dup_to + self.corrupt_op_ppm as u64;
        if roll < drop_to {
            Some(FaultKind::Drop)
        } else if roll < delay_to {
            Some(FaultKind::Delay)
        } else if roll < dup_to {
            Some(FaultKind::Duplicate)
        } else if roll < corrupt_to {
            Some(FaultKind::CorruptOp)
        } else {
            None
        }
    }

    /// Returns the combined per-mille weight of the four fault kinds.
    #[must_use]
    pub fn fault_weight_sum(&self) -> (sum: u32)
        ensures
            sum == self.weight(),
            sum == self.drop_ppm + self.delay_ppm + self.duplicate_ppm + self.corrupt_op_ppm,
    {
        self.drop_ppm as u32 + self.delay_ppm as u32 + self.duplicate_ppm as u32
            + self.corrupt_op_ppm as u32
    }
}

/// A fixed-capacity, heap-free vector of up to [`DELIVER_MAX`] operations.
#[derive(Debug, Clone, Copy)]
pub struct SmallOpVec {
    ops: [CapOp; DELIVER_MAX],
    len: usize,
}

impl View for SmallOpVec {
    type V = Seq<CapOp>;

    /// The operations held, in order.
    closed spec fn view(&self) -> Seq<CapOp> {
        self.ops@.take(self.len as int)
    }
}

impl SmallOpVec {
    /// No more operations are held than fit.
    pub closed spec fn wf(&self) -> bool {
        self.len <= DELIVER_MAX
    }

    /// A well-formed vector holds at most [`DELIVER_MAX`] operations.
    pub proof fn lemma_capacity(&self)
        requires
            self.wf(),
        ensures
            self@.len() <= DELIVER_MAX,
    {
    }

    /// Creates an empty vector.
    #[must_use]
    pub fn new() -> (v: Self)
        ensures
            v.wf(),
            v@ == Seq::<CapOp>::empty(),
    {
        let v = SmallOpVec { ops: [CapOp::Remove { slot: 0 }; DELIVER_MAX], len: 0 };
        assert(v@ =~= Seq::<CapOp>::empty());
        v
    }

    /// Appends `op`. There must be room for it.
    pub fn push(&mut self, op: CapOp)
        requires
            old(self).wf(),
            old(self)@.len() < DELIVER_MAX,
        ensures
            final(self).wf(),
            final(self)@ == old(self)@.push(op),
    {
        let ghost before = self@;
        self.ops[self.len] = op;
        self.len = self.len + 1;
        assert(self@ =~= before.push(op));
    }

    /// Returns the number of operations held.
    #[inline]
    #[must_use]
    pub fn len(&self) -> (n: usize)
        requires
            self.wf(),
        ensures
            n == self@.len(),
            n <= DELIVER_MAX,
    {
        self.len
    }

    /// Returns `true` if no operations are held.
    #[inline]
    #[must_use]
    pub fn is_empty(&self) -> (b: bool)
        requires
            self.wf(),
        ensures
            b == (self@.len() == 0),
    {
        self.len == 0
    }

    /// Iterates the held operations in order.
    pub fn iter(&self) -> (it: core::slice::Iter<'_, CapOp>)
        requires
            self.wf(),
        ensures
            vstd::std_specs::iter::IteratorSpec::remaining(&it) == self@.as_ref(),
    {
        let held: &[CapOp] = &self.ops[0..self.len];
        assert(held@ =~= self@);
        held.iter()
    }
}

impl Default for SmallOpVec {
    fn default() -> (v: Self)
        ensures
            v.wf(),
            v@ == Seq::<CapOp>::empty(),
    {
        Self::new()
    }
}

/// One operation pending delayed delivery, with the number of steps left before
/// it is released.
#[derive(Debug, Clone, Copy)]
pub struct DelayEntry {
    /// The withheld operation.
    pub op: CapOp,
    /// Steps left, at least one.
    pub remaining: u8,
}

impl DelayEntry {
    /// The entry one step later.
    pub open spec fn aged(self) -> Self {
        DelayEntry { op: self.op, remaining: (self.remaining - 1) as u8 }
    }
}

/// The queue without entry `i`; the last entry takes its place.
pub open spec fn swap_removed(queue: Seq<DelayEntry>, i: int) -> Seq<DelayEntry> {
    queue.update(i, queue.last()).drop_last()
}

/// The queue after one step, and the operations that the step releases, when the
/// entries before `i` have been aged already. An entry that comes due is replaced
/// by the last one, which is then aged in its place.
pub open spec fn flushed(queue: Seq<DelayEntry>, i: int) -> (Seq<DelayEntry>, Seq<CapOp>)
    decreases queue.len() - i,
{
    if i < 0 || i >= queue.len() {
        (queue, Seq::empty())
    } else if queue[i].remaining == 1 {
        let (kept, released) = flushed(swap_removed(queue, i), i);
        (kept, seq![queue[i].op] + released)
    } else {
        flushed(queue.update(i, queue[i].aged()), i + 1)
    }
}

/// The number of words that corrupting `op` draws.
pub open spec fn corruption_words(op: CapOp) -> nat {
    match op {
        CapOp::Remove { .. } | CapOp::Revoke { .. } => 1,
        _ => 2,
    }
}

/// The low half of `word`, as a slot index.
pub open spec fn slot_word(word: u64) -> u32 {
    (word % 0x1_0000_0000) as u32
}

/// One of the sixteen sets of rights, as `word` picks it.
pub open spec fn picked_rights(word: u64) -> Rights {
    Rights::truncated(rng::scaled(word, 16) as u8)
}

/// `op` with one field replaced, as `words` decide: where the operation has two
/// fields, the low bit of the first word says which, and the next word supplies
/// the new value.
pub open spec fn corrupted(op: CapOp, words: Seq<u64>) -> CapOp {
    match op {
        CapOp::Insert { object, rights } => if rng::low_bit(words[0]) {
            CapOp::Insert { object, rights: picked_rights(words[1]) }
        } else {
            CapOp::Insert { object: ObjectToken(words[1]), rights }
        },
        CapOp::Mint { source, mask } => if rng::low_bit(words[0]) {
            CapOp::Mint { source: slot_word(words[1]), mask }
        } else {
            CapOp::Mint { source, mask: picked_rights(words[1]) }
        },
        CapOp::Remove { .. } => CapOp::Remove { slot: slot_word(words[0]) },
        CapOp::Revoke { .. } => CapOp::Revoke { slot: slot_word(words[0]) },
        CapOp::Check { slot, required } => if rng::low_bit(words[0]) {
            CapOp::Check { slot: slot_word(words[1]), required }
        } else {
            CapOp::Check { slot, required: picked_rights(words[1]) }
        },
    }
}

/// The mathematical model of a [`FaultInjector`].
#[verifier::ext_equal]
pub struct FaultState {
    /// The configuration applied.
    pub config: FaultConfig,
    /// The delayed operations.
    pub delayed: Seq<DelayEntry>,
}

impl FaultState {
    /// No entry is overdue, and none waits longer than the longest delay.
    pub open spec fn waits_are_bounded(self) -> bool {
        forall|i: int|
            0 <= i < self.delayed.len() ==> 1 <= (#[trigger] self.delayed[i]).remaining
                <= self.config.longest_delay()
    }

    /// The queue fits, no entry is overdue, and none waits longer than the longest
    /// delay.
    pub open spec fn valid(self) -> bool {
        self.delayed.len() <= DELAY_MAX && self.waits_are_bounded()
    }

    /// The queue after this step has released what came due.
    pub open spec fn kept(self) -> Seq<DelayEntry> {
        flushed(self.delayed, 0).0
    }

    /// What this step releases from the queue.
    pub open spec fn released(self) -> Seq<CapOp> {
        flushed(self.delayed, 0).1
    }

    /// The fault that the first word decides on.
    pub open spec fn fault(self, words: Seq<u64>) -> Option<FaultKind> {
        self.config.fault_on(rng::scaled(words[0], 1000))
    }

    /// The number of words that a step on `op` draws, if `words` are what comes.
    pub open spec fn words_drawn(self, op: CapOp, words: Seq<u64>) -> nat {
        match self.fault(words) {
            Some(FaultKind::Delay) => if self.kept().len() < DELAY_MAX {
                2
            } else {
                1
            },
            Some(FaultKind::CorruptOp) => 1 + corruption_words(op),
            _ => 1,
        }
    }

    /// The state after a step on `op` that drew `words`.
    pub open spec fn stepped(self, op: CapOp, words: Seq<u64>) -> Self {
        if self.fault(words) == Some(FaultKind::Delay) && self.kept().len() < DELAY_MAX {
            let remaining = 1 + rng::scaled(words[1], self.config.longest_delay());
            FaultState {
                config: self.config,
                delayed: self.kept().push(DelayEntry { op, remaining: remaining as u8 }),
            }
        } else {
            FaultState { config: self.config, delayed: self.kept() }
        }
    }

    /// What a step on `op` that drew `words` delivers: what came due, and then
    /// what the fault has left of the incoming operation.
    pub open spec fn delivered(self, op: CapOp, words: Seq<u64>) -> Seq<CapOp> {
        match self.fault(words) {
            Some(FaultKind::Drop) => self.released(),
            Some(FaultKind::Delay) => if self.kept().len() < DELAY_MAX {
                self.released()
            } else {
                self.released().push(op)
            },
            Some(FaultKind::Duplicate) => self.released().push(op).push(op),
            Some(FaultKind::CorruptOp) => self.released().push(corrupted(op, words.skip(1))),
            None => self.released().push(op),
        }
    }
}

/// One step of an injector: `words` are drawn from the generator, and they and
/// the incoming operation decide what state follows and what is delivered.
pub open spec fn processed<R: KernelRng>(
    state: FaultState,
    op: CapOp,
    pre: R,
    post: R,
    next: FaultState,
    out: Seq<CapOp>,
) -> bool {
    exists|words: Seq<u64>| #[trigger]
        rng::draws(pre, words, post) && words.len() == state.words_drawn(op, words) && next
            == state.stepped(op, words) && out == state.delivered(op, words)
}

/// Flushing loses nothing, leaves no entry overdue, and lengthens no wait.
proof fn lemma_flushed(queue: Seq<DelayEntry>, i: int, max: u64)
    requires
        0 <= i <= queue.len(),
        forall|j: int| 0 <= j < queue.len() ==> 1 <= (#[trigger] queue[j]).remaining <= max,
    ensures
        flushed(queue, i).0.len() + flushed(queue, i).1.len() == queue.len(),
        forall|j: int|
            0 <= j < flushed(queue, i).0.len() ==> 1 <= (#[trigger] flushed(queue, i).0[j]).remaining
                <= max,
    decreases queue.len() - i,
{
    if i < queue.len() {
        if queue[i].remaining == 1 {
            let next = swap_removed(queue, i);
            assert forall|j: int| 0 <= j < next.len() implies 1 <= (#[trigger] next[j]).remaining
                <= max by {
                assert(queue[j].remaining >= 1);
                assert(queue[queue.len() - 1].remaining >= 1);
            }
            lemma_flushed(next, i, max);
        } else {
            let next = queue.update(i, queue[i].aged());
            assert forall|j: int| 0 <= j < next.len() implies 1 <= (#[trigger] next[j]).remaining
                <= max by {
                assert(queue[j].remaining >= 1);
            }
            lemma_flushed(next, i + 1, max);
        }
    }
}

// an arbitrary 32-bit slot index, drawn so that out-of-range values are common.
fn random_slot_word<R: KernelRng>(rng: &mut R) -> (slot: u32)
    ensures
        exists|word: u64| #[trigger] old(rng).steps(word, final(rng)) && slot == slot_word(word),
{
    let word: u64 = rng.next_u64();
    assert(word as u32 == (word % 0x1_0000_0000) as u32) by (bit_vector);
    #[verifier::truncate]
    let slot: u32 = word as u32;
    slot
}

// an arbitrary valid Rights value (one of the 16 subsets of the four bits).
fn random_rights<R: KernelRng>(rng: &mut R) -> (rights: Rights)
    ensures
        exists|word: u64| #[trigger]
            old(rng).steps(word, final(rng)) && rights == picked_rights(word),
{
    let bits: u64 = rng.below(16);
    Rights::from_bits_truncate(bits as u8)
}

/// Applies a [`FaultConfig`] to a stream of operations.
///
/// Holds a small bounded delay queue (no heap), so reordering and delayed
/// delivery persist across [`process`](Self::process) calls.
pub struct FaultInjector {
    config: FaultConfig,
    delay_queue: [DelayEntry; DELAY_MAX],
    delay_len: usize,
}

impl View for FaultInjector {
    type V = FaultState;

    closed spec fn view(&self) -> FaultState {
        FaultState { config: self.config, delayed: self.delay_queue@.take(self.delay_len as int) }
    }
}

impl FaultInjector {
    /// The delay queue fits, no entry is overdue, and none waits longer than the
    /// longest delay.
    pub closed spec fn wf(&self) -> bool {
        self.delay_len <= DELAY_MAX && self@.valid()
    }

    /// A well-formed injector is in a valid state.
    pub proof fn lemma_valid(&self)
        requires
            self.wf(),
        ensures
            self@.valid(),
    {
    }

    /// Creates an injector for `config`.
    #[must_use]
    pub fn new(config: FaultConfig) -> (inj: Self)
        ensures
            inj.wf(),
            inj@ == (FaultState { config, delayed: Seq::empty() }),
    {
        let vacant = DelayEntry { op: CapOp::Remove { slot: 0 }, remaining: 1 };
        let inj = FaultInjector { config, delay_queue: [vacant; DELAY_MAX], delay_len: 0 };
        assert(inj@.delayed =~= Seq::empty());
        inj
    }

    /// Returns the configuration this injector applies.
    #[inline]
    #[must_use]
    pub fn config(&self) -> (config: FaultConfig)
        ensures
            config == self@.config,
    {
        self.config
    }

    /// Processes one incoming operation and returns the operations to deliver
    /// this step.
    ///
    /// The result may hold zero operations (the incoming op was dropped and no
    /// delayed op came due), one, or several (a delayed op released alongside the
    /// incoming one, or a duplicate). All randomness is drawn from `rng` in a
    /// fixed order, so the realized stream is a function of the words drawn.
    #[must_use]
    pub fn process<R: KernelRng>(&mut self, op: CapOp, rng: &mut R) -> (out: SmallOpVec)
        requires
            old(self).wf(),
        ensures
            final(self).wf(),
            out.wf(),
            processed(old(self)@, op, *old(rng), *final(rng), final(self)@, out@),
            out@.len() <= DELIVER_MAX,
            final(self)@.config == old(self)@.config,
    {
        let ghost before = self@;
        let ghost rng0 = *rng;
        let mut out = SmallOpVec::new();
        proof {
            lemma_flushed(before.delayed, 0, before.config.longest_delay());
        }
        // release any delayed ops that come due this step, before the incoming
        // one, so the realized order is stable.
        self.flush_ready(&mut out);
        assert(out@ =~= before.released());

        let roll: u64 = rng.below(1000);
        let ghost rng1 = *rng;
        let ghost word = choose|word: u64| #[trigger]
            rng0.steps(word, &rng1) && roll == rng::scaled(word, 1000);
        proof {
            rng::lemma_draw_first(rng0, word, rng1);
        }
        let ghost words = seq![word];
        match self.config.fault_for(roll) {
            Some(FaultKind::Drop) => {
                // deliver only what the delay queue released.
            },
            Some(FaultKind::Delay) => {
                let delayed: bool = self.try_delay(op, rng);
                if !delayed {
                    out.push(op);
                }
                proof {
                    if delayed {
                        let next = choose|next: u64| #[trigger]
                            rng1.steps(next, rng) && self@.delayed == before.kept().push(
                                DelayEntry {
                                    op,
                                    remaining: (1 + rng::scaled(
                                        next,
                                        before.config.longest_delay(),
                                    )) as u8,
                                },
                            );
                        rng::lemma_draw_one_more(rng0, words, rng1, next, *rng);
                        words = words.push(next);
                    }
                }
            },
            Some(FaultKind::Duplicate) => {
                out.push(op);
                out.push(op);
            },
            Some(FaultKind::CorruptOp) => {
                let bad: CapOp = Self::corrupt_op(op, rng);
                out.push(bad);
                proof {
                    let tail = choose|tail: Seq<u64>| #[trigger]
                        rng::draws(rng1, tail, *rng) && tail.len() == corruption_words(op) && bad
                            == corrupted(op, tail);
                    rng::lemma_draws_concat(rng0, words, rng1, tail, *rng);
                    words = words + tail;
                    assert(words.skip(1) =~= tail);
                }
            },
            None => {
                out.push(op);
            },
        }
        proof {
            assert(words[0] == word);
            assert(rng::draws(rng0, words, *rng));
            assert(self@ =~= before.stepped(op, words));
            assert(out@ =~= before.delivered(op, words));
        }
        out
    }

    // ages every queued entry and releases (pushes to `out`) those that come due,
    // removing them from the queue by a swap with the last live entry.
    fn flush_ready(&mut self, out: &mut SmallOpVec)
        requires
            old(self).wf(),
            old(out).wf(),
            old(out)@.len() + old(self)@.delayed.len() <= DELIVER_MAX,
        ensures
            final(self).wf(),
            final(out).wf(),
            final(self)@ == (FaultState {
                config: old(self)@.config,
                delayed: old(self)@.kept(),
            }),
            final(out)@ == old(out)@ + old(self)@.released(),
    {
        let ghost queue = self@.delayed;
        let mut i: usize = 0;
        proof {
            assert(out@ + flushed(queue, 0).1 =~= old(out)@ + old(self)@.released());
        }
        while i < self.delay_len
            invariant
                self.wf(),
                out.wf(),
                i <= self.delay_len <= DELAY_MAX,
                self@.config == old(self)@.config,
                out@.len() + self.delay_len <= DELIVER_MAX,
                flushed(self@.delayed, i as int).0 == old(self)@.kept(),
                out@ + flushed(self@.delayed, i as int).1 == old(out)@ + old(self)@.released(),
            decreases self.delay_len - i,
        {
            let ghost current = self@.delayed;
            let ghost given = out@;
            let entry: DelayEntry = self.delay_queue[i];
            assert(current[i as int] == entry);
            if entry.remaining == 1 {
                out.push(entry.op);
                self.delay_len = self.delay_len - 1;
                self.delay_queue[i] = self.delay_queue[self.delay_len];
                proof {
                    assert(self@.delayed =~= swap_removed(current, i as int));
                    assert(current[current.len() - 1].remaining >= 1);
                    assert(out@ + flushed(self@.delayed, i as int).1 =~= given + (seq![entry.op]
                        + flushed(self@.delayed, i as int).1));
                }
                // do not advance: a swapped-in entry now occupies this place (or
                // the queue has ended).
            } else {
                self.delay_queue[i] = DelayEntry { op: entry.op, remaining: entry.remaining - 1 };
                i = i + 1;
                assert(self@.delayed =~= current.update(i - 1, entry.aged()));
            }
        }
        assert(out@ + Seq::<CapOp>::empty() =~= out@);
    }

    // tries to buffer `op` for a randomized delay. returns false (the caller
    // passes the op through) when the queue is full.
    fn try_delay<R: KernelRng>(&mut self, op: CapOp, rng: &mut R) -> (delayed: bool)
        requires
            old(self).wf(),
        ensures
            final(self).wf(),
            delayed == (old(self)@.delayed.len() < DELAY_MAX),
            final(self)@.config == old(self)@.config,
            !delayed ==> final(self)@ == old(self)@ && *final(rng) == *old(rng),
            delayed ==> exists|word: u64| #[trigger]
                old(rng).steps(word, final(rng)) && final(self)@.delayed == old(
                    self,
                )@.delayed.push(
                    DelayEntry {
                        op,
                        remaining: (1 + rng::scaled(word, old(self)@.config.longest_delay())) as u8,
                    },
                ),
    {
        if self.delay_len >= DELAY_MAX {
            return false;
        }
        let ghost before = self@;
        let max: u64 = if self.config.max_delay_steps == 0 {
            1
        } else {
            self.config.max_delay_steps as u64
        };
        // remaining in 1..=max, so the op is released between the next step and
        // `max` steps out.
        let remaining: u8 = (1 + rng.below(max)) as u8;
        self.delay_queue[self.delay_len] = DelayEntry { op, remaining };
        self.delay_len = self.delay_len + 1;
        proof {
            assert(self@.delayed =~= before.delayed.push(DelayEntry { op, remaining }));
            assert forall|j: int| 0 <= j < self@.delayed.len() implies (
            #[trigger] self@.delayed[j]).remaining >= 1 by {
                if j < before.delayed.len() {
                    assert(before.delayed[j].remaining >= 1);
                }
            }
        }
        true
    }

    /// Corrupts one field of `op`, deterministically from the words of `rng`.
    ///
    /// Slot and source indices are set to an arbitrary 32-bit value (so many land
    /// out of range); rights and masks to an arbitrary valid [`Rights`] value;
    /// object tokens to an arbitrary identity. The kind of the operation stays.
    #[must_use]
    pub fn corrupt_op<R: KernelRng>(op: CapOp, rng: &mut R) -> (bad: CapOp)
        ensures
            exists|words: Seq<u64>| #[trigger]
                rng::draws(*old(rng), words, *final(rng)) && words.len() == corruption_words(op)
                    && bad == corrupted(op, words),
    {
        let ghost rng0 = *rng;
        match op {
            CapOp::Insert { object, rights } => {
                let coin: bool = rng.next_bool();
                let ghost rng1 = *rng;
                let ghost first = choose|word: u64| #[trigger]
                    rng0.steps(word, &rng1) && coin == rng::low_bit(word);
                if coin {
                    let rights = random_rights(rng);
                    proof {
                        let second = choose|word: u64| #[trigger]
                            rng1.steps(word, rng) && rights == picked_rights(word);
                        lemma_draw_two(rng0, first, rng1, second, *rng);
                    }
                    CapOp::Insert { object, rights }
                } else {
                    let token: u64 = rng.next_u64();
                    proof {
                        lemma_draw_two(rng0, first, rng1, token, *rng);
                    }
                    CapOp::Insert { object: ObjectToken(token), rights }
                }
            },
            CapOp::Mint { source, mask } => {
                let coin: bool = rng.next_bool();
                let ghost rng1 = *rng;
                let ghost first = choose|word: u64| #[trigger]
                    rng0.steps(word, &rng1) && coin == rng::low_bit(word);
                if coin {
                    let source: u32 = random_slot_word(rng);
                    proof {
                        let second = choose|word: u64| #[trigger]
                            rng1.steps(word, rng) && source == slot_word(word);
                        lemma_draw_two(rng0, first, rng1, second, *rng);
                    }
                    CapOp::Mint { source, mask }
                } else {
                    let mask = random_rights(rng);
                    proof {
                        let second = choose|word: u64| #[trigger]
                            rng1.steps(word, rng) && mask == picked_rights(word);
                        lemma_draw_two(rng0, first, rng1, second, *rng);
                    }
                    CapOp::Mint { source, mask }
                }
            },
            CapOp::Remove { .. } => {
                let slot: u32 = random_slot_word(rng);
                proof {
                    let word = choose|word: u64| #[trigger]
                        rng0.steps(word, rng) && slot == slot_word(word);
                    rng::lemma_draw_first(rng0, word, *rng);
                }
                CapOp::Remove { slot }
            },
            CapOp::Revoke { .. } => {
                let slot: u32 = random_slot_word(rng);
                proof {
                    let word = choose|word: u64| #[trigger]
                        rng0.steps(word, rng) && slot == slot_word(word);
                    rng::lemma_draw_first(rng0, word, *rng);
                }
                CapOp::Revoke { slot }
            },
            CapOp::Check { slot, required } => {
                let coin: bool = rng.next_bool();
                let ghost rng1 = *rng;
                let ghost first = choose|word: u64| #[trigger]
                    rng0.steps(word, &rng1) && coin == rng::low_bit(word);
                if coin {
                    let slot: u32 = random_slot_word(rng);
                    proof {
                        let second = choose|word: u64| #[trigger]
                            rng1.steps(word, rng) && slot == slot_word(word);
                        lemma_draw_two(rng0, first, rng1, second, *rng);
                    }
                    CapOp::Check { slot, required }
                } else {
                    let required = random_rights(rng);
                    proof {
                        let second = choose|word: u64| #[trigger]
                            rng1.steps(word, rng) && required == picked_rights(word);
                        lemma_draw_two(rng0, first, rng1, second, *rng);
                    }
                    CapOp::Check { slot, required }
                }
            },
        }
    }
}

/// Two words drawn.
proof fn lemma_draw_two<R: KernelRng>(pre: R, first: u64, mid: R, second: u64, post: R)
    requires
        pre.steps(first, &mid),
        mid.steps(second, &post),
    ensures
        rng::draws(pre, seq![first, second], post),
{
    rng::lemma_draw_first(pre, first, mid);
    rng::lemma_draw_one_more(pre, seq![first], mid, second, post);
    assert(seq![first].push(second) =~= seq![first, second]);
}

impl FaultState {
    /// What the fault makes of the incoming operation, in whatever step it is then
    /// delivered: nothing if it is dropped, two copies if it is duplicated, the
    /// corrupted one if it is corrupted, and the operation itself otherwise.
    pub open spec fn realized(self, op: CapOp, words: Seq<u64>) -> Seq<CapOp> {
        match self.fault(words) {
            Some(FaultKind::Drop) => Seq::empty(),
            Some(FaultKind::Delay) => seq![op],
            Some(FaultKind::Duplicate) => seq![op, op],
            Some(FaultKind::CorruptOp) => seq![corrupted(op, words.skip(1))],
            None => seq![op],
        }
    }
}

/// The operations in a delay queue.
pub open spec fn withheld(queue: Seq<DelayEntry>) -> Seq<CapOp> {
    Seq::new(queue.len(), |i: int| queue[i].op)
}

/// A step keeps the state valid and delivers at most [`DELIVER_MAX`] operations.
pub proof fn process_never_exceeds_deliver_max(state: FaultState, op: CapOp, words: Seq<u64>)
    requires
        state.valid(),
    ensures
        state.stepped(op, words).valid(),
        state.stepped(op, words).delayed.len() <= 4,
        state.delivered(op, words).len() <= DELIVER_MAX,
        state.delivered(op, words).len() <= 6,
{
    lemma_flushed(state.delayed, 0, state.config.longest_delay());
    no_op_waits_longer_than_the_longest_delay(state, op, words);
}

/// No operation waits longer than the configuration allows: a step keeps the
/// configuration, and leaves every withheld operation with at least one and at most
/// the longest delay's number of steps to wait.
pub proof fn no_op_waits_longer_than_the_longest_delay(
    state: FaultState,
    op: CapOp,
    words: Seq<u64>,
)
    requires
        forall|j: int|
            0 <= j < state.delayed.len() ==> 1 <= (#[trigger] state.delayed[j]).remaining
                <= state.config.longest_delay(),
    ensures
        state.stepped(op, words).config == state.config,
        forall|j: int|
            0 <= j < state.stepped(op, words).delayed.len() ==> 1 <= (#[trigger] state.stepped(
                op,
                words,
            ).delayed[j]).remaining <= state.config.longest_delay(),
{
    let max = state.config.longest_delay();
    lemma_flushed(state.delayed, 0, max);
    rng::scaled_is_in_range(words[1], max);
    let next = state.stepped(op, words);
    assert forall|j: int| 0 <= j < next.delayed.len() implies 1 <= (
    #[trigger] next.delayed[j]).remaining <= max by {
        if j < state.kept().len() {
            assert(state.kept()[j].remaining >= 1);
        }
    }
}

/// Removing an entry removes its operation and no other.
proof fn lemma_withheld_swap_removed(queue: Seq<DelayEntry>, i: int)
    requires
        0 <= i < queue.len(),
    ensures
        withheld(swap_removed(queue, i)).to_multiset().insert(queue[i].op) == withheld(
            queue,
        ).to_multiset(),
{
    broadcast use vstd::multiset::group_multiset_axioms;
    let ops = withheld(queue);
    let last = ops.len() - 1;
    let moved = ops.update(i, ops[last]);
    let left = withheld(swap_removed(queue, i));
    assert(left =~= moved.drop_last());
    assert(moved =~= left.push(ops[last]));
    vstd::seq_lib::to_multiset_build(left, ops[last]);
    vstd::seq_lib::to_multiset_update(ops, i, ops[last]);
    vstd::seq_lib::to_multiset_contains(ops, ops[i]);
    assert(ops.contains(ops[i]));
    assert forall|x: CapOp| left.to_multiset().insert(ops[i]).count(x) == ops.to_multiset().count(
        x,
    ) by {
        assert(moved.to_multiset().count(x) == left.to_multiset().insert(ops[last]).count(x));
        assert(moved.to_multiset().count(x) == ops.to_multiset().insert(ops[last]).remove(
            ops[i],
        ).count(x));
    }
    assert(left.to_multiset().insert(ops[i]) =~= ops.to_multiset());
}

/// Flushing splits the operations in the queue into those released and those kept.
proof fn lemma_flushed_conserves(queue: Seq<DelayEntry>, i: int)
    requires
        0 <= i <= queue.len(),
    ensures
        flushed(queue, i).1.to_multiset().add(withheld(flushed(queue, i).0).to_multiset())
            == withheld(queue).to_multiset(),
    decreases queue.len() - i,
{
    broadcast use vstd::multiset::group_multiset_axioms;
    if i == queue.len() {
        assert(Seq::<CapOp>::empty().to_multiset() =~= vstd::multiset::Multiset::empty()) by {
            vstd::seq_lib::to_multiset_len(Seq::<CapOp>::empty());
        }
        assert(flushed(queue, i).1.to_multiset().add(withheld(queue).to_multiset()) =~= withheld(
            queue,
        ).to_multiset());
    } else if queue[i].remaining == 1 {
        let next = swap_removed(queue, i);
        let op = queue[i].op;
        let rest = flushed(next, i).1;
        lemma_flushed_conserves(next, i);
        lemma_withheld_swap_removed(queue, i);
        vstd::seq_lib::to_multiset_insert(rest, 0, op);
        assert(seq![op] + rest =~= rest.insert(0, op));
        assert((seq![op] + rest).to_multiset().add(withheld(flushed(next, i).0).to_multiset())
            =~= withheld(next).to_multiset().insert(op));
    } else {
        let next = queue.update(i, queue[i].aged());
        lemma_flushed_conserves(next, i + 1);
        assert(withheld(next) =~= withheld(queue));
    }
}

/// Nothing is lost but what is dropped, and nothing is made up but by corruption: the
/// operations that a step delivers and those withheld after it are, each as often,
/// those withheld before it and what the fault makes of the incoming one.
pub proof fn operations_are_conserved(state: FaultState, op: CapOp, words: Seq<u64>)
    requires
        state.valid(),
    ensures
        state.delivered(op, words).to_multiset().add(
            withheld(state.stepped(op, words).delayed).to_multiset(),
        ) == withheld(state.delayed).to_multiset().add(state.realized(op, words).to_multiset()),
        state.delivered(op, words).len() + state.stepped(op, words).delayed.len()
            == state.delayed.len() + state.realized(op, words).len(),
{
    broadcast use vstd::multiset::group_multiset_axioms;
    lemma_flushed(state.delayed, 0, state.config.longest_delay());
    lemma_flushed_conserves(state.delayed, 0);
    let released = state.released();
    let kept = withheld(state.kept());
    let next = withheld(state.stepped(op, words).delayed);
    let delivered = state.delivered(op, words);
    let realized = state.realized(op, words);
    vstd::seq_lib::lemma_multiset_commutative(released, realized);
    vstd::seq_lib::lemma_multiset_commutative(kept, realized);
    if state.fault(words) == Some(FaultKind::Delay) && state.kept().len() < DELAY_MAX {
        assert(next =~= kept + realized);
    } else {
        assert(next =~= kept);
        assert(delivered =~= released + realized);
    }
    assert(delivered.to_multiset().add(next.to_multiset()) =~= withheld(
        state.delayed,
    ).to_multiset().add(realized.to_multiset()));
}

/// Without fault weights a step is pure passthrough, whatever is drawn.
pub proof fn clear_sky_is_pure_passthrough(state: FaultState, op: CapOp, words: Seq<u64>)
    requires
        state.config.weight() == 0,
        state.delayed.len() == 0,
    ensures
        state.delivered(op, words) == seq![op],
        state.stepped(op, words) == state,
        state.words_drawn(op, words) == 1,
{
    assert(state.delivered(op, words) =~= seq![op]);
    assert(state.stepped(op, words) =~= state);
}

/// Corruption keeps the kind of the operation and changes at most one field.
pub proof fn corruption_keeps_the_kind(op: CapOp, words: Seq<u64>)
    ensures
        match (op, corrupted(op, words)) {
            (CapOp::Insert { object: a, rights: b }, CapOp::Insert { object: c, rights: d }) => a
                == c || b == d,
            (CapOp::Mint { source: a, mask: b }, CapOp::Mint { source: c, mask: d }) => a == c || b
                == d,
            (CapOp::Remove { .. }, CapOp::Remove { .. }) => true,
            (CapOp::Revoke { .. }, CapOp::Revoke { .. }) => true,
            (CapOp::Check { slot: a, required: b }, CapOp::Check { slot: c, required: d }) => a == c
                || b == d,
            _ => false,
        },
{
}

/// The rights that a word picks are those whose byte is the word as a fraction of
/// sixteen. Each of the sixteen sets of rights is picked by some word.
pub proof fn every_set_of_rights_is_picked(rights: Rights, any: u64) -> (word: u64)
    requires
        rights.valid(),
    ensures
        picked_rights(word) == rights,
        picked_rights(any).valid(),
        picked_rights(any).raw() as int == (any * 16) / 0x1_0000_0000_0000_0000,
{
    broadcast use crate::cap_rights::group_rights;

    rng::scaled_is_in_range(any, 16);
    let bits = rng::scaled(any, 16) as u8;
    assert(bits & 0b0000_1111 == bits) by (bit_vector)
        requires
            bits < 16,
    ;
    let raw = rights.raw();
    assert(raw & 0b0000_1111 == raw) by (bit_vector)
        requires
            raw <= 0b0000_1111,
    ;
    rng::scaled_reaches_every_value(16, raw as u64)
}

/// Which field corruption replaces, and by what. Of an operation with two fields an odd
/// first word picks the rights of an insert and the slot of a mint or a check, an even one
/// the other field; the next word supplies the new value, and the field that was not
/// picked stays. Of an operation with one field the only word supplies it: for a slot its
/// low half, for a token all of it, for rights its fraction of the sixteen sets.
pub proof fn corruption_replaces_the_field_picked(op: CapOp, words: Seq<u64>)
    ensures
        match (op, corrupted(op, words)) {
            (CapOp::Insert { object, rights }, CapOp::Insert { object: o, rights: r }) => {
                &&& words[0] % 2 == 1 ==> o == object && r.raw() as int == (words[1] * 16)
                    / 0x1_0000_0000_0000_0000
                &&& words[0] % 2 == 0 ==> o.0 == words[1] && r == rights
            },
            (CapOp::Mint { source, mask }, CapOp::Mint { source: s, mask: m }) => {
                &&& words[0] % 2 == 1 ==> s as int == words[1] % 0x1_0000_0000 && m == mask
                &&& words[0] % 2 == 0 ==> s == source && m.raw() as int == (words[1] * 16)
                    / 0x1_0000_0000_0000_0000
            },
            (CapOp::Remove { .. }, CapOp::Remove { slot }) => slot as int == words[0]
                % 0x1_0000_0000,
            (CapOp::Revoke { .. }, CapOp::Revoke { slot }) => slot as int == words[0]
                % 0x1_0000_0000,
            (CapOp::Check { slot, required }, CapOp::Check { slot: s, required: q }) => {
                &&& words[0] % 2 == 1 ==> s as int == words[1] % 0x1_0000_0000 && q == required
                &&& words[0] % 2 == 0 ==> s == slot && q.raw() as int == (words[1] * 16)
                    / 0x1_0000_0000_0000_0000
            },
            _ => false,
        },
        op is Remove || op is Revoke ==> corruption_words(op) == 1,
        op is Insert || op is Mint || op is Check ==> corruption_words(op) == 2,
{
    broadcast use crate::cap_rights::group_rights;

    every_set_of_rights_is_picked(Rights::of(0), words[1]);
}

/// Corruption reaches every field of every operation, and gives it any value: whatever
/// the operation, there are words under which a chosen field, and no other, has taken a
/// chosen value.
pub proof fn corruption_reaches_every_field_and_value(
    object: ObjectToken,
    rights: Rights,
    slot: u32,
    to_object: ObjectToken,
    to_rights: Rights,
    to_slot: u32,
)
    requires
        to_rights.valid(),
    ensures
        ({
            let op = CapOp::Insert { object, rights };
            &&& exists|words: Seq<u64>|
                words.len() == corruption_words(op) && #[trigger] corrupted(op, words) == (
                CapOp::Insert { object: to_object, rights })
            &&& exists|words: Seq<u64>|
                words.len() == corruption_words(op) && #[trigger] corrupted(op, words) == (
                CapOp::Insert { object, rights: to_rights })
        }),
        ({
            let op = CapOp::Mint { source: slot, mask: rights };
            &&& exists|words: Seq<u64>|
                words.len() == corruption_words(op) && #[trigger] corrupted(op, words) == (
                CapOp::Mint { source: to_slot, mask: rights })
            &&& exists|words: Seq<u64>|
                words.len() == corruption_words(op) && #[trigger] corrupted(op, words) == (
                CapOp::Mint { source: slot, mask: to_rights })
        }),
        ({
            let op = CapOp::Check { slot, required: rights };
            &&& exists|words: Seq<u64>|
                words.len() == corruption_words(op) && #[trigger] corrupted(op, words) == (
                CapOp::Check { slot: to_slot, required: rights })
            &&& exists|words: Seq<u64>|
                words.len() == corruption_words(op) && #[trigger] corrupted(op, words) == (
                CapOp::Check { slot, required: to_rights })
        }),
        ({
            let op = CapOp::Remove { slot };
            exists|words: Seq<u64>|
                words.len() == corruption_words(op) && #[trigger] corrupted(op, words) == (
                CapOp::Remove { slot: to_slot })
        }),
        ({
            let op = CapOp::Revoke { slot };
            exists|words: Seq<u64>|
                words.len() == corruption_words(op) && #[trigger] corrupted(op, words) == (
                CapOp::Revoke { slot: to_slot })
        }),
{
    let bits = every_set_of_rights_is_picked(to_rights, 0);
    let insert = CapOp::Insert { object, rights };
    assert(corrupted(insert, seq![0u64, to_object.0]) == CapOp::Insert { object: to_object, rights });
    assert(corrupted(insert, seq![1u64, bits]) == CapOp::Insert { object, rights: to_rights });
    let mint = CapOp::Mint { source: slot, mask: rights };
    assert(corrupted(mint, seq![1u64, to_slot as u64]) == CapOp::Mint {
        source: to_slot,
        mask: rights,
    });
    assert(corrupted(mint, seq![0u64, bits]) == CapOp::Mint { source: slot, mask: to_rights });
    let check = CapOp::Check { slot, required: rights };
    assert(corrupted(check, seq![1u64, to_slot as u64]) == CapOp::Check {
        slot: to_slot,
        required: rights,
    });
    assert(corrupted(check, seq![0u64, bits]) == CapOp::Check { slot, required: to_rights });
    assert(corrupted(CapOp::Remove { slot }, seq![to_slot as u64]) == CapOp::Remove {
        slot: to_slot,
    });
    assert(corrupted(CapOp::Revoke { slot }, seq![to_slot as u64]) == CapOp::Revoke {
        slot: to_slot,
    });
}

/// Of the thousand rolls each fault kind gets as many as its weight says, and what the
/// weights leave is passthrough; no roll is lost and none counts twice. The kinds lie in
/// the order of the fields, drops first.
pub proof fn each_fault_gets_its_weight_in_rolls(config: FaultConfig, roll: u64)
    requires
        config.drop_ppm + config.delay_ppm + config.duplicate_ppm + config.corrupt_op_ppm <= 1000,
    ensures
        rolls_for(config, Some(FaultKind::Drop)) == config.drop_ppm,
        rolls_for(config, Some(FaultKind::Delay)) == config.delay_ppm,
        rolls_for(config, Some(FaultKind::Duplicate)) == config.duplicate_ppm,
        rolls_for(config, Some(FaultKind::CorruptOp)) == config.corrupt_op_ppm,
        rolls_for(config, None) == 1000 - config.drop_ppm - config.delay_ppm - config.duplicate_ppm
            - config.corrupt_op_ppm,
        config.fault_on(roll) == Some(FaultKind::Drop) <==> roll < config.drop_ppm,
        config.fault_on(roll) == Some(FaultKind::Delay) <==> config.drop_ppm <= roll
            < config.drop_ppm + config.delay_ppm,
        config.fault_on(roll) == Some(FaultKind::Duplicate) <==> config.drop_ppm + config.delay_ppm
            <= roll < config.drop_ppm + config.delay_ppm + config.duplicate_ppm,
        config.fault_on(roll) == Some(FaultKind::CorruptOp) <==> config.drop_ppm + config.delay_ppm
            + config.duplicate_ppm <= roll < config.drop_ppm + config.delay_ppm
            + config.duplicate_ppm + config.corrupt_op_ppm,
        config.fault_on(roll) is None <==> roll >= config.drop_ppm + config.delay_ppm
            + config.duplicate_ppm + config.corrupt_op_ppm,
{
    let delay_from = config.drop_ppm as int;
    let dup_from = delay_from + config.delay_ppm;
    let corrupt_from = dup_from + config.duplicate_ppm;
    let end = corrupt_from + config.corrupt_op_ppm;
    lemma_count_range(hits(config, Some(FaultKind::Drop)), 0, delay_from);
    lemma_count_range(hits(config, Some(FaultKind::Delay)), delay_from, dup_from);
    lemma_count_range(hits(config, Some(FaultKind::Duplicate)), dup_from, corrupt_from);
    lemma_count_range(hits(config, Some(FaultKind::CorruptOp)), corrupt_from, end);
    lemma_count_range(hits(config, None), end, 1000);
}

/// Which of the thousand rolls bring `fault`.
pub open spec fn hits(config: FaultConfig, fault: Option<FaultKind>) -> Seq<bool> {
    Seq::new(1000, |roll: int| config.fault_on(roll as u64) == fault)
}

/// How many of the thousand rolls bring `fault`.
pub open spec fn rolls_for(config: FaultConfig, fault: Option<FaultKind>) -> nat {
    counting::count(hits(config, fault))
}

/// A sequence that is set on one range has as many entries set as the range is long.
proof fn lemma_count_range(s: Seq<bool>, from: int, to: int)
    requires
        0 <= from <= to <= s.len(),
        forall|i: int| 0 <= i < s.len() ==> #[trigger] s[i] == (from <= i < to),
    ensures
        counting::count(s) == to - from,
    decreases to - from,
{
    if to > from {
        let t = s.update(to - 1, false);
        counting::lemma_count_update(s, to - 1, false);
        assert forall|i: int| 0 <= i < t.len() implies #[trigger] t[i] == (from <= i < to - 1) by {
            assert(s[i] == (from <= i < to));
        }
        lemma_count_range(t, from, to - 1);
    } else {
        counting::lemma_count_bounds(s);
    }
}

/// What a step does on each roll, in its order: what came due is delivered first. A roll
/// below the weight of drops loses the operation. One in the range of delays withholds it
/// for one step and as many more as the second word says, its fraction of the longest
/// delay, if fewer than four are withheld already, and lets it pass otherwise. One in the
/// range of duplicates delivers it twice, one in the range of corruptions in its corrupted
/// form, and any other as it is. The queue gains nothing but what is withheld.
pub proof fn steps_do_what_the_roll_says(state: FaultState, op: CapOp, words: Seq<u64>)
    ensures
        ({
            let config = state.config;
            let roll = (words[0] * 1000) / 0x1_0000_0000_0000_0000;
            let delay_from = config.drop_ppm as int;
            let dup_from = delay_from + config.delay_ppm;
            let corrupt_from = dup_from + config.duplicate_ppm;
            let end = corrupt_from + config.corrupt_op_ppm;
            let longest: int = if config.max_delay_steps == 0 {
                1
            } else {
                config.max_delay_steps as int
            };
            let out = state.delivered(op, words);
            let queue = state.stepped(op, words).delayed;
            let room = state.kept().len() < 4;
            let delayed = delay_from <= roll < dup_from && room;
            &&& state.stepped(op, words).config == config
            &&& roll < delay_from ==> out == state.released()
            &&& delayed ==> out == state.released()
            &&& delay_from <= roll < dup_from && !room ==> out == state.released() + seq![op]
            &&& dup_from <= roll < corrupt_from ==> out == state.released() + seq![op, op]
            &&& corrupt_from <= roll < end ==> out == state.released() + seq![
                corrupted(op, words.skip(1)),
            ]
            &&& roll >= end ==> out == state.released() + seq![op]
            &&& !delayed ==> queue == state.kept()
            &&& delayed ==> {
                &&& queue.len() == state.kept().len() + 1
                &&& queue.drop_last() == state.kept()
                &&& queue.last().op == op
                &&& queue.last().remaining as int == 1 + (words[1] * longest)
                    / 0x1_0000_0000_0000_0000
            }
            &&& state.words_drawn(op, words) == (if delayed {
                2nat
            } else if corrupt_from <= roll < end {
                if op is Remove || op is Revoke {
                    2nat
                } else {
                    3nat
                }
            } else {
                1nat
            })
        }),
{
    rng::scaled_is_in_range(words[0], 1000);
    rng::scaled_is_in_range(words[1], state.config.longest_delay());
    let out = state.delivered(op, words);
    let queue = state.stepped(op, words).delayed;
    assert(state.released().push(op).push(op) =~= state.released() + seq![op, op]);
    assert(state.released().push(op) =~= state.released() + seq![op]);
    if state.fault(words) == Some(FaultKind::Delay) && state.kept().len() < DELAY_MAX {
        assert(queue.drop_last() =~= state.kept());
    }
}

/// Every wait from one step to the longest delay comes of some word.
pub proof fn every_wait_is_reached(state: FaultState, op: CapOp, first: u64, wait: u8) -> (second:
    u64)
    requires
        1 <= wait,
        wait <= state.config.max_delay_steps || wait == 1,
        state.kept().len() < 4,
        state.fault(seq![first]) == Some(FaultKind::Delay),
    ensures
        state.stepped(op, seq![first, second]).delayed == state.kept().push(
            DelayEntry { op, remaining: wait },
        ),
{
    let second = rng::scaled_reaches_every_value(
        state.config.longest_delay(),
        (wait - 1) as u64,
    );
    assert(state.fault(seq![first, second]) == state.fault(seq![first]));
    second
}

/// `queue` with the entries before `i` one step older.
spec fn aged_before(queue: Seq<DelayEntry>, i: int) -> Seq<DelayEntry> {
    Seq::new(
        queue.len(),
        |j: int|
            if j < i {
                queue[j].aged()
            } else {
                queue[j]
            },
    )
}

/// A flush ages in place what is not due.
proof fn lemma_flushed_from(queue: Seq<DelayEntry>, i: int)
    requires
        0 <= i <= queue.len(),
        forall|j: int| 0 <= j < i ==> (#[trigger] queue[j]).remaining != 1,
    ensures
        flushed(queue, 0) == flushed(aged_before(queue, i), i),
    decreases i,
{
    if i == 0 {
        assert(aged_before(queue, 0) =~= queue);
    } else {
        lemma_flushed_from(queue, i - 1);
        let before = aged_before(queue, i - 1);
        assert(before[i - 1] == queue[i - 1]);
        assert(before.update(i - 1, before[i - 1].aged()) =~= aged_before(queue, i));
    }
}

/// Where nothing is due, a step releases nothing: every entry keeps its place and its
/// operation and has one step less to wait.
pub proof fn waiting_entries_keep_their_places(state: FaultState)
    requires
        state.valid(),
        forall|j: int| 0 <= j < state.delayed.len() ==> (#[trigger] state.delayed[j]).remaining != 1,
    ensures
        state.released().len() == 0,
        state.kept().len() == state.delayed.len(),
        forall|j: int|
            0 <= j < state.delayed.len() ==> (#[trigger] state.kept()[j]).op == state.delayed[j].op
                && state.kept()[j].remaining == state.delayed[j].remaining - 1,
{
    let queue = state.delayed;
    lemma_flushed_from(queue, queue.len() as int);
    assert forall|j: int| 0 <= j < queue.len() implies (#[trigger] state.kept()[j]).op
        == queue[j].op && state.kept()[j].remaining == queue[j].remaining - 1 by {
        assert(queue[j].remaining >= 1);
    }
}

/// Where something is due, the first such entry is released first, and the step goes on
/// exactly as it would for the queue in which the last entry stands in its place.
pub proof fn the_first_due_entry_is_released_first(state: FaultState, i: int)
    requires
        state.valid(),
        0 <= i < state.delayed.len(),
        state.delayed[i].remaining == 1,
        forall|j: int| 0 <= j < i ==> (#[trigger] state.delayed[j]).remaining != 1,
    ensures
        ({
            let queue = state.delayed;
            let last = queue.len() - 1;
            let rest = FaultState {
                config: state.config,
                delayed: if i == last {
                    queue.take(last)
                } else {
                    queue.take(last).update(i, queue[last])
                },
            };
            &&& state.released() == seq![queue[i].op] + rest.released()
            &&& state.kept() == rest.kept()
        }),
{
    let queue = state.delayed;
    let last = queue.len() - 1;
    let rest = if i == last {
        queue.take(last)
    } else {
        queue.take(last).update(i, queue[last])
    };
    lemma_flushed_from(queue, i);
    lemma_flushed_from(rest, i);
    assert(aged_before(queue, i)[i] == queue[i]);
    assert(swap_removed(aged_before(queue, i), i) =~= aged_before(rest, i));
}

/// The number of entries of `queue` that satisfy `p`.
pub open spec fn tally(queue: Seq<DelayEntry>, p: spec_fn(DelayEntry) -> bool) -> nat {
    counting::count(Seq::new(queue.len(), |i: int| p(queue[i])))
}

/// Where `op` occurs in `ops`.
pub open spec fn places(ops: Seq<CapOp>, op: CapOp) -> Seq<bool> {
    Seq::new(ops.len(), |i: int| ops[i] == op)
}

/// How often `op` occurs in `ops`.
pub open spec fn occurrences(ops: Seq<CapOp>, op: CapOp) -> nat {
    counting::count(places(ops, op))
}

proof fn lemma_tally_update(
    queue: Seq<DelayEntry>,
    i: int,
    e: DelayEntry,
    p: spec_fn(DelayEntry) -> bool,
)
    requires
        0 <= i < queue.len(),
    ensures
        tally(queue.update(i, e), p) + (if p(queue[i]) { 1int } else { 0int }) == tally(queue, p)
            + (if p(e) { 1int } else { 0int }),
{
    let s = Seq::new(queue.len(), |j: int| p(queue[j]));
    counting::lemma_count_update(s, i, p(e));
    assert(Seq::new(queue.len(), |j: int| p(queue.update(i, e)[j])) =~= s.update(i, p(e)));
}

proof fn lemma_tally_drop_last(queue: Seq<DelayEntry>, p: spec_fn(DelayEntry) -> bool)
    requires
        queue.len() > 0,
    ensures
        tally(queue, p) == tally(queue.drop_last(), p) + (if p(queue.last()) { 1int } else {
            0int
        }),
{
    let s = Seq::new(queue.len(), |j: int| p(queue[j]));
    assert(s.drop_last() =~= Seq::new(
        (queue.len() - 1) as nat,
        |j: int| p(queue.drop_last()[j]),
    ));
}

proof fn lemma_tally_swap_removed(
    queue: Seq<DelayEntry>,
    i: int,
    p: spec_fn(DelayEntry) -> bool,
)
    requires
        0 <= i < queue.len(),
    ensures
        tally(swap_removed(queue, i), p) + (if p(queue[i]) { 1int } else { 0int }) == tally(
            queue,
            p,
        ),
{
    lemma_tally_update(queue, i, queue.last(), p);
    lemma_tally_drop_last(queue.update(i, queue.last()), p);
    if i == queue.len() - 1 {
        assert(queue.update(i, queue.last()) =~= queue);
    }
}

proof fn lemma_occurrences_cons(first: CapOp, ops: Seq<CapOp>, op: CapOp)
    ensures
        occurrences(seq![first] + ops, op) == occurrences(ops, op) + (if first == op {
            1int
        } else {
            0int
        }),
{
    let s = places(ops, op);
    counting::lemma_count_concat(seq![first == op], s);
    counting::lemma_count_push(Seq::empty(), first == op);
    assert(Seq::empty().push(first == op) =~= seq![first == op]);
    assert(places(seq![first] + ops, op) =~= seq![first == op] + s);
}

/// Splits the entries before and from `i` on, as the aging has reached them.
proof fn lemma_flushed_tallies(queue: Seq<DelayEntry>, i: int, e: DelayEntry)
    requires
        0 <= i <= queue.len(),
        e.remaining >= 1,
        forall|j: int| 0 <= j < queue.len() ==> (#[trigger] queue[j]).remaining >= 1,
    ensures
        tally(flushed(queue, i).0, |x: DelayEntry| x == e) == tally(
            queue.take(i),
            |x: DelayEntry| x == e,
        ) + tally(
            queue.skip(i),
            |x: DelayEntry| x.op == e.op && x.remaining == e.remaining + 1,
        ),
        occurrences(flushed(queue, i).1, e.op) == tally(
            queue.skip(i),
            |x: DelayEntry| x.op == e.op && x.remaining == 1,
        ),
    decreases queue.len() - i,
{
    let same = |x: DelayEntry| x == e;
    let older = |x: DelayEntry| x.op == e.op && x.remaining == e.remaining + 1;
    let due = |x: DelayEntry| x.op == e.op && x.remaining == 1;
    let rest = queue.skip(i);
    if i == queue.len() {
        assert(queue.take(i) =~= queue);
        assert(rest =~= Seq::empty());
    } else if queue[i].remaining == 1 {
        let next = swap_removed(queue, i);
        assert forall|j: int| 0 <= j < next.len() implies (#[trigger] next[j]).remaining >= 1 by {
            assert(queue[j].remaining >= 1);
            assert(queue[queue.len() - 1].remaining >= 1);
        }
        lemma_flushed_tallies(next, i, e);
        assert(next.take(i) =~= queue.take(i));
        assert(next.skip(i) =~= swap_removed(rest, 0));
        lemma_tally_swap_removed(rest, 0, older);
        lemma_tally_swap_removed(rest, 0, due);
        lemma_occurrences_cons(queue[i].op, flushed(next, i).1, e.op);
    } else {
        let aged = queue[i].aged();
        let next = queue.update(i, aged);
        assert forall|j: int| 0 <= j < next.len() implies (#[trigger] next[j]).remaining >= 1 by {
            assert(queue[j].remaining >= 1);
        }
        lemma_flushed_tallies(next, i + 1, e);
        assert(next.take(i + 1) =~= queue.take(i).push(aged));
        assert(next.skip(i + 1) =~= rest.drop_first());
        lemma_tally_drop_last(queue.take(i).push(aged), same);
        assert(queue.take(i).push(aged).drop_last() =~= queue.take(i));
        lemma_tally_first(rest, older);
        lemma_tally_first(rest, due);
    }
}

proof fn lemma_tally_first(queue: Seq<DelayEntry>, p: spec_fn(DelayEntry) -> bool)
    requires
        queue.len() > 0,
    ensures
        tally(queue, p) == tally(queue.drop_first(), p) + (if p(queue[0]) { 1int } else { 0int }),
{
    let tail = Seq::new((queue.len() - 1) as nat, |j: int| p(queue.drop_first()[j]));
    counting::lemma_count_concat(seq![p(queue[0])], tail);
    counting::lemma_count_push(Seq::empty(), p(queue[0]));
    assert(Seq::empty().push(p(queue[0])) =~= seq![p(queue[0])]);
    assert(Seq::new(queue.len(), |j: int| p(queue[j])) =~= seq![p(queue[0])] + tail);
}

/// Delayed operations are released on time and not lost: a step delivers exactly
/// those that had one step left, and keeps every other one with one step less.
/// Stated by counting: each operation is released as often as it was due, and
/// each entry is kept as often as it was there one step older.
pub proof fn delayed_ops_are_released_on_time(state: FaultState, e: DelayEntry)
    requires
        state.valid(),
        e.remaining >= 1,
    ensures
        occurrences(state.released(), e.op) == tally(
            state.delayed,
            |x: DelayEntry| x.op == e.op && x.remaining == 1,
        ),
        tally(state.kept(), |x: DelayEntry| x == e) == tally(
            state.delayed,
            |x: DelayEntry| x.op == e.op && x.remaining == e.remaining + 1,
        ),
{
    lemma_flushed_tallies(state.delayed, 0, e);
    assert(state.delayed.skip(0) =~= state.delayed);
    assert(state.delayed.take(0) =~= Seq::empty());
}

/// The realized stream is a pure function of the seed: from the same state, the
/// same operation and the same generator, a step always ends the same way.
pub proof fn injector_is_deterministic(
    state: FaultState,
    op: CapOp,
    pre: rng::SimRng,
    a_post: rng::SimRng,
    a_next: FaultState,
    a_out: Seq<CapOp>,
    b_post: rng::SimRng,
    b_next: FaultState,
    b_out: Seq<CapOp>,
)
    requires
        processed(state, op, pre, a_post, a_next, a_out),
        processed(state, op, pre, b_post, b_next, b_out),
    ensures
        a_post == b_post,
        a_next == b_next,
        a_out == b_out,
{
    let a = choose|words: Seq<u64>| #[trigger]
        rng::draws(pre, words, a_post) && words.len() == state.words_drawn(op, words) && a_next
            == state.stepped(op, words) && a_out == state.delivered(op, words);
    let b = choose|words: Seq<u64>| #[trigger]
        rng::draws(pre, words, b_post) && words.len() == state.words_drawn(op, words) && b_next
            == state.stepped(op, words) && b_out == state.delivered(op, words);
    rng::sim_draws_are_the_stream(pre, a, a_post);
    rng::sim_draws_are_the_stream(pre, b, b_post);
    assert(a[0] == b[0]);
    assert(a =~= b);
    rng::same_seed_same_stream(pre, a, a_post, pre, b, b_post);
}

/// A run of an injector over `ops`: the states, the generators and the deliveries
/// that it goes through.
pub open spec fn run_of<R: KernelRng>(
    ops: Seq<CapOp>,
    states: Seq<FaultState>,
    rngs: Seq<R>,
    outs: Seq<Seq<CapOp>>,
) -> bool {
    &&& states.len() == ops.len() + 1
    &&& rngs.len() == ops.len() + 1
    &&& outs.len() == ops.len()
    &&& forall|i: int|
        0 <= i < ops.len() ==> processed(
            states[i],
            #[trigger] ops[i],
            rngs[i],
            rngs[i + 1],
            states[i + 1],
            outs[i],
        )
}

/// Where an entry goes in a flush that has reached `i`: what was aged already stays,
/// and of the rest what has one step left is released and all else is aged.
proof fn lemma_flushed_entry(queue: Seq<DelayEntry>, i: int, j: int)
    requires
        0 <= i <= queue.len(),
        0 <= j < queue.len(),
    ensures
        j < i ==> flushed(queue, i).0.contains(queue[j]),
        j >= i && queue[j].remaining == 1 ==> flushed(queue, i).1.contains(queue[j].op),
        j >= i && queue[j].remaining != 1 ==> flushed(queue, i).0.contains(queue[j].aged()),
    decreases queue.len() - i,
{
    if i < queue.len() {
        if queue[i].remaining == 1 {
            let next = swap_removed(queue, i);
            let released = flushed(next, i).1;
            let all = seq![queue[i].op] + released;
            if j == i {
                assert(all[0] == queue[i].op);
            } else {
                let k = if j == queue.len() - 1 {
                    i
                } else {
                    j
                };
                assert(next[k] == queue[j]);
                lemma_flushed_entry(next, i, k);
                if released.contains(queue[j].op) {
                    let m = choose|m: int| 0 <= m < released.len() && released[m] == queue[j].op;
                    assert(all[m + 1] == queue[j].op);
                }
            }
        } else {
            let next = queue.update(i, queue[i].aged());
            lemma_flushed_entry(next, i + 1, j);
        }
    }
}

/// A withheld operation is delivered exactly when its wait is over, and so within the
/// longest delay: in any run, an entry that has so many steps left is delivered by the
/// last of these steps.
pub proof fn a_withheld_op_is_delivered_on_time<R: KernelRng>(
    ops: Seq<CapOp>,
    states: Seq<FaultState>,
    rngs: Seq<R>,
    outs: Seq<Seq<CapOp>>,
    k: int,
    e: DelayEntry,
)
    requires
        run_of(ops, states, rngs, outs),
        0 <= k < states.len(),
        states[k].waits_are_bounded(),
        states[k].delayed.contains(e),
        k + e.remaining <= ops.len(),
    ensures
        1 <= e.remaining <= states[k].config.longest_delay(),
        outs[k + e.remaining - 1].contains(e.op),
    decreases e.remaining,
{
    let state = states[k];
    let j = choose|j: int| 0 <= j < state.delayed.len() && state.delayed[j] == e;
    assert(state.delayed[j].remaining >= 1);
    let op = ops[k];
    assert(processed(state, op, rngs[k], rngs[k + 1], states[k + 1], outs[k]));
    let words = choose|words: Seq<u64>| #[trigger]
        rng::draws(rngs[k], words, rngs[k + 1]) && words.len() == state.words_drawn(op, words)
            && states[k + 1] == state.stepped(op, words) && outs[k] == state.delivered(op, words);
    lemma_flushed_entry(state.delayed, 0, j);
    if e.remaining == 1 {
        let released = state.released();
        let m = choose|m: int| 0 <= m < released.len() && released[m] == e.op;
        assert(outs[k][m] == e.op);
    } else {
        let kept = state.kept();
        let m = choose|m: int| 0 <= m < kept.len() && kept[m] == e.aged();
        assert(states[k + 1].delayed[m] == e.aged());
        no_op_waits_longer_than_the_longest_delay(state, op, words);
        a_withheld_op_is_delivered_on_time(ops, states, rngs, outs, k + 1, e.aged());
    }
}

/// All that is delivered, step after step.
pub open spec fn all_delivered(outs: Seq<Seq<CapOp>>) -> Seq<CapOp>
    decreases outs.len(),
{
    if outs.len() == 0 {
        Seq::empty()
    } else {
        all_delivered(outs.drop_last()) + outs.last()
    }
}

/// Delays lose nothing over a whole run: under a configuration that only delays, all
/// deliveries together with what is withheld at the end are, each as often, what was
/// withheld at first and the incoming operations. From an empty queue, a run of as
/// many steps as `ops` delivers no more operations than that, and at most
/// [`DELAY_MAX`] fewer.
pub proof fn delays_lose_nothing<R: KernelRng>(
    ops: Seq<CapOp>,
    states: Seq<FaultState>,
    rngs: Seq<R>,
    outs: Seq<Seq<CapOp>>,
)
    requires
        run_of(ops, states, rngs, outs),
        states[0].valid(),
        states[0].config.weight() == states[0].config.delay_ppm,
    ensures
        all_delivered(outs).to_multiset().add(withheld(states.last().delayed).to_multiset())
            == withheld(states[0].delayed).to_multiset().add(ops.to_multiset()),
        all_delivered(outs).len() + states.last().delayed.len() == states[0].delayed.len()
            + ops.len(),
        states[0].delayed.len() == 0 ==> ops.len() - DELAY_MAX <= all_delivered(outs).len()
            <= ops.len(),
        states.last().valid(),
        states.last().config == states[0].config,
    decreases ops.len(),
{
    broadcast use vstd::multiset::group_multiset_axioms;
    if ops.len() == 0 {
        vstd::seq_lib::to_multiset_len(Seq::<CapOp>::empty());
        assert(ops =~= Seq::empty());
        assert(all_delivered(outs).to_multiset().add(
            withheld(states.last().delayed).to_multiset(),
        ) =~= withheld(states[0].delayed).to_multiset().add(ops.to_multiset()));
    } else {
        let n = ops.len() - 1;
        let ops0 = ops.drop_last();
        let states0 = states.drop_last();
        let rngs0 = rngs.drop_last();
        let outs0 = outs.drop_last();
        assert forall|i: int| 0 <= i < ops0.len() implies processed(
            states0[i],
            #[trigger] ops0[i],
            rngs0[i],
            rngs0[i + 1],
            states0[i + 1],
            outs0[i],
        ) by {
            assert(processed(states[i], ops[i], rngs[i], rngs[i + 1], states[i + 1], outs[i]));
        }
        delays_lose_nothing(ops0, states0, rngs0, outs0);
        let before = states[n];
        let op = ops[n];
        assert(processed(before, op, rngs[n], rngs[n + 1], states[n + 1], outs[n]));
        let words = choose|words: Seq<u64>| #[trigger]
            rng::draws(rngs[n], words, rngs[n + 1]) && words.len() == before.words_drawn(op, words)
                && states[n + 1] == before.stepped(op, words) && outs[n] == before.delivered(
                op,
                words,
            );
        assert(before.realized(op, words) == seq![op]);
        operations_are_conserved(before, op, words);
        process_never_exceeds_deliver_max(before, op, words);
        vstd::seq_lib::lemma_multiset_commutative(all_delivered(outs0), outs[n]);
        vstd::seq_lib::lemma_multiset_commutative(ops0, seq![op]);
        assert(ops =~= ops0 + seq![op]);
        assert(states0.last() == before && states.last() == states[n + 1] && outs.last()
            == outs[n]);
        let given = all_delivered(outs0).to_multiset();
        let first = withheld(states[0].delayed).to_multiset();
        assert(given.add(withheld(before.delayed).to_multiset()) == first.add(ops0.to_multiset()));
        assert(all_delivered(outs).to_multiset() == given.add(outs[n].to_multiset()));
        assert(outs[n].to_multiset().add(withheld(states[n + 1].delayed).to_multiset())
            == withheld(before.delayed).to_multiset().add(seq![op].to_multiset()));
        assert(given.add(outs[n].to_multiset()).add(
            withheld(states[n + 1].delayed).to_multiset(),
        ) =~= given.add(withheld(before.delayed).to_multiset()).add(seq![op].to_multiset())) by {
            let x = outs[n].to_multiset();
            let y = withheld(states[n + 1].delayed).to_multiset();
            assert(given.add(x).add(y) =~= given.add(x.add(y)));
        }
        assert(all_delivered(outs).to_multiset().add(
            withheld(states.last().delayed).to_multiset(),
        ) =~= withheld(states[0].delayed).to_multiset().add(ops.to_multiset()));
    }
}

/// Two runs over the same operations that start in the same state with the same
/// seed deliver the same, step for step.
pub proof fn runs_are_deterministic(
    ops: Seq<CapOp>,
    a_states: Seq<FaultState>,
    a_rngs: Seq<rng::SimRng>,
    a_outs: Seq<Seq<CapOp>>,
    b_states: Seq<FaultState>,
    b_rngs: Seq<rng::SimRng>,
    b_outs: Seq<Seq<CapOp>>,
    k: int,
)
    requires
        run_of(ops, a_states, a_rngs, a_outs),
        run_of(ops, b_states, b_rngs, b_outs),
        a_states[0] == b_states[0],
        a_rngs[0] == b_rngs[0],
        0 <= k <= ops.len(),
    ensures
        a_states[k] == b_states[k],
        a_rngs[k] == b_rngs[k],
        k < ops.len() ==> a_outs[k] == b_outs[k],
    decreases k,
{
    if k > 0 {
        runs_are_deterministic(ops, a_states, a_rngs, a_outs, b_states, b_rngs, b_outs, k - 1);
        let i = k - 1;
        assert(processed(a_states[i], ops[i], a_rngs[i], a_rngs[i + 1], a_states[i + 1], a_outs[i]));
        assert(processed(b_states[i], ops[i], b_rngs[i], b_rngs[i + 1], b_states[i + 1], b_outs[i]));
        injector_is_deterministic(
            a_states[i],
            ops[i],
            a_rngs[i],
            a_rngs[k],
            a_states[k],
            a_outs[i],
            b_rngs[k],
            b_states[k],
            b_outs[i],
        );
    }
    if k < ops.len() {
        assert(processed(a_states[k], ops[k], a_rngs[k], a_rngs[k + 1], a_states[k + 1], a_outs[k]));
        assert(processed(b_states[k], ops[k], b_rngs[k], b_rngs[k + 1], b_states[k + 1], b_outs[k]));
        injector_is_deterministic(
            a_states[k],
            ops[k],
            a_rngs[k],
            a_rngs[k + 1],
            a_states[k + 1],
            a_outs[k],
            b_rngs[k + 1],
            b_states[k + 1],
            b_outs[k],
        );
    }
}

} // verus!

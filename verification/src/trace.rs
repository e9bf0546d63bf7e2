//! Structured capability trace events: the record/replay vocabulary.
//!
//! A [`CapOp`] says what was requested of a capability space, a [`CapOutcome`]
//! what the space answered, and a [`TraceEvent`] pairs them with a sequence
//! number. An ordered sequence of events is a complete record of everything that
//! happened to a space: reset it to empty, re-apply the ops in order, and the
//! exact final state comes back ([`replay_reconstructs_the_space`]).
//!
//! Capabilities are named by slot index, not by an in-memory `CapRef`: a slot
//! index is what crosses the syscall boundary, and it is stable across a
//! record/replay reset.
//!
//! [`SyscallEvent`] is the record the kernel itself emits, one per system call;
//! [`codec`] turns it into bytes and back.
use crate::cap_rights::Rights;
use crate::cap_space::{CapSpace, Capability, MintError};
use crate::cap_table::{CapRef, TableView};
use crate::counting;
use vstd::prelude::*;

pub mod codec;

verus! {

broadcast use crate::cap_table::group_cap_ref;

/// An opaque identity for the kernel object a capability names, as it appears in
/// a trace.
#[derive(Debug, Clone, Copy, PartialEq, Eq, PartialOrd, Ord, Hash, Structural)]
pub struct ObjectToken(pub u64);

/// A capability-mediated operation: the request half of a [`TraceEvent`].
#[derive(Debug, Clone, Copy, PartialEq, Eq, Structural)]
pub enum CapOp {
    /// Install an original capability (no parent) for `object` with `rights`,
    /// at the lowest free slot.
    Insert {
        /// The object the new capability names.
        object: ObjectToken,
        /// The rights the new capability carries.
        rights: Rights,
    },
    /// Derive a child of the capability at slot `source`, attenuated by `mask`,
    /// into the lowest free slot.
    Mint {
        /// Slot of the source (parent) capability.
        source: u32,
        /// Rights mask intersected with the source's rights.
        mask: Rights,
    },
    /// Remove the single capability at `slot` (no subtree).
    Remove {
        /// Slot of the capability to remove.
        slot: u32,
    },
    /// Revoke the capability at `slot` and its entire derivation subtree.
    Revoke {
        /// Slot of the subtree root to revoke.
        slot: u32,
    },
    /// Query whether the capability at `slot` is live and carries `required`.
    /// A pure read: it never changes the space.
    Check {
        /// Slot of the capability to check.
        slot: u32,
        /// Rights the check requires.
        required: Rights,
    },
}

/// Why a capability operation did not take effect.
#[derive(Debug, Clone, Copy, PartialEq, Eq, Structural)]
pub enum Refusal {
    /// The addressed source slot held no live capability.
    StaleSlot,
    /// The capability space had no free slot for the new capability.
    SpaceFull,
}

/// The result half of a [`TraceEvent`]: what the space answered.
///
/// - `Insert` / `Mint` succeed as [`Installed`](CapOutcome::Installed) or fail as
///   [`Refused`](CapOutcome::Refused).
/// - `Remove` / `Revoke` report a [`Removed`](CapOutcome::Removed) count.
/// - `Check` reports [`Checked`](CapOutcome::Checked) with the verdict.
#[derive(Debug, Clone, Copy, PartialEq, Eq, Structural)]
pub enum CapOutcome {
    /// A capability was installed or derived at the given slot.
    Installed {
        /// Slot the new capability landed in.
        slot: u32,
    },
    /// A number of capabilities were removed (0 for a no-op remove of a stale
    /// slot; the subtree size for a revoke).
    Removed {
        /// How many capabilities the operation removed.
        count: u32,
    },
    /// A [`Check`](CapOp::Check) returned this verdict.
    Checked {
        /// `true` iff the capability was live and held the required rights.
        allowed: bool,
    },
    /// The operation was refused and the space is unchanged.
    Refused(Refusal),
}

impl CapOutcome {
    /// Returns `true` if this outcome is a [`Refused`](CapOutcome::Refused).
    #[must_use]
    pub fn is_refused(self) -> (b: bool)
        ensures
            b == (self is Refused),
    {
        matches!(self, CapOutcome::Refused(_))
    }
}

impl TableView<Capability<ObjectToken>> {
    /// The live reference that slot `slot` resolves to.
    pub open spec fn resolved(self, slot: u32) -> Option<CapRef> {
        if slot < self.slots.len() && self.slots[slot as int].entry is Some {
            Some(self.ref_at(slot as int))
        } else {
            None
        }
    }

    /// The space after `op`.
    pub open spec fn applied(self, op: CapOp) -> Self {
        match op {
            CapOp::Insert { object, rights } => self.inserted(Capability::original(object, rights)),
            CapOp::Mint { source, mask } => match self.resolved(source) {
                Some(r) => self.minted(r, mask),
                None => self,
            },
            CapOp::Remove { slot } => match self.resolved(slot) {
                Some(r) => self.removed(r),
                None => self,
            },
            CapOp::Revoke { slot } => match self.resolved(slot) {
                Some(r) => self.revoked(r),
                None => self,
            },
            CapOp::Check { .. } => self,
        }
    }

    /// What the space answers to `op`.
    pub open spec fn outcome_of(self, op: CapOp) -> CapOutcome {
        let destination = if self.first_free() < self.slots.len() {
            CapOutcome::Installed { slot: self.first_free() as u32 }
        } else {
            CapOutcome::Refused(Refusal::SpaceFull)
        };
        match op {
            CapOp::Insert { .. } => destination,
            CapOp::Mint { source, .. } => match self.resolved(source) {
                Some(_) => destination,
                None => CapOutcome::Refused(Refusal::StaleSlot),
            },
            CapOp::Remove { slot } => CapOutcome::Removed {
                count: if self.resolved(slot) is Some {
                    1
                } else {
                    0
                },
            },
            CapOp::Revoke { slot } => CapOutcome::Removed {
                count: match self.resolved(slot) {
                    Some(r) => counting::count(self.subtree(r)) as u32,
                    None => 0,
                },
            },
            CapOp::Check { slot, required } => CapOutcome::Checked {
                allowed: match self.resolved(slot) {
                    Some(r) => self.permits(r, required),
                    None => false,
                },
            },
        }
    }
}

impl CapOp {
    /// Returns `true` if applying this op can change the capability space.
    ///
    /// [`Check`](CapOp::Check) is the only pure query; every other op may
    /// install or remove capabilities.
    #[must_use]
    pub fn is_mutating(self) -> (b: bool)
        ensures
            b == !(self is Check),
    {
        !matches!(self, CapOp::Check { .. })
    }

    /// Applies this op to `space`, resolving its slot index afresh, and returns
    /// the outcome to record.
    pub fn apply<const N: usize>(self, space: &mut CapSpace<ObjectToken, N>) -> (outcome: CapOutcome)
        requires
            old(space).wf(),
            N <= u32::MAX,
        ensures
            final(space).wf(),
            final(space)@ == old(space)@.applied(self),
            outcome == old(space)@.outcome_of(self),
            outcome matches CapOutcome::Removed { count } ==> old(space)@.len() - final(space)@.len()
                == count,
            outcome is Installed ==> final(space)@.len() == old(space)@.len() + 1,
            outcome is Checked || outcome is Refused ==> final(space)@ == old(space)@,
            self is Remove || self is Revoke <==> outcome is Removed,
            self is Check <==> outcome is Checked,
    {
        proof {
            space.lemma_bounds();
            crate::cap_table::lemma_free_from(space@, 0);
            outcomes_count_the_capabilities(space@, self);
            if space@.outcome_of(self) is Refused {
                observations_change_nothing(space@, self);
            }
        }
        match self {
            CapOp::Insert { object, rights } => match space.insert(object, rights) {
                Ok(r) => CapOutcome::Installed { slot: r.slot() as u32 },
                Err(_) => CapOutcome::Refused(Refusal::SpaceFull),
            },
            CapOp::Mint { source, mask } => match space.ref_at(source as usize) {
                Some(r) => match space.mint(r, mask) {
                    Ok(child) => CapOutcome::Installed { slot: child.slot() as u32 },
                    Err(MintError::InvalidSource) => CapOutcome::Refused(Refusal::StaleSlot),
                    Err(MintError::SpaceFull) => CapOutcome::Refused(Refusal::SpaceFull),
                },
                None => CapOutcome::Refused(Refusal::StaleSlot),
            },
            CapOp::Remove { slot } => match space.ref_at(slot as usize) {
                Some(r) => match space.remove(r) {
                    Some(_) => CapOutcome::Removed { count: 1 },
                    None => CapOutcome::Removed { count: 0 },
                },
                None => CapOutcome::Removed { count: 0 },
            },
            CapOp::Revoke { slot } => match space.ref_at(slot as usize) {
                Some(r) => {
                    proof {
                        counting::lemma_count_bounds(space@.subtree(r));
                    }
                    let removed: usize = space.revoke(r);
                    CapOutcome::Removed { count: removed as u32 }
                },
                None => CapOutcome::Removed { count: 0 },
            },
            CapOp::Check { slot, required } => match space.ref_at(slot as usize) {
                Some(r) => CapOutcome::Checked { allowed: space.check(r, required) },
                None => CapOutcome::Checked { allowed: false },
            },
        }
    }
}

/// One entry in a capability trace: an operation, its outcome, and a monotone
/// sequence number giving total order.
#[derive(Debug, Clone, Copy, PartialEq, Eq, Structural)]
pub struct TraceEvent {
    /// Monotone sequence number; total order within one log.
    pub seq: u64,
    /// The operation that was invoked.
    pub op: CapOp,
    /// What the space returned for it.
    pub outcome: CapOutcome,
}

impl TraceEvent {
    /// Builds a trace event from its parts.
    #[must_use]
    pub fn new(seq: u64, op: CapOp, outcome: CapOutcome) -> (event: Self)
        ensures
            event == (TraceEvent { seq, op, outcome }),
    {
        TraceEvent { seq, op, outcome }
    }
}

/// A record of one system call crossing the kernel's syscall boundary.
///
/// The fields are the raw ABI values rather than decoded enums: the kernel logs
/// exactly what crossed the boundary, so the trace is a faithful, replayable
/// record independent of how those bits are interpreted.
#[derive(Debug, Clone, Copy, PartialEq, Eq)]
pub struct SyscallEvent {
    /// Monotone per-buffer sequence number; gives total order within one trace.
    pub seq: u64,
    /// The raw syscall number presented in `rax`.
    pub syscall: u64,
    /// The three register arguments (`rdi`, `rsi`, `rdx`) as presented.
    pub args: [u64; 3],
    /// The value returned to userspace in `rax`.
    pub result: u64,
}

impl SyscallEvent {
    /// The six words of the event, in the order in which they are recorded.
    pub open spec fn words(self) -> Seq<u64> {
        seq![
            self.seq,
            self.syscall,
            self.args@[0],
            self.args@[1],
            self.args@[2],
            self.result,
        ]
    }

    /// Builds a syscall event from its parts.
    #[must_use]
    pub fn new(seq: u64, syscall: u64, args: [u64; 3], result: u64) -> (event: Self)
        ensures
            event == (SyscallEvent { seq, syscall, args, result }),
    {
        SyscallEvent { seq, syscall, args, result }
    }
}

/// An event is determined by its words.
pub proof fn event_is_determined_by_words(a: SyscallEvent, b: SyscallEvent)
    requires
        a.words() == b.words(),
    ensures
        a == b,
{
    let v = a.words();
    let w = b.words();
    assert(v[0] == w[0] && v[1] == w[1] && v[2] == w[2] && v[3] == w[3] && v[4] == w[4] && v[5]
        == w[5]);
    assert(a.args =~= b.args);
}

/// The space after all of `ops`, applied in order to `space`.
pub open spec fn replayed(
    space: TableView<Capability<ObjectToken>>,
    ops: Seq<CapOp>,
) -> TableView<Capability<ObjectToken>>
    decreases ops.len(),
{
    if ops.len() == 0 {
        space
    } else {
        replayed(space, ops.drop_last()).applied(ops.last())
    }
}

/// The operations of a log.
pub open spec fn ops_of(log: Seq<TraceEvent>) -> Seq<CapOp> {
    log.map_values(|event: TraceEvent| event.op)
}

/// `log` records a run: `spaces` are the states that the space went through,
/// and each event carries an operation and what the space answered to it.
pub open spec fn records(
    spaces: Seq<TableView<Capability<ObjectToken>>>,
    log: Seq<TraceEvent>,
) -> bool {
    &&& spaces.len() == log.len() + 1
    &&& forall|i: int|
        0 <= i < log.len() ==> spaces[i + 1] == spaces[i].applied((#[trigger] log[i]).op)
            && log[i].outcome == spaces[i].outcome_of(log[i].op)
}

/// Re-applying the recorded operations to the space that the recording started
/// from reconstructs every state on the way, the final one among them, and
/// reproduces every recorded outcome.
pub proof fn replay_reconstructs_the_space(
    spaces: Seq<TableView<Capability<ObjectToken>>>,
    log: Seq<TraceEvent>,
    k: int,
)
    requires
        records(spaces, log),
        0 <= k <= log.len(),
    ensures
        replayed(spaces[0], ops_of(log).take(k)) == spaces[k],
        k < log.len() ==> replayed(spaces[0], ops_of(log).take(k)).outcome_of(log[k].op)
            == log[k].outcome,
        k == log.len() ==> replayed(spaces[0], ops_of(log)) == spaces.last(),
    decreases k,
{
    let ops = ops_of(log);
    if k > 0 {
        replay_reconstructs_the_space(spaces, log, k - 1);
        assert(ops.take(k).drop_last() =~= ops.take(k - 1));
        assert(ops.take(k).last() == log[k - 1].op);
        assert(spaces[k - 1 + 1] == spaces[k - 1].applied(log[k - 1].op));
    }
    if k == log.len() {
        assert(ops.take(k) =~= ops);
    }
    if k < log.len() {
        assert(log[k].outcome == spaces[k].outcome_of(log[k].op));
    }
}

/// A check never changes the space, and neither does a refused operation.
pub proof fn observations_change_nothing(
    space: TableView<Capability<ObjectToken>>,
    op: CapOp,
)
    requires
        op is Check || space.outcome_of(op) is Refused,
    ensures
        space.applied(op) == space,
{
    crate::cap_table::lemma_free_from(space, 0);
}

/// An outcome says by how much the number of live capabilities has changed: it falls by
/// exactly the count that is reported removed, whichever operation removed them, grows by
/// one where a capability was installed, and stays as it was otherwise.
pub proof fn outcomes_count_the_capabilities(space: TableView<Capability<ObjectToken>>, op: CapOp)
    requires
        space.slots.len() <= u32::MAX,
        space.slots.len() <= usize::MAX,
    ensures
        space.outcome_of(op) matches CapOutcome::Removed { count } ==> space.len() - space.applied(
            op,
        ).len() == count,
        space.outcome_of(op) is Installed ==> space.applied(op).len() == space.len() + 1,
        space.outcome_of(op) is Checked || space.outcome_of(op) is Refused ==> space.applied(op).len()
            == space.len(),
{
    crate::cap_table::lemma_free_from(space, 0);
    match op {
        CapOp::Insert { object, rights } => {
            let cap = Capability::original(object, rights);
            crate::cap_table::len_is_conserved(space, space.ref_at(0), cap);
        },
        CapOp::Mint { source, mask } => {
            if let Some(r) = space.resolved(source) {
                let cap = space.get(r).unwrap().derived(r, mask);
                crate::cap_table::len_is_conserved(space, r, cap);
            }
        },
        CapOp::Remove { slot } => {
            if let Some(r) = space.resolved(slot) {
                crate::cap_table::len_is_conserved(space, r, space.get(r).unwrap());
            }
        },
        CapOp::Revoke { slot } => {
            if let Some(r) = space.resolved(slot) {
                counting::lemma_count_bounds(space.subtree(r));
                crate::cap_space::revoke_removes_exactly_the_subtree(space, r, r);
            }
        },
        CapOp::Check { .. } => {},
    }
}

/// A remove takes the capability out of its own slot and touches no other: whatever was
/// derived from it stays exactly where and as it was. The slot's generation advances by
/// one. The count is one where the slot held a capability, and otherwise it is zero and
/// nothing changes.
pub proof fn remove_empties_its_own_slot_only(
    space: TableView<Capability<ObjectToken>>,
    slot: u32,
    other: int,
)
    requires
        0 <= other < space.slots.len() <= usize::MAX,
    ensures
        ({
            let op = CapOp::Remove { slot };
            let after = space.applied(op);
            &&& after.slots.len() == space.slots.len()
            &&& other != slot ==> after.slots[other] == space.slots[other]
            &&& other == slot ==> after.slots[other].entry is None
            &&& other == slot && space.slots[other].entry is Some
                ==> after.slots[other].generation as int == (space.slots[other].generation + 1)
                % 0x1_0000_0000
            &&& other == slot && space.slots[other].entry is Some ==> space.outcome_of(op) == (
            CapOutcome::Removed { count: 1 })
            &&& slot >= space.slots.len() || space.slots[slot as int].entry is None
                ==> space.outcome_of(op) == (CapOutcome::Removed { count: 0 }) && after == space
        }),
{
    if slot < space.slots.len() {
        crate::cap_table::removal_empties_one_slot(space, space.ref_at(slot as int), other);
    }
}

/// A revoke takes out exactly what has a chain of parents to the capability at its slot,
/// that one among it, and leaves every other slot as it was. On a slot that holds nothing
/// it reports none and changes nothing.
pub proof fn revoke_empties_the_derivations_of_its_slot(
    space: TableView<Capability<ObjectToken>>,
    slot: u32,
    other: int,
)
    requires
        0 <= other < space.slots.len() <= usize::MAX,
    ensures
        ({
            let op = CapOp::Revoke { slot };
            let after = space.applied(op);
            let live = slot < space.slots.len() && space.slots[slot as int].entry is Some;
            let below = live && space.slots[other].entry is Some && exists|chain: Seq<CapRef>|
             #[trigger]
                crate::cap_space::is_chain(
                    space,
                    chain,
                    CapRef::naming(other as usize, space.slots[other].generation),
                    CapRef::naming(slot as usize, space.slots[slot as int].generation),
                );
            &&& after.slots.len() == space.slots.len()
            &&& below ==> after.slots[other].entry is None
            &&& below ==> after.slots[other].generation as int == (space.slots[other].generation
                + 1) % 0x1_0000_0000
            &&& !below ==> after.slots[other] == space.slots[other]
            &&& other == slot ==> after.slots[other].entry is None
            &&& !live ==> space.outcome_of(op) == (CapOutcome::Removed { count: 0 }) && after
                == space
        }),
{
    if slot < space.slots.len() {
        let root = space.ref_at(slot as int);
        crate::cap_space::revocation_empties_the_chains_below(space, root, other);
        assert(crate::cap_space::is_chain(space, seq![root], root, root));
    }
}

/// Where an insert or a mint reports a slot, that was the lowest empty slot of the space,
/// and it now holds exactly the capability that was asked for, at its old generation: an
/// original with the object and the rights given, or a child of the source with its
/// object, the rights that both the source and the mask hold, and a link to it. Every
/// other slot is as it was. They are refused as stale exactly on an empty source, and as
/// full exactly where no slot is empty.
pub proof fn installations_fill_the_reported_slot(
    space: TableView<Capability<ObjectToken>>,
    op: CapOp,
    other: int,
)
    requires
        0 <= other < space.slots.len() <= u32::MAX,
        space.slots.len() <= usize::MAX,
        op is Insert || op is Mint,
    ensures
        ({
            let after = space.applied(op);
            let full = forall|j: int|
                0 <= j < space.slots.len() ==> (#[trigger] space.slots[j]).entry is Some;
            let stale = op matches CapOp::Mint { source, .. } && (source >= space.slots.len()
                || space.slots[source as int].entry is None);
            &&& after.slots.len() == space.slots.len()
            &&& stale <==> space.outcome_of(op) == CapOutcome::Refused(Refusal::StaleSlot)
            &&& !stale && full <==> space.outcome_of(op) == CapOutcome::Refused(Refusal::SpaceFull)
            &&& !stale && !full <==> space.outcome_of(op) is Installed
            &&& stale || full ==> after == space
            &&& space.outcome_of(op) matches CapOutcome::Installed { slot } ==> {
                &&& slot < space.slots.len()
                &&& space.slots[slot as int].entry is None
                &&& forall|j: int| 0 <= j < slot ==> (#[trigger] space.slots[j]).entry is Some
                &&& other != slot ==> after.slots[other] == space.slots[other]
                &&& after.slots[slot as int].generation == space.slots[slot as int].generation
                &&& after.slots[slot as int].entry is Some
                &&& op matches CapOp::Insert { object, rights } ==> {
                    let cap = after.slots[slot as int].entry.unwrap();
                    cap.object == object && cap.rights == rights && cap.parent is None
                }
                &&& op matches CapOp::Mint { source, mask } ==> {
                    let cap = after.slots[slot as int].entry.unwrap();
                    let parent = space.slots[source as int].entry.unwrap();
                    &&& cap.object == parent.object
                    &&& forall|right: crate::cap_rights::Right| #[trigger]
                        cap.rights@.contains(right) <==> parent.rights@.contains(right)
                            && mask@.contains(right)
                    &&& cap.parent is Some
                    &&& cap.parent.unwrap().slot() == source
                    &&& cap.parent.unwrap().generation() == space.slots[source as int].generation
                }
            }
        }),
{
    crate::cap_table::lemma_free_from(space, 0);
    let free = space.first_free();
    if let CapOp::Mint { source, mask } = op {
        if let Some(r) = space.resolved(source) {
            crate::cap_space::mint_derives_into_the_lowest_empty_slot(space, r, mask, other);
            if free < space.slots.len() {
                crate::cap_space::mint_derives_into_the_lowest_empty_slot(space, r, mask, free);
            }
        }
    }
}

/// A check allows exactly what the slot holds: it answers yes if and only if the slot is
/// occupied and its capability has each of the rights asked for. It changes nothing.
pub proof fn checks_report_what_the_slot_holds(
    space: TableView<Capability<ObjectToken>>,
    slot: u32,
    required: Rights,
)
    requires
        space.slots.len() <= usize::MAX,
    ensures
        ({
            let op = CapOp::Check { slot, required };
            &&& space.applied(op) == space
            &&& space.outcome_of(op) matches CapOutcome::Checked { allowed } && (allowed <==> {
                &&& slot < space.slots.len()
                &&& space.slots[slot as int].entry matches Some(cap) && forall|
                    right: crate::cap_rights::Right,
                | #[trigger]
                    required@.contains(right) ==> cap.rights@.contains(right)
            })
        }),
{
    if let Some(r) = space.resolved(slot) {
        crate::cap_space::check_asks_for_every_right(space, r, required);
    }
}

/// The words of an event are its fields in order: the sequence number, the number of the
/// call, its three arguments and its result.
pub proof fn words_are_the_fields_in_order(event: SyscallEvent)
    ensures
        event.words().len() == 6,
        event.words()[0] == event.seq,
        event.words()[1] == event.syscall,
        event.words().subrange(2, 5) == event.args@,
        event.words()[5] == event.result,
{
    assert(event.words().subrange(2, 5) =~= event.args@);
}

/// The sequence numbers of `log` are strictly increasing.
pub open spec fn in_sequence(log: Seq<TraceEvent>) -> bool {
    forall|i: int, j: int|
        0 <= i < j < log.len() ==> (#[trigger] log[i]).seq < (#[trigger] log[j]).seq
}

/// Sorting by sequence number reconstructs the order of invocation: two logs in
/// sequence that hold the same events are the same log.
pub proof fn sequence_numbers_give_the_order(a: Seq<TraceEvent>, b: Seq<TraceEvent>)
    requires
        in_sequence(a),
        in_sequence(b),
        forall|event: TraceEvent| #[trigger] a.contains(event) <==> b.contains(event),
    ensures
        a == b,
    decreases a.len(),
{
    if a.len() == 0 {
        if b.len() > 0 {
            assert(b.contains(b[0]));
            assert(a.contains(b[0]));
        }
        assert(a =~= b);
    } else {
        assert(a.contains(a[a.len() - 1]));
        assert(b.contains(a.last()));
        let j = choose|j: int| 0 <= j < b.len() && b[j] == a.last();
        assert(b.contains(b[b.len() - 1]));
        assert(a.contains(b.last()));
        let i = choose|i: int| 0 <= i < a.len() && a[i] == b.last();
        assert(a.last() == b.last());
        let x = a.drop_last();
        let y = b.drop_last();
        assert forall|event: TraceEvent| #[trigger] x.contains(event) <==> y.contains(event) by {
            if x.contains(event) {
                let k = choose|k: int| 0 <= k < x.len() && x[k] == event;
                assert(a[k] == event);
                assert(a.contains(event));
                let m = choose|m: int| 0 <= m < b.len() && b[m] == event;
                assert(m != b.len() - 1);
                assert(y[m] == event);
            }
            if y.contains(event) {
                let k = choose|k: int| 0 <= k < y.len() && y[k] == event;
                assert(b[k] == event);
                assert(b.contains(event));
                assert(a.contains(event));
                let m = choose|m: int| 0 <= m < a.len() && a[m] == event;
                assert(m != a.len() - 1);
                assert(x[m] == event);
            }
        }
        sequence_numbers_give_the_order(x, y);
        assert(a =~= x.push(a.last()));
        assert(b =~= y.push(b.last()));
    }
}

} // verus!

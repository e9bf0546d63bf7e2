//! Fixed-size capability table with generation-counted slots.
//!
//! A `CapTable<T, N>` is an array of `N` slots. Each slot is either empty or
//! holds one capability of type `T`, plus a generation counter. Inserting a
//! capability returns a [`CapRef`]: a small, copyable token with the slot index
//! and the generation that was current at insertion time.
//!
//! Every access revalidates the `CapRef` against the slot's current generation.
//! Removing a capability bumps the generation, so every `CapRef` handed out
//! before the removal is stale from then on. Revocation is therefore constant
//! time, and a reused slot never lets an old token address the new occupant
//! (until the `u32` generation wraps around).
//!
//! The model of a table is its sequence of slots, [`TableView`].
use crate::counting;
use vstd::prelude::*;

verus! {

/// An unforgeable reference to a capability stored in a [`CapTable`].
///
/// Its fields are private, so a reference only ever comes from a real table.
#[derive(Debug, Clone, Copy, PartialEq, Eq, Structural)]
pub struct CapRef {
    slot: usize,
    generation: u32,
}

impl CapRef {
    /// The reference to `slot` at `generation`.
    pub closed spec fn naming(slot: usize, generation: u32) -> CapRef {
        CapRef { slot, generation }
    }

    pub closed spec fn spec_slot(&self) -> usize {
        self.slot
    }

    pub closed spec fn spec_generation(&self) -> u32 {
        self.generation
    }

    /// Returns the slot index this reference points at.
    #[inline]
    #[must_use]
    #[verifier::when_used_as_spec(spec_slot)]
    pub fn slot(&self) -> (slot: usize)
        ensures
            slot == self.slot(),
    {
        self.slot
    }

    /// Returns the generation this reference was minted at.
    #[inline]
    #[must_use]
    #[verifier::when_used_as_spec(spec_generation)]
    pub fn generation(&self) -> (generation: u32)
        ensures
            generation == self.generation(),
    {
        self.generation
    }
}

/// A reference is determined by its slot and its generation.
pub broadcast proof fn lemma_ref_fields(slot: usize, generation: u32)
    ensures
        (#[trigger] CapRef::naming(slot, generation)).slot() == slot,
        CapRef::naming(slot, generation).generation() == generation,
{
}

/// Every reference is the one that names its own slot and generation.
pub broadcast proof fn lemma_ref_rebuilt(r: CapRef)
    ensures
        #![trigger r.slot()]
        #![trigger r.generation()]
        CapRef::naming(r.slot(), r.generation()) == r,
{
}

/// What a reference is made of.
pub broadcast group group_cap_ref {
    lemma_ref_fields,
    lemma_ref_rebuilt,
}

/// A single table slot: the optional capability and the generation counter,
/// which advances each time the slot is vacated.
pub struct Slot<T> {
    /// The capability, if the slot is occupied.
    pub entry: Option<T>,
    /// How often the slot has been vacated, modulo the width of the counter.
    pub generation: u32,
}

impl<T> Slot<T> {
    /// The slot has never held a capability.
    pub open spec fn is_fresh(self) -> bool {
        self.entry is None && self.generation == 0
    }

    fn empty() -> (s: Self)
        ensures
            s.is_fresh(),
    {
        Slot { entry: None, generation: 0 }
    }
}

/// The generation after `generation`; the counter wraps around.
pub open spec fn next_generation(generation: u32) -> u32 {
    if generation == u32::MAX {
        0
    } else {
        (generation + 1) as u32
    }
}

/// The slots of a table: the mathematical model of [`CapTable`].
#[verifier::ext_equal]
pub struct TableView<T> {
    /// The slots in index order.
    pub slots: Seq<Slot<T>>,
}

impl<T> TableView<T> {
    /// A table of `n` vacant slots at generation zero.
    pub open spec fn vacant(n: nat) -> Self {
        TableView { slots: Seq::new(n, |i: int| Slot { entry: None, generation: 0 }) }
    }

    /// Which slots are occupied.
    pub open spec fn occupancy(self) -> Seq<bool> {
        Seq::new(self.slots.len(), |i: int| self.slots[i].entry is Some)
    }

    /// The number of occupied slots.
    pub open spec fn len(self) -> nat {
        counting::count(self.occupancy())
    }

    /// `r` names a live capability: in range, occupied, generation matching.
    pub open spec fn valid(self, r: CapRef) -> bool {
        &&& r.slot() < self.slots.len()
        &&& self.slots[r.slot() as int].entry is Some
        &&& self.slots[r.slot() as int].generation == r.generation()
    }

    /// The capability that `r` names, if it is live.
    pub open spec fn get(self, r: CapRef) -> Option<T> {
        if self.valid(r) {
            self.slots[r.slot() as int].entry
        } else {
            None
        }
    }

    /// The reference to slot `i` at its current generation.
    pub open spec fn ref_at(self, i: int) -> CapRef {
        CapRef::naming(i as usize, self.slots[i].generation)
    }

    /// The lowest free slot at or after `i`, or the number of slots if every
    /// slot from `i` on is occupied.
    pub open spec fn free_from(self, i: int) -> int
        decreases self.slots.len() - i,
    {
        if i >= self.slots.len() || self.slots[i].entry is None {
            i
        } else {
            self.free_from(i + 1)
        }
    }

    /// The lowest free slot, or the number of slots if the table is full.
    pub open spec fn first_free(self) -> int {
        self.free_from(0)
    }

    /// The table after `cap` has been put into the free slot `i`.
    pub open spec fn filled(self, i: int, cap: T) -> Self {
        TableView {
            slots: self.slots.update(
                i,
                Slot { entry: Some(cap), generation: self.slots[i].generation },
            ),
        }
    }

    /// The table after slot `i` has been emptied and its generation advanced.
    pub open spec fn vacated(self, i: int) -> Self {
        TableView {
            slots: self.slots.update(
                i,
                Slot { entry: None, generation: next_generation(self.slots[i].generation) },
            ),
        }
    }

    /// The table after inserting `cap` into the lowest free slot; unchanged if
    /// it is full.
    pub open spec fn inserted(self, cap: T) -> Self {
        if self.first_free() < self.slots.len() {
            self.filled(self.first_free(), cap)
        } else {
            self
        }
    }

    /// The table after removing what `r` names; unchanged if `r` is stale.
    pub open spec fn removed(self, r: CapRef) -> Self {
        if self.valid(r) {
            self.vacated(r.slot() as int)
        } else {
            self
        }
    }
}

/// `free_from` finds the lowest free slot.
pub proof fn lemma_free_from<T>(t: TableView<T>, i: int)
    requires
        0 <= i <= t.slots.len(),
    ensures
        i <= t.free_from(i) <= t.slots.len(),
        forall|j: int| i <= j < t.free_from(i) ==> (#[trigger] t.slots[j]).entry is Some,
        t.free_from(i) < t.slots.len() ==> t.slots[t.free_from(i)].entry is None,
    decreases t.slots.len() - i,
{
    if i < t.slots.len() && t.slots[i].entry is Some {
        lemma_free_from(t, i + 1);
    }
}

proof fn lemma_occupancy_update<T>(t: TableView<T>, i: int, slot: Slot<T>)
    requires
        0 <= i < t.slots.len(),
    ensures
        (TableView { slots: t.slots.update(i, slot) }).len() + (if t.slots[i].entry is Some {
            1int
        } else {
            0int
        }) == t.len() + (if slot.entry is Some {
            1int
        } else {
            0int
        }),
{
    let u = TableView { slots: t.slots.update(i, slot) };
    counting::lemma_count_update(t.occupancy(), i, slot.entry is Some);
    assert(u.occupancy() =~= t.occupancy().update(i, slot.entry is Some));
}

/// Why [`CapTable::insert_at`] rejected a capability.
#[derive(Debug, Clone, Copy, PartialEq, Eq, Structural)]
pub enum InsertAtError {
    /// The slot index is not below the table's capacity.
    OutOfRange,
    /// The slot already holds a live capability.
    Occupied,
}

/// `core::array::from_fn` calls the function once for each index below `N`
/// and returns the results in index order.
pub assume_specification<T, const N: usize, F: FnMut(usize) -> T>[ core::array::from_fn::<T, N, F> ](
    cb: F,
) -> (r: [T; N])
    requires
        forall|i: usize| i < N ==> call_requires(cb, (i,)),
    ensures
        forall|i: usize| i < N ==> call_ensures(cb, (i,), #[trigger] r@[i as int]),
;

/// A fixed-capacity table of capabilities addressed by generation-checked refs.
///
/// The table owns its slots; there is no heap allocation.
pub struct CapTable<T, const N: usize> {
    slots: [Slot<T>; N],
    len: usize,
}

impl<T, const N: usize> View for CapTable<T, N> {
    type V = TableView<T>;

    closed spec fn view(&self) -> TableView<T> {
        TableView { slots: self.slots@ }
    }
}

impl<T, const N: usize> CapTable<T, N> {
    /// `len` counts the occupied slots.
    pub closed spec fn wf(&self) -> bool {
        self.len == self@.len()
    }

    /// A table always has `N` slots, and at most that many are occupied.
    pub proof fn lemma_bounds(&self)
        ensures
            self@.slots.len() == N,
            self@.len() <= N,
    {
        counting::lemma_count_bounds(self@.occupancy());
    }

    /// Creates an empty capability table with all `N` slots vacant.
    #[must_use]
    pub fn new() -> (t: Self)
        ensures
            t.wf(),
            t@ == TableView::<T>::vacant(N as nat),
            t@.len() == 0,
    {
        let slots: [Slot<T>; N] = core::array::from_fn(
            |_i: usize| -> (s: Slot<T>)
                ensures
                    s.is_fresh()
                { Slot::empty() },
        );
        let t = CapTable { slots, len: 0 };
        proof {
            assert forall|i: int| 0 <= i < N implies #[trigger] slots@[i].is_fresh() by {
                assert(slots@[(i as usize) as int] == slots@[i]);
            }
            assert(t@ =~= TableView::<T>::vacant(N as nat));
            counting::lemma_count_bounds(t@.occupancy());
        }
        t
    }

    /// Returns the total number of slots, `N`.
    #[inline]
    #[must_use]
    pub fn capacity(&self) -> (n: usize)
        ensures
            n == N,
    {
        N
    }

    /// Returns the number of occupied slots.
    #[inline]
    #[must_use]
    pub fn len(&self) -> (n: usize)
        requires
            self.wf(),
        ensures
            n == self@.len(),
            n <= N,
    {
        proof {
            self.lemma_bounds();
        }
        self.len
    }

    /// Returns `true` if no slots are occupied.
    #[inline]
    #[must_use]
    pub fn is_empty(&self) -> (b: bool)
        requires
            self.wf(),
        ensures
            b == (self@.len() == 0),
    {
        self.len == 0
    }

    /// Returns `true` if every slot is occupied.
    #[inline]
    #[must_use]
    pub fn is_full(&self) -> (b: bool)
        requires
            self.wf(),
        ensures
            b == (self@.len() == N),
            b == (self@.first_free() == N),
    {
        proof {
            self.lemma_bounds();
            counting::lemma_count_bounds(self@.occupancy());
            lemma_free_from(self@, 0);
            if self@.first_free() < N {
                assert(!self@.occupancy()[self@.first_free()]);
            } else {
                assert forall|i: int| 0 <= i < N implies #[trigger] self@.occupancy()[i] by {
                    assert(self@.slots[i].entry is Some);
                }
            }
        }
        self.len == N
    }

    // fills the vacant slot `slot`, keeping its generation.
    fn fill(&mut self, slot: usize, cap: T) -> (r: CapRef)
        requires
            old(self).wf(),
            slot < N,
            old(self)@.slots[slot as int].entry is None,
        ensures
            final(self).wf(),
            final(self)@ == old(self)@.filled(slot as int, cap),
            r == old(self)@.ref_at(slot as int),
    {
        proof {
            lemma_occupancy_update(
                self@,
                slot as int,
                Slot { entry: Some(cap), generation: self@.slots[slot as int].generation },
            );
            counting::lemma_count_bounds(self@.occupancy());
            counting::lemma_count_bounds(self@.filled(slot as int, cap).occupancy());
        }
        let ghost before = self@;
        self.slots[slot].entry = Some(cap);
        self.len = self.len + 1;
        assert(self@ =~= before.filled(slot as int, cap));
        CapRef { slot, generation: self.slots[slot].generation }
    }

    /// Inserts `cap` into the lowest free slot and returns a [`CapRef`] to it.
    ///
    /// # Errors
    ///
    /// Returns the rejected capability when there is no free slot.
    pub fn insert(&mut self, cap: T) -> (r: Result<CapRef, T>)
        requires
            old(self).wf(),
        ensures
            final(self).wf(),
            final(self)@ == old(self)@.inserted(cap),
            r == (if old(self)@.first_free() < N {
                Ok(old(self)@.ref_at(old(self)@.first_free()))
            } else {
                Err(cap)
            }),
    {
        let mut slot: usize = 0;
        while slot < N
            invariant
                slot <= N,
                *self == *old(self),
                self.wf(),
                self@.slots.len() == N,
                self@.first_free() == self@.free_from(slot as int),
            decreases N - slot,
        {
            if self.slots[slot].entry.is_none() {
                return Ok(self.fill(slot, cap));
            }
            slot = slot + 1;
        }
        Err(cap)
    }

    /// Inserts `cap` into the slot that the caller chose.
    ///
    /// # Errors
    ///
    /// [`InsertAtError::OutOfRange`] if `slot >= N`; [`InsertAtError::Occupied`]
    /// if the slot already holds a live capability. The table is then unchanged.
    pub fn insert_at(&mut self, slot: usize, cap: T) -> (r: Result<CapRef, InsertAtError>)
        requires
            old(self).wf(),
        ensures
            final(self).wf(),
            match r {
                Ok(c) => slot < N && old(self)@.slots[slot as int].entry is None && c == old(
                    self,
                )@.ref_at(slot as int) && final(self)@ == old(self)@.filled(slot as int, cap),
                Err(InsertAtError::OutOfRange) => slot >= N && final(self)@ == old(self)@,
                Err(InsertAtError::Occupied) => slot < N && old(
                    self,
                )@.slots[slot as int].entry is Some && final(self)@ == old(self)@,
            },
    {
        if slot >= N {
            return Err(InsertAtError::OutOfRange);
        }
        if self.slots[slot].entry.is_some() {
            return Err(InsertAtError::Occupied);
        }
        Ok(self.fill(slot, cap))
    }

    // true if `cap_ref` currently names a live capability: the single source of
    // validity.
    #[inline]
    fn is_valid(&self, cap_ref: CapRef) -> (b: bool)
        ensures
            b == self@.valid(cap_ref),
    {
        cap_ref.slot < N && self.slots[cap_ref.slot].entry.is_some()
            && self.slots[cap_ref.slot].generation == cap_ref.generation
    }

    /// Returns a shared reference to the capability named by `cap_ref`, or
    /// `None` if the reference is stale or out of range.
    #[must_use]
    pub fn get(&self, cap_ref: CapRef) -> (r: Option<&T>)
        ensures
            match r {
                Some(cap) => self@.valid(cap_ref) && self@.get(cap_ref) == Some(*cap),
                None => !self@.valid(cap_ref),
            },
    {
        if self.is_valid(cap_ref) {
            self.slots[cap_ref.slot].entry.as_ref()
        } else {
            None
        }
    }

    /// Returns a mutable reference to the capability named by `cap_ref`, or
    /// `None` if the reference is stale or out of range.
    ///
    /// Writing through it replaces that capability and nothing else.
    #[must_use]
    pub fn get_mut(&mut self, cap_ref: CapRef) -> (r: Option<&mut T>)
        requires
            old(self).wf(),
        ensures
            final(self).wf(),
            match r {
                Some(cap) => old(self)@.valid(cap_ref) && old(self)@.get(cap_ref) == Some(*cap)
                    && final(self)@ == old(self)@.filled(cap_ref.slot() as int, *final(cap)),
                None => !old(self)@.valid(cap_ref) && final(self)@ == old(self)@,
            },
    {
        if self.is_valid(cap_ref) {
            let ghost before = self@;
            let slot: usize = cap_ref.slot;
            proof {
                assert forall|cap: T| #[trigger] before.filled(slot as int, cap).len()
                    == before.len() by {
                    lemma_occupancy_update(
                        before,
                        slot as int,
                        Slot { entry: Some(cap), generation: before.slots[slot as int].generation },
                    );
                }
            }
            match &mut self.slots[slot].entry {
                Some(cap) => {
                    assert(after_borrow(self.slots)@ =~= before.filled(
                        slot as int,
                        *final(cap),
                    ).slots);
                    Some(cap)
                },
                None => None,
            }
        } else {
            None
        }
    }

    /// Removes and returns the capability named by `cap_ref`, bumping the
    /// slot's generation so every outstanding ref to it becomes stale.
    ///
    /// Returns `None` if the reference is already stale or out of range, in
    /// which case the table is unchanged.
    pub fn remove(&mut self, cap_ref: CapRef) -> (r: Option<T>)
        requires
            old(self).wf(),
        ensures
            final(self).wf(),
            r == old(self)@.get(cap_ref),
            final(self)@ == old(self)@.removed(cap_ref),
    {
        if !self.is_valid(cap_ref) {
            return None;
        }
        let slot: usize = cap_ref.slot;
        let ghost before = self@;
        proof {
            lemma_occupancy_update(
                before,
                slot as int,
                Slot {
                    entry: None::<T>,
                    generation: next_generation(before.slots[slot as int].generation),
                },
            );
            counting::lemma_count_bounds(before.occupancy());
        }
        self.slots[slot].generation = self.slots[slot].generation.wrapping_add(1);
        self.len = self.len - 1;
        let cap = self.slots[slot].entry.take();
        assert(self@ =~= before.vacated(slot as int));
        cap
    }

    /// Returns `true` if `cap_ref` currently names a live capability.
    #[must_use]
    pub fn contains(&self, cap_ref: CapRef) -> (b: bool)
        ensures
            b == self@.valid(cap_ref),
    {
        self.is_valid(cap_ref)
    }

    /// Returns the [`CapRef`] for `slot` if it is occupied, else `None`.
    ///
    /// The returned ref carries the slot's current generation, so it is valid
    /// until the slot is vacated.
    #[must_use]
    pub fn ref_at(&self, slot: usize) -> (r: Option<CapRef>)
        ensures
            r == (if slot < N && self@.slots[slot as int].entry is Some {
                Some(self@.ref_at(slot as int))
            } else {
                None
            }),
    {
        if slot < N && self.slots[slot].entry.is_some() {
            Some(CapRef { slot, generation: self.slots[slot].generation })
        } else {
            None
        }
    }

    /// Calls `f` with the [`CapRef`] and a shared reference to every live
    /// capability in the table, in ascending slot order.
    ///
    /// `f` is called with nothing else: it has to accept the live pairs only.
    /// The order of the calls, and that there is one for each, is shown by test.
    pub fn for_each(&self, mut f: impl FnMut(CapRef, &T))
        requires
            forall|r: CapRef, cap: &T| #[trigger]
                self@.get(r) == Some(*cap) ==> #[trigger] call_requires(f, (r, cap)),
        ensures
            forall|r: CapRef, cap: &T| #[trigger]
                self@.get(r) == Some(*cap) ==> #[trigger] call_ensures(f, (r, cap), ()),
    {
        let ghost visitor = f;
        let mut slot: usize = 0;
        while slot < N
            invariant
                slot <= N,
                f == visitor,
                self@.slots.len() == N,
                forall|r: CapRef, cap: &T| #[trigger]
                    self@.get(r) == Some(*cap) ==> #[trigger] call_requires(f, (r, cap)),
                forall|r: CapRef, cap: &T|
                    r.slot() < slot && #[trigger] self@.get(r) == Some(*cap) ==> #[trigger]
                        call_ensures(f, (r, cap), ()),
            decreases N - slot,
        {
            if let Some(entry) = self.slots[slot].entry.as_ref() {
                let cap_ref = CapRef { slot, generation: self.slots[slot].generation };
                assert(self@.get(cap_ref) == Some(*entry));
                f(cap_ref, entry);
            }
            slot = slot + 1;
        }
    }
}

impl<T, const N: usize> Default for CapTable<T, N> {
    fn default() -> (t: Self)
        ensures
            t.wf(),
            t@ == TableView::<T>::vacant(N as nat),
            t@.len() == 0,
    {
        Self::new()
    }
}

/// An insertion touches one slot: the lowest one that is empty. It puts the
/// capability there, leaves the slot's generation alone, and leaves every other slot
/// exactly as it was. A table without an empty slot does not change.
pub proof fn insertion_fills_the_lowest_empty_slot<T>(t: TableView<T>, cap: T, slot: int)
    requires
        0 <= slot < t.slots.len(),
    ensures
        t.inserted(cap).slots.len() == t.slots.len(),
        ({
            let lowest = t.slots[slot].entry is None && forall|j: int|
                0 <= j < slot ==> (#[trigger] t.slots[j]).entry is Some;
            &&& lowest ==> t.inserted(cap).slots[slot].entry == Some(cap)
            &&& lowest ==> t.inserted(cap).slots[slot].generation == t.slots[slot].generation
            &&& !lowest ==> t.inserted(cap).slots[slot] == t.slots[slot]
            &&& lowest <==> t.first_free() == slot
        }),
        (forall|j: int| 0 <= j < t.slots.len() ==> (#[trigger] t.slots[j]).entry is Some)
            ==> t.inserted(cap) == t && t.first_free() == t.slots.len(),
{
    lemma_free_from(t, 0);
}

/// A removal touches one slot: the one that the reference names. It empties it and
/// advances its generation by one, modulo the width of the counter, and leaves every
/// other slot exactly as it was. A stale reference removes nothing.
pub proof fn removal_empties_one_slot<T>(t: TableView<T>, r: CapRef, slot: int)
    requires
        0 <= slot < t.slots.len(),
    ensures
        t.removed(r).slots.len() == t.slots.len(),
        slot != r.slot() ==> t.removed(r).slots[slot] == t.slots[slot],
        slot == r.slot() && t.slots[slot].entry is Some && t.slots[slot].generation
            == r.generation() ==> t.removed(r).slots[slot].entry is None && t.removed(
            r,
        ).slots[slot].generation as int == (t.slots[slot].generation + 1) % 0x1_0000_0000,
        t.slots[slot].entry is None || t.slots[slot].generation != r.generation() ==> t.removed(
            r,
        ).slots[slot] == t.slots[slot],
{
}

/// Putting a capability into a slot puts exactly that one there, leaves the slot's
/// generation alone, and leaves every other slot exactly as it was.
pub proof fn filling_touches_one_slot<T>(t: TableView<T>, slot: int, cap: T, other: int)
    requires
        0 <= slot < t.slots.len(),
        0 <= other < t.slots.len(),
    ensures
        t.filled(slot, cap).slots.len() == t.slots.len(),
        t.filled(slot, cap).slots[slot].entry == Some(cap),
        t.filled(slot, cap).slots[slot].generation == t.slots[slot].generation,
        other != slot ==> t.filled(slot, cap).slots[other] == t.slots[other],
{
}

/// A reference resolves to what its slot holds, if the slot is occupied and still at
/// the generation of the reference, and to nothing otherwise. Each occupied slot has
/// exactly one live reference, the one that [`CapTable::ref_at`] gives.
pub proof fn references_resolve_to_their_slots<T>(t: TableView<T>, r: CapRef, slot: int)
    requires
        0 <= slot < t.slots.len() <= usize::MAX,
    ensures
        t.ref_at(slot).slot() == slot,
        t.ref_at(slot).generation() == t.slots[slot].generation,
        t.get(t.ref_at(slot)) == t.slots[slot].entry,
        r.slot() == slot && r.generation() == t.slots[slot].generation ==> t.get(r)
            == t.slots[slot].entry,
        r.slot() == slot && r.generation() != t.slots[slot].generation ==> t.get(r) is None,
        r.slot() >= t.slots.len() ==> t.get(r) is None,
        t.valid(r) <==> t.get(r) is Some,
        t.valid(r) && r.slot() == slot ==> r == t.ref_at(slot),
{
    broadcast use group_cap_ref;

}

/// A new table has the slots asked for, all of them empty and at generation zero, so
/// that nothing resolves in it.
pub proof fn a_new_table_is_empty<T>(n: nat, slot: int, r: CapRef)
    ensures
        TableView::<T>::vacant(n).slots.len() == n,
        0 <= slot < n ==> TableView::<T>::vacant(n).slots[slot].entry is None,
        0 <= slot < n ==> TableView::<T>::vacant(n).slots[slot].generation == 0,
        TableView::<T>::vacant(n).get(r) is None,
        TableView::<T>::vacant(n).len() == 0,
{
    counting::lemma_count_bounds(TableView::<T>::vacant(n).occupancy());
}

/// A fresh insert yields a reference that resolves to the inserted capability,
/// and every reference that was live still resolves to what it did.
pub proof fn insert_then_get_identity<T>(t: TableView<T>, cap: T, other: CapRef)
    requires
        t.slots.len() <= usize::MAX,
        t.first_free() < t.slots.len(),
    ensures
        t.inserted(cap).get(t.ref_at(t.first_free())) == Some(cap),
        !t.valid(t.ref_at(t.first_free())),
        t.valid(other) ==> t.inserted(cap).get(other) == t.get(other),
{
    lemma_free_from(t, 0);
}

/// After a removal the same reference never resolves, and a second removal
/// changes nothing.
pub proof fn removed_ref_is_always_stale<T>(t: TableView<T>, r: CapRef)
    ensures
        !t.removed(r).valid(r),
        t.removed(r).get(r) is None,
        t.removed(r).removed(r) == t.removed(r),
{
}

/// A removal disturbs no other live capability.
pub proof fn distinct_refs_are_independent<T>(t: TableView<T>, r: CapRef, other: CapRef)
    requires
        r != other,
        t.valid(r),
        t.valid(other),
    ensures
        r.slot() != other.slot(),
        t.removed(r).get(other) == t.get(other),
{
}

/// An old reference cannot reach the new occupant of its slot, whatever is
/// inserted after the removal and wherever it lands.
pub proof fn reused_slot_rejects_old_ref<T>(t: TableView<T>, old_ref: CapRef, cap: T)
    requires
        t.valid(old_ref),
    ensures
        !t.removed(old_ref).inserted(cap).valid(old_ref),
{
    lemma_free_from(t.removed(old_ref), 0);
}

/// The occupied slots of a table never number more than its slots, and after a
/// removal or an insertion their number has changed by exactly one.
pub proof fn len_is_conserved<T>(t: TableView<T>, r: CapRef, cap: T)
    ensures
        t.len() <= t.slots.len(),
        t.valid(r) ==> t.removed(r).len() == t.len() - 1,
        t.first_free() < t.slots.len() ==> t.inserted(cap).len() == t.len() + 1,
        t.first_free() < t.slots.len() <==> t.len() < t.slots.len(),
{
    counting::lemma_count_bounds(t.occupancy());
    lemma_free_from(t, 0);
    let free = t.first_free();
    if t.valid(r) {
        let slot = r.slot() as int;
        lemma_occupancy_update(
            t,
            slot,
            Slot { entry: None::<T>, generation: next_generation(t.slots[slot].generation) },
        );
    }
    if free < t.slots.len() {
        assert(!t.occupancy()[free]);
        lemma_occupancy_update(
            t,
            free,
            Slot { entry: Some(cap), generation: t.slots[free].generation },
        );
    } else {
        assert forall|i: int| 0 <= i < t.slots.len() implies #[trigger] t.occupancy()[i] by {
            assert(t.slots[i].entry is Some);
        }
    }
}

/// `post` follows from `pre` by one table operation: an insertion or an
/// overwrite of some slot, a removal, or none of these.
pub open spec fn table_step<T>(pre: TableView<T>, post: TableView<T>) -> bool {
    ||| post == pre
    ||| exists|i: int, cap: T| 0 <= i < pre.slots.len() && post == #[trigger] pre.filled(i, cap)
    ||| exists|r: CapRef| post == #[trigger] pre.removed(r)
}

/// `history` is a run of a table, one operation at a time.
pub open spec fn table_run<T>(history: Seq<TableView<T>>) -> bool {
    forall|i: int| 0 <= i < history.len() - 1 ==> #[trigger] table_step(history[i], history[i + 1])
}

/// The generation of a slot only ever advances, and only on a removal, as long
/// as the counter has not reached its last value.
pub proof fn generations_only_advance<T>(pre: TableView<T>, post: TableView<T>, slot: int)
    requires
        table_step(pre, post),
        0 <= slot < pre.slots.len(),
        pre.slots[slot].generation < u32::MAX,
    ensures
        post.slots.len() == pre.slots.len(),
        pre.slots[slot].generation <= post.slots[slot].generation <= pre.slots[slot].generation + 1,
        post.slots[slot].generation != pre.slots[slot].generation ==> pre.slots[slot].entry is Some
            && post.slots[slot].entry is None,
{
}

/// Once removed, a reference stays dead through every later operation: no
/// sequence of inserts, overwrites and removals makes it name a capability
/// again, unless the slot's generation counter has run through to its end.
pub proof fn removed_ref_stays_dead<T>(history: Seq<TableView<T>>, r: CapRef, k: int)
    requires
        table_run(history),
        1 <= k < history.len(),
        history[0].valid(r),
        history[1] == history[0].removed(r),
        forall|i: int|
            0 <= i < k ==> (#[trigger] history[i]).slots[r.slot() as int].generation < u32::MAX,
    ensures
        history[k].slots.len() == history[0].slots.len(),
        history[k].slots[r.slot() as int].generation > r.generation(),
        !history[k].valid(r),
    decreases k,
{
    if k > 1 {
        removed_ref_stays_dead(history, r, k - 1);
        assert(table_step(history[k - 1], history[k - 1 + 1]));
        generations_only_advance(history[k - 1], history[k], r.slot() as int);
    }
}

/// A reference never refers to two different capabilities: while it stays live
/// from one operation to the next, it names the same slot, so what it resolves
/// to changes only by an overwrite of that very slot.
pub proof fn live_ref_keeps_its_capability<T>(t: TableView<T>, r: CapRef, other: CapRef, cap: T)
    requires
        t.valid(r),
        t.removed(other).valid(r),
    ensures
        t.removed(other).get(r) == t.get(r),
        t.inserted(cap).get(r) == t.get(r),
{
    lemma_free_from(t, 0);
}

} // verus!

//! Capability space: a task's table of typed, rights-bearing capabilities.
//!
//! A `CapSpace` is a single flat table built on [`CapTable`]: each slot holds a
//! [`Capability`], and the table's generation-counted [`CapRef`] addresses it. A
//! [`Capability`] pairs an object handle with a [`Rights`] set and an optional
//! parent link, the edge of the derivation tree.
//!
//! - Authority is the capability: an operation is permitted only if the holder
//!   has a live `CapRef` whose capability carries the required rights.
//! - Attenuation is monotone: [`CapSpace::mint`] can only reduce rights, and so
//!   along a derivation chain of any depth no descendant holds a right that its
//!   root lacks ([`chain_never_amplifies`]).
//! - Revocation removes exactly the subtree of a capability
//!   ([`revoke_removes_exactly_the_subtree`]), and all of it
//!   ([`revocation_is_complete`]). A reference that has been removed or revoked
//!   names nothing again ([`retired_refs_stay_dead`]).
//!
//! The model of a space is that of its table, [`TableView`], read through the
//! parent links.
use crate::cap_rights;
use crate::cap_rights::Rights;
use crate::cap_table;
pub use crate::cap_table::InsertAtError;
use crate::cap_table::{CapRef, CapTable, Slot, TableView};
use crate::counting;
use vstd::prelude::*;
use vstd::set_lib;

verus! {

broadcast use crate::cap_table::group_cap_ref;

/// A typed, rights-bearing capability: the entry stored in a [`CapSpace`] slot.
///
/// `O` is the object-handle type. It is `Copy` so capabilities can be duplicated
/// and minted freely; the authority comes from holding a live `CapRef`, not from
/// the handle value.
#[derive(Debug, Clone, Copy, PartialEq, Eq)]
pub struct Capability<O: Copy> {
    /// The kernel object this capability names.
    pub object: O,
    /// The operations the holder may invoke on the object.
    pub rights: Rights,
    /// The capability this one was derived from; `None` marks an original.
    pub parent: Option<CapRef>,
}

impl<O: Copy> Capability<O> {
    /// An original capability.
    pub open spec fn original(object: O, rights: Rights) -> Self {
        Capability { object, rights, parent: None }
    }

    /// What minting from `self`, named by `source`, under `mask` yields.
    pub open spec fn derived(self, source: CapRef, mask: Rights) -> Self {
        Capability {
            object: self.object,
            rights: self.rights.attenuated(mask),
            parent: Some(source),
        }
    }

    /// Creates an original capability (no parent) with the given rights.
    #[must_use]
    pub fn new(object: O, rights: Rights) -> (cap: Self)
        ensures
            cap == Self::original(object, rights),
            cap.object == object && cap.rights == rights && cap.parent is None,
    {
        Capability { object, rights, parent: None }
    }
}

/// Errors from a [`CapSpace::mint`] operation.
#[derive(Debug, Clone, Copy, PartialEq, Eq, Structural)]
pub enum MintError {
    /// The source `CapRef` does not name a live capability.
    InvalidSource,
    /// The capability space has no free slot for the derived capability.
    SpaceFull,
}

impl<O: Copy> TableView<Capability<O>> {
    /// The parent link of what `r` names; `None` if `r` is stale or an original.
    pub open spec fn parent_of(self, r: CapRef) -> Option<CapRef> {
        match self.get(r) {
            Some(cap) => cap.parent,
            None => None,
        }
    }

    /// What is reached from `r` by following `steps` parent links.
    pub open spec fn ancestor(self, r: CapRef, steps: nat) -> Option<CapRef>
        decreases steps,
    {
        if steps == 0 {
            Some(r)
        } else {
            match self.ancestor(r, (steps - 1) as nat) {
                Some(a) => self.parent_of(a),
                None => None,
            }
        }
    }

    /// `r` is `ancestor`, or is transitively derived from it.
    pub open spec fn descends(self, r: CapRef, ancestor: CapRef) -> bool {
        exists|steps: nat| #[trigger] self.ancestor(r, steps) == Some(ancestor)
    }

    /// Slot `i` holds a capability of the subtree rooted at `root`.
    pub open spec fn in_subtree(self, i: int, root: CapRef) -> bool {
        self.slots[i].entry is Some && self.descends(self.ref_at(i), root)
    }

    /// Which slots belong to the subtree rooted at `root`.
    pub open spec fn subtree(self, root: CapRef) -> Seq<bool> {
        Seq::new(self.slots.len(), |i: int| self.in_subtree(i, root))
    }

    /// The table after the whole subtree rooted at `root` has been removed.
    pub open spec fn revoked(self, root: CapRef) -> Self {
        TableView {
            slots: Seq::new(
                self.slots.len(),
                |i: int|
                    if self.in_subtree(i, root) {
                        Slot { entry: None, generation: cap_table::next_generation(self.slots[i].generation) }
                    } else {
                        self.slots[i]
                    },
            ),
        }
    }

    /// The table after minting from `source` under `mask`; unchanged if the
    /// source is stale or the table full.
    pub open spec fn minted(self, source: CapRef, mask: Rights) -> Self {
        match self.get(source) {
            Some(cap) => self.inserted(cap.derived(source, mask)),
            None => self,
        }
    }

    /// What minting from `source` returns.
    pub open spec fn mint_result(self, source: CapRef) -> Result<CapRef, MintError> {
        if !self.valid(source) {
            Err(MintError::InvalidSource)
        } else if self.first_free() < self.slots.len() {
            Ok(self.ref_at(self.first_free()))
        } else {
            Err(MintError::SpaceFull)
        }
    }

    /// `r` is live and carries every right in `required`.
    pub open spec fn permits(self, r: CapRef, required: Rights) -> bool {
        self.get(r) matches Some(cap) && required@.subset_of(cap.rights@)
    }
}

/// Walking `m` steps from the node reached after `k` steps is walking `k + m`.
proof fn lemma_ancestor_splits<O: Copy>(
    t: TableView<Capability<O>>,
    r: CapRef,
    k: nat,
    mid: CapRef,
    m: nat,
)
    requires
        t.ancestor(r, k) == Some(mid),
    ensures
        t.ancestor(r, k + m) == t.ancestor(mid, m),
    decreases m,
{
    if m > 0 {
        lemma_ancestor_splits(t, r, k, mid, (m - 1) as nat);
    }
}

/// A walk that has ended stays ended.
proof fn lemma_ancestor_ends<O: Copy>(t: TableView<Capability<O>>, r: CapRef, k: nat, m: nat)
    requires
        t.ancestor(r, k) is None,
    ensures
        t.ancestor(r, k + m) is None,
    decreases m,
{
    if m > 0 {
        lemma_ancestor_ends(t, r, k, (m - 1) as nat);
    }
}

/// If an ancestor is reached at all, it is reached within as many steps as the
/// table has slots: the live nodes on a shortest walk occupy different slots.
proof fn lemma_short_walk<O: Copy>(t: TableView<Capability<O>>, r: CapRef, a: CapRef, k: nat)
    requires
        t.ancestor(r, k) == Some(a),
    ensures
        exists|j: nat| j <= t.slots.len() && #[trigger] t.ancestor(r, j) == Some(a),
    decreases k,
{
    let n = t.slots.len();
    if exists|j: nat| j < k && #[trigger] t.ancestor(r, j) == Some(a) {
        let j = choose|j: nat| j < k && #[trigger] t.ancestor(r, j) == Some(a);
        lemma_short_walk(t, r, a, j);
    } else if k > n {
        let slots = Seq::new(k, |i: int| t.ancestor(r, i as nat).unwrap().slot() as int);
        assert forall|i: int| 0 <= i < k implies (#[trigger] t.ancestor(r, i as nat)) is Some
            && t.valid(t.ancestor(r, i as nat).unwrap()) by {
            if t.ancestor(r, i as nat) is None {
                lemma_ancestor_ends(t, r, i as nat, (k - i) as nat);
            } else {
                let node = t.ancestor(r, i as nat).unwrap();
                assert(t.ancestor(r, (i + 1) as nat) == t.parent_of(node));
                if !t.valid(node) {
                    assert(t.ancestor(r, (i + 1) as nat) is None);
                    lemma_ancestor_ends(t, r, (i + 1) as nat, (k - (i + 1)) as nat);
                }
            }
        }
        assert(slots.no_duplicates()) by {
            assert forall|i: int, j: int| 0 <= i < k && 0 <= j < k && i < j implies slots[i]
                != slots[j] by {
                if slots[i] == slots[j] {
                    let x = t.ancestor(r, i as nat).unwrap();
                    let y = t.ancestor(r, j as nat).unwrap();
                    assert(x.slot() == y.slot() && x.generation() == y.generation());
                    assert(CapRef::naming(x.slot(), x.generation()) == x);
                    assert(x == y);
                    let m = (k - j) as nat;
                    lemma_ancestor_splits(t, r, i as nat, x, m);
                    lemma_ancestor_splits(t, r, j as nat, y, m);
                    assert(t.ancestor(r, (i + m) as nat) == Some(a));
                    assert(i + m < k);
                }
            }
        }
        slots.unique_seq_to_set();
        set_lib::lemma_int_range(0, n as int);
        assert forall|s: int| slots.to_set().contains(s) implies set_lib::set_int_range(
            0,
            n as int,
        ).contains(s) by {
            let i = choose|i: int| 0 <= i < slots.len() && slots[i] == s;
            assert(t.valid(t.ancestor(r, i as nat).unwrap()));
        }
        set_lib::lemma_len_subset(slots.to_set(), set_lib::set_int_range(0, n as int));
    }
}

/// A single-level capability space backed by a [`CapTable`] of `N` slots.
pub struct CapSpace<O: Copy, const N: usize> {
    table: CapTable<Capability<O>, N>,
}

impl<O: Copy, const N: usize> View for CapSpace<O, N> {
    type V = TableView<Capability<O>>;

    closed spec fn view(&self) -> TableView<Capability<O>> {
        self.table@
    }
}

impl<O: Copy, const N: usize> CapSpace<O, N> {
    /// The underlying table is well formed.
    pub closed spec fn wf(&self) -> bool {
        self.table.wf()
    }

    /// A space always has `N` slots, and at most that many are occupied.
    pub proof fn lemma_bounds(&self)
        ensures
            self@.slots.len() == N,
            self@.len() <= N,
    {
        self.table.lemma_bounds();
    }

    /// Creates an empty capability space.
    #[must_use]
    pub fn new() -> (s: Self)
        ensures
            s.wf(),
            s@ == TableView::<Capability<O>>::vacant(N as nat),
            s@.len() == 0,
    {
        CapSpace { table: CapTable::new() }
    }

    /// Returns the total number of capability slots, `N`.
    #[inline]
    #[must_use]
    pub fn capacity(&self) -> (n: usize)
        ensures
            n == N,
    {
        N
    }

    /// Returns the number of occupied slots.
    #[inline]
    #[must_use]
    pub fn len(&self) -> (n: usize)
        requires
            self.wf(),
        ensures
            n == self@.len(),
            n <= N,
    {
        self.table.len()
    }

    /// Returns `true` if the space holds no capabilities.
    #[inline]
    #[must_use]
    pub fn is_empty(&self) -> (b: bool)
        requires
            self.wf(),
        ensures
            b == (self@.len() == 0),
    {
        self.table.is_empty()
    }

    /// Installs an original capability (no parent) for `object` with `rights`
    /// in the lowest free slot and returns its `CapRef`.
    ///
    /// # Errors
    ///
    /// Returns the rejected capability when the space is full.
    pub fn insert(&mut self, object: O, rights: Rights) -> (r: Result<CapRef, Capability<O>>)
        requires
            old(self).wf(),
        ensures
            final(self).wf(),
            final(self)@ == old(self)@.inserted(Capability::original(object, rights)),
            r == (if old(self)@.first_free() < N {
                Ok(old(self)@.ref_at(old(self)@.first_free()))
            } else {
                Err(Capability::original(object, rights))
            }),
    {
        self.table.insert(Capability::new(object, rights))
    }

    /// Installs an original capability (no parent) for `object` with `rights`
    /// at the caller-chosen slot `slot`, returning its `CapRef`.
    ///
    /// # Errors
    ///
    /// [`InsertAtError::OutOfRange`] if `slot >= N`; [`InsertAtError::Occupied`]
    /// if the slot already holds a live capability.
    pub fn insert_at(&mut self, slot: usize, object: O, rights: Rights) -> (r: Result<
        CapRef,
        InsertAtError,
    >)
        requires
            old(self).wf(),
        ensures
            final(self).wf(),
            match r {
                Ok(c) => slot < N && old(self)@.slots[slot as int].entry is None && c == old(
                    self,
                )@.ref_at(slot as int) && final(self)@ == old(self)@.filled(
                    slot as int,
                    Capability::original(object, rights),
                ),
                Err(InsertAtError::OutOfRange) => slot >= N && final(self)@ == old(self)@,
                Err(InsertAtError::Occupied) => slot < N && old(
                    self,
                )@.slots[slot as int].entry is Some && final(self)@ == old(self)@,
            },
    {
        self.table.insert_at(slot, Capability::new(object, rights))
    }

    /// Returns the capability named by `cap_ref`, or `None` if it is stale.
    #[must_use]
    pub fn lookup(&self, cap_ref: CapRef) -> (r: Option<&Capability<O>>)
        ensures
            match r {
                Some(cap) => self@.valid(cap_ref) && self@.get(cap_ref) == Some(*cap),
                None => !self@.valid(cap_ref),
            },
    {
        self.table.get(cap_ref)
    }

    /// Returns a live, generation-checked [`CapRef`] for capability `slot`, or
    /// `None` if the slot is out of range or empty.
    ///
    /// This resolves a plain slot index to an unforgeable ref: the space supplies
    /// the slot's current generation, so the result is never stale.
    #[must_use]
    pub fn ref_at(&self, slot: usize) -> (r: Option<CapRef>)
        ensures
            r == (if slot < N && self@.slots[slot as int].entry is Some {
                Some(self@.ref_at(slot as int))
            } else {
                None
            }),
    {
        self.table.ref_at(slot)
    }

    /// Returns `true` if `cap_ref` currently names a live capability and that
    /// capability carries every right in `required`.
    ///
    /// This is the single gate every capability-mediated operation passes
    /// through: present the ref, prove you hold the right.
    #[must_use]
    pub fn check(&self, cap_ref: CapRef, required: Rights) -> (b: bool)
        ensures
            b == self@.permits(cap_ref, required),
    {
        match self.table.get(cap_ref) {
            Some(cap) => cap.rights.contains(required),
            None => false,
        }
    }

    /// Derives a new capability to the same object as `source`, with rights
    /// attenuated by `mask`, recording `source` as its parent.
    ///
    /// # Errors
    ///
    /// [`MintError::InvalidSource`] if `source` is stale; [`MintError::SpaceFull`]
    /// if there is no free slot.
    pub fn mint(&mut self, source: CapRef, mask: Rights) -> (r: Result<CapRef, MintError>)
        requires
            old(self).wf(),
        ensures
            final(self).wf(),
            r == old(self)@.mint_result(source),
            final(self)@ == old(self)@.minted(source, mask),
    {
        proof {
            self.table.lemma_bounds();
        }
        let derived: Capability<O> = match self.table.get(source) {
            Some(parent) => Capability {
                object: parent.object,
                rights: parent.rights.attenuate(mask),
                parent: Some(source),
            },
            None => {
                return Err(MintError::InvalidSource);
            },
        };
        match self.table.insert(derived) {
            Ok(r) => Ok(r),
            Err(_) => Err(MintError::SpaceFull),
        }
    }

    /// Removes the capability named by `cap_ref`, returning it if it was live.
    ///
    /// Bumps the slot generation, so all outstanding refs to it go stale. Does
    /// not recurse into children (use [`revoke`](CapSpace::revoke) for that).
    pub fn remove(&mut self, cap_ref: CapRef) -> (r: Option<Capability<O>>)
        requires
            old(self).wf(),
        ensures
            final(self).wf(),
            r == old(self)@.get(cap_ref),
            final(self)@ == old(self)@.removed(cap_ref),
    {
        self.table.remove(cap_ref)
    }

    /// Revokes `cap_ref`: removes it and every capability transitively derived
    /// from it. Returns the number of capabilities removed.
    ///
    /// The whole subtree is marked while all parent links are intact, and only
    /// then swept out: once a capability is removed, no chain can be followed
    /// through it.
    pub fn revoke(&mut self, cap_ref: CapRef) -> (removed: usize)
        requires
            old(self).wf(),
        ensures
            final(self).wf(),
            final(self)@ == old(self)@.revoked(cap_ref),
            removed == counting::count(old(self)@.subtree(cap_ref)),
    {
        let ghost before = self@;
        let ghost marks = before.subtree(cap_ref);
        proof {
            self.table.lemma_bounds();
        }
        let mut marked: [bool; N] = [false; N];
        let mut slot: usize = 0;
        while slot < N
            invariant
                slot <= N,
                self@ == before,
                self.wf(),
                before.slots.len() == N,
                marks == before.subtree(cap_ref),
                forall|i: int| 0 <= i < slot ==> #[trigger] marked@[i] == marks[i],
                forall|i: int| slot <= i < N ==> !#[trigger] marked@[i],
            decreases N - slot,
        {
            if let Some(r) = self.table.ref_at(slot) {
                marked[slot] = self.descends_from(r, cap_ref);
            }
            slot = slot + 1;
        }
        let mut removed: usize = 0;
        slot = 0;
        while slot < N
            invariant
                slot <= N,
                self.wf(),
                self@.slots.len() == N,
                before.slots.len() == N,
                marks == before.subtree(cap_ref),
                forall|i: int| 0 <= i < N ==> #[trigger] marked@[i] == marks[i],
                forall|i: int|
                    0 <= i < slot ==> #[trigger] self@.slots[i] == before.revoked(cap_ref).slots[i],
                forall|i: int| slot <= i < N ==> #[trigger] self@.slots[i] == before.slots[i],
                removed == counting::count(marks.take(slot as int)),
                removed <= slot,
            decreases N - slot,
        {
            proof {
                counting::lemma_count_push(marks.take(slot as int), marks[slot as int]);
                assert(marks.take(slot as int).push(marks[slot as int]) =~= marks.take(slot + 1));
            }
            if marked[slot] {
                if let Some(r) = self.table.ref_at(slot) {
                    let _cap = self.table.remove(r);
                    removed = removed + 1;
                }
            }
            slot = slot + 1;
        }
        proof {
            assert(marks.take(N as int) =~= marks);
            assert(self@ =~= before.revoked(cap_ref));
        }
        removed
    }

    /// Calls `f` with the [`CapRef`] and a shared reference to every capability
    /// in the subtree rooted at `root`, in ascending slot order.
    ///
    /// This visits exactly the set [`revoke`](Self::revoke) would remove, but
    /// without removing anything: `f` is called for every live capability that
    /// descends from `root`, and has to accept no other.
    /// The order of the calls, and that there is one for each, is shown by test.
    pub fn for_each_in_subtree(&self, root: CapRef, mut f: impl FnMut(CapRef, &Capability<O>))
        requires
            forall|r: CapRef, cap: &Capability<O>| #[trigger]
                self@.get(r) == Some(*cap) && self@.descends(r, root) ==> #[trigger] call_requires(
                    f,
                    (r, cap),
                ),
        ensures
            forall|r: CapRef, cap: &Capability<O>| #[trigger]
                self@.get(r) == Some(*cap) && self@.descends(r, root) ==> #[trigger] call_ensures(
                    f,
                    (r, cap),
                    (),
                ),
    {
        let ghost visitor = f;
        let mut slot: usize = 0;
        proof {
            self.table.lemma_bounds();
        }
        while slot < N
            invariant
                slot <= N,
                f == visitor,
                self@.slots.len() == N,
                forall|r: CapRef, cap: &Capability<O>| #[trigger]
                    self@.get(r) == Some(*cap) && self@.descends(r, root) ==> #[trigger]
                        call_requires(f, (r, cap)),
                forall|r: CapRef, cap: &Capability<O>|
                    r.slot() < slot && #[trigger] self@.get(r) == Some(*cap) && self@.descends(
                        r,
                        root,
                    ) ==> #[trigger] call_ensures(f, (r, cap), ()),
            decreases N - slot,
        {
            if let Some(r) = self.table.ref_at(slot) {
                if self.descends_from(r, root) {
                    if let Some(cap) = self.table.get(r) {
                        f(r, cap);
                    }
                }
                assert(forall|q: CapRef|
                    q.slot() == slot && (#[trigger] self@.get(q)) is Some ==> q == r);
            }
            slot = slot + 1;
        }
    }

    // true if `cap_ref` is `ancestor`, or is transitively derived from it by
    // following parent links.
    fn descends_from(&self, cap_ref: CapRef, ancestor: CapRef) -> (b: bool)
        ensures
            b == self@.descends(cap_ref, ancestor),
    {
        assert(self@.ancestor(cap_ref, 0) == Some(cap_ref));
        if cap_ref == ancestor {
            return true;
        }
        let mut current: CapRef = cap_ref;
        let mut steps: usize = 0;
        proof {
            self.table.lemma_bounds();
        }
        // bound the walk by the slot count so a corrupted cycle cannot hang.
        while steps < N
            invariant
                steps <= N,
                self@.slots.len() == N,
                self@.ancestor(cap_ref, steps as nat) == Some(current),
                forall|j: nat|
                    j <= steps ==> #[trigger] self@.ancestor(cap_ref, j) != Some(ancestor),
            decreases N - steps,
        {
            let parent: Option<CapRef> = match self.table.get(current) {
                Some(cap) => cap.parent,
                None => None,
            };
            assert(self@.ancestor(cap_ref, (steps + 1) as nat) == parent);
            match parent {
                Some(p) => {
                    if p == ancestor {
                        return true;
                    }
                    current = p;
                },
                None => {
                    assert forall|j: nat| #[trigger]
                        self@.ancestor(cap_ref, j) != Some(ancestor) by {
                        if j > steps {
                            lemma_ancestor_ends(
                                self@,
                                cap_ref,
                                (steps + 1) as nat,
                                (j - (steps + 1)) as nat,
                            );
                        }
                    }
                    return false;
                },
            }
            steps = steps + 1;
        }
        proof {
            if self@.descends(cap_ref, ancestor) {
                let k = choose|k: nat| #[trigger] self@.ancestor(cap_ref, k) == Some(ancestor);
                lemma_short_walk(self@, cap_ref, ancestor, k);
            }
        }
        false
    }
}

impl<O: Copy, const N: usize> Default for CapSpace<O, N> {
    fn default() -> (s: Self)
        ensures
            s.wf(),
            s@ == TableView::<Capability<O>>::vacant(N as nat),
            s@.len() == 0,
    {
        Self::new()
    }
}

/// Minting never grants a right the source did not have, nor one outside the
/// mask, and the derived capability names the same object.
pub proof fn mint_never_escalates<O: Copy>(
    t: TableView<Capability<O>>,
    source: CapRef,
    mask: Rights,
    child: CapRef,
)
    requires
        t.slots.len() <= usize::MAX,
        t.mint_result(source) == Ok::<CapRef, MintError>(child),
    ensures
        t.minted(source, mask).get(child) matches Some(cap) && t.get(source) matches Some(
            parent,
        ) && {
            &&& cap.rights@.subset_of(parent.rights@)
            &&& cap.rights@.subset_of(mask@)
            &&& cap.object == parent.object
            &&& cap.parent == Some(source)
        },
        t.minted(source, mask).descends(child, source),
{
    let parent = t.get(source).unwrap();
    let u = t.minted(source, mask);
    cap_rights::attenuation_is_monotone(parent.rights, mask);
    cap_table::insert_then_get_identity(t, parent.derived(source, mask), source);
    assert(u.ancestor(child, 0) == Some(child));
    assert(u.ancestor(child, 1) == Some(source));
}

/// What a mint does to each slot. It succeeds on a live source and an empty slot, and
/// then the lowest empty slot holds the source's object, exactly the rights that both
/// the source and the mask hold, and a link to the source; every other slot is as it
/// was. A stale source is reported before a full table, and either changes nothing.
pub proof fn mint_derives_into_the_lowest_empty_slot<O: Copy>(
    t: TableView<Capability<O>>,
    source: CapRef,
    mask: Rights,
    slot: int,
)
    requires
        0 <= slot < t.slots.len() <= usize::MAX,
    ensures
        t.minted(source, mask).slots.len() == t.slots.len(),
        ({
            let after = t.minted(source, mask).slots[slot];
            let lowest = t.slots[slot].entry is None && forall|j: int|
                0 <= j < slot ==> (#[trigger] t.slots[j]).entry is Some;
            &&& t.get(source) matches Some(parent) ==> {
                lowest ==> {
                    &&& after.generation == t.slots[slot].generation
                    &&& after.entry matches Some(cap) && {
                        &&& cap.object == parent.object
                        &&& cap.parent == Some(source)
                        &&& forall|right: cap_rights::Right| #[trigger]
                            cap.rights@.contains(right) <==> parent.rights@.contains(right)
                                && mask@.contains(right)
                    }
                    &&& t.mint_result(source) matches Ok(child) && child.slot() == slot
                        && child.generation() == t.slots[slot].generation
                }
            }
            &&& t.get(source) is None || !lowest ==> after == t.slots[slot]
        }),
        t.get(source) is None <==> t.mint_result(source) == Err::<CapRef, MintError>(
            MintError::InvalidSource,
        ),
        t.mint_result(source) == Err::<CapRef, MintError>(MintError::SpaceFull) <==> t.get(
            source,
        ) is Some && forall|j: int| 0 <= j < t.slots.len() ==> (#[trigger] t.slots[j]).entry is Some,
{
    cap_table::lemma_free_from(t, 0);
    if let Some(parent) = t.get(source) {
        cap_table::insertion_fills_the_lowest_empty_slot(t, parent.derived(source, mask), slot);
        cap_rights::attenuation_is_monotone(parent.rights, mask);
    }
}

/// A check answers for the slot that the reference names: it passes exactly if the
/// reference resolves and what it resolves to holds each of the rights asked for.
pub proof fn check_asks_for_every_right<O: Copy>(
    t: TableView<Capability<O>>,
    r: CapRef,
    required: Rights,
)
    ensures
        t.get(r) is None ==> !t.permits(r, required),
        t.get(r) matches Some(cap) ==> (t.permits(r, required) <==> forall|
            right: cap_rights::Right,
        | #[trigger]
            required@.contains(right) ==> cap.rights@.contains(right)),
{
}

/// `chain` runs from `r` to `ancestor` along parent links: each reference in it but the
/// last resolves to a capability whose parent is the next.
pub open spec fn is_chain<O: Copy>(
    t: TableView<Capability<O>>,
    chain: Seq<CapRef>,
    r: CapRef,
    ancestor: CapRef,
) -> bool {
    &&& chain.len() >= 1
    &&& chain[0] == r
    &&& chain[chain.len() - 1] == ancestor
    &&& forall|i: int|
        0 <= i < chain.len() - 1 ==> (t.get(#[trigger] chain[i]) matches Some(cap) && cap.parent
            == Some(chain[i + 1]))
}

/// Descent is what chains of parent links make it: every chain, of whatever length,
/// makes its first reference a descendant of its last, and nothing else does.
pub proof fn descent_is_a_chain_of_parents<O: Copy>(
    t: TableView<Capability<O>>,
    r: CapRef,
    ancestor: CapRef,
)
    ensures
        t.descends(r, ancestor) <==> exists|chain: Seq<CapRef>| #[trigger]
            is_chain(t, chain, r, ancestor),
{
    if t.descends(r, ancestor) {
        let steps = choose|steps: nat| #[trigger] t.ancestor(r, steps) == Some(ancestor);
        let chain = lemma_walk_is_chain(t, r, steps, ancestor);
        assert(is_chain(t, chain, r, ancestor));
    }
    if exists|chain: Seq<CapRef>| #[trigger] is_chain(t, chain, r, ancestor) {
        let chain = choose|chain: Seq<CapRef>| #[trigger] is_chain(t, chain, r, ancestor);
        lemma_chain_is_walk(t, chain, r, ancestor, chain.len() - 1);
        assert(t.ancestor(r, (chain.len() - 1) as nat) == Some(ancestor));
    }
}

/// A walk of parent links leaves a chain behind.
proof fn lemma_walk_is_chain<O: Copy>(
    t: TableView<Capability<O>>,
    r: CapRef,
    steps: nat,
    ancestor: CapRef,
) -> (chain: Seq<CapRef>)
    requires
        t.ancestor(r, steps) == Some(ancestor),
    ensures
        is_chain(t, chain, r, ancestor),
    decreases steps,
{
    if steps == 0 {
        seq![r]
    } else {
        let below = t.ancestor(r, (steps - 1) as nat).unwrap();
        let front = lemma_walk_is_chain(t, r, (steps - 1) as nat, below);
        let chain = front.push(ancestor);
        assert(t.parent_of(below) == Some(ancestor));
        assert forall|i: int| 0 <= i < chain.len() - 1 implies (t.get(
            #[trigger] chain[i],
        ) matches Some(cap) && cap.parent == Some(chain[i + 1])) by {
            assert(chain[i] == front[i]);
        }
        chain
    }
}

/// Each reference in a chain is reached by that many steps.
proof fn lemma_chain_is_walk<O: Copy>(
    t: TableView<Capability<O>>,
    chain: Seq<CapRef>,
    r: CapRef,
    ancestor: CapRef,
    k: int,
)
    requires
        is_chain(t, chain, r, ancestor),
        0 <= k < chain.len(),
    ensures
        t.ancestor(r, k as nat) == Some(chain[k]),
    decreases k,
{
    if k > 0 {
        lemma_chain_is_walk(t, chain, r, ancestor, k - 1);
        assert(t.get(chain[k - 1]) matches Some(cap) && cap.parent == Some(chain[k - 1 + 1]));
    }
}

/// What a revocation does to each slot: an occupied slot whose capability is, or was
/// derived along any chain of parents from, the one revoked is emptied and its
/// generation advanced by one; every other slot is exactly as it was.
pub proof fn revocation_empties_the_chains_below<O: Copy>(
    t: TableView<Capability<O>>,
    root: CapRef,
    slot: int,
)
    requires
        0 <= slot < t.slots.len() <= usize::MAX,
    ensures
        t.revoked(root).slots.len() == t.slots.len(),
        ({
            let below = t.slots[slot].entry is Some && exists|chain: Seq<CapRef>| #[trigger]
                is_chain(
                    t,
                    chain,
                    CapRef::naming(slot as usize, t.slots[slot].generation),
                    root,
                );
            &&& below ==> t.revoked(root).slots[slot].entry is None
            &&& below ==> t.revoked(root).slots[slot].generation as int == (
            t.slots[slot].generation + 1) % 0x1_0000_0000
            &&& !below ==> t.revoked(root).slots[slot] == t.slots[slot]
        }),
{
    descent_is_a_chain_of_parents(t, t.ref_at(slot), root);
}

/// A capability with no children is revoked as it is removed: where no other live
/// capability has a chain to it, a revocation and a removal leave the same table.
pub proof fn revoking_a_leaf_is_removing_it<O: Copy>(t: TableView<Capability<O>>, leaf: CapRef)
    requires
        t.slots.len() <= usize::MAX,
        t.valid(leaf),
        forall|i: int|
            0 <= i < t.slots.len() && (#[trigger] t.slots[i]).entry is Some
                ==> t.slots[i].entry.unwrap().parent != Some(leaf),
    ensures
        t.revoked(leaf) == t.removed(leaf),
        counting::count(t.subtree(leaf)) == 1,
{
    assert forall|i: int| 0 <= i < t.slots.len() implies t.in_subtree(i, leaf) == (i
        == leaf.slot()) by {
        if i == leaf.slot() {
            assert(t.ref_at(i) == leaf);
            assert(t.ancestor(leaf, 0) == Some(leaf));
        } else if t.slots[i].entry is Some && t.descends(t.ref_at(i), leaf) {
            let steps = choose|steps: nat| #[trigger] t.ancestor(t.ref_at(i), steps) == Some(leaf);
            if steps == 0 {
                assert(t.ref_at(i).slot() == i);
            } else {
                let below = t.ancestor(t.ref_at(i), (steps - 1) as nat).unwrap();
                assert(t.parent_of(below) == Some(leaf));
                assert(t.slots[below.slot() as int].entry is Some);
            }
        }
    }
    assert(t.revoked(leaf) =~= t.removed(leaf));
    revoke_removes_exactly_the_subtree(t, leaf, leaf);
    cap_table::len_is_conserved(t, leaf, t.get(leaf).unwrap());
}

/// A removed capability passes no check, whatever rights are asked for.
pub proof fn removed_cap_never_checks<O: Copy>(
    t: TableView<Capability<O>>,
    r: CapRef,
    required: Rights,
)
    ensures
        !t.removed(r).permits(r, required),
{
    cap_table::removed_ref_is_always_stale(t, r);
}

/// A revocation removes the capabilities that descend from `root`, `root` among
/// them, and leaves every other one as it was. The number removed is the number
/// by which the space shrinks.
pub proof fn revoke_removes_exactly_the_subtree<O: Copy>(
    t: TableView<Capability<O>>,
    root: CapRef,
    r: CapRef,
)
    ensures
        t.valid(r) && t.descends(r, root) ==> !t.revoked(root).valid(r),
        t.valid(r) && !t.descends(r, root) ==> t.revoked(root).get(r) == t.get(r),
        !t.valid(r) && r.slot() < t.slots.len() && t.slots[r.slot() as int].entry is None ==> t.revoked(
            root,
        ).slots[r.slot() as int] == t.slots[r.slot() as int],
        !t.revoked(root).valid(root),
        t.revoked(root).len() + counting::count(t.subtree(root)) == t.len(),
{
    let u = t.revoked(root);
    if t.valid(r) {
        assert(t.ref_at(r.slot() as int) == r);
    }
    if t.valid(root) {
        assert(t.ref_at(root.slot() as int) == root);
        assert(t.ancestor(root, 0) == Some(root));
    } else if u.valid(root) {
        let i = root.slot() as int;
        assert(u.slots[i] == t.slots[i]);
    }
    assert forall|i: int| 0 <= i < t.slots.len() implies #[trigger] t.occupancy()[i] == (
    u.occupancy()[i] || t.subtree(root)[i]) && !(u.occupancy()[i] && t.subtree(root)[i]) by {
        assert(u.slots[i] == if t.in_subtree(i, root) {
            Slot {
                entry: None::<Capability<O>>,
                generation: cap_table::next_generation(t.slots[i].generation),
            }
        } else {
            t.slots[i]
        });
    }
    counting::lemma_count_split(u.occupancy(), t.subtree(root), t.occupancy());
}

/// What is reached by parent links after a revocation was reached before it.
proof fn lemma_revoked_ancestor<O: Copy>(
    t: TableView<Capability<O>>,
    root: CapRef,
    r: CapRef,
    steps: nat,
)
    requires
        t.revoked(root).ancestor(r, steps) is Some,
    ensures
        t.ancestor(r, steps) == t.revoked(root).ancestor(r, steps),
    decreases steps,
{
    if steps > 0 {
        let u = t.revoked(root);
        lemma_revoked_ancestor(t, root, r, (steps - 1) as nat);
        let node = u.ancestor(r, (steps - 1) as nat).unwrap();
        assert(u.valid(node));
        assert(u.slots[node.slot() as int] == t.slots[node.slot() as int]);
    }
}

/// A revocation is complete: nothing that is live afterwards descends from `root`,
/// so that revoking again removes nothing.
pub proof fn revocation_is_complete<O: Copy>(
    t: TableView<Capability<O>>,
    root: CapRef,
    r: CapRef,
)
    requires
        t.slots.len() <= usize::MAX,
    ensures
        t.revoked(root).valid(r) ==> !t.revoked(root).descends(r, root),
        t.revoked(root).revoked(root) == t.revoked(root),
        counting::count(t.revoked(root).subtree(root)) == 0,
{
    let u = t.revoked(root);
    assert forall|q: CapRef| #[trigger] u.valid(q) implies !u.descends(q, root) by {
        if u.descends(q, root) {
            let steps = choose|steps: nat| #[trigger] u.ancestor(q, steps) == Some(root);
            lemma_revoked_ancestor(t, root, q, steps);
            revoke_removes_exactly_the_subtree(t, root, q);
            assert(u.slots[q.slot() as int] == t.slots[q.slot() as int]);
        }
    }
    assert forall|i: int| 0 <= i < u.slots.len() implies !u.in_subtree(i, root) by {
        if u.slots[i].entry is Some {
            assert(u.valid(u.ref_at(i)));
        }
    }
    assert(u.revoked(root).slots =~= u.slots);
    counting::lemma_count_bounds(u.subtree(root));
}

impl<O: Copy> TableView<Capability<O>> {
    /// The parent link in `cap` is one that a mint in this table has recorded:
    /// the parent has either gone since, or it is live, names the same object
    /// and holds every right that `cap` holds.
    pub open spec fn link_is_sound(self, cap: Capability<O>) -> bool {
        cap.parent matches Some(p) ==> {
            &&& p.slot() < self.slots.len()
            &&& p.generation() <= self.slots[p.slot() as int].generation
            &&& p.generation() == self.slots[p.slot() as int].generation ==> {
                self.get(p) matches Some(parent) && cap.rights@.subset_of(parent.rights@)
                    && cap.object == parent.object
            }
        }
    }

    /// Every parent link in the table is sound.
    pub open spec fn derivations_are_sound(self) -> bool {
        forall|i: int|
            0 <= i < self.slots.len() && (#[trigger] self.slots[i]).entry is Some
                ==> self.link_is_sound(self.slots[i].entry.unwrap())
    }

    /// No generation counter has reached its last value.
    pub open spec fn generations_have_room(self) -> bool {
        forall|i: int|
            0 <= i < self.slots.len() ==> (#[trigger] self.slots[i]).generation < u32::MAX
    }
}

/// The global no-amplification property: along a derivation chain of any depth,
/// no descendant holds a right that its ancestor lacks, and it names the same
/// object.
pub proof fn chain_never_amplifies<O: Copy>(
    t: TableView<Capability<O>>,
    r: CapRef,
    steps: nat,
    ancestor: CapRef,
)
    requires
        t.derivations_are_sound(),
        t.valid(r),
        t.ancestor(r, steps) == Some(ancestor),
        t.valid(ancestor),
    ensures
        t.get(r).unwrap().rights@.subset_of(t.get(ancestor).unwrap().rights@),
        t.get(r).unwrap().object == t.get(ancestor).unwrap().object,
    decreases steps,
{
    if steps > 0 {
        let below = t.ancestor(r, (steps - 1) as nat).unwrap();
        assert(t.parent_of(below) == Some(ancestor));
        chain_never_amplifies(t, r, (steps - 1) as nat, below);
        assert(t.link_is_sound(t.slots[below.slot() as int].entry.unwrap()));
    }
}

/// The operational form: a derived capability never authorises an operation
/// that the original could not. Delegation cannot manufacture authority.
pub proof fn derived_authority_bounded_by_root<O: Copy>(
    t: TableView<Capability<O>>,
    r: CapRef,
    root: CapRef,
    required: Rights,
)
    requires
        t.derivations_are_sound(),
        t.descends(r, root),
        t.valid(root),
        t.permits(r, required),
    ensures
        t.permits(root, required),
{
    let steps = choose|steps: nat| #[trigger] t.ancestor(r, steps) == Some(root);
    chain_never_amplifies(t, r, steps, root);
}

/// One operation on a capability space.
pub enum SpaceOp<O: Copy> {
    /// [`CapSpace::insert`].
    Insert { object: O, rights: Rights },
    /// [`CapSpace::insert_at`].
    InsertAt { slot: usize, object: O, rights: Rights },
    /// [`CapSpace::mint`].
    Mint { source: CapRef, mask: Rights },
    /// [`CapSpace::remove`].
    Remove { target: CapRef },
    /// [`CapSpace::revoke`].
    Revoke { target: CapRef },
}

impl<O: Copy> TableView<Capability<O>> {
    /// The table after `op`, as the contracts of [`CapSpace`] state it.
    pub open spec fn after(self, op: SpaceOp<O>) -> Self {
        match op {
            SpaceOp::Insert { object, rights } => self.inserted(
                Capability::original(object, rights),
            ),
            SpaceOp::InsertAt { slot, object, rights } => if slot < self.slots.len()
                && self.slots[slot as int].entry is None {
                self.filled(slot as int, Capability::original(object, rights))
            } else {
                self
            },
            SpaceOp::Mint { source, mask } => self.minted(source, mask),
            SpaceOp::Remove { target } => self.removed(target),
            SpaceOp::Revoke { target } => self.revoked(target),
        }
    }

    /// The table after all of `ops`, in order.
    pub open spec fn after_all(self, ops: Seq<SpaceOp<O>>) -> Self
        decreases ops.len(),
    {
        if ops.len() == 0 {
            self
        } else {
            self.after_all(ops.drop_last()).after(ops.last())
        }
    }
}

proof fn lemma_fill_keeps_sound<O: Copy>(
    t: TableView<Capability<O>>,
    i: int,
    cap: Capability<O>,
)
    requires
        t.derivations_are_sound(),
        0 <= i < t.slots.len(),
        t.slots[i].entry is None,
        t.link_is_sound(cap),
    ensures
        t.filled(i, cap).derivations_are_sound(),
{
    let u = t.filled(i, cap);
    assert forall|j: int|
        0 <= j < u.slots.len() && (#[trigger] u.slots[j]).entry is Some implies u.link_is_sound(
        u.slots[j].entry.unwrap(),
    ) by {
        let c = u.slots[j].entry.unwrap();
        assert(t.link_is_sound(c)) by {
            if j != i {
                assert(t.slots[j].entry is Some);
            }
        }
        if c.parent is Some {
            let p = c.parent.unwrap();
            if p.slot() == i {
                assert(!t.valid(p));
            }
        }
    }
}

/// Every operation keeps the derivation links sound, as long as no generation
/// counter is at its last value.
pub proof fn operations_keep_derivations_sound<O: Copy>(
    t: TableView<Capability<O>>,
    op: SpaceOp<O>,
)
    requires
        t.derivations_are_sound(),
        t.generations_have_room(),
    ensures
        t.after(op).derivations_are_sound(),
        t.after(op).slots.len() == t.slots.len(),
{
    let u = t.after(op);
    cap_table::lemma_free_from(t, 0);
    match op {
        SpaceOp::Insert { object, rights } => {
            if t.first_free() < t.slots.len() {
                lemma_fill_keeps_sound(t, t.first_free(), Capability::original(object, rights));
            }
        },
        SpaceOp::InsertAt { slot, object, rights } => {
            if slot < t.slots.len() && t.slots[slot as int].entry is None {
                lemma_fill_keeps_sound(t, slot as int, Capability::original(object, rights));
            }
        },
        SpaceOp::Mint { source, mask } => {
            if t.valid(source) && t.first_free() < t.slots.len() {
                let parent = t.get(source).unwrap();
                cap_rights::attenuation_is_monotone(parent.rights, mask);
                lemma_fill_keeps_sound(t, t.first_free(), parent.derived(source, mask));
            }
        },
        SpaceOp::Remove { target } => {
            assert forall|j: int|
                0 <= j < u.slots.len() && (#[trigger] u.slots[j]).entry is Some implies u.link_is_sound(
                u.slots[j].entry.unwrap(),
            ) by {
                assert(t.slots[j].entry == u.slots[j].entry);
                assert(t.link_is_sound(t.slots[j].entry.unwrap()));
            }
        },
        SpaceOp::Revoke { target } => {
            assert forall|j: int|
                0 <= j < u.slots.len() && (#[trigger] u.slots[j]).entry is Some implies u.link_is_sound(
                u.slots[j].entry.unwrap(),
            ) by {
                assert(t.slots[j] == u.slots[j]);
                let c = t.slots[j].entry.unwrap();
                assert(t.link_is_sound(c));
                if c.parent is Some {
                    let k = c.parent.unwrap().slot() as int;
                    assert(u.slots[k] == t.slots[k] || u.slots[k].generation
                        == t.slots[k].generation + 1);
                    assert(t.slots[k].generation < u32::MAX);
                }
            }
        },
    }
}

impl<O: Copy> TableView<Capability<O>> {
    /// `r` named a capability once, and its slot has been vacated since.
    pub open spec fn retired(self, r: CapRef) -> bool {
        r.slot() < self.slots.len() && r.generation() < self.slots[r.slot() as int].generation
    }
}

/// A live reference stays live through an operation or is retired by it, and one
/// that is retired stays so, as long as no generation counter is at its last value.
pub proof fn operations_retire_refs_for_good<O: Copy>(
    t: TableView<Capability<O>>,
    op: SpaceOp<O>,
    r: CapRef,
)
    requires
        t.generations_have_room(),
    ensures
        t.valid(r) ==> t.after(op).valid(r) || t.after(op).retired(r),
        t.valid(r) && t.after(op).valid(r) ==> t.after(op).get(r) == t.get(r),
        t.retired(r) ==> t.after(op).retired(r),
        t.retired(r) ==> !t.valid(r),
        op == (SpaceOp::<O>::Remove { target: r }) && t.valid(r) ==> t.after(op).retired(r),
        op matches SpaceOp::Revoke { target } ==> (t.valid(r) && t.descends(r, target) ==> t.after(
            op,
        ).retired(r)),
{
    cap_table::lemma_free_from(t, 0);
    if r.slot() < t.slots.len() {
        let i = r.slot() as int;
        assert(t.slots[i].generation < u32::MAX);
        if t.valid(r) {
            assert(t.ref_at(i) == r);
        }
    }
}

/// The revocation guarantee over a whole history: a reference that has been retired
/// names nothing again, however its slot is reused, through any sequence of inserts,
/// mints, removals and revocations. The sequences left out are those in which a slot
/// has been vacated so often that its generation counter reached its last value.
pub proof fn retired_refs_stay_dead<O: Copy>(
    t: TableView<Capability<O>>,
    ops: Seq<SpaceOp<O>>,
    r: CapRef,
)
    requires
        t.retired(r),
        forall|k: int|
            0 <= k < ops.len() ==> t.after_all(#[trigger] ops.take(k)).generations_have_room(),
    ensures
        t.after_all(ops).retired(r),
        !t.after_all(ops).valid(r),
        t.after_all(ops).get(r) is None,
    decreases ops.len(),
{
    if ops.len() > 0 {
        let front = ops.drop_last();
        assert forall|k: int| 0 <= k < front.len() implies t.after_all(
            #[trigger] front.take(k),
        ).generations_have_room() by {
            assert(front.take(k) =~= ops.take(k));
        }
        retired_refs_stay_dead(t, front, r);
        assert(ops.take(ops.len() - 1) =~= front);
        operations_retire_refs_for_good(t.after_all(front), ops.last(), r);
    }
}

/// In a space that started out empty, delegation never manufactures authority:
/// after any sequence of operations the derivation links are sound, so that
/// [`chain_never_amplifies`] and [`derived_authority_bounded_by_root`] hold of it.
/// The sequences left out are those in which a slot has been vacated so often
/// that its generation counter reached its last value.
pub proof fn reachable_spaces_are_sound<O: Copy>(n: nat, ops: Seq<SpaceOp<O>>)
    requires
        forall|k: int|
            0 <= k < ops.len() ==> TableView::<Capability<O>>::vacant(n).after_all(
                #[trigger] ops.take(k),
            ).generations_have_room(),
    ensures
        TableView::<Capability<O>>::vacant(n).after_all(ops).derivations_are_sound(),
    decreases ops.len(),
{
    if ops.len() > 0 {
        let front = ops.drop_last();
        assert forall|k: int| 0 <= k < front.len() implies TableView::<Capability<O>>::vacant(
            n,
        ).after_all(#[trigger] front.take(k)).generations_have_room() by {
            assert(front.take(k) =~= ops.take(k));
        }
        reachable_spaces_are_sound(n, front);
        assert(ops.take(ops.len() - 1) =~= front);
        operations_keep_derivations_sound(
            TableView::<Capability<O>>::vacant(n).after_all(front),
            ops.last(),
        );
    }
}

} // verus!

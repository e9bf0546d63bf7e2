//! Capability rights: a monotone permission set.
//!
//! A [`Rights`] value is a set of permissions that may be attached to a
//! capability: read (receive), write (send), grant (delegate full authority)
//! and grant-reply (delegate a reply-only derivative).
//!
//! The model of a `Rights` value is the set of [`Right`]s that it holds, and
//! every operation is stated over that set. The representation is a byte whose
//! upper four bits are always clear, which is the type's invariant.
use vstd::prelude::*;

verus! {

/// One of the four permissions a capability may carry.
pub enum Right {
    /// Receive from, or read, the object.
    Read,
    /// Send to, or write, the object.
    Write,
    /// Delegate full authority over the capability.
    Grant,
    /// Delegate a reply-only derivative of the capability.
    GrantReply,
}

impl Right {
    /// The bit that stands for this permission.
    pub open spec fn mask(self) -> u8 {
        match self {
            Right::Read => 1,
            Right::Write => 2,
            Right::Grant => 4,
            Right::GrantReply => 8,
        }
    }
}

/// The four bits that a [`Rights`] byte may have set.
pub const VALID_MASK: u8 = 0b0000_1111;

/// A set of capability permissions.
#[derive(Copy, Clone, Debug, PartialEq, Eq, Structural)]
pub struct Rights(u8);

impl View for Rights {
    type V = Set<Right>;

    /// The permissions held.
    open spec fn view(&self) -> Set<Right> {
        Set::new(|right: Right| self.raw() & right.mask() != 0)
    }
}

impl Rights {
    /// The representing byte.
    pub closed spec fn raw(self) -> u8 {
        self.0
    }

    /// The rights that `byte` represents.
    pub closed spec fn of(byte: u8) -> Self {
        Rights(byte)
    }

    /// Only the four defined bits are set.
    pub open spec fn valid(self) -> bool {
        self.raw() <= VALID_MASK
    }

    #[verifier::type_invariant]
    closed spec fn inv(self) -> bool {
        self.valid()
    }

    /// No rights: the empty permission set.
    #[inline]
    #[must_use]
    pub fn none() -> (r: Self)
        ensures
            r.valid(),
            r@ == Set::<Right>::empty(),
            r.raw() == 0,
    {
        let r = Rights(0);
        proof {
            lemma_bits(0, 0);
        }
        r
    }

    /// Permission to receive from, or read, the object.
    #[inline]
    #[must_use]
    pub fn read() -> (r: Self)
        ensures
            r.valid(),
            r@ == set![Right::Read],
            r@.contains(Right::Read),
            r.raw() == 1,
    {
        let r = Rights(1);
        proof {
            lemma_single_bits();
        }
        r
    }

    /// Permission to send to, or write, the object.
    #[inline]
    #[must_use]
    pub fn write() -> (r: Self)
        ensures
            r.valid(),
            r@ == set![Right::Write],
            r@.contains(Right::Write),
            r.raw() == 2,
    {
        let r = Rights(2);
        proof {
            lemma_single_bits();
        }
        r
    }

    /// Permission to delegate full authority over this capability.
    #[inline]
    #[must_use]
    pub fn grant() -> (r: Self)
        ensures
            r.valid(),
            r@ == set![Right::Grant],
            r@.contains(Right::Grant),
            r.raw() == 4,
    {
        let r = Rights(4);
        proof {
            lemma_single_bits();
        }
        r
    }

    /// Permission to delegate a reply-only derivative of this capability.
    #[inline]
    #[must_use]
    pub fn grant_reply() -> (r: Self)
        ensures
            r.valid(),
            r@ == set![Right::GrantReply],
            r@.contains(Right::GrantReply),
            r.raw() == 8,
    {
        let r = Rights(8);
        proof {
            lemma_single_bits();
        }
        r
    }

    /// Read and write permissions combined.
    #[inline]
    #[must_use]
    pub fn read_write() -> (r: Self)
        ensures
            r.valid(),
            r@ == set![Right::Read, Right::Write],
            r@.contains(Right::Read),
            r@.contains(Right::Write),
            r.raw() == 3,
    {
        let r = Rights(3);
        proof {
            lemma_single_bits();
        }
        r
    }

    /// Returns the empty set (no permissions).
    #[inline]
    #[must_use]
    pub fn empty() -> (r: Self)
        ensures
            r.valid(),
            r@ == Set::<Right>::empty(),
            r.raw() == 0,
    {
        Self::none()
    }

    /// Returns the full set (all four permissions).
    #[inline]
    #[must_use]
    pub fn all() -> (r: Self)
        ensures
            r.valid(),
            r@ == Set::<Right>::full(),
            r@.contains(Right::Read),
            r@.contains(Right::Write),
            r@.contains(Right::Grant),
            r@.contains(Right::GrantReply),
            r.raw() == VALID_MASK,
    {
        let r = Rights(VALID_MASK);
        proof {
            lemma_single_bits();
        }
        r
    }

    /// The rights whose four bits are the low four of `bits`.
    pub open spec fn truncated(bits: u8) -> Self {
        Self::of(bits & VALID_MASK)
    }

    /// Constructs rights from a raw byte, discarding any bit outside the four
    /// defined positions.
    #[inline]
    #[must_use]
    pub fn from_bits_truncate(bits: u8) -> (r: Self)
        ensures
            r == Self::truncated(bits),
            r.valid(),
            r@ == Set::new(|right: Right| bits & right.mask() != 0),
            r.raw() == bits & VALID_MASK,
    {
        proof {
            lemma_bits(bits, VALID_MASK);
            lemma_single_bits();
        }
        Rights(bits & VALID_MASK)
    }

    /// Returns the raw byte. The upper four bits are always zero.
    #[inline]
    #[must_use]
    pub fn bits(self) -> (b: u8)
        ensures
            b == self.raw(),
            self.valid(),
    {
        proof {
            use_type_invariant(&self);
        }
        self.0
    }

    /// Returns `true` if this set has no permissions.
    #[inline]
    #[must_use]
    pub fn is_empty(self) -> (b: bool)
        ensures
            b == (self@ == Set::<Right>::empty()),
            b == (self.raw() == 0),
    {
        proof {
            use_type_invariant(&self);
            lemma_bits(self.0, self.0);
            assert(self.0 == 0 ==> self@ =~= Set::<Right>::empty());
            if self@ == Set::<Right>::empty() {
                assert(!self@.contains(Right::Read));
                assert(!self@.contains(Right::Write));
                assert(!self@.contains(Right::Grant));
                assert(!self@.contains(Right::GrantReply));
            }
        }
        self.0 == 0
    }

    /// Returns `true` if every permission in `other` is also in `self`.
    #[inline]
    #[must_use]
    pub fn contains(self, other: Self) -> (b: bool)
        ensures
            b == other@.subset_of(self@),
            b == (self.raw() & other.raw() == other.raw()),
    {
        proof {
            use_type_invariant(&self);
            use_type_invariant(&other);
            lemma_subset_bits(self, other);
        }
        (self.0 & other.0) == other.0
    }

    /// Returns `true` if `self` and `other` share at least one permission.
    #[inline]
    #[must_use]
    pub fn intersects(self, other: Self) -> (b: bool)
        ensures
            b == !self@.disjoint(other@),
            b == (self.raw() & other.raw() != 0),
    {
        proof {
            use_type_invariant(&self);
            use_type_invariant(&other);
            lemma_bits(self.0, other.0);
            if self@.disjoint(other@) {
                assert(!(self@.contains(Right::Read) && other@.contains(Right::Read)));
                assert(!(self@.contains(Right::Write) && other@.contains(Right::Write)));
                assert(!(self@.contains(Right::Grant) && other@.contains(Right::Grant)));
                assert(!(self@.contains(Right::GrantReply) && other@.contains(Right::GrantReply)));
            } else {
                let right = choose|right: Right| self@.contains(right) && other@.contains(right);
                assert(right.mask() == 1 || right.mask() == 2 || right.mask() == 4 || right.mask()
                    == 8);
            }
        }
        (self.0 & other.0) != 0
    }

    /// Returns the union of `self` and `other`.
    #[inline]
    #[must_use]
    pub fn union(self, other: Self) -> (r: Self)
        ensures
            r.valid(),
            r@ == self@.union(other@),
            r.raw() == self.raw() | other.raw(),
    {
        proof {
            use_type_invariant(&self);
            use_type_invariant(&other);
            lemma_bits(self.0, other.0);
        }
        let r = Rights(self.0 | other.0);
        assert(r@ =~= self@.union(other@));
        r
    }

    /// Returns the intersection of `self` and `other`.
    #[inline]
    #[must_use]
    pub fn intersection(self, other: Self) -> (r: Self)
        ensures
            r.valid(),
            r@ == self@.intersect(other@),
            r.raw() == self.raw() & other.raw(),
    {
        proof {
            use_type_invariant(&self);
            use_type_invariant(&other);
            lemma_bits(self.0, other.0);
        }
        let r = Rights(self.0 & other.0);
        assert(r@ =~= self@.intersect(other@));
        r
    }

    /// The rights that remain of `self` after applying `mask`.
    pub open spec fn attenuated(self, mask: Self) -> Self {
        Self::of(self.raw() & mask.raw())
    }

    /// Returns the rights that remain after applying `mask`.
    ///
    /// This is the operation behind a derived capability: the caller names the
    /// most it is willing to grant, and the result is what it actually holds of
    /// that. The result is a subset of both operands, so permissions are never
    /// added.
    #[inline]
    #[must_use]
    pub fn attenuate(self, mask: Self) -> (r: Self)
        ensures
            r == self.attenuated(mask),
            r.valid(),
            r@ == self@.intersect(mask@),
            r@.subset_of(self@),
            r@.subset_of(mask@),
            r.raw() == self.raw() & mask.raw(),
            r.raw() <= self.raw(),
    {
        proof {
            use_type_invariant(&self);
            use_type_invariant(&mask);
            lemma_bits(self.0, mask.0);
            attenuation_is_monotone(self, mask);
        }
        Rights(self.0 & mask.0)
    }
}

/// A value is determined by the byte that represents it.
pub broadcast proof fn lemma_of(byte: u8)
    ensures
        #[trigger] Rights::of(byte).raw() == byte,
{
}

/// Every value is the one that its byte represents.
pub broadcast proof fn lemma_raw(r: Rights)
    ensures
        Rights::of(#[trigger] r.raw()) == r,
{
}

/// How rights and their bytes determine each other.
pub broadcast group group_rights {
    lemma_of,
    lemma_raw,
}

/// What the bitwise operations do to each of the four bits.
proof fn lemma_bits(a: u8, b: u8)
    ensures
        a & 0x0f <= 0x0f,
        a & b <= a,
        a & b <= b,
        a <= 0x0f && b <= 0x0f ==> a | b <= 0x0f,
        0u8 & 1 == 0 && 0u8 & 2 == 0 && 0u8 & 4 == 0 && 0u8 & 8 == 0,
        (a & b) & 1 != 0 <==> a & 1 != 0 && b & 1 != 0,
        (a & b) & 2 != 0 <==> a & 2 != 0 && b & 2 != 0,
        (a & b) & 4 != 0 <==> a & 4 != 0 && b & 4 != 0,
        (a & b) & 8 != 0 <==> a & 8 != 0 && b & 8 != 0,
        (a | b) & 1 != 0 <==> a & 1 != 0 || b & 1 != 0,
        (a | b) & 2 != 0 <==> a & 2 != 0 || b & 2 != 0,
        (a | b) & 4 != 0 <==> a & 4 != 0 || b & 4 != 0,
        (a | b) & 8 != 0 <==> a & 8 != 0 || b & 8 != 0,
        a <= 0x0f && a & 1 == 0 && a & 2 == 0 && a & 4 == 0 && a & 8 == 0 ==> a == 0,
        a <= 0x0f ==> (a & b != 0 <==> (a & 1 != 0 && b & 1 != 0) || (a & 2 != 0 && b & 2 != 0) || (
        a & 4 != 0 && b & 4 != 0) || (a & 8 != 0 && b & 8 != 0)),
        b <= 0x0f ==> (a & b == b <==> (b & 1 != 0 ==> a & 1 != 0) && (b & 2 != 0 ==> a & 2 != 0)
            && (b & 4 != 0 ==> a & 4 != 0) && (b & 8 != 0 ==> a & 8 != 0)),
        a <= 0x0f && b <= 0x0f && (a & 1 != 0 <==> b & 1 != 0) && (a & 2 != 0 <==> b & 2 != 0) && (a
            & 4 != 0 <==> b & 4 != 0) && (a & 8 != 0 <==> b & 8 != 0) ==> a == b,
{
    assert({
        &&& a & 0x0f <= 0x0f
        &&& a & b <= a
        &&& a & b <= b
        &&& a <= 0x0f && b <= 0x0f ==> a | b <= 0x0f
        &&& 0u8 & 1 == 0 && 0u8 & 2 == 0 && 0u8 & 4 == 0 && 0u8 & 8 == 0
        &&& (a & b) & 1 != 0 <==> a & 1 != 0 && b & 1 != 0
        &&& (a & b) & 2 != 0 <==> a & 2 != 0 && b & 2 != 0
        &&& (a & b) & 4 != 0 <==> a & 4 != 0 && b & 4 != 0
        &&& (a & b) & 8 != 0 <==> a & 8 != 0 && b & 8 != 0
        &&& (a | b) & 1 != 0 <==> a & 1 != 0 || b & 1 != 0
        &&& (a | b) & 2 != 0 <==> a & 2 != 0 || b & 2 != 0
        &&& (a | b) & 4 != 0 <==> a & 4 != 0 || b & 4 != 0
        &&& (a | b) & 8 != 0 <==> a & 8 != 0 || b & 8 != 0
        &&& a <= 0x0f && a & 1 == 0 && a & 2 == 0 && a & 4 == 0 && a & 8 == 0 ==> a == 0
        &&& a <= 0x0f ==> (a & b != 0 <==> (a & 1 != 0 && b & 1 != 0) || (a & 2 != 0 && b & 2 != 0)
            || (a & 4 != 0 && b & 4 != 0) || (a & 8 != 0 && b & 8 != 0))
        &&& b <= 0x0f ==> (a & b == b <==> (b & 1 != 0 ==> a & 1 != 0) && (b & 2 != 0 ==> a & 2
            != 0) && (b & 4 != 0 ==> a & 4 != 0) && (b & 8 != 0 ==> a & 8 != 0))
        &&& a <= 0x0f && b <= 0x0f && (a & 1 != 0 <==> b & 1 != 0) && (a & 2 != 0 <==> b & 2 != 0)
            && (a & 4 != 0 <==> b & 4 != 0) && (a & 8 != 0 <==> b & 8 != 0) ==> a == b
    }) by (bit_vector);
}

/// The four bits of the predefined sets.
proof fn lemma_single_bits()
    ensures
        1u8 & 1 != 0 && 1u8 & 2 == 0 && 1u8 & 4 == 0 && 1u8 & 8 == 0,
        2u8 & 1 == 0 && 2u8 & 2 != 0 && 2u8 & 4 == 0 && 2u8 & 8 == 0,
        4u8 & 1 == 0 && 4u8 & 2 == 0 && 4u8 & 4 != 0 && 4u8 & 8 == 0,
        8u8 & 1 == 0 && 8u8 & 2 == 0 && 8u8 & 4 == 0 && 8u8 & 8 != 0,
        3u8 & 1 != 0 && 3u8 & 2 != 0 && 3u8 & 4 == 0 && 3u8 & 8 == 0,
        0x0fu8 & 1 != 0 && 0x0fu8 & 2 != 0 && 0x0fu8 & 4 != 0 && 0x0fu8 & 8 != 0,
{
    assert({
        &&& 1u8 & 1 != 0 && 1u8 & 2 == 0 && 1u8 & 4 == 0 && 1u8 & 8 == 0
        &&& 2u8 & 1 == 0 && 2u8 & 2 != 0 && 2u8 & 4 == 0 && 2u8 & 8 == 0
        &&& 4u8 & 1 == 0 && 4u8 & 2 == 0 && 4u8 & 4 != 0 && 4u8 & 8 == 0
        &&& 8u8 & 1 == 0 && 8u8 & 2 == 0 && 8u8 & 4 == 0 && 8u8 & 8 != 0
        &&& 3u8 & 1 != 0 && 3u8 & 2 != 0 && 3u8 & 4 == 0 && 3u8 & 8 == 0
        &&& 0x0fu8 & 1 != 0 && 0x0fu8 & 2 != 0 && 0x0fu8 & 4 != 0 && 0x0fu8 & 8 != 0
    }) by (bit_vector);
}

/// Membership of each permission, bit by bit.
proof fn lemma_holds(a: Rights)
    ensures
        a@.contains(Right::Read) == (a.raw() & 1 != 0),
        a@.contains(Right::Write) == (a.raw() & 2 != 0),
        a@.contains(Right::Grant) == (a.raw() & 4 != 0),
        a@.contains(Right::GrantReply) == (a.raw() & 8 != 0),
{
}

proof fn lemma_subset_bits(a: Rights, b: Rights)
    requires
        b.valid(),
    ensures
        a.raw() & b.raw() == b.raw() <==> b@.subset_of(a@),
{
    lemma_bits(a.0, b.0);
    if b@.subset_of(a@) {
        assert(b@.contains(Right::Read) ==> a@.contains(Right::Read));
        assert(b@.contains(Right::Write) ==> a@.contains(Right::Write));
        assert(b@.contains(Right::Grant) ==> a@.contains(Right::Grant));
        assert(b@.contains(Right::GrantReply) ==> a@.contains(Right::GrantReply));
    }
}

/// Two valid sets of rights that hold the same permissions are the same value.
pub proof fn rights_are_determined_by_view(a: Rights, b: Rights)
    requires
        a.valid(),
        b.valid(),
        a@ == b@,
    ensures
        a == b,
{
    lemma_bits(a.0, b.0);
    lemma_holds(a);
    lemma_holds(b);
}

/// Attenuation only clears permissions: the result holds exactly what both
/// operands hold, so it is contained in each, and the raw byte never grows.
pub proof fn attenuation_is_monotone(a: Rights, mask: Rights)
    ensures
        a.attenuated(mask)@ == a@.intersect(mask@),
        a.attenuated(mask)@.subset_of(a@),
        a.attenuated(mask)@.subset_of(mask@),
        a.attenuated(mask).raw() <= a.raw(),
        a.attenuated(mask).raw() <= mask.raw(),
        a.valid() ==> a.attenuated(mask).valid(),
{
    lemma_bits(a.0, mask.0);
    assert(a.attenuated(mask)@ =~= a@.intersect(mask@));
}

/// Attenuating by the empty set yields the empty set.
pub proof fn attenuation_by_empty_is_empty(a: Rights, none: Rights)
    requires
        none.valid(),
        none@ == Set::<Right>::empty(),
    ensures
        a.attenuated(none) == none,
{
    attenuation_is_monotone(a, none);
    lemma_bits(a.0, none.0);
    assert(!none@.contains(Right::Read));
    assert(!none@.contains(Right::Write));
    assert(!none@.contains(Right::Grant));
    assert(!none@.contains(Right::GrantReply));
    lemma_bits(none.0, none.0);
    assert(a.attenuated(none)@ =~= none@);
    rights_are_determined_by_view(a.attenuated(none), none);
}

/// Attenuating by the full set changes nothing.
pub proof fn attenuation_by_all_is_identity(a: Rights, all: Rights)
    requires
        a.valid(),
        all@ == Set::<Right>::full(),
    ensures
        a.attenuated(all) == a,
{
    attenuation_is_monotone(a, all);
    assert(a.attenuated(all)@ =~= a@);
    rights_are_determined_by_view(a.attenuated(all), a);
}

/// Applying the same mask twice is the same as applying it once.
pub proof fn attenuation_is_idempotent(a: Rights, mask: Rights)
    requires
        a.valid(),
    ensures
        a.attenuated(mask).attenuated(mask) == a.attenuated(mask),
{
    let once = a.attenuated(mask);
    attenuation_is_monotone(a, mask);
    attenuation_is_monotone(once, mask);
    assert(once.attenuated(mask)@ =~= once@);
    rights_are_determined_by_view(once.attenuated(mask), once);
}

/// Attenuation is commutative.
pub proof fn attenuation_commutes(a: Rights, b: Rights)
    requires
        a.valid(),
        b.valid(),
    ensures
        a.attenuated(b) == b.attenuated(a),
{
    attenuation_is_monotone(a, b);
    attenuation_is_monotone(b, a);
    assert(a.attenuated(b)@ =~= b.attenuated(a)@);
    rights_are_determined_by_view(a.attenuated(b), b.attenuated(a));
}

/// Containment is transitive: the step behind the claim that no capability
/// along a derivation chain holds more than its root.
pub proof fn contains_is_transitive(a: Rights, b: Rights, c: Rights)
    requires
        b@.subset_of(a@),
        c@.subset_of(b@),
    ensures
        c@.subset_of(a@),
{
}

} // verus!

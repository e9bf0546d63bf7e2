//! Counting the `true` entries of a sequence, for occupancy invariants.
use vstd::prelude::*;

verus! {

/// The number of `true` entries of `s`.
pub open spec fn count(s: Seq<bool>) -> nat
    decreases s.len(),
{
    if s.len() == 0 {
        0
    } else {
        count(s.drop_last()) + if s.last() {
            1nat
        } else {
            0nat
        }
    }
}

/// A count lies between zero and the length, and reaches the two ends exactly
/// when no entry and when every entry is set.
pub proof fn lemma_count_bounds(s: Seq<bool>)
    ensures
        count(s) <= s.len(),
        count(s) == 0 <==> forall|i: int| 0 <= i < s.len() ==> !#[trigger] s[i],
        count(s) == s.len() <==> forall|i: int| 0 <= i < s.len() ==> #[trigger] s[i],
    decreases s.len(),
{
    if s.len() > 0 {
        let front = s.drop_last();
        lemma_count_bounds(front);
        assert(forall|i: int| 0 <= i < front.len() ==> front[i] == s[i]);
        assert(s[s.len() - 1] == s.last());
        if forall|i: int| 0 <= i < front.len() ==> !#[trigger] front[i] {
            assert forall|i: int| 0 <= i < s.len() && !s.last() implies !#[trigger] s[i] by {
                if i < front.len() {
                    assert(!front[i]);
                }
            }
        } else {
            let i = choose|i: int| 0 <= i < front.len() && #[trigger] front[i];
            assert(s[i]);
        }
        if forall|i: int| 0 <= i < front.len() ==> #[trigger] front[i] {
            assert forall|i: int| 0 <= i < s.len() && s.last() implies #[trigger] s[i] by {
                if i < front.len() {
                    assert(front[i]);
                }
            }
        } else {
            let i = choose|i: int| 0 <= i < front.len() && !#[trigger] front[i];
            assert(!s[i]);
        }
    }
}

/// Overwriting one entry changes the count by the difference of that entry.
pub proof fn lemma_count_update(s: Seq<bool>, i: int, b: bool)
    requires
        0 <= i < s.len(),
    ensures
        count(s.update(i, b)) + (if s[i] { 1int } else { 0int }) == count(s) + (if b { 1int } else {
            0int
        }),
    decreases s.len(),
{
    let t = s.update(i, b);
    if i == s.len() - 1 {
        assert(t.drop_last() =~= s.drop_last());
    } else {
        lemma_count_update(s.drop_last(), i, b);
        assert(t.drop_last() =~= s.drop_last().update(i, b));
        assert(t.last() == s.last());
    }
}

/// The count of a concatenation is the sum of the counts.
pub proof fn lemma_count_concat(s: Seq<bool>, t: Seq<bool>)
    ensures
        count(s + t) == count(s) + count(t),
    decreases t.len(),
{
    if t.len() == 0 {
        assert(s + t =~= s);
    } else {
        lemma_count_concat(s, t.drop_last());
        assert((s + t).drop_last() =~= s + t.drop_last());
        assert((s + t).last() == t.last());
    }
}

/// Appending one entry.
pub proof fn lemma_count_push(s: Seq<bool>, b: bool)
    ensures
        count(s.push(b)) == count(s) + (if b { 1nat } else { 0nat }),
{
    assert(s.push(b).drop_last() =~= s);
}

/// Pairwise disjoint sequences count together as their pointwise union.
pub proof fn lemma_count_split(s: Seq<bool>, t: Seq<bool>, u: Seq<bool>)
    requires
        s.len() == t.len() == u.len(),
        forall|i: int| 0 <= i < s.len() ==> #[trigger] u[i] == (s[i] || t[i]) && !(s[i] && t[i]),
    ensures
        count(u) == count(s) + count(t),
    decreases s.len(),
{
    if s.len() > 0 {
        assert(u[s.len() - 1] == u.last());
        assert forall|i: int| 0 <= i < s.drop_last().len() implies #[trigger] u.drop_last()[i] == (
        s.drop_last()[i] || t.drop_last()[i]) && !(s.drop_last()[i] && t.drop_last()[i]) by {
            assert(u[i] == (s[i] || t[i]));
        }
        lemma_count_split(s.drop_last(), t.drop_last(), u.drop_last());
    }
}

} // verus!

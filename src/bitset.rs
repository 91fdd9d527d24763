//! The bit sets of the `bit_set` crate, as seen by the verified code.

use bit_set::BitSet;
use vstd::prelude::*;

verus! {

/// The `bit_set` crate's `BitSet`, opaque here: what it holds is `members`.
#[verifier::external_type_specification]
#[verifier::external_body]
#[verifier::reject_recursive_types(B)]
pub struct ExBitSet<B>(BitSet<B>);

/// The integers that a bit set holds.
pub uninterp spec fn members(s: BitSet) -> Set<usize>;

/// Relies on `BitSet::with_capacity`: the new set holds no integer, whatever
/// room it reserves.
#[verifier::external_body]
pub(crate) fn empty_with_capacity(nbits: usize) -> (r: BitSet)
    ensures
        members(r) == Set::<usize>::empty(),
{
    BitSet::with_capacity(nbits)
}

/// Relies on `BitSet::insert`: adds `value` and keeps every other member.
/// (`usize::MAX` is left out: the set would grow past the largest length.)
#[verifier::external_body]
pub(crate) fn insert(s: &mut BitSet, value: usize)
    requires
        value < usize::MAX,
    ensures
        members(*final(s)) == members(*old(s)).insert(value),
{
    s.insert(value);
}

/// Relies on `BitSet::clear`: every bit is reset.
#[verifier::external_body]
pub(crate) fn clear(s: &mut BitSet)
    ensures
        members(*final(s)) == Set::<usize>::empty(),
{
    s.clear();
}

/// Relies on `BitSet::union_with`: afterwards `s` holds what either set held.
#[verifier::external_body]
pub(crate) fn union_with(s: &mut BitSet, other: &BitSet)
    ensures
        members(*final(s)) == members(*old(s)).union(members(*other)),
{
    s.union_with(other);
}

/// Relies on `BitSet::intersect_with`: afterwards `s` holds what both sets held
/// (the shorter set counts as padded with zero bits).
#[verifier::external_body]
pub(crate) fn intersect_with(s: &mut BitSet, other: &BitSet)
    ensures
        members(*final(s)) == members(*old(s)).intersect(members(*other)),
{
    s.intersect_with(other);
}

/// Relies on `BitSet::contains`.
#[verifier::external_body]
pub(crate) fn contains(s: &BitSet, value: usize) -> (r: bool)
    ensures
        r == members(*s).contains(value),
{
    s.contains(value)
}

/// Relies on `BitSet::iter`, which walks the blocks from the first and each
/// block from its lowest bit: every member once, in increasing order.
#[verifier::external_body]
pub(crate) fn to_sorted_vec(s: &BitSet) -> (r: Vec<usize>)
    ensures
        forall|a: int, b: int| 0 <= a < b < r@.len() ==> r@[a] < r@[b],
        r@.to_set() == members(*s),
{
    s.iter().collect()
}

} // verus!

//! Sets of node indices, kept in a `fixedbitset` bit set.
//!
//! Verus does not look inside the bit set. Its members are named by [`bits`]
//! and the number of positions it was made with by [`bit_len`]; the operations
//! used by this crate are declared here with contracts over those two names,
//! which are believed, not proved.

use fixedbitset::FixedBitSet;
use vstd::prelude::*;

verus! {

/// `fixedbitset::FixedBitSet`, as an opaque value: what a set holds is known
/// only through [`bits`] and [`bit_len`].
#[verifier::external_type_specification]
#[verifier::external_body]
pub struct ExFixedBitSet(FixedBitSet);

/// The positions that are switched on.
pub uninterp spec fn bits(s: FixedBitSet) -> Set<int>;

/// The number of positions that the set was made with.
pub uninterp spec fn bit_len(s: FixedBitSet) -> int;

/// Calls `FixedBitSet::with_capacity`: `n` positions, all switched off. The
/// bound keeps the allocation within what a graph with 32-bit indices needs.
#[verifier::external_body]
pub(crate) fn bitset_with_capacity(n: usize) -> (s: FixedBitSet)
    requires
        n <= u32::MAX,
    ensures
        bits(s) == Set::<int>::empty(),
        bit_len(s) == n,
{
    FixedBitSet::with_capacity(n)
}

/// Calls `FixedBitSet::put`, which panics for a position out of range: the
/// position is switched on and its earlier state is returned.
#[verifier::external_body]
pub(crate) fn bitset_put(s: &mut FixedBitSet, i: usize) -> (r: bool)
    requires
        i < bit_len(*old(s)),
    ensures
        r == bits(*old(s)).contains(i as int),
        bits(*final(s)) == bits(*old(s)).insert(i as int),
        bit_len(*final(s)) == bit_len(*old(s)),
{
    s.put(i)
}

/// Calls `FixedBitSet::contains`.
#[verifier::external_body]
pub(crate) fn bitset_contains(s: &FixedBitSet, i: usize) -> (r: bool)
    ensures
        r == bits(*s).contains(i as int),
{
    s.contains(i)
}

/// Calls `FixedBitSet::count_ones` over the whole set: the number of members.
#[verifier::external_body]
pub(crate) fn bitset_count_ones(s: &FixedBitSet) -> (r: usize)
    ensures
        r == bits(*s).len(),
{
    s.count_ones(..)
}

/// Calls `FixedBitSet::ones`: the members, each once, in ascending order.
#[verifier::external_body]
pub(crate) fn bitset_ones(s: &FixedBitSet) -> (r: Vec<usize>)
    ensures
        forall|i: int, j: int| 0 <= i < j < r@.len() ==> r@[i] < r@[j],
        forall|i: int| 0 <= i < r@.len() ==> bits(*s).contains(#[trigger] r@[i] as int),
        forall|n: int|
            bits(*s).contains(n) ==> exists|i: int| 0 <= i < r@.len() && #[trigger] r@[i] as int == n,
{
    s.ones().collect()
}

/// Calls `FixedBitSet::difference`: the members of `a` that are not members
/// of `b`, each once, in ascending order.
#[verifier::external_body]
pub(crate) fn bitset_difference(a: &FixedBitSet, b: &FixedBitSet) -> (r: Vec<usize>)
    ensures
        forall|i: int, j: int| 0 <= i < j < r@.len() ==> r@[i] < r@[j],
        forall|i: int|
            0 <= i < r@.len() ==> bits(*a).contains(#[trigger] r@[i] as int) && !bits(*b).contains(
                r@[i] as int,
            ),
        forall|n: int|
            bits(*a).contains(n) && !bits(*b).contains(n) ==> exists|i: int|
                0 <= i < r@.len() && #[trigger] r@[i] as int == n,
{
    a.difference(b).collect()
}

} // verus!

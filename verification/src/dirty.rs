//! Dirty-node sets for the per-frame passes, held in `hibitset::BitSet`
//! (a hierarchical bit set indexed by `u32`). The set's contents are modelled
//! as a `Set<u32>`; each wrapper states over that model what the crate's
//! source shows of the method it calls.
use vstd::prelude::*;

verus! {

#[verifier::external_type_specification]
#[verifier::external_body]
pub struct ExBitSet(hibitset::BitSet);

/// The indices held by a `hibitset::BitSet`.
pub uninterp spec fn bits_of(s: hibitset::BitSet) -> Set<u32>;

/// Strict cap on the indices handed to `hibitset::BitSet`: its four fixed
/// layers address indices up to and including two to the twenty-fourth, and
/// `add` panics above that; staying strictly below keeps every index well
/// clear of the top of the hierarchy.
pub const MAX_BIT_INDEX: u32 = 0x100_0000;

/// Relies on hibitset::BitSet::new: a freshly created set holds nothing.
#[verifier::external_body]
pub fn bitset_new() -> (r: hibitset::BitSet)
    ensures
        bits_of(r) =~= Set::<u32>::empty(),
{
    hibitset::BitSet::new()
}

/// Relies on hibitset::BitSet::add: sets the bit for `id`, leaving all other
/// bits as they were; returns whether the bit was already set.
#[verifier::external_body]
pub fn bitset_add(s: &mut hibitset::BitSet, id: u32) -> (r: bool)
    requires
        id < MAX_BIT_INDEX,
    ensures
        bits_of(*final(s)) =~= bits_of(*old(s)).insert(id),
        r == bits_of(*old(s)).contains(id),
{
    s.add(id)
}

/// Relies on hibitset::BitSet::contains: reports whether the bit for `id` is
/// set.
#[verifier::external_body]
pub fn bitset_contains(s: &hibitset::BitSet, id: u32) -> (r: bool)
    ensures
        r == bits_of(*s).contains(id),
{
    s.contains(id)
}

/// Relies on hibitset::BitSetLike::is_empty: the top layer word is zero
/// exactly when no bit is set.
#[verifier::external_body]
pub fn bitset_is_empty(s: &hibitset::BitSet) -> (r: bool)
    ensures
        r == (bits_of(*s) =~= Set::<u32>::empty()),
{
    hibitset::BitSetLike::is_empty(s)
}

} // verus!

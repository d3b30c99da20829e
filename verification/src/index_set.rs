//! Sets of indices, as `BTreeSet<usize>`, for telling repeated indices
//! apart.
use std::collections::BTreeSet;
use vstd::prelude::*;

verus! {

broadcast use vstd::std_specs::btree::group_btree_axioms, vstd::laws_cmp::group_laws_cmp;

/// An empty set of indices.
pub fn empty_index_set() -> (r: BTreeSet<usize>)
    ensures
        r@ == Set::<usize>::empty(),
{
    BTreeSet::new()
}

/// Inserts `x`; `true` exactly when it was not in the set before.
pub fn insert_index(s: &mut BTreeSet<usize>, x: usize) -> (r: bool)
    ensures
        final(s)@ == old(s)@.insert(x),
        r == !old(s)@.contains(x),
{
    s.insert(x)
}

} // verus!

//! Maps from a cell column to the position (transcript, opening) that first
//! opened it, as `HashMap<usize, (usize, usize)>`.
use std::collections::HashMap;
use vstd::prelude::*;

verus! {

broadcast use vstd::std_specs::hash::group_hash_axioms;

/// The entry for `c`, if any.
pub open spec fn slot(m: Map<usize, (usize, usize)>, c: int) -> Option<(usize, usize)> {
    if m.contains_key(c as usize) {
        Some(m[c as usize])
    } else {
        None
    }
}

/// Recording `p` for `k` sets the entry for `k` and keeps every other.
pub proof fn lemma_slot_insert(m: Map<usize, (usize, usize)>, k: usize, p: (usize, usize), c: int)
    requires
        0 <= c <= usize::MAX,
    ensures
        slot(m.insert(k, p), c) == if c == k as int { Some(p) } else { slot(m, c) },
{
}

/// An empty map.
pub fn empty_position_map() -> (r: HashMap<usize, (usize, usize)>)
    ensures
        r@ == Map::<usize, (usize, usize)>::empty(),
{
    HashMap::new()
}

/// The entry for `c`.
pub fn position_of(m: &HashMap<usize, (usize, usize)>, c: usize) -> (r: Option<(usize, usize)>)
    ensures
        r == slot(m@, c as int),
{
    match m.get(&c) {
        Some(p) => Some(*p),
        None => None,
    }
}

/// Records `p` for `c`.
pub fn record_position(m: &mut HashMap<usize, (usize, usize)>, c: usize, p: (usize, usize))
    ensures
        final(m)@ == old(m)@.insert(c, p),
{
    m.insert(c, p);
}

} // verus!

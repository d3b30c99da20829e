//! Sampling distinct cell columns from a commitment root and public
//! randomness: a chain of Poseidon compressions is read element by element,
//! values in the biased tail above the largest multiple of the column count
//! are rejected, and repeated columns are skipped.
use crate::field::{f_from_usize, modp, P};
use crate::hashing::{compress_pair, poseidon_compress, Digest};
use crate::index_set::{empty_index_set, insert_index};
use vstd::prelude::*;

verus! {

/// The counter block absorbed before the `j`-th state.
pub open spec fn counter_block(j: nat) -> Seq<u32> {
    seq![modp(j as int), 0u32, 0u32, 0u32, 0u32, 0u32, 0u32, 0u32]
}

/// The `j`-th state of the sampling chain.
pub open spec fn sample_state(root: Seq<u32>, randomness: Seq<u32>, j: nat) -> Seq<u32>
    decreases j,
{
    if j == 0 {
        poseidon_compress(root, randomness)
    } else {
        poseidon_compress(sample_state(root, randomness, (j - 1) as nat), counter_block(j))
    }
}

/// The `s`-th candidate value: element `s % 8` of state `s / 8`.
pub open spec fn candidate(root: Seq<u32>, randomness: Seq<u32>, s: nat) -> u32 {
    sample_state(root, randomness, s / 8)[(s % 8) as int]
}

/// Candidates at or above this bound are rejected.
pub open spec fn unbiased_limit(n_cells: nat) -> int {
    (P as int) - (P as int) % (n_cells as int)
}

/// The columns picked after reading the first `s` candidates.
pub open spec fn picked(root: Seq<u32>, randomness: Seq<u32>, n_cells: nat, s: nat) -> Seq<usize>
    decreases s,
{
    if s == 0 {
        seq![]
    } else {
        let prev = picked(root, randomness, n_cells, (s - 1) as nat);
        let v = candidate(root, randomness, (s - 1) as nat);
        if v < unbiased_limit(n_cells) && !prev.contains(((v as int) % (n_cells as int)) as usize) {
            prev.push(((v as int) % (n_cells as int)) as usize)
        } else {
            prev
        }
    }
}

/// The picked columns only grow as more candidates are read.
pub proof fn lemma_picked_grows(root: Seq<u32>, randomness: Seq<u32>, n_cells: nat, s1: nat, s2: nat)
    requires
        s1 <= s2,
    ensures
        picked(root, randomness, n_cells, s1).len() <= picked(root, randomness, n_cells, s2).len(),
    decreases s2 - s1,
{
    if s1 < s2 {
        lemma_picked_grows(root, randomness, n_cells, s1, (s2 - 1) as nat);
    }
}

/// The columns picked earlier are a prefix of those picked later.
pub proof fn lemma_picked_prefix(root: Seq<u32>, randomness: Seq<u32>, n_cells: nat, s1: nat, s2: nat)
    requires
        s1 <= s2,
    ensures
        picked(root, randomness, n_cells, s1).len() <= picked(root, randomness, n_cells, s2).len(),
        picked(root, randomness, n_cells, s1) == picked(root, randomness, n_cells, s2).subrange(
            0,
            picked(root, randomness, n_cells, s1).len() as int,
        ),
    decreases s2 - s1,
{
    let a = picked(root, randomness, n_cells, s1);
    if s1 == s2 {
        assert(a.subrange(0, a.len() as int) =~= a);
    } else {
        lemma_picked_prefix(root, randomness, n_cells, s1, (s2 - 1) as nat);
        let b = picked(root, randomness, n_cells, (s2 - 1) as nat);
        let c = picked(root, randomness, n_cells, s2);
        assert(c == b || c == b.push(c.last()));
        assert(c.subrange(0, a.len() as int) =~= b.subrange(0, a.len() as int));
    }
}

/// Samples drawn from the same root, randomness and column count are
/// prefixes of one another: a smaller sample is the start of a larger one,
/// and two samples of one size are equal, whichever sampler drew them.
pub proof fn lemma_samples_extend(root: Seq<u32>, randomness: Seq<u32>, n_cells: nat, v1: Seq<usize>, v2: Seq<usize>)
    requires
        exists|s: nat| v1 == #[trigger] picked(root, randomness, n_cells, s),
        exists|s: nat| v2 == #[trigger] picked(root, randomness, n_cells, s),
        v1.len() <= v2.len(),
    ensures
        v1 == v2.subrange(0, v1.len() as int),
{
    let s1 = choose|s: nat| v1 == #[trigger] picked(root, randomness, n_cells, s);
    let s2 = choose|s: nat| v2 == #[trigger] picked(root, randomness, n_cells, s);
    if s1 <= s2 {
        lemma_picked_prefix(root, randomness, n_cells, s1, s2);
    } else {
        lemma_picked_prefix(root, randomness, n_cells, s2, s1);
        assert(v2 == v1.subrange(0, v2.len() as int));
        assert(v1 =~= v2.subrange(0, v1.len() as int));
    }
}

/// The picked columns are distinct and below the column count.
pub proof fn lemma_picked_distinct(root: Seq<u32>, randomness: Seq<u32>, n_cells: nat, s: nat)
    requires
        n_cells >= 1,
        n_cells <= usize::MAX,
    ensures
        crate::dbp_ext::distinct_indices(picked(root, randomness, n_cells, s), n_cells),
    decreases s,
{
    if s > 0 {
        lemma_picked_distinct(root, randomness, n_cells, (s - 1) as nat);
        let prev = picked(root, randomness, n_cells, (s - 1) as nat);
        let v = candidate(root, randomness, (s - 1) as nat);
        let x = ((v as int) % (n_cells as int)) as usize;
        if v < unbiased_limit(n_cells) && !prev.contains(x) {
            let cur = prev.push(x);
            assert forall|i: int, j: int| 0 <= i < j < cur.len() implies cur[i] != cur[j] by {
                if j == prev.len() {
                    assert(prev.contains(prev[i]));
                }
            }
        }
    }
}

/// Samples `count` distinct columns below `n_cells` from `root` and
/// `randomness`: the result is the columns picked by the time `count` of
/// them are.  `None` only if the counter of the chain runs out first.
pub fn sample_from_root(n_cells: usize, root: &Digest, randomness: &Digest, count: usize) -> (r: Option<Vec<usize>>)
    requires
        1 <= n_cells <= P,
        1 <= count <= n_cells,
    ensures
        r matches Some(v) ==> v.len() == count && exists|s: nat| v@ == #[trigger] picked(root@, randomness@, n_cells as nat, s),
        r matches Some(v) ==> crate::dbp_ext::distinct_indices(v@, n_cells as nat),
        r is None ==> forall|s: nat| s <= 8 * (usize::MAX as nat) ==> #[trigger] picked(root@, randomness@, n_cells as nat, s).len() < count,
{
    let ghost rt = root@;
    let ghost rd = randomness@;
    let ghost nc = n_cells as nat;
    let limit: u32 = P - P % (n_cells as u32);
    let mut state = compress_pair(root, randomness);
    let mut counter: usize = 0;
    let mut seen = empty_index_set();
    let mut indices: Vec<usize> = Vec::new();
    assert(indices@ =~= picked(rt, rd, nc, 0));
    loop
        invariant_except_break
            indices.len() < count,
            indices@ == picked(rt, rd, nc, 8 * counter as nat),
        invariant
            1 <= n_cells <= P,
            count <= n_cells,
            rt == root@,
            rd == randomness@,
            nc == n_cells,
            limit == unbiased_limit(nc),
            state@ == sample_state(rt, rd, counter as nat),
            forall|c: usize| #[trigger] seen@.contains(c) <==> indices@.contains(c),
            forall|j: int| 0 <= j < indices.len() ==> #[trigger] indices@[j] < n_cells,
        ensures
            indices.len() == count,
            exists|s: nat| indices@ == #[trigger] picked(rt, rd, nc, s),
        decreases usize::MAX - counter,
    {
        let mut t: usize = 0;
        let ghost base = 8 * counter as nat;
        while t < 8
            invariant
                t <= 8,
                indices.len() <= count,
                1 <= n_cells <= P,
                count <= n_cells,
                nc == n_cells,
                limit == unbiased_limit(nc),
                base == 8 * counter as nat,
                state@ == sample_state(rt, rd, counter as nat),
                indices.len() < count ==> indices@ == picked(rt, rd, nc, (base + t) as nat),
                indices.len() == count ==> exists|s: nat| indices@ == #[trigger] picked(rt, rd, nc, s),
                forall|c: usize| #[trigger] seen@.contains(c) <==> indices@.contains(c),
                forall|j: int| 0 <= j < indices.len() ==> #[trigger] indices@[j] < n_cells,
            decreases 8 - t,
        {
            if indices.len() < count {
                let value = state[t];
                proof {
                    assert(candidate(rt, rd, (base + t) as nat) == value) by {
                        assert(((base + t) as nat) / 8 == counter as nat);
                        assert(((base + t) as nat) % 8 == t as nat);
                    }
                }
                let ghost prev = indices@;
                if value < limit {
                    let index = (value as usize) % n_cells;
                    if insert_index(&mut seen, index) {
                        indices.push(index);
                        proof {
                            assert forall|c: usize| #[trigger] seen@.contains(c) <==> indices@.contains(c) by {
                                if c == index {
                                    assert(indices@[indices.len() - 1] == index);
                                } else {
                                    if indices@.contains(c) {
                                        let j = indices@.index_of(c);
                                        assert(prev[j] == c);
                                    }
                                    if prev.contains(c) {
                                        let j = prev.index_of(c);
                                        assert(indices@[j] == c);
                                    }
                                }
                            }
                        }
                    } else {
                        proof {
                            assert(prev.contains(index));
                        }
                    }
                }
                proof {
                    assert(indices@ == picked(rt, rd, nc, (base + t + 1) as nat));
                    if indices.len() == count {
                        assert(indices@ == picked(rt, rd, nc, (base + t + 1) as nat));
                    }
                }
            }
            t = t + 1;
        }
        if indices.len() == count {
            break;
        }
        if counter == usize::MAX {
            proof {
                assert forall|s: nat| s <= 8 * (usize::MAX as nat) implies #[trigger] picked(rt, rd, nc, s).len() < count by {
                    lemma_picked_grows(rt, rd, nc, s, (base + 8) as nat);
                }
            }
            return None;
        }
        counter = counter + 1;
        let mut block: Digest = [0u32; 8];
        block[0] = f_from_usize(counter);
        proof {
            assert(block@ =~= counter_block(counter as nat));
        }
        state = compress_pair(&state, &block);
    }
    proof {
        let s = choose|s: nat| indices@ == #[trigger] picked(rt, rd, nc, s);
        lemma_picked_distinct(rt, rd, nc, s);
    }
    Some(indices)
}

} // verus!

//! The constants bound into the proving guests: the named values that
//! replace the guests' placeholders, and the outer Merkle level table.
use crate::merkle::{is_pow2, log2};
use vstd::prelude::*;

verus! {

/// Named values agree one for one, names by their text, with `s`.
pub open spec fn named_values(r: Seq<(&'static str, usize)>, s: Seq<(Seq<char>, int)>) -> bool {
    &&& r.len() == s.len()
    &&& forall|i: int| 0 <= i < r.len() ==> (#[trigger] r[i]).0@ == s[i].0 && r[i].1 as int == s[i].1
}

/// The levels of the outer tree over `n` leaves: sizes `n, n/2, ..., 1`,
/// each level starting where the levels before it end.
pub open spec fn outer_levels(sizes: Seq<usize>, offsets: Seq<usize>, n: nat) -> bool {
    &&& sizes.len() >= 1
    &&& offsets.len() == sizes.len()
    &&& sizes[0] == n
    &&& offsets[0] == 0
    &&& sizes.last() == 1
    &&& forall|i: int| 0 <= i < sizes.len() - 1 ==> #[trigger] sizes[i] == 2 * sizes[i + 1]
    &&& forall|i: int| 0 <= i < sizes.len() - 1 ==> #[trigger] offsets[i + 1] == offsets[i] + sizes[i]
}

/// The outer level table for `n` leaves.
pub(crate) fn outer_level_table(n: usize) -> (r: (Vec<usize>, Vec<usize>))
    requires
        is_pow2(n as nat),
        n <= 0x100_0000,
    ensures
        outer_levels(r.0@, r.1@, n as nat),
        r.0.len() == log2(n as nat) + 1,
{
    let mut sizes: Vec<usize> = Vec::new();
    let mut offsets: Vec<usize> = Vec::new();
    let mut size = n;
    let mut offset: usize = 0;
    sizes.push(size);
    offsets.push(offset);
    while size != 1
        invariant
            is_pow2(size as nat),
            1 <= size <= n <= 0x100_0000,
            offset == offsets@.last(),
            size == sizes@.last(),
            offset + 2 * size <= 2 * n,
            sizes.len() >= 1,
            offsets.len() == sizes.len(),
            sizes@[0] == n,
            offsets@[0] == 0,
            sizes.len() + log2(size as nat) == log2(n as nat) + 1,
            forall|i: int| 0 <= i < sizes.len() - 1 ==> #[trigger] sizes@[i] == 2 * sizes@[i + 1],
            forall|i: int| 0 <= i < sizes.len() - 1 ==> #[trigger] offsets@[i + 1] == offsets@[i] + sizes@[i],
        decreases size,
    {
        proof {
            assert(size % 2 == 0 && is_pow2((size / 2) as nat));
            assert(log2(size as nat) == 1 + log2((size / 2) as nat));
        }
        offset = offset + size;
        size = size / 2;
        sizes.push(size);
        offsets.push(offset);
    }
    (sizes, offsets)
}

/// The words of a sequence of fixed-size blocks, block after block.
pub open spec fn words<const N: usize>(s: Seq<[u32; N]>) -> Seq<u32> {
    s.map_values(|a: [u32; N]| a@).flatten()
}

/// Appends the words of the first `count` blocks of `v`.
pub(crate) fn push_words<const N: usize>(out: &mut Vec<u32>, v: &[[u32; N]], count: usize)
    requires
        count <= v.len(),
    ensures
        final(out)@ == old(out)@ + words(v@.subrange(0, count as int)),
{
    let ghost start = out@;
    let mut i: usize = 0;
    while i < count
        invariant
            i <= count <= v.len(),
            out@ == start + words(v@.subrange(0, i as int)),
        decreases count - i,
    {
        let block = v[i];
        let mut j: usize = 0;
        let ghost before = out@;
        while j < N
            invariant
                j <= N,
                block@.len() == N,
                out@ == before + block@.subrange(0, j as int),
            decreases N - j,
        {
            out.push(block[j]);
            proof {
                assert(block@.subrange(0, j + 1) =~= block@.subrange(0, j as int).push(block@[j as int]));
            }
            j = j + 1;
        }
        proof {
            let pre = v@.subrange(0, i as int);
            assert(v@.subrange(0, i + 1) =~= pre.push(block));
            assert(pre.push(block).map_values(|a: [u32; N]| a@) =~= pre.map_values(|a: [u32; N]| a@).push(block@));
            pre.map_values(|a: [u32; N]| a@).lemma_flatten_push(block@);
            assert(block@.subrange(0, N as int) =~= block@);
        }
        i = i + 1;
    }
}

/// The logarithm of a power of two is its exponent.
pub proof fn lemma_log2_of_pow2(e: nat)
    ensures
        crate::merkle::log2(crate::merkle::pow2(e)) == e,
    decreases e,
{
    if e > 0 {
        lemma_log2_of_pow2((e - 1) as nat);
        crate::poly::lemma_pow2_pos((e - 1) as nat);
        let x = crate::merkle::pow2((e - 1) as nat);
        assert(crate::merkle::pow2(e) == 2 * x);
        assert((2 * x) / 2 == x);
    }
}

/// The words of blocks of `N` words number `N` per block.
pub proof fn lemma_words_len<const N: usize>(s: Seq<[u32; N]>)
    ensures
        words(s).len() == s.len() * N,
    decreases s.len(),
{
    if s.len() > 0 {
        let pre = s.drop_last();
        lemma_words_len(pre);
        assert(s =~= pre.push(s.last()));
        assert(s.map_values(|a: [u32; N]| a@) =~= pre.map_values(|a: [u32; N]| a@).push(s.last()@));
        pre.map_values(|a: [u32; N]| a@).lemma_flatten_push(s.last()@);
        assert(s.last()@.len() == N);
        assert(words(s) == pre.map_values(|a: [u32; N]| a@).flatten() + s.last()@);
        assert(s.len() * N == pre.len() * N + N) by (nonlinear_arith)
            requires
                s.len() == pre.len() + 1,
        ;
    } else {
        assert(s.map_values(|a: [u32; N]| a@) =~= Seq::<Seq<u32>>::empty());
        assert(Seq::<Seq<u32>>::empty().flatten() == Seq::<u32>::empty());
    }
}

/// The outer level table in closed form: level `i` holds `n / 2^i` nodes
/// and starts after `2n - 2 * (n / 2^i)` nodes of the levels below; the
/// levels run from the leaves to the single root.
pub proof fn lemma_outer_levels_closed_form(sizes: Seq<usize>, offsets: Seq<usize>, n: nat)
    requires
        outer_levels(sizes, offsets, n),
    ensures
        forall|i: int| 0 <= i < sizes.len() ==> #[trigger] sizes[i] * crate::merkle::pow2(i as nat) == n && offsets[i] + 2
            * sizes[i] == 2 * n,
        crate::merkle::pow2((sizes.len() - 1) as nat) == n,
        sizes.len() == crate::merkle::log2(n) + 1,
{
    lemma_levels_prefix(sizes, offsets, n, (sizes.len() - 1) as nat);
    let last = sizes.len() - 1;
    assert(sizes[last] * crate::merkle::pow2(last as nat) == n);
    lemma_log2_of_pow2(last as nat);
}

proof fn lemma_levels_prefix(sizes: Seq<usize>, offsets: Seq<usize>, n: nat, k: nat)
    requires
        outer_levels(sizes, offsets, n),
        k < sizes.len(),
    ensures
        forall|i: int| 0 <= i <= k ==> #[trigger] sizes[i] * crate::merkle::pow2(i as nat) == n && offsets[i] + 2 * sizes[i]
            == 2 * n,
    decreases k,
{
    if k > 0 {
        lemma_levels_prefix(sizes, offsets, n, (k - 1) as nat);
        let j = k - 1;
        assert(sizes[j] == 2 * sizes[j + 1]);
        assert(offsets[j + 1] == offsets[j] + sizes[j]);
        assert(crate::merkle::pow2(k) == 2 * crate::merkle::pow2(j as nat));
        assert(sizes[j] * crate::merkle::pow2(j as nat) == n);
        assert(sizes[k as int] * crate::merkle::pow2(k) == n) by (nonlinear_arith)
            requires
                sizes[j] == 2 * sizes[k as int],
                crate::merkle::pow2(k) == 2 * crate::merkle::pow2(j as nat),
                sizes[j] * crate::merkle::pow2(j as nat) == n,
        ;
    } else {
        assert(crate::merkle::pow2(0) == 1);
    }
}

} // verus!

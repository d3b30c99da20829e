//! Symbol layout and serialisation: the physical cell order of a codeword
//! (all even transform positions, then all odd ones), extension elements as
//! runs of five base-field coordinates, cell hashing, and the demo input.
use crate::field::{all_ext_wf, all_fe, f_from_usize, modp, Ext};
use crate::hashing::{chain_hash, chunks_of, fixed_compression_hash, Digest};
use crate::profile::ExtProfile;
use vstd::prelude::*;

verus! {

/// The transform position of physical position `i` when `m = 2k`.
pub open spec fn p2l(k: int, i: int) -> int {
    if i < k {
        2 * i
    } else {
        2 * (i - k) + 1
    }
}

/// The physical position of transform position `j` when `m = 2k`.
pub open spec fn l2p(k: int, j: int) -> int {
    if j % 2 == 0 {
        j / 2
    } else {
        k + j / 2
    }
}

/// The two index maps are inverse bijections of `0..2k`.
pub proof fn lemma_layout_bijection(k: int, i: int)
    requires
        0 <= i < 2 * k,
    ensures
        0 <= p2l(k, i) < 2 * k,
        l2p(k, p2l(k, i)) == i,
        0 <= l2p(k, i) < 2 * k,
        p2l(k, l2p(k, i)) == i,
{
}

/// Maps a physical codeword index back to its transform-domain index.
pub fn physical_to_logical(profile: ExtProfile, index: usize) -> (r: usize)
    requires
        index < 2 * profile.k,
        profile.k <= usize::MAX / 2,
    ensures
        r == p2l(profile.k as int, index as int),
{
    if index < profile.k {
        2 * index
    } else {
        2 * (index - profile.k) + 1
    }
}

/// Maps a transform-domain index to its physical codeword index.
pub fn logical_to_physical(profile: ExtProfile, index: usize) -> (r: usize)
    requires
        index < 2 * profile.k,
        profile.k <= usize::MAX / 2,
    ensures
        r == l2p(profile.k as int, index as int),
{
    if index % 2 == 0 {
        index / 2
    } else {
        profile.k + index / 2
    }
}

/// Reorders a transform-order codeword into physical order.
pub fn logical_to_physical_codeword(profile: ExtProfile, row: &Vec<Ext>) -> (r: Vec<Ext>)
    requires
        row.len() == profile.m,
        profile.m == 2 * profile.k,
    ensures
        r.len() == profile.m,
        forall|i: int| 0 <= i < profile.m ==> #[trigger] r@[i] == row@[p2l(profile.k as int, i)],
        all_ext_wf(row@) ==> all_ext_wf(r@),
{
    let mut r: Vec<Ext> = Vec::new();
    let mut i: usize = 0;
    while i < profile.m
        invariant
            i <= profile.m,
            row.len() == profile.m,
            profile.m == 2 * profile.k,
            r.len() == i,
            forall|j: int| 0 <= j < i ==> #[trigger] r@[j] == row@[p2l(profile.k as int, j)],
        decreases profile.m - i,
    {
        proof {
            lemma_layout_bijection(profile.k as int, i as int);
        }
        let j = physical_to_logical(profile, i);
        r.push(row[j]);
        i = i + 1;
    }
    proof {
        assert forall|i: int| 0 <= i < profile.m && all_ext_wf(row@) implies #[trigger] r@[i].wf() by {
            lemma_layout_bijection(profile.k as int, i);
        }
    }
    r
}

/// The base-field coordinates of a run of extension elements, five per element.
pub open spec fn flat(v: Seq<Ext>) -> Seq<u32> {
    Seq::new(5 * v.len(), |j: int| v[j / 5].coords()[j % 5])
}

/// Extension elements read from consecutive runs of five coordinates.
pub open spec fn unflat(s: Seq<u32>) -> Seq<Ext> {
    Seq::new(s.len() / 5, |i: int| Ext { c0: s[5 * i], c1: s[5 * i + 1], c2: s[5 * i + 2], c3: s[5 * i + 3], c4: s[5 * i + 4] })
}

/// Serialised canonical extension elements are canonical coordinates.
pub proof fn lemma_flat_fe(v: Seq<Ext>)
    requires
        all_ext_wf(v),
    ensures
        all_fe(flat(v)),
{
    assert forall|j: int| 0 <= j < flat(v).len() implies #[trigger] flat(v)[j] < crate::field::P by {
        let i = j / 5;
        assert(v[i].wf());
        let r = j % 5;
        if r == 0 {} else if r == 1 {} else if r == 2 {} else if r == 3 {} else {}
    }
}

/// Serialising extension elements and reading them back is the identity,
/// and so is reading a whole number of runs and serialising them again.
pub proof fn lemma_flat_roundtrip(v: Seq<Ext>, s: Seq<u32>)
    ensures
        unflat(flat(v)) == v,
        s.len() % 5 == 0 ==> flat(unflat(s)) == s,
{
    let f = flat(v);
    assert forall|i: int| 0 <= i < v.len() implies #[trigger] unflat(f)[i] == v[i] by {
        assert((5 * i) / 5 == i && (5 * i + 1) / 5 == i && (5 * i + 2) / 5 == i && (5 * i + 3) / 5 == i && (5 * i + 4) / 5 == i);
        assert((5 * i) % 5 == 0 && (5 * i + 1) % 5 == 1 && (5 * i + 2) % 5 == 2 && (5 * i + 3) % 5 == 3 && (5 * i + 4) % 5 == 4);
    }
    assert(unflat(f) =~= v);
    if s.len() % 5 == 0 {
        let u = unflat(s);
        assert forall|j: int| 0 <= j < s.len() implies #[trigger] flat(u)[j] == s[j] by {
            let q = j / 5;
            let r = j % 5;
            assert(j == 5 * q + r);
            if r == 0 {} else if r == 1 {} else if r == 2 {} else if r == 3 {} else {}
        }
        assert(flat(u) =~= s);
    }
}

/// The coordinates of extension elements, five per element.
pub fn ext_slice_to_base(values: &[Ext]) -> (r: Vec<u32>)
    requires
        values.len() <= usize::MAX / 5,
    ensures
        r@ == flat(values@),
        all_ext_wf(values@) ==> all_fe(r@),
{
    let mut out: Vec<u32> = Vec::new();
    let mut i: usize = 0;
    while i < values.len()
        invariant
            i <= values.len(),
            out@ == flat(values@.subrange(0, i as int)),
        decreases values.len() - i,
    {
        let e = values[i];
        out.push(e.c0);
        out.push(e.c1);
        out.push(e.c2);
        out.push(e.c3);
        out.push(e.c4);
        proof {
            let a = values@.subrange(0, i as int);
            let b = values@.subrange(0, i + 1);
            assert forall|j: int| 0 <= j < 5 * b.len() implies #[trigger] flat(b)[j] == out@[j] by {
                if j < 5 * i {
                    assert(b[j / 5] == a[j / 5]);
                } else {
                    assert(j / 5 == i);
                }
            }
            assert(flat(b) =~= out@);
        }
        i = i + 1;
    }
    assert(values@.subrange(0, values.len() as int) =~= values@);
    proof {
        assert forall|j: int| 0 <= j < out.len() && all_ext_wf(values@) implies #[trigger] out@[j] < crate::field::P by {
            assert(values@[j / 5].wf());
        }
    }
    out
}

/// Extension elements from their coordinates; `None` unless the length is a
/// multiple of five.
pub fn ext_slice_from_base(values: &[u32]) -> (r: Option<Vec<Ext>>)
    ensures
        r is Some <==> values.len() % 5 == 0,
        r matches Some(v) ==> v@ == unflat(values@) && (all_fe(values@) ==> all_ext_wf(v@)),
{
    if values.len() % 5 != 0 {
        return None;
    }
    let mut out: Vec<Ext> = Vec::new();
    let mut i: usize = 0;
    while i < values.len() / 5
        invariant
            i <= values.len() / 5,
            values.len() % 5 == 0,
            out@ == unflat(values@).subrange(0, i as int),
        decreases values.len() / 5 - i,
    {
        out.push(Ext { c0: values[5 * i], c1: values[5 * i + 1], c2: values[5 * i + 2], c3: values[5 * i + 3], c4: values[5 * i + 4] });
        proof {
            assert(out@ =~= unflat(values@).subrange(0, i + 1));
        }
        i = i + 1;
    }
    assert(unflat(values@).subrange(0, (values.len() / 5) as int) =~= unflat(values@));
    proof {
        assert forall|i: int| 0 <= i < out.len() && all_fe(values@) implies #[trigger] out@[i].wf() by {
            assert(values@[5 * i] < crate::field::P);
            assert(values@[5 * i + 1] < crate::field::P);
            assert(values@[5 * i + 2] < crate::field::P);
            assert(values@[5 * i + 3] < crate::field::P);
            assert(values@[5 * i + 4] < crate::field::P);
        }
    }
    Some(out)
}

/// What `cell_hash` computes: the compression chain over the cell's coordinates.
pub open spec fn cell_digest(cell: Seq<Ext>) -> Seq<u32> {
    chain_hash(chunks_of(flat(cell)))
}

/// Hashes one extension-field cell after serialising it to base-field coordinates.
pub fn cell_hash(cell: &[Ext]) -> (r: Digest)
    requires
        cell.len() >= 1,
        cell.len() <= usize::MAX / 5,
        (cell.len() * 5) % 8 == 0,
    ensures
        r@ == cell_digest(cell@),
        all_fe(r@),
{
    let base = ext_slice_to_base(cell);
    fixed_compression_hash(base.as_slice())
}

/// The demo coefficient in row `row`, column `col` of a profile with `k` columns.
pub open spec fn demo_value(k: int, row: int, col: int) -> Ext {
    let base = 1 + row * k + col;
    Ext { c0: modp(base), c1: modp(base + 17), c2: modp(base + 31), c3: modp(base + 47), c4: modp(base + 61) }
}

/// Deterministic input blobs: `n` rows of `k` coefficients.
pub fn demo_data(profile: ExtProfile) -> (r: Vec<Vec<Ext>>)
    requires
        profile.n * profile.k + 62 <= usize::MAX,
    ensures
        r.len() == profile.n,
        forall|row: int| 0 <= row < profile.n ==> (#[trigger] r@[row]).len() == profile.k,
        forall|row: int, col: int|
            0 <= row < profile.n && 0 <= col < profile.k ==> #[trigger] r@[row]@[col] == demo_value(profile.k as int, row, col),
        forall|row: int| 0 <= row < profile.n ==> all_ext_wf(#[trigger] r@[row]@),
{
    let mut data: Vec<Vec<Ext>> = Vec::new();
    let mut row: usize = 0;
    while row < profile.n
        invariant
            row <= profile.n,
            profile.n * profile.k + 62 <= usize::MAX,
            data.len() == row,
            forall|i: int| 0 <= i < row ==> (#[trigger] data@[i]).len() == profile.k,
            forall|i: int, col: int|
                0 <= i < row && 0 <= col < profile.k ==> #[trigger] data@[i]@[col] == demo_value(profile.k as int, i, col),
            forall|i: int| 0 <= i < row ==> all_ext_wf(#[trigger] data@[i]@),
        decreases profile.n - row,
    {
        let mut blob: Vec<Ext> = Vec::new();
        let mut col: usize = 0;
        proof {
            vstd::arithmetic::mul::lemma_mul_inequality(row as int, (profile.n - 1) as int, profile.k as int);
            vstd::arithmetic::mul::lemma_mul_is_distributive_sub_other_way(profile.k as int, profile.n as int, 1);
        }
        while col < profile.k
            invariant
                col <= profile.k,
                row < profile.n,
                row * profile.k + profile.k + 62 <= usize::MAX,
                blob.len() == col,
                forall|j: int| 0 <= j < col ==> #[trigger] blob@[j] == demo_value(profile.k as int, row as int, j),
                all_ext_wf(blob@),
            decreases profile.k - col,
        {
            let base = 1 + row * profile.k + col;
            let e = Ext {
                c0: f_from_usize(base),
                c1: f_from_usize(base + 17),
                c2: f_from_usize(base + 31),
                c3: f_from_usize(base + 47),
                c4: f_from_usize(base + 61),
            };
            blob.push(e);
            col = col + 1;
        }
        data.push(blob);
        row = row + 1;
    }
    data
}

} // verus!

//! Reed-Solomon encoding of extension-field blobs and erasure decoding from
//! an arbitrary set of known evaluations over the roots-of-unity domain.
use crate::field::{all_ext_wf, all_fe, ext_scale, ext_scale_spec, ext_zero_value, f_mul, fpow, two_adic_generator, Ext, P, TWO_ADICITY};
use crate::layout::p2l;
use crate::merkle::{is_pow2, log2};
use crate::ntt::{dsum, inverse_length, inverse_subgroup_root, is_series_inverse, lemma_dsum_eval, lemma_dsum_pad, lemma_peval_agree, lemma_peval_zero_tail, lemma_range_prod_zero, pad, peval, reversed, subgroup_root};
use crate::poly::{
    fft, ifft, ilog2, invert_series, lemma_small_pow2_len, multiply_polynomials_base, poly_mul,
    root_polynomial, zero_padded, zeros,
};
use crate::profile::ExtProfile;
use vstd::prelude::*;

verus! {

/// Coordinate `d` of every element of `v`.
pub open spec fn coord(v: Seq<Ext>, d: int) -> Seq<u32> {
    v.map_values(|e: Ext| e.coords()[d])
}

/// Coordinate `d` of every element, as a vector.
pub fn ext_coordinate(v: &Vec<Ext>, d: usize) -> (r: Vec<u32>)
    requires
        d < 5,
        all_ext_wf(v@),
    ensures
        r@ == coord(v@, d as int),
        all_fe(r@),
{
    let mut r: Vec<u32> = Vec::new();
    let mut i: usize = 0;
    while i < v.len()
        invariant
            i <= v.len(),
            d < 5,
            all_ext_wf(v@),
            r@ == coord(v@.subrange(0, i as int), d as int),
            all_fe(r@),
        decreases v.len() - i,
    {
        let e = v[i];
        let x = if d == 0 {
            e.c0
        } else if d == 1 {
            e.c1
        } else if d == 2 {
            e.c2
        } else if d == 3 {
            e.c3
        } else {
            e.c4
        };
        proof {
            assert(v@[i as int].wf());
        }
        r.push(x);
        proof {
            assert(coord(v@.subrange(0, i + 1), d as int) =~= coord(v@.subrange(0, i as int), d as int).push(x));
        }
        i = i + 1;
    }
    assert(v@.subrange(0, v.len() as int) =~= v@);
    r
}

/// Reassembles extension elements from their five coordinate vectors.
pub fn ext_from_coordinates(c0: &Vec<u32>, c1: &Vec<u32>, c2: &Vec<u32>, c3: &Vec<u32>, c4: &Vec<u32>) -> (r: Vec<Ext>)
    requires
        c1.len() == c0.len(),
        c2.len() == c0.len(),
        c3.len() == c0.len(),
        c4.len() == c0.len(),
        all_fe(c0@),
        all_fe(c1@),
        all_fe(c2@),
        all_fe(c3@),
        all_fe(c4@),
    ensures
        r.len() == c0.len(),
        coord(r@, 0) == c0@,
        coord(r@, 1) == c1@,
        coord(r@, 2) == c2@,
        coord(r@, 3) == c3@,
        coord(r@, 4) == c4@,
        all_ext_wf(r@),
{
    let mut r: Vec<Ext> = Vec::new();
    let mut i: usize = 0;
    while i < c0.len()
        invariant
            i <= c0.len(),
            c1.len() == c0.len(),
            c2.len() == c0.len(),
            c3.len() == c0.len(),
            c4.len() == c0.len(),
            all_fe(c0@),
            all_fe(c1@),
            all_fe(c2@),
            all_fe(c3@),
            all_fe(c4@),
            r.len() == i,
            forall|j: int| 0 <= j < i ==> #[trigger] r@[j] == (Ext { c0: c0@[j], c1: c1@[j], c2: c2@[j], c3: c3@[j], c4: c4@[j] }),
        decreases c0.len() - i,
    {
        r.push(Ext { c0: c0[i], c1: c1[i], c2: c2[i], c3: c3[i], c4: c4[i] });
        i = i + 1;
    }
    assert(coord(r@, 0) =~= c0@);
    assert(coord(r@, 1) =~= c1@);
    assert(coord(r@, 2) =~= c2@);
    assert(coord(r@, 3) =~= c3@);
    assert(coord(r@, 4) =~= c4@);
    r
}

/// The forward transform applied to an extension vector; the transform is
/// linear over the base field, so it acts on each coordinate separately.
pub fn fft_ext(values: &mut Vec<Ext>)
    requires
        is_pow2(old(values).len() as nat),
        log2(old(values).len() as nat) <= TWO_ADICITY,
        all_ext_wf(old(values)@),
    ensures
        final(values).len() == old(values).len(),
        all_ext_wf(final(values)@),
        forall|d: int, k: int|
            0 <= d < 5 && 0 <= k < old(values).len() ==> #[trigger] coord(final(values)@, d)[k] == dsum(
                coord(old(values)@, d),
                subgroup_root(old(values).len() as nat),
                k as nat,
                old(values).len() as nat,
            ),
{
    let ghost orig = values@;
    let mut x0 = ext_coordinate(values, 0);
    let mut x1 = ext_coordinate(values, 1);
    let mut x2 = ext_coordinate(values, 2);
    let mut x3 = ext_coordinate(values, 3);
    let mut x4 = ext_coordinate(values, 4);
    fft(&mut x0);
    fft(&mut x1);
    fft(&mut x2);
    fft(&mut x3);
    fft(&mut x4);
    *values = ext_from_coordinates(&x0, &x1, &x2, &x3, &x4);
    proof {
        assert forall|d: int, k: int| 0 <= d < 5 && 0 <= k < orig.len() implies #[trigger] coord(values@, d)[k]
            == dsum(coord(orig, d), subgroup_root(orig.len() as nat), k as nat, orig.len() as nat) by {
            if d == 0 {} else if d == 1 {} else if d == 2 {} else if d == 3 {} else {}
        }
    }
}

/// The inverse transform applied to an extension vector, coordinate by coordinate.
pub fn ifft_ext(values: &mut Vec<Ext>)
    requires
        is_pow2(old(values).len() as nat),
        log2(old(values).len() as nat) <= TWO_ADICITY,
        all_ext_wf(old(values)@),
    ensures
        final(values).len() == old(values).len(),
        all_ext_wf(final(values)@),
        forall|d: int, k: int|
            0 <= d < 5 && 0 <= k < old(values).len() ==> #[trigger] coord(final(values)@, d)[k] == (dsum(
                coord(old(values)@, d),
                inverse_subgroup_root(old(values).len() as nat),
                k as nat,
                old(values).len() as nat,
            ) * inverse_length(old(values).len() as nat)) % (P as nat),
        inverse_subgroup_root(old(values).len() as nat) < P,
        (subgroup_root(old(values).len() as nat) * inverse_subgroup_root(old(values).len() as nat)) % (P as nat) == 1,
        ((old(values).len() as nat) * inverse_length(old(values).len() as nat)) % (P as nat) == 1,
{
    let ghost orig = values@;
    let mut x0 = ext_coordinate(values, 0);
    let mut x1 = ext_coordinate(values, 1);
    let mut x2 = ext_coordinate(values, 2);
    let mut x3 = ext_coordinate(values, 3);
    let mut x4 = ext_coordinate(values, 4);
    ifft(&mut x0);
    ifft(&mut x1);
    ifft(&mut x2);
    ifft(&mut x3);
    ifft(&mut x4);
    *values = ext_from_coordinates(&x0, &x1, &x2, &x3, &x4);
    proof {
        assert forall|d: int, k: int| 0 <= d < 5 && 0 <= k < orig.len() implies #[trigger] coord(values@, d)[k]
            == (dsum(coord(orig, d), inverse_subgroup_root(orig.len() as nat), k as nat, orig.len() as nat)
            * inverse_length(orig.len() as nat)) % (P as nat) by {
            if d == 0 {} else if d == 1 {} else if d == 2 {} else if d == 3 {} else {}
        }
    }
}

/// Multiplies an extension-field polynomial by a base-field polynomial,
/// coordinate by coordinate.
pub fn multiply_polynomials_ext_by_base(left: &Vec<Ext>, right: &Vec<u32>) -> (r: Vec<Ext>)
    requires
        all_ext_wf(left@),
        all_fe(right@),
        left.len() + right.len() <= 0x100_0001 || ((left.len() <= 16 || right.len() <= 16) && left.len() + right.len() <= usize::MAX),
    ensures
        left.len() == 0 || right.len() == 0 ==> r.len() == 0,
        left.len() >= 1 && right.len() >= 1 ==> r.len() == left.len() + right.len() - 1,
        left.len() >= 1 && right.len() >= 1 ==> forall|d: int|
            0 <= d < 5 ==> #[trigger] coord(r@, d) == poly_mul(coord(left@, d), right@),
        all_ext_wf(r@),
{
    if left.len() == 0 || right.len() == 0 {
        return Vec::new();
    }
    let x0 = ext_coordinate(left, 0);
    let x1 = ext_coordinate(left, 1);
    let x2 = ext_coordinate(left, 2);
    let x3 = ext_coordinate(left, 3);
    let x4 = ext_coordinate(left, 4);
    let y0 = multiply_polynomials_base(&x0, right);
    let y1 = multiply_polynomials_base(&x1, right);
    let y2 = multiply_polynomials_base(&x2, right);
    let y3 = multiply_polynomials_base(&x3, right);
    let y4 = multiply_polynomials_base(&x4, right);
    let r = ext_from_coordinates(&y0, &y1, &y2, &y3, &y4);
    proof {
        assert forall|d: int| 0 <= d < 5 implies #[trigger] coord(r@, d) == poly_mul(coord(left@, d), right@) by {
            if d == 0 {} else if d == 1 {} else if d == 2 {} else if d == 3 {} else {}
        }
    }
    r
}

/// Indices are distinct and below `m`.
pub open spec fn distinct_below(s: Seq<usize>, m: nat) -> bool {
    &&& forall|i: int| 0 <= i < s.len() ==> #[trigger] s[i] < m
    &&& forall|i: int, j: int| 0 <= i < j < s.len() ==> s[i] != s[j]
}

/// Precomputed erasure-decoding tables for one set of known evaluation indices.
pub struct DecoderTables {
    pub locator_evaluations: Vec<u32>,
    pub reversed_locator_inverse: Vec<u32>,
    pub numerator_max_degree: usize,
}

/// The erasure locator `z` suits the tables for domain `m`, message length
/// `k` and known indices `known`: monic of degree `m - |known|`, vanishing
/// at `ω^i` for every unknown `i`, evaluated over the domain into the
/// table, and with its reversal inverted as a power series to `k` terms.
pub open spec fn locator_fits(z: Seq<u32>, t: DecoderTables, m: nat, k: nat, known: Seq<usize>) -> bool {
    &&& known.len() <= m
    &&& z.len() == m - known.len() + 1
    &&& z[z.len() - 1] == 1
    &&& all_fe(z)
    &&& forall|q: int|
        0 <= q < m ==> #[trigger] t.locator_evaluations@[q] as nat == peval(
            z,
            fpow(subgroup_root(m), q as nat),
            z.len(),
        )
    &&& forall|i: int|
        0 <= i < m && !known.contains(i as usize) ==> #[trigger] peval(z, fpow(subgroup_root(m), i as nat), z.len())
            == 0
    &&& is_series_inverse(reversed(z), t.reversed_locator_inverse@, k)
}

/// The tables are consistent with a domain of size `m`, message length `k`
/// and the known indices `known`.
pub open spec fn tables_wf(t: DecoderTables, m: nat, k: nat, known: Seq<usize>) -> bool {
    &&& t.locator_evaluations.len() == m
    &&& t.reversed_locator_inverse.len() == k
    &&& all_fe(t.locator_evaluations@)
    &&& all_fe(t.reversed_locator_inverse@)
    &&& known.len() <= m
    &&& t.numerator_max_degree + 1 == k + (m - known.len())
    &&& exists|z: Seq<u32>| locator_fits(z, t, m, k, known)
}

/// Number of `true` entries.
pub open spec fn count_true(s: Seq<bool>) -> nat
    decreases s.len(),
{
    if s.len() == 0 {
        0
    } else {
        count_true(s.drop_last()) + if s.last() {
            1nat
        } else {
            0nat
        }
    }
}

pub proof fn lemma_count_update(s: Seq<bool>, i: int)
    requires
        0 <= i < s.len(),
        !s[i],
    ensures
        count_true(s.update(i, true)) == count_true(s) + 1,
    decreases s.len(),
{
    let u = s.update(i, true);
    if i == s.len() - 1 {
        assert(u.drop_last() =~= s.drop_last());
    } else {
        assert(u.drop_last() =~= s.drop_last().update(i, true));
        lemma_count_update(s.drop_last(), i);
    }
}

pub proof fn lemma_count_all_false(s: Seq<bool>)
    requires
        forall|j: int| 0 <= j < s.len() ==> !#[trigger] s[j],
    ensures
        count_true(s) == 0,
    decreases s.len(),
{
    if s.len() > 0 {
        lemma_count_all_false(s.drop_last());
    }
}

proof fn lemma_count_prefix(s: Seq<bool>, i: int)
    requires
        0 <= i < s.len(),
    ensures
        count_true(s.subrange(0, i + 1)) == count_true(s.subrange(0, i)) + if s[i] {
            1nat
        } else {
            0nat
        },
{
    assert(s.subrange(0, i + 1).drop_last() =~= s.subrange(0, i));
}

pub proof fn lemma_count_le(s: Seq<bool>)
    ensures
        count_true(s) <= s.len(),
    decreases s.len(),
{
    if s.len() > 0 {
        lemma_count_le(s.drop_last());
    }
}

/// Checks that `known_indices` are distinct, below `m`, and at least `k` of
/// them; returns the flags of known positions.
pub fn known_flags(m: usize, k: usize, known_indices: &[usize]) -> (r: Option<Vec<bool>>)
    ensures
        r is Some <==> known_indices.len() >= k && distinct_below(known_indices@, m as nat),
        r matches Some(flags) ==> flags.len() == m && count_true(flags@) == known_indices.len() && forall|i: int|
            0 <= i < m ==> (#[trigger] flags@[i] <==> known_indices@.contains(i as usize)),
{
    if known_indices.len() < k {
        return None;
    }
    let mut known: Vec<bool> = Vec::new();
    let mut i: usize = 0;
    while i < m
        invariant
            i <= m,
            known.len() == i,
            forall|j: int| 0 <= j < i ==> !#[trigger] known@[j],
        decreases m - i,
    {
        known.push(false);
        i = i + 1;
    }
    proof {
        lemma_count_all_false(known@);
    }
    let mut t: usize = 0;
    while t < known_indices.len()
        invariant
            t <= known_indices.len(),
            known.len() == m,
            known_indices.len() >= k,
            count_true(known@) == t,
            distinct_below(known_indices@.subrange(0, t as int), m as nat),
            forall|i: int| 0 <= i < m ==> (#[trigger] known@[i] <==> known_indices@.subrange(0, t as int).contains(i as usize)),
        decreases known_indices.len() - t,
    {
        let index = known_indices[t];
        if index >= m {
            proof {
                assert(known_indices@[t as int] >= m);
            }
            return None;
        }
        if known[index] {
            proof {
                let j = known_indices@.subrange(0, t as int).index_of(index);
                assert(known_indices@[j] == known_indices@[t as int]);
            }
            return None;
        }
        proof {
            lemma_count_update(known@, index as int);
        }
        known.set(index, true);
        proof {
            let pre = known_indices@.subrange(0, t as int);
            let post = known_indices@.subrange(0, t + 1);
            assert(post =~= pre.push(index));
            assert forall|i: int| 0 <= i < m implies (#[trigger] known@[i] <==> post.contains(i as usize)) by {
                if i == index {
                    assert(post[t as int] == index);
                } else {
                    if post.contains(i as usize) {
                        let j = post.index_of(i as usize);
                        assert(pre[j] == i);
                    }
                }
            }
        }
        t = t + 1;
    }
    assert(known_indices@.subrange(0, known_indices.len() as int) =~= known_indices@);
    Some(known)
}

/// Precomputes the erasure locator over the roots-of-unity domain of size `m`:
/// its evaluations, and the series inverse of its reversal to `k` terms.
pub fn decoder_tables(m: usize, k: usize, known_indices: &[usize]) -> (r: Option<DecoderTables>)
    requires
        is_pow2(m as nat),
        log2(m as nat) <= TWO_ADICITY,
        1 <= k,
        m == 2 * k,
    ensures
        !(known_indices.len() >= k && distinct_below(known_indices@, m as nat)) ==> r is None,
        known_indices.len() >= k && distinct_below(known_indices@, m as nat) ==> r is Some,
        r matches Some(t) ==> known_indices.len() >= k && distinct_below(known_indices@, m as nat) && tables_wf(
            t,
            m as nat,
            k as nat,
            known_indices@,
        ),
{
    let flags = match known_flags(m, k, known_indices) {
        Some(f) => f,
        None => return None,
    };
    proof {
        lemma_small_pow2_len(m as nat);
    }
    let bits = ilog2(m);
    let omega = two_adic_generator(bits);
    let ghost w = subgroup_root(m as nat);
    let mut point: u32 = 1;
    let mut erased_points: Vec<u32> = Vec::new();
    let mut i: usize = 0;
    while i < m
        invariant
            i <= m,
            flags.len() == m,
            omega < P,
            omega as nat == w,
            point < P,
            point as nat == fpow(w, i as nat),
            all_fe(erased_points@),
            erased_points.len() + count_true(flags@.subrange(0, i as int)) == i,
            forall|j: int| 0 <= j < i && !flags@[j] ==> exists|t: int|
                0 <= t < erased_points.len() && #[trigger] erased_points@[t] as nat == fpow(w, j as nat),
        decreases m - i,
    {
        proof {
            lemma_count_prefix(flags@, i as int);
        }
        let ghost before = erased_points@;
        if !flags[i] {
            erased_points.push(point);
        }
        proof {
            assert forall|j: int| 0 <= j < i + 1 && !flags@[j] implies exists|t: int|
                0 <= t < erased_points.len() && #[trigger] erased_points@[t] as nat == fpow(w, j as nat) by {
                if j == i {
                    let t = erased_points.len() - 1;
                    assert(erased_points@[t] as nat == fpow(w, j as nat));
                } else {
                    let t = choose|t: int| 0 <= t < before.len() && #[trigger] before[t] as nat == fpow(w, j as nat);
                    assert(erased_points@[t] == before[t]);
                }
            }
        }
        let next_point = f_mul(point, omega);
        proof {
            assert(fpow(w, (i + 1) as nat) == (w * fpow(w, i as nat)) % (P as nat));
            assert(point * omega == omega * point);
        }
        point = next_point;
        i = i + 1;
    }
    proof {
        assert(flags@.subrange(0, m as int) =~= flags@);
        lemma_count_le(flags@);
    }
    let locator = root_polynomial(&erased_points);
    let mut locator_evaluations = zero_padded(&locator, m);
    let ghost e = erased_points.len();
    proof {
        assert(locator_evaluations@ =~= pad(locator@, m as nat));
    }
    fft(&mut locator_evaluations);
    let mut reversed_locator: Vec<u32> = Vec::new();
    let mut j: usize = locator.len();
    while j > 0
        invariant
            j <= locator.len(),
            reversed_locator.len() == locator.len() - j,
            all_fe(locator@),
            all_fe(reversed_locator@),
            forall|u: int| 0 <= u < reversed_locator.len() ==> #[trigger] reversed_locator@[u] == locator@[locator.len() - 1 - u],
        decreases j,
    {
        j = j - 1;
        reversed_locator.push(locator[j]);
    }
    proof {
        assert(reversed_locator@ =~= reversed(locator@));
    }
    if reversed_locator[0] == 0 {
        return None;
    }
    let reversed_locator_inverse = invert_series(&reversed_locator, k);
    let tables = DecoderTables {
        locator_evaluations,
        reversed_locator_inverse,
        numerator_max_degree: k + erased_points.len() - 1,
    };
    proof {
        let z = locator@;
        assert(known_indices.len() == count_true(flags@));
        assert forall|q: int| 0 <= q < m implies #[trigger] tables.locator_evaluations@[q] as nat == peval(
            z,
            fpow(w, q as nat),
            z.len(),
        ) by {
            lemma_dsum_pad(z, w, q as nat, m as nat);
        }
        assert forall|ii: int| 0 <= ii < m && !known_indices@.contains(ii as usize) implies #[trigger] peval(
            z,
            fpow(w, ii as nat),
            z.len(),
        ) == 0 by {
            assert(!flags@[ii]);
            let t = choose|t: int| 0 <= t < erased_points.len() && #[trigger] erased_points@[t] as nat == fpow(w, ii as nat);
            crate::ntt::lemma_fpow_range(w, ii as nat);
            lemma_range_prod_zero(erased_points@, fpow(w, ii as nat), 0, e as nat, t as nat);
        }
        assert(locator_fits(z, tables, m as nat, k as nat, known_indices@));
    }
    Some(tables)
}


/// A vector of `n` zero extension elements.
pub fn ext_zeros(n: usize) -> (r: Vec<Ext>)
    ensures
        r.len() == n,
        forall|i: int| 0 <= i < n ==> #[trigger] r@[i] == crate::field::ext_zero(),
        all_ext_wf(r@),
{
    let mut r: Vec<Ext> = Vec::new();
    let mut i: usize = 0;
    while i < n
        invariant
            i <= n,
            r.len() == i,
            forall|j: int| 0 <= j < i ==> #[trigger] r@[j] == crate::field::ext_zero(),
        decreases n - i,
    {
        r.push(ext_zero_value());
        i = i + 1;
    }
    r
}

/// `values[t]` is the codeword entry of `blob` at transform position
/// `known[t]`, over the subgroup of order `m`.
pub open spec fn agrees_at(blob: Seq<Ext>, m: nat, known: Seq<usize>, values: Seq<Ext>) -> bool {
    &&& values.len() == known.len()
    &&& forall|t: int, d: int|
        0 <= t < known.len() && 0 <= d < 5 ==> #[trigger] values[t].coords()[d] == peval(
            coord(blob, d),
            fpow(subgroup_root(m), known[t] as nat),
            blob.len(),
        )
}

/// The numerator before interpolation: at each known index the value
/// times the locator's evaluation, zero elsewhere.
pub open spec fn numerator_ok(nv: Seq<Ext>, m: nat, known: Seq<usize>, values: Seq<Ext>, evals: Seq<u32>, upto: int) -> bool {
    &&& nv.len() == m
    &&& forall|t: int| 0 <= t < upto ==> #[trigger] nv[known[t] as int] == ext_scale_spec(values[t], evals[known[t] as int])
    &&& forall|i: int| 0 <= i < m && !known.subrange(0, upto).contains(i as usize) ==> #[trigger] nv[i] == crate::field::ext_zero()
}

/// The numerator the decoder interpolates: at each known index the value
/// given for it times the locator's evaluation there, zero elsewhere.
pub open spec fn numerator_of(m: nat, known: Seq<usize>, values: Seq<Ext>, evals: Seq<u32>) -> Seq<Ext> {
    Seq::new(
        m,
        |i: int|
            if known.contains(i as usize) {
                ext_scale_spec(values[known.index_of(i as usize)], evals[i])
            } else {
                crate::field::ext_zero()
            },
    )
}

/// One coordinate of the decoder's output from the same coordinate `nv` of
/// the numerator: interpolate over the domain of size `m`, read the `k`
/// coefficients from `dmax` downwards, multiply by the series inverse `inv`
/// and read the first `k` coefficients of the product backwards.
pub open spec fn decode_coord(nv: Seq<u32>, m: nat, k: nat, dmax: int, inv: Seq<u32>) -> Seq<u32> {
    let np = Seq::new(
        m,
        |s: int| ((dsum(nv, inverse_subgroup_root(m), s as nat, m) * inverse_length(m)) % (P as nat)) as u32,
    );
    let rr = Seq::new(k, |o: int| np[dmax - o]);
    let q = poly_mul(rr, inv);
    Seq::new(k, |j: int| q[k - 1 - j])
}

/// What the decoder returns for `values` at the `known` indices, whatever
/// the values are.
pub open spec fn decoded(m: nat, k: nat, known: Seq<usize>, t: DecoderTables, values: Seq<Ext>) -> Seq<Ext> {
    let nv = numerator_of(m, known, values, t.locator_evaluations@);
    let inv = t.reversed_locator_inverse@;
    let dmax = t.numerator_max_degree as int;
    Seq::new(
        k,
        |j: int|
            Ext {
                c0: decode_coord(coord(nv, 0), m, k, dmax, inv)[j],
                c1: decode_coord(coord(nv, 1), m, k, dmax, inv)[j],
                c2: decode_coord(coord(nv, 2), m, k, dmax, inv)[j],
                c3: decode_coord(coord(nv, 3), m, k, dmax, inv)[j],
                c4: decode_coord(coord(nv, 4), m, k, dmax, inv)[j],
            },
    )
}

/// The decoder's steps compute `decoded`.
proof fn lemma_decode_exact(
    m: nat,
    k: nat,
    known: Seq<usize>,
    t: DecoderTables,
    values: Seq<Ext>,
    nv: Seq<Ext>,
    np: Seq<Ext>,
    rr: Seq<Ext>,
    full: Seq<Ext>,
    out: Seq<Ext>,
)
    requires
        k >= 1,
        m == 2 * k,
        m <= usize::MAX,
        distinct_below(known, m),
        numerator_ok(nv, m, known, values, t.locator_evaluations@, known.len() as int),
        np.len() == m,
        forall|d: int, s: int|
            0 <= d < 5 && 0 <= s < m ==> #[trigger] coord(np, d)[s] == (dsum(
                coord(nv, d),
                inverse_subgroup_root(m),
                s as nat,
                m,
            ) * inverse_length(m)) % (P as nat),
        rr.len() == k,
        t.numerator_max_degree + 1 <= m,
        t.numerator_max_degree + 1 >= k,
        forall|o: int| 0 <= o < k ==> #[trigger] rr[o] == np[t.numerator_max_degree - o],
        forall|d: int| 0 <= d < 5 ==> #[trigger] coord(full, d) == poly_mul(coord(rr, d), t.reversed_locator_inverse@),
        full.len() >= k,
        out.len() == k,
        forall|u: int| 0 <= u < k ==> #[trigger] out[u] == full[k - 1 - u],
    ensures
        out == decoded(m, k, known, t, values),
{
    let spec_nv = numerator_of(m, known, values, t.locator_evaluations@);
    assert(known.subrange(0, known.len() as int) =~= known);
    assert forall|i: int| 0 <= i < m implies #[trigger] nv[i] == spec_nv[i] by {
        if known.contains(i as usize) {
            let idx = known.index_of(i as usize);
            assert(known[idx] == i as usize);
            assert(i as usize == i);
        }
    }
    assert(nv =~= spec_nv);
    let inv = t.reversed_locator_inverse@;
    let dmax = t.numerator_max_degree as int;
    assert forall|d: int, j: int| 0 <= d < 5 && 0 <= j < k implies #[trigger] out[j].coords()[d] == decode_coord(
        coord(nv, d),
        m,
        k,
        dmax,
        inv,
    )[j] by {
        let npd = Seq::new(
            m,
            |s: int| ((dsum(coord(nv, d), inverse_subgroup_root(m), s as nat, m) * inverse_length(m)) % (P as nat)) as u32,
        );
        let rrs = Seq::new(k, |o: int| npd[dmax - o]);
        assert forall|o: int| 0 <= o < k implies #[trigger] coord(rr, d)[o] == rrs[o] by {
            assert(coord(np, d)[dmax - o] == npd[dmax - o]);
        }
        assert(coord(rr, d) =~= rrs);
        assert(out[j] == full[k - 1 - j]);
        assert(coord(full, d)[k - 1 - j] == full[k - 1 - j].coords()[d]);
    }
    assert forall|j: int| 0 <= j < k implies #[trigger] out[j] == decoded(m, k, known, t, values)[j] by {
        assert(out[j].coords()[0] == decode_coord(coord(nv, 0), m, k, dmax, inv)[j]);
        assert(out[j].coords()[1] == decode_coord(coord(nv, 1), m, k, dmax, inv)[j]);
        assert(out[j].coords()[2] == decode_coord(coord(nv, 2), m, k, dmax, inv)[j]);
        assert(out[j].coords()[3] == decode_coord(coord(nv, 3), m, k, dmax, inv)[j]);
        assert(out[j].coords()[4] == decode_coord(coord(nv, 4), m, k, dmax, inv)[j]);
    }
    assert(out =~= decoded(m, k, known, t, values));
}

/// Decoding gives back any blob whose codeword agrees with the values.
proof fn lemma_decode_blob(
    m: nat,
    k: nat,
    known: Seq<usize>,
    t: DecoderTables,
    values: Seq<Ext>,
    nv: Seq<Ext>,
    np: Seq<Ext>,
    rr: Seq<Ext>,
    out: Seq<Ext>,
    blob: Seq<Ext>,
)
    requires
        is_pow2(m),
        log2(m) <= 24,
        1 <= k,
        m == 2 * k,
        known.len() >= k,
        distinct_below(known, m),
        tables_wf(t, m, k, known),
        numerator_ok(nv, m, known, values, t.locator_evaluations@, known.len() as int),
        np.len() == m,
        forall|d: int, s: int|
            0 <= d < 5 && 0 <= s < m ==> #[trigger] coord(np, d)[s] == (dsum(
                coord(nv, d),
                inverse_subgroup_root(m),
                s as nat,
                m,
            ) * inverse_length(m)) % (P as nat),
        inverse_subgroup_root(m) < P,
        (subgroup_root(m) * inverse_subgroup_root(m)) % (P as nat) == 1,
        (m * inverse_length(m)) % (P as nat) == 1,
        rr.len() == k,
        forall|o: int| 0 <= o < k ==> #[trigger] rr[o] == np[t.numerator_max_degree - o],
        out.len() == k,
        forall|d: int, j: int|
            0 <= d < 5 && 0 <= j < k ==> #[trigger] coord(out, d)[j] == poly_mul(
                coord(rr, d),
                t.reversed_locator_inverse@,
            )[k - 1 - j],
        blob.len() == k,
        all_ext_wf(blob),
        agrees_at(blob, m, known, values),
    ensures
        out == blob,
{
    let z = choose|z: Seq<u32>| locator_fits(z, t, m, k, known);
    let w = subgroup_root(m);
    crate::ntt::lemma_subgroup_root(m);
    assert(known.subrange(0, known.len() as int) =~= known);
    assert forall|d: int| 0 <= d < 5 implies #[trigger] coord(out, d) == coord(blob, d) by {
        let f = coord(blob, d);
        assert(all_fe(f)) by {
            assert forall|i: int| 0 <= i < f.len() implies #[trigger] f[i] < P by {
                assert(blob[i].wf());
            }
        }
        let nvd = coord(nv, d);
        assert forall|i: int| 0 <= i < m implies #[trigger] nvd[i] as nat == (peval(f, fpow(w, i as nat), f.len())
            * peval(z, fpow(w, i as nat), z.len())) % (P as nat) by {
            if known.contains(i as usize) {
                let tt = known.index_of(i as usize);
                assert(known[tt] == i);
                assert(nv[i] == ext_scale_spec(values[tt], t.locator_evaluations@[i]));
                assert(values[tt].coords()[d] == peval(f, fpow(w, i as nat), f.len()));
                assert(t.locator_evaluations@[i] as nat == peval(z, fpow(w, i as nat), z.len()));
                crate::ntt::lemma_peval_range(f, fpow(w, i as nat), f.len());
                crate::ntt::lemma_peval_range(z, fpow(w, i as nat), z.len());
            } else {
                assert(nv[i] == crate::field::ext_zero());
                assert(peval(z, fpow(w, i as nat), z.len()) == 0);
                assert(peval(f, fpow(w, i as nat), f.len()) * 0 == 0);
            }
        }
        let npd = coord(np, d);
        let rrd = coord(rr, d);
        assert forall|o: int| 0 <= o < k implies #[trigger] rrd[o] == npd[k + z.len() - 2 - o] by {}
        crate::ntt::lemma_decode_coord(
            f,
            z,
            nvd,
            npd,
            rrd,
            t.reversed_locator_inverse@,
            coord(out, d),
            m,
            w,
            inverse_subgroup_root(m),
            inverse_length(m),
        );
    }
    assert forall|i: int| 0 <= i < k implies out[i] == blob[i] by {
        assert(coord(out, 0)[i] == coord(blob, 0)[i]);
        assert(coord(out, 1)[i] == coord(blob, 1)[i]);
        assert(coord(out, 2)[i] == coord(blob, 2)[i]);
        assert(coord(out, 3)[i] == coord(blob, 3)[i]);
        assert(coord(out, 4)[i] == coord(blob, 4)[i]);
    }
    assert(out =~= blob);
}

/// Recovers `k` coefficients from evaluations at the known indices: the
/// evaluations times the locator are interpolated, and the reversed
/// numerator is divided by the reversed locator as a power series.  The
/// result is the blob whose codeword takes the given values there.
pub fn decode_blob(
    m: usize,
    k: usize,
    known_indices: &Vec<usize>,
    tables: &DecoderTables,
    values: &[Ext],
) -> (r: Option<Vec<Ext>>)
    requires
        is_pow2(m as nat),
        log2(m as nat) <= TWO_ADICITY,
        1 <= k,
        m == 2 * k,
        known_indices.len() >= k,
        distinct_below(known_indices@, m as nat),
        tables_wf(*tables, m as nat, k as nat, known_indices@),
        all_ext_wf(values@),
    ensures
        r is Some <==> values.len() == known_indices.len(),
        r matches Some(b) ==> b.len() == k && all_ext_wf(b@),
        r matches Some(b) ==> b@ == decoded(m as nat, k as nat, known_indices@, *tables, values@),
        r matches Some(b) ==> forall|blob: Seq<Ext>|
            blob.len() == k && all_ext_wf(blob) && #[trigger] agrees_at(blob, m as nat, known_indices@, values@)
                ==> b@ == blob,
{
    if values.len() != known_indices.len() {
        return None;
    }
    proof {
        lemma_small_pow2_len(m as nat);
    }
    let mut numerator = ext_zeros(m);
    let mut t: usize = 0;
    while t < known_indices.len()
        invariant
            t <= known_indices.len(),
            values.len() == known_indices.len(),
            numerator.len() == m,
            all_ext_wf(numerator@),
            all_ext_wf(values@),
            distinct_below(known_indices@, m as nat),
            tables.locator_evaluations.len() == m,
            all_fe(tables.locator_evaluations@),
            numerator_ok(numerator@, m as nat, known_indices@, values@, tables.locator_evaluations@, t as int),
        decreases known_indices.len() - t,
    {
        let index = known_indices[t];
        let v = ext_scale(values[t], tables.locator_evaluations[index]);
        let ghost before = numerator@;
        numerator.set(index, v);
        proof {
            let kn = known_indices@;
            assert forall|t2: int| 0 <= t2 < t + 1 implies #[trigger] numerator@[kn[t2] as int] == ext_scale_spec(
                values@[t2],
                tables.locator_evaluations@[kn[t2] as int],
            ) by {
                if t2 < t {
                    assert(kn[t2] != kn[t as int]);
                }
            }
            assert forall|i: int| 0 <= i < m && !kn.subrange(0, t + 1).contains(i as usize) implies #[trigger] numerator@[i]
                == crate::field::ext_zero() by {
                assert(kn.subrange(0, t + 1)[t as int] == kn[t as int]);
                assert(i != index);
                if kn.subrange(0, t as int).contains(i as usize) {
                    let j = kn.subrange(0, t as int).index_of(i as usize);
                    assert(kn.subrange(0, t + 1)[j] == i);
                }
            }
        }
        t = t + 1;
    }
    let ghost nv = numerator@;
    ifft_ext(&mut numerator);
    let max_degree = tables.numerator_max_degree;
    let mut reversed_numerator: Vec<Ext> = Vec::new();
    let mut offset: usize = 0;
    while offset < k
        invariant
            offset <= k,
            numerator.len() == m,
            m == 2 * k,
            all_ext_wf(numerator@),
            all_ext_wf(reversed_numerator@),
            reversed_numerator.len() == offset,
            max_degree + 1 <= m,
            max_degree + 1 >= k,
            forall|o: int| 0 <= o < offset ==> #[trigger] reversed_numerator@[o] == numerator@[max_degree - o],
        decreases k - offset,
    {
        reversed_numerator.push(numerator[max_degree - offset]);
        offset = offset + 1;
    }
    let mut reversed_coefficients = multiply_polynomials_ext_by_base(&reversed_numerator, &tables.reversed_locator_inverse);
    let ghost full = reversed_coefficients@;
    reversed_coefficients.truncate(k);
    let mut coefficients: Vec<Ext> = Vec::new();
    let mut j: usize = k;
    while j > 0
        invariant
            j <= k,
            reversed_coefficients.len() == k,
            reversed_coefficients@ == full.subrange(0, k as int),
            all_ext_wf(reversed_coefficients@),
            all_ext_wf(coefficients@),
            coefficients.len() == k - j,
            forall|u: int| 0 <= u < k - j ==> #[trigger] coefficients@[u] == reversed_coefficients@[k - 1 - u],
        decreases j,
    {
        j = j - 1;
        coefficients.push(reversed_coefficients[j]);
    }
    proof {
        assert forall|blob: Seq<Ext>|
            blob.len() == k && all_ext_wf(blob) && #[trigger] agrees_at(blob, m as nat, known_indices@, values@) implies coefficients@
            == blob by {
            assert forall|d: int, jj: int| 0 <= d < 5 && 0 <= jj < k implies #[trigger] coord(coefficients@, d)[jj] == poly_mul(
                coord(reversed_numerator@, d),
                tables.reversed_locator_inverse@,
            )[k - 1 - jj] by {
                assert(coord(full, d) == poly_mul(coord(reversed_numerator@, d), tables.reversed_locator_inverse@));
                assert(coefficients@[jj] == full[k - 1 - jj]);
            }
            lemma_decode_blob(
                m as nat,
                k as nat,
                known_indices@,
                *tables,
                values@,
                nv,
                numerator@,
                reversed_numerator@,
                coefficients@,
                blob,
            );
        }
        lemma_decode_exact(
            m as nat,
            k as nat,
            known_indices@,
            *tables,
            values@,
            nv,
            numerator@,
            reversed_numerator@,
            full,
            coefficients@,
        );
    }
    Some(coefficients)
}

/// `r` is the Reed-Solomon codeword of `blob` over the subgroup of order
/// `m`: entry `q` is the blob's polynomial evaluated at `ω_m^q`, coordinate
/// by coordinate.
pub open spec fn is_rs_codeword(blob: Seq<Ext>, m: nat, r: Seq<Ext>) -> bool {
    &&& r.len() == m
    &&& forall|q: int, d: int|
        0 <= q < m && 0 <= d < 5 ==> #[trigger] r[q].coords()[d] == peval(
            coord(blob, d),
            fpow(subgroup_root(m), q as nat),
            blob.len(),
        )
}

/// `r` is the Reed-Solomon codeword of `blob` over the subgroup of order
/// `m = 2k`, in physical order: entry `j` holds the codeword entry at
/// transform position `p2l(k, j)`.
pub open spec fn is_physical_rs_codeword(blob: Seq<Ext>, k: int, m: nat, r: Seq<Ext>) -> bool {
    &&& r.len() == m
    &&& forall|j: int, d: int|
        0 <= j < m && 0 <= d < 5 ==> #[trigger] r[j].coords()[d] == peval(
            coord(blob, d),
            fpow(subgroup_root(m), p2l(k, j) as nat),
            blob.len(),
        )
}

/// Reed-Solomon encoding of `k` coefficients at rate one half: zero-padding to
/// `m` and transforming; the result is in logical (transform) order.
pub fn encode_logical(m: usize, k: usize, blob: &Vec<Ext>) -> (r: Vec<Ext>)
    requires
        is_pow2(m as nat),
        log2(m as nat) <= TWO_ADICITY,
        blob.len() == k,
        k <= m,
        all_ext_wf(blob@),
    ensures
        is_rs_codeword(blob@, m as nat, r@),
        all_ext_wf(r@),
{
    let mut codeword = ext_zeros(m);
    let mut i: usize = 0;
    while i < k
        invariant
            i <= k,
            k <= m,
            blob.len() == k,
            codeword.len() == m,
            all_ext_wf(codeword@),
            all_ext_wf(blob@),
            forall|j: int| 0 <= j < i ==> #[trigger] codeword@[j] == blob@[j],
            forall|j: int| i <= j < m ==> #[trigger] codeword@[j] == crate::field::ext_zero(),
        decreases k - i,
    {
        codeword.set(i, blob[i]);
        i = i + 1;
    }
    proof {
        lemma_small_pow2_len(m as nat);
    }
    let ghost padded = codeword@;
    fft_ext(&mut codeword);
    proof {
        assert forall|q: int, d: int| 0 <= q < m && 0 <= d < 5 implies #[trigger] codeword@[q].coords()[d]
            == peval(coord(blob@, d), fpow(subgroup_root(m as nat), q as nat), blob@.len()) by {
            let w = subgroup_root(m as nat);
            assert(codeword@[q].coords()[d] == coord(codeword@, d)[q]);
            lemma_dsum_eval(coord(padded, d), w, q as nat, m as nat);
            assert forall|t: int| k <= t < m implies coord(padded, d)[t] == 0 by {
                assert(padded[t] == crate::field::ext_zero());
            }
            lemma_peval_zero_tail(coord(padded, d), fpow(w, q as nat), k as nat, m as nat);
            lemma_peval_agree(coord(padded, d), coord(blob@, d), fpow(w, q as nat), k as nat);
        }
    }
    codeword
}

} // verus!

verus! {

/// The profile parameters that the transform-based codec needs: a
/// power-of-two domain of size `m = 2k` inside the two-adic subgroup.
pub open spec fn codec_ok(profile: ExtProfile) -> bool {
    &&& is_pow2(profile.m as nat)
    &&& log2(profile.m as nat) <= TWO_ADICITY
    &&& 1 <= profile.k
    &&& profile.m == 2 * profile.k
}

/// Erasure decoder for one set of known transform-domain indices.
pub struct ExtErasureDecoder {
    profile: ExtProfile,
    known_indices: Vec<usize>,
    tables: DecoderTables,
}

impl ExtErasureDecoder {
    /// The decoder's tables are consistent with its profile and indices.
    pub closed spec fn wf(self) -> bool {
        &&& codec_ok(self.profile)
        &&& self.known_indices.len() >= self.profile.k
        &&& distinct_below(self.known_indices@, self.profile.m as nat)
        &&& tables_wf(self.tables, self.profile.m as nat, self.profile.k as nat, self.known_indices@)
    }

    /// The known indices the decoder was built for.
    pub closed spec fn known(self) -> Seq<usize> {
        self.known_indices@
    }

    /// The profile the decoder was built for.
    pub closed spec fn profile_of(self) -> ExtProfile {
        self.profile
    }

    /// The locator tables the decoder precomputed.
    pub closed spec fn tables_of(self) -> DecoderTables {
        self.tables
    }

    /// Precomputes the erasure locator for the known indices.  `None` exactly
    /// when there are fewer than `k` indices, or an index is out of range or
    /// repeated.
    pub fn new(profile: ExtProfile, known_indices: &[usize]) -> (r: Option<ExtErasureDecoder>)
        requires
            codec_ok(profile),
        ensures
            r is Some <==> known_indices.len() >= profile.k && distinct_below(known_indices@, profile.m as nat),
            r matches Some(d) ==> d.wf() && d.known() == known_indices@ && d.profile_of() == profile,
            r matches Some(d) ==> tables_wf(d.tables_of(), profile.m as nat, profile.k as nat, known_indices@),
    {
        match decoder_tables(profile.m, profile.k, known_indices) {
            None => None,
            Some(tables) => {
                let mut known: Vec<usize> = Vec::new();
                let mut i: usize = 0;
                while i < known_indices.len()
                    invariant
                        i <= known_indices.len(),
                        known@ == known_indices@.subrange(0, i as int),
                    decreases known_indices.len() - i,
                {
                    known.push(known_indices[i]);
                    i = i + 1;
                }
                assert(known@ =~= known_indices@);
                Some(ExtErasureDecoder { profile, known_indices: known, tables })
            },
        }
    }

    /// Recovers the `k` coefficients from the values at the known indices,
    /// given in the order of the indices; `None` when the number of values
    /// differs from the number of known indices.  The result is the blob
    /// whose codeword takes those values at those indices.
    pub fn reconstruct_blob(&self, values: &[Ext]) -> (r: Option<Vec<Ext>>)
        requires
            self.wf(),
            all_ext_wf(values@),
        ensures
            r is Some <==> values.len() == self.known().len(),
            r matches Some(b) ==> b.len() == self.profile_of().k && all_ext_wf(b@),
            r matches Some(b) ==> b@ == decoded(
                self.profile_of().m as nat,
                self.profile_of().k as nat,
                self.known(),
                self.tables_of(),
                values@,
            ),
            r matches Some(b) ==> forall|blob: Seq<Ext>|
                blob.len() == self.profile_of().k && all_ext_wf(blob) && #[trigger] agrees_at(
                    blob,
                    self.profile_of().m as nat,
                    self.known(),
                    values@,
                ) ==> b@ == blob,
    {
        decode_blob(self.profile.m, self.profile.k, &self.known_indices, &self.tables, values)
    }
}

} // verus!

//! The public Reed-Solomon check vector: for a challenge `p` off the
//! evaluation domain, the barycentric weights of the systematic (even) and
//! parity (odd) halves of the domain at `p` and at `p / omega`.
use crate::codec::codec_ok;
use crate::field::{
    all_ext_wf, base_inverse, ext_base, ext_exp, ext_from_base, ext_mul, ext_mul_spec, ext_neg, ext_of_coords,
    ext_checked_inverse, ext_inverse, ext_one, ext_one_value, ext_pow, ext_scale, ext_scale_spec, ext_sub, ext_sub_spec, ext_zero,
    f_from_usize, inverse, f_mul, fpow, is_ext_inverse, modp, two_adic_generator, two_adic_generators, Ext, P,
};
use crate::ext_ring::{lemma_ext_mul_assoc, lemma_ext_mul_comm};
use crate::merkle::log2;
use crate::poly::{ilog2, lemma_generators_nonzero, lemma_small_pow2_len};
use crate::profile::ExtProfile;
use vstd::prelude::*;

verus! {

/// Product of the first `i` elements, accumulated left to right.
pub open spec fn prefix_prod(v: Seq<Ext>, i: nat) -> Ext
    decreases i,
{
    if i == 0 {
        ext_one()
    } else {
        ext_mul_spec(prefix_prod(v, (i - 1) as nat), v[i - 1])
    }
}

/// The inverse of the full product times the elements from index `j` on,
/// accumulated from the end.
pub open spec fn suffix_inv(v: Seq<Ext>, j: nat) -> Ext
    decreases v.len() - j,
{
    if j >= v.len() {
        ext_inverse(prefix_prod(v, v.len()))
    } else {
        ext_mul_spec(suffix_inv(v, j + 1), v[j as int])
    }
}

/// What batch inversion leaves in place of element `i`: the product of the
/// other elements times the inverse of the full product.
pub open spec fn batch_inverse_of(v: Seq<Ext>) -> Seq<Ext> {
    Seq::new(v.len(), |i: int| ext_mul_spec(suffix_inv(v, (i + 1) as nat), prefix_prod(v, i as nat)))
}

/// The inverse of the product from index `j` on, times the product of the
/// elements before `j`, is one.
proof fn lemma_suffix_times_prefix(v: Seq<Ext>, j: nat)
    requires
        j <= v.len(),
        is_ext_inverse(prefix_prod(v, v.len()), ext_inverse(prefix_prod(v, v.len()))),
    ensures
        ext_mul_spec(suffix_inv(v, j), prefix_prod(v, j)) == ext_one(),
    decreases v.len() - j,
{
    if j == v.len() {
        lemma_ext_mul_comm(suffix_inv(v, j), prefix_prod(v, j));
    } else {
        lemma_suffix_times_prefix(v, j + 1);
        lemma_ext_mul_assoc(suffix_inv(v, j + 1), v[j as int], prefix_prod(v, j));
        lemma_ext_mul_comm(v[j as int], prefix_prod(v, j));
    }
}

/// Each entry of the batch inverse times the element it replaces is one,
/// when the product of all elements is invertible.
pub proof fn lemma_batch_inverse(v: Seq<Ext>, i: int)
    requires
        0 <= i < v.len(),
        is_ext_inverse(prefix_prod(v, v.len()), ext_inverse(prefix_prod(v, v.len()))),
    ensures
        ext_mul_spec(batch_inverse_of(v)[i], v[i]) == ext_one(),
{
    lemma_suffix_times_prefix(v, (i + 1) as nat);
    lemma_ext_mul_assoc(suffix_inv(v, (i + 1) as nat), prefix_prod(v, i as nat), v[i]);
}

/// Inverts every element with one inversion of the product.  Returns
/// `false`, leaving the values unchanged, when the product is zero.
pub fn batch_invert(values: &mut Vec<Ext>) -> (ok: bool)
    requires
        all_ext_wf(old(values)@),
    ensures
        ok == (prefix_prod(old(values)@, old(values)@.len()) != ext_zero()),
        ok ==> final(values)@ == batch_inverse_of(old(values)@),
        ok ==> forall|i: int| 0 <= i < old(values).len() ==> ext_mul_spec(#[trigger] final(values)@[i], old(values)@[i]) == ext_one(),
        !ok ==> final(values)@ == old(values)@,
        all_ext_wf(final(values)@),
{
    let ghost v = values@;
    let n = values.len();
    let mut accumulator = ext_one_value();
    let mut prefixes: Vec<Ext> = Vec::new();
    let mut i: usize = 0;
    while i < n
        invariant
            i <= n,
            n == values.len(),
            v == values@,
            all_ext_wf(v),
            accumulator == prefix_prod(v, i as nat),
            accumulator.wf(),
            prefixes.len() == i,
            forall|j: int| 0 <= j < i ==> #[trigger] prefixes@[j] == prefix_prod(v, j as nat),
            all_ext_wf(prefixes@),
        decreases n - i,
    {
        prefixes.push(accumulator);
        accumulator = ext_mul(accumulator, values[i]);
        i = i + 1;
    }
    let inv = match ext_checked_inverse(accumulator) {
        None => return false,
        Some(x) => x,
    };
    proof {
        assert(accumulator == prefix_prod(v, v.len()));
        assert forall|i: int| 0 <= i < v.len() implies ext_mul_spec(#[trigger] batch_inverse_of(v)[i], v[i]) == ext_one() by {
            lemma_batch_inverse(v, i);
        }
    }
    let mut inverse = inv;
    let mut j: usize = n;
    while j > 0
        invariant
            j <= n,
            n == values.len(),
            prefixes.len() == n,
            forall|t: int| 0 <= t < n ==> #[trigger] prefixes@[t] == prefix_prod(v, t as nat),
            all_ext_wf(prefixes@),
            all_ext_wf(v),
            v.len() == n,
            inverse == suffix_inv(v, j as nat),
            inverse.wf(),
            forall|t: int| 0 <= t < j ==> #[trigger] values@[t] == v[t],
            forall|t: int| j <= t < n ==> #[trigger] values@[t] == batch_inverse_of(v)[t],
            all_ext_wf(values@),
        decreases j,
    {
        j = j - 1;
        let original = values[j];
        let out = ext_mul(inverse, prefixes[j]);
        values.set(j, out);
        inverse = ext_mul(inverse, original);
    }
    assert(values@ =~= batch_inverse_of(v));
    true
}

/// The generator of the evaluation domain of size `m`.
pub open spec fn domain_gen(m: nat) -> u32 {
    two_adic_generators()[log2(m) as int]
}

/// The `r`-th even domain point, `omega^(2r)`.
pub open spec fn even_point(m: nat, r: nat) -> u32 {
    fpow(modp(domain_gen(m) * domain_gen(m)) as nat, r) as u32
}

/// The second evaluation point, `p / omega`.
pub open spec fn second_point(p: Ext, m: nat) -> Ext {
    ext_scale_spec(p, base_inverse(domain_gen(m)))
}

/// `(a^k - 1) / k`.
pub open spec fn common_factor(a: Ext, k: nat) -> Ext {
    ext_scale_spec(ext_sub_spec(ext_pow(a, k), ext_one()), base_inverse(modp(k as int)))
}

/// The challenge or the second point equals the `r`-th even domain point.
pub open spec fn hits_point(p: Ext, m: nat, r: nat) -> bool {
    p == ext_base(even_point(m, r)) || second_point(p, m) == ext_base(even_point(m, r))
}

/// The challenge or the second point equals one of the first `k` even domain points.
pub open spec fn challenge_on_domain(p: Ext, m: nat, k: nat) -> bool {
    exists|r: nat| r < k && #[trigger] hits_point(p, m, r)
}

/// The denominators `p - x_r` and `q - x_r`, interleaved.
pub open spec fn denominators_of(p: Ext, m: nat, k: nat) -> Seq<Ext> {
    Seq::new(2 * k, |i: int| if i % 2 == 0 {
        ext_sub_spec(p, ext_base(even_point(m, (i / 2) as nat)))
    } else {
        ext_sub_spec(second_point(p, m), ext_base(even_point(m, (i / 2) as nat)))
    })
}

/// Entry `i` of the check vector, as coordinates: the weight at `p` of the
/// `i`-th even point for `i < k`, and minus the weight at `p / omega` of the
/// `(i - k)`-th point otherwise.
pub open spec fn check_entry(p: Ext, m: nat, k: nat, i: int) -> Seq<u32> {
    let b = batch_inverse_of(denominators_of(p, m, k));
    if i < k {
        ext_mul_spec(ext_scale_spec(common_factor(p, k), even_point(m, i as nat)), b[2 * i]).coords()
    } else {
        let r = i - k;
        ext_sub_spec(
            ext_zero(),
            ext_mul_spec(ext_scale_spec(common_factor(second_point(p, m), k), even_point(m, r as nat)), b[2 * r + 1]),
        ).coords()
    }
}

/// The coordinates of an extension element.
pub fn ext_coords(e: Ext) -> (r: [u32; 5])
    ensures
        r@ == e.coords(),
{
    let r = [e.c0, e.c1, e.c2, e.c3, e.c4];
    assert(r@ =~= e.coords());
    r
}

/// The check vector in physical order for the challenge `p`.  `None` when
/// `p` or `p / omega` lies on the even half of the domain, or when the
/// product of the denominators vanishes.
pub fn check_vector_for_challenge(profile: ExtProfile, p: Ext) -> (r: Option<Vec<[u32; 5]>>)
    requires
        codec_ok(profile),
        p.wf(),
    ensures
        r is None <==> challenge_on_domain(p, profile.m as nat, profile.k as nat)
            || prefix_prod(denominators_of(p, profile.m as nat, profile.k as nat), 2 * profile.k as nat) == ext_zero(),
        r matches Some(v) ==> v.len() == profile.m && forall|i: int| 0 <= i < profile.m
            ==> (#[trigger] v@[i])@ == check_entry(p, profile.m as nat, profile.k as nat, i),
{
    let m = profile.m;
    let k = profile.k;
    proof {
        lemma_small_pow2_len(m as nat);
    }
    let bits = ilog2(m);
    proof {
        lemma_generators_nonzero(bits as nat);
    }
    let omega = two_adic_generator(bits);
    let omega_sq = f_mul(omega, omega);
    let q = ext_scale(p, inverse(omega));
    let h_inv = inverse(f_from_usize(k));
    let common_p = ext_scale(ext_sub(ext_exp(p, k as u64), ext_one_value()), h_inv);
    let common_q = ext_scale(ext_sub(ext_exp(q, k as u64), ext_one_value()), h_inv);
    let ghost mm = m as nat;
    let ghost kk = k as nat;
    assert(q == second_point(p, mm));
    assert(common_p == common_factor(p, kk));
    assert(common_q == common_factor(q, kk));
    let mut xs: Vec<u32> = Vec::new();
    let mut denominators: Vec<Ext> = Vec::new();
    let mut x: u32 = 1;
    let mut r: usize = 0;
    while r < k
        invariant
            r <= k,
            k == profile.k,
            m == profile.m,
            m == 2 * k,
            omega_sq == modp(domain_gen(mm) * domain_gen(mm)),
            omega_sq < P,
            mm == m,
            kk == k,
            p.wf(),
            q.wf(),
            q == second_point(p, mm),
            x == even_point(mm, r as nat),
            x < P,
            xs.len() == r,
            forall|j: int| 0 <= j < r ==> #[trigger] xs@[j] == even_point(mm, j as nat),
            forall|j: nat| j < r ==> !#[trigger] hits_point(p, mm, j),
            denominators.len() == 2 * r,
            forall|i: int| 0 <= i < 2 * r ==> #[trigger] denominators@[i] == denominators_of(p, mm, kk)[i],
            all_ext_wf(denominators@),
        decreases k - r,
    {
        let xe = ext_from_base(x);
        if p == xe || q == xe {
            proof {
                assert(hits_point(p, mm, r as nat));
                assert(challenge_on_domain(p, profile.m as nat, profile.k as nat));
            }
            return None;
        }
        xs.push(x);
        denominators.push(ext_sub(p, xe));
        denominators.push(ext_sub(q, xe));
        proof {
            assert((2 * r) / 2 == r && (2 * r) % 2 == 0);
            assert((2 * r + 1) / 2 == r && (2 * r + 1) % 2 == 1);
        }
        x = f_mul(omega_sq, x);
        r = r + 1;
    }
    assert(denominators@ =~= denominators_of(p, mm, kk));
    let ghost d = denominators@;
    if !batch_invert(&mut denominators) {
        return None;
    }
    let mut vector: Vec<[u32; 5]> = Vec::new();
    let mut i: usize = 0;
    while i < k
        invariant
            i <= k,
            m == 2 * k,
            mm == m,
            kk == k,
            xs.len() == k,
            forall|j: int| 0 <= j < k ==> #[trigger] xs@[j] == even_point(mm, j as nat),
            forall|j: int| 0 <= j < k ==> xs@[j] < P,
            denominators@ == crate::rs_check::batch_inverse_of(d),
            d == denominators_of(p, mm, kk),
            denominators.len() == 2 * k,
            all_ext_wf(denominators@),
            common_p.wf(),
            common_p == common_factor(p, kk),
            vector.len() == i,
            forall|j: int| 0 <= j < i ==> (#[trigger] vector@[j])@ == check_entry(p, mm, kk, j),
        decreases k - i,
    {
        let e = ext_mul(ext_scale(common_p, xs[i]), denominators[2 * i]);
        vector.push(ext_coords(e));
        i = i + 1;
    }
    let mut i: usize = 0;
    while i < k
        invariant
            i <= k,
            m == 2 * k,
            mm == m,
            kk == k,
            xs.len() == k,
            forall|j: int| 0 <= j < k ==> #[trigger] xs@[j] == even_point(mm, j as nat),
            forall|j: int| 0 <= j < k ==> xs@[j] < P,
            denominators@ == crate::rs_check::batch_inverse_of(d),
            d == denominators_of(p, mm, kk),
            denominators.len() == 2 * k,
            all_ext_wf(denominators@),
            common_q.wf(),
            common_q == common_factor(second_point(p, mm), kk),
            vector.len() == k + i,
            forall|j: int| 0 <= j < k + i ==> (#[trigger] vector@[j])@ == check_entry(p, mm, kk, j),
        decreases k - i,
    {
        let e = ext_neg(ext_mul(ext_scale(common_q, xs[i]), denominators[2 * i + 1]));
        vector.push(ext_coords(e));
        i = i + 1;
    }
    Some(vector)
}

} // verus!

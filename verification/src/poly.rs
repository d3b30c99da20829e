//! Radix-2 number-theoretic transforms and polynomial arithmetic over the
//! base field, and their coordinatewise lifts to the quintic extension.
use crate::field::{
    all_ext_wf, all_fe, f_add, f_from_usize, inverse, f_mul, f_sub, two_adic_generator,
    two_adic_generators, Ext, P, TWO_ADICITY,
};
use crate::merkle::{is_pow2, log2, pow2};
use crate::ntt::{is_series_inverse, lemma_conv_agree_left, lemma_conv_beyond, lemma_conv_extend, lemma_conv_unit, lemma_newton_step, covers, lemma_conv_lin, lemma_covers_lin, lemma_covers_mul, lemma_covers_one, lemma_sub_mul, linp, dsum, inverse_length, inverse_subgroup_root, is_root_of_order, lemma_inverse_root, lemma_inverse_transform, lemma_pointwise_product, lemma_subgroup_root, pad, subgroup_root, transform};
use vstd::prelude::*;

verus! {

pub proof fn lemma_pow2_step(e: nat)
    requires
        e >= 1,
    ensures
        pow2(e) == 2 * pow2((e - 1) as nat),
{
}

pub proof fn lemma_pow2_pos(e: nat)
    ensures
        pow2(e) >= 1,
    decreases e,
{
    if e > 0 {
        lemma_pow2_pos((e - 1) as nat);
    }
}

pub proof fn lemma_pow2_mono(a: nat, b: nat)
    requires
        a <= b,
    ensures
        pow2(a) <= pow2(b),
    decreases b,
{
    if a < b {
        lemma_pow2_mono(a, (b - 1) as nat);
        lemma_pow2_pos((b - 1) as nat);
    }
}

/// Copies a vector of field elements.
pub fn copy_vec(v: &Vec<u32>) -> (r: Vec<u32>)
    ensures
        r@ == v@,
{
    let mut r: Vec<u32> = Vec::new();
    let mut i: usize = 0;
    while i < v.len()
        invariant
            i <= v.len(),
            r@ == v@.subrange(0, i as int),
        decreases v.len() - i,
    {
        r.push(v[i]);
        i = i + 1;
    }
    assert(r@ =~= v@);
    r
}

/// A vector of `n` zeros.
pub fn zeros(n: usize) -> (r: Vec<u32>)
    ensures
        r@ == Seq::new(n as nat, |i: int| 0u32),
{
    let mut r: Vec<u32> = Vec::new();
    let mut i: usize = 0;
    while i < n
        invariant
            i <= n,
            r@ == Seq::new(i as nat, |j: int| 0u32),
        decreases n - i,
    {
        r.push(0);
        i = i + 1;
        assert(r@ =~= Seq::new(i as nat, |j: int| 0u32));
    }
    r
}

/// The radix-2 transform with twiddle root `root`, by even/odd recursion
/// with butterflies `E + root^k·O`, `E - root^k·O`.  When `root` generates
/// the subgroup of order `values.len()`, entry `k` becomes
/// `Σ_t values[t]·root^(t·k)`.
pub fn fft_with_root(values: &mut Vec<u32>, root: u32)
    requires
        is_pow2(old(values).len() as nat),
        all_fe(old(values)@),
        root < P,
    ensures
        final(values).len() == old(values).len(),
        all_fe(final(values)@),
        is_root_of_order(root as nat, old(values).len() as nat) ==> forall|k: int|
            0 <= k < old(values).len() ==> #[trigger] final(values)@[k] == dsum(
                old(values)@,
                root as nat,
                k as nat,
                old(values).len() as nat,
            ),
{
    let r = transform(values, root);
    *values = r;
}

/// Logarithms of machine-sized values are below 64.
pub proof fn lemma_log2_lt(n: nat, e: nat)
    requires
        e >= 1,
        n < pow2(e),
    ensures
        log2(n) < e,
    decreases n,
{
    if n > 1 {
        lemma_pow2_step(e);
        if e == 1 {
            assert(pow2(1) == 2);
        } else {
            lemma_log2_lt(n / 2, (e - 1) as nat);
        }
    }
}

pub proof fn lemma_pow2_64()
    ensures
        pow2(64) == 0x1_0000_0000_0000_0000,
{
    reveal_with_fuel(pow2, 65);
}

/// Floor of the base-two logarithm of `n >= 1`.
pub fn ilog2(n: usize) -> (r: usize)
    requires
        n >= 1,
    ensures
        r == log2(n as nat),
        r < 64,
{
    proof {
        lemma_pow2_64();
        lemma_log2_lt(n as nat, 64);
    }
    let mut r: usize = 0;
    let mut x: usize = n;
    while x > 1
        invariant
            x >= 1,
            r + log2(x as nat) == log2(n as nat),
            log2(n as nat) < 64,
        decreases x,
    {
        x = x / 2;
        r = r + 1;
    }
    r
}


/// The two-adic generators are nonzero.
pub proof fn lemma_generators_nonzero(bits: nat)
    requires
        bits <= 24,
    ensures
        two_adic_generators()[bits as int] != 0,
        two_adic_generators()[bits as int] < P,
{
    let g = two_adic_generators();
    assert forall|b: int| 0 <= b <= 24 implies #[trigger] g[b] != 0 && g[b] < P by {
        if b == 0 {} else if b == 1 {} else if b == 2 {} else if b == 3 {} else if b == 4 {} else if b == 5 {} else if b == 6 {} else if b == 7 {} else if b == 8 {} else if b == 9 {} else if b == 10 {} else if b == 11 {} else if b == 12 {} else if b == 13 {} else if b == 14 {} else if b == 15 {} else if b == 16 {} else if b == 17 {} else if b == 18 {} else if b == 19 {} else if b == 20 {} else if b == 21 {} else if b == 22 {} else if b == 23 {} else if b == 24 {}
    }
}

/// The forward transform over the subgroup of order `values.len()`.
pub fn fft(values: &mut Vec<u32>)
    requires
        is_pow2(old(values).len() as nat),
        log2(old(values).len() as nat) <= TWO_ADICITY,
        all_fe(old(values)@),
    ensures
        final(values).len() == old(values).len(),
        all_fe(final(values)@),
        forall|k: int|
            0 <= k < old(values).len() ==> #[trigger] final(values)@[k] == dsum(
                old(values)@,
                subgroup_root(old(values).len() as nat),
                k as nat,
                old(values).len() as nat,
            ),
{
    let bits = ilog2(values.len());
    proof {
        lemma_small_pow2_len(values.len() as nat);
        lemma_subgroup_root(values.len() as nat);
    }
    let root = two_adic_generator(bits);
    fft_with_root(values, root);
}

/// A power of two of logarithm at most 24 is small.
pub proof fn lemma_small_pow2_len(n: nat)
    requires
        is_pow2(n),
        log2(n) <= 24,
    ensures
        1 <= n <= 0x100_0000,
        n < P,
{
    crate::merkle::lemma_pow2_log2(n);
    lemma_pow2_mono(log2(n), 24);
    reveal_with_fuel(pow2, 25);
}

/// The inverse transform: the transform with the inverse root, scaled by `1/n`.
pub fn ifft(values: &mut Vec<u32>)
    requires
        is_pow2(old(values).len() as nat),
        log2(old(values).len() as nat) <= TWO_ADICITY,
        all_fe(old(values)@),
    ensures
        final(values).len() == old(values).len(),
        all_fe(final(values)@),
        forall|k: int|
            0 <= k < old(values).len() ==> #[trigger] final(values)@[k] == (dsum(
                old(values)@,
                inverse_subgroup_root(old(values).len() as nat),
                k as nat,
                old(values).len() as nat,
            ) * inverse_length(old(values).len() as nat)) % (P as nat),
        inverse_subgroup_root(old(values).len() as nat) < P,
        (subgroup_root(old(values).len() as nat) * inverse_subgroup_root(old(values).len() as nat)) % (P as nat) == 1,
        ((old(values).len() as nat) * inverse_length(old(values).len() as nat)) % (P as nat) == 1,
{
    let n = values.len();
    let ghost orig = values@;
    let bits = ilog2(n);
    proof {
        lemma_small_pow2_len(n as nat);
        lemma_generators_nonzero(bits as nat);
        lemma_subgroup_root(n as nat);
    }
    let root = two_adic_generator(bits);
    let root_inv = inverse(root);
    proof {
        lemma_inverse_root(root as nat, root_inv as nat, n as nat);
    }
    fft_with_root(values, root_inv);
    let ghost t = values@;
    let n_fe = f_from_usize(n);
    proof {
        vstd::arithmetic::div_mod::lemma_small_mod(n as nat, P as nat);
    }
    let n_inv = inverse(n_fe);
    let mut i: usize = 0;
    while i < n
        invariant
            i <= n,
            n == values.len(),
            n == t.len(),
            all_fe(values@),
            n_inv < P,
            n_inv as nat == inverse_length(n as nat),
            forall|k: int| 0 <= k < n ==> t[k] == dsum(orig, inverse_subgroup_root(n as nat), k as nat, n as nat),
            forall|k: int| 0 <= k < i ==> #[trigger] values@[k] == ((t[k] as nat) * (n_inv as nat)) % (P as nat),
            forall|k: int| i <= k < n ==> #[trigger] values@[k] == t[k],
        decreases n - i,
    {
        let v = f_mul(values[i], n_inv);
        values.set(i, v);
        i = i + 1;
    }
}

/// The smallest power of two that is at least `n`.
pub open spec fn is_next_pow2(n: nat, r: nat) -> bool {
    is_pow2(r) && r >= n && (r == 1 || r / 2 < n)
}

/// Of two powers of two, the smaller is at most half the larger.
pub proof fn lemma_pow2_le_half(a: nat, b: nat)
    requires
        is_pow2(a),
        is_pow2(b),
        a < b,
    ensures
        b % 2 == 0,
        a <= b / 2,
    decreases b,
{
    if a != 1 {
        lemma_pow2_le_half(a / 2, b / 2);
    }
}

/// There is exactly one smallest power of two at least `n`.
pub proof fn lemma_next_pow2_unique(n: nat, r1: nat, r2: nat)
    requires
        is_next_pow2(n, r1),
        is_next_pow2(n, r2),
    ensures
        r1 == r2,
{
    if r1 < r2 {
        lemma_pow2_le_half(r1, r2);
    } else if r2 < r1 {
        lemma_pow2_le_half(r2, r1);
    }
}

/// Every count has a next power of two.
pub proof fn lemma_next_pow2_exists(n: nat)
    ensures
        exists|r: nat| is_next_pow2(n, r),
    decreases n,
{
    if n <= 1 {
        assert(is_next_pow2(n, 1));
    } else {
        let h = ((n + 1) / 2) as nat;
        lemma_next_pow2_exists(h);
        let r = choose|r: nat| is_next_pow2(h, r);
        let r2 = 2 * r;
        assert(r2 % 2 == 0 && r2 / 2 == r);
        assert(is_pow2(r2));
        assert(is_next_pow2(n, r2));
    }
}

/// The padded length is the least power of two at least `n`: a power of
/// two, at least `n`, and below `2n` unless it is one.
pub proof fn lemma_padded_len(n: nat)
    ensures
        is_next_pow2(n, padded_len(n)),
        is_pow2(padded_len(n)),
        padded_len(n) >= n,
        padded_len(n) == 1 || padded_len(n) < 2 * n,
{
    lemma_next_pow2_exists(n);
}

/// The smallest power of two that is at least `n` (one for `n = 0`).
pub open spec fn padded_len(n: nat) -> nat {
    choose|r: nat| is_next_pow2(n, r)
}

pub fn next_power_of_two(n: usize) -> (r: usize)
    requires
        n <= usize::MAX / 2 + 1,
    ensures
        is_next_pow2(n as nat, r as nat),
        r == padded_len(n as nat),
        r <= 2 * n || n == 0,
{
    let mut r: usize = 1;
    while r < n
        invariant
            is_pow2(r as nat),
            r >= 1,
            r == 1 || r / 2 < n,
            n <= usize::MAX / 2 + 1,
            r <= 2 * n || n == 0,
        decreases 2 * n - r,
    {
        r = r * 2;
    }
    proof {
        let c = padded_len(n as nat);
        assert(is_next_pow2(n as nat, r as nat));
        lemma_next_pow2_unique(n as nat, c, r as nat);
    }
    r
}

/// The unreduced coefficient `d` of `a * b`, summing over the first `i` terms of `a`.
pub open spec fn conv_partial(a: Seq<u32>, b: Seq<u32>, d: int, i: nat) -> int
    decreases i,
{
    if i == 0 {
        0
    } else {
        let j = i - 1;
        conv_partial(a, b, d, (i - 1) as nat) + (if 0 <= d - j < b.len() { a[j] * b[d - j] } else { 0int })
    }
}

/// The product of two non-empty polynomials given by their coefficients.
pub open spec fn poly_mul(a: Seq<u32>, b: Seq<u32>) -> Seq<u32> {
    Seq::new((a.len() + b.len() - 1) as nat, |d: int| (conv_partial(a, b, d, a.len()) % (P as int)) as u32)
}

/// Schoolbook multiplication of two non-empty polynomials.
pub fn multiply_schoolbook(left: &Vec<u32>, right: &Vec<u32>) -> (r: Vec<u32>)
    requires
        left.len() >= 1,
        right.len() >= 1,
        left.len() + right.len() <= usize::MAX,
        all_fe(left@),
        all_fe(right@),
    ensures
        r@ == poly_mul(left@, right@),
        all_fe(r@),
{
    let output_len = left.len() + right.len() - 1;
    let mut output = zeros(output_len);
    let mut i: usize = 0;
    while i < left.len()
        invariant
            i <= left.len(),
            output_len == left.len() + right.len() - 1,
            output.len() == output_len,
            all_fe(left@),
            all_fe(right@),
            forall|d: int| 0 <= d < output_len ==> #[trigger] output@[d] as int == conv_partial(left@, right@, d, i as nat) % (P as int),
        decreases left.len() - i,
    {
        let mut j: usize = 0;
        while j < right.len()
            invariant
                i < left.len(),
                j <= right.len(),
                output_len == left.len() + right.len() - 1,
                output.len() == output_len,
                all_fe(left@),
                all_fe(right@),
                forall|d: int| 0 <= d < output_len ==> #[trigger] output@[d] as int == (conv_partial(left@, right@, d, i as nat)
                    + (if 0 <= d - i < j { left@[i as int] * right@[d - i] } else { 0int })) % (P as int),
            decreases right.len() - j,
        {
            let prod = f_mul(left[i], right[j]);
            let cur = output[i + j];
            let next = f_add(cur, prod);
            output.set(i + j, next);
            proof {
                let p = P as int;
                assert forall|d: int| 0 <= d < output_len implies #[trigger] output@[d] as int == (conv_partial(left@, right@, d, i as nat)
                    + (if 0 <= d - i < j + 1 { left@[i as int] * right@[d - i] } else { 0int })) % p by {
                    if d == i + j {
                        let base = conv_partial(left@, right@, d, i as nat) + (if 0 <= d - i < j { left@[i as int] * right@[d - i] } else { 0int });
                        vstd::arithmetic::div_mod::lemma_add_mod_noop(base, left@[i as int] * right@[d - i], p);
                        vstd::arithmetic::div_mod::lemma_mod_twice(base, p);
                        vstd::arithmetic::div_mod::lemma_mod_twice(left@[i as int] * right@[d - i], p);
                    }
                }
            }
            j = j + 1;
        }
        proof {
            assert forall|d: int| 0 <= d < output_len implies #[trigger] output@[d] as int == conv_partial(left@, right@, d, (i + 1) as nat) % (P as int) by {
                assert(conv_partial(left@, right@, d, (i + 1) as nat) == conv_partial(left@, right@, d, i as nat)
                    + (if 0 <= d - i < right.len() { left@[i as int] * right@[d - i] } else { 0int }));
            }
        }
        i = i + 1;
    }
    assert(output@ =~= poly_mul(left@, right@));
    output
}

/// Copies `src` into the front of a zero vector of length `len`.
pub fn zero_padded(src: &Vec<u32>, len: usize) -> (r: Vec<u32>)
    requires
        src.len() <= len,
    ensures
        r.len() == len,
        forall|i: int| 0 <= i < src.len() ==> r@[i] == src@[i],
        forall|i: int| src.len() <= i < len ==> r@[i] == 0,
{
    let mut r = zeros(len);
    let mut i: usize = 0;
    while i < src.len()
        invariant
            i <= src.len(),
            src.len() <= len,
            r.len() == len,
            forall|j: int| 0 <= j < i ==> r@[j] == src@[j],
            forall|j: int| i <= j < len ==> r@[j] == 0,
        decreases src.len() - i,
    {
        r.set(i, src[i]);
        i = i + 1;
    }
    r
}

/// Multiplies two base-field polynomials: schoolbook when one factor has at
/// most 16 coefficients, otherwise through transforms of the padded inputs.
pub fn multiply_polynomials_base(left: &Vec<u32>, right: &Vec<u32>) -> (r: Vec<u32>)
    requires
        all_fe(left@),
        all_fe(right@),
        left.len() + right.len() <= 0x100_0001 || ((left.len() <= 16 || right.len() <= 16) && left.len() + right.len() <= usize::MAX),
    ensures
        left.len() == 0 || right.len() == 0 ==> r.len() == 0,
        left.len() >= 1 && right.len() >= 1 ==> r.len() == left.len() + right.len() - 1,
        left.len() >= 1 && right.len() >= 1 ==> r@ == poly_mul(left@, right@),
        all_fe(r@),
{
    if left.len() == 0 || right.len() == 0 {
        return Vec::new();
    }
    let output_len = left.len() + right.len() - 1;
    if left.len() <= 16 || right.len() <= 16 {
        return multiply_schoolbook(left, right);
    }
    let fft_len = next_power_of_two(output_len);
    proof {
        lemma_log2_le_24(fft_len as nat);
    }
    let mut left_evals = zero_padded(left, fft_len);
    let mut right_evals = zero_padded(right, fft_len);
    let ghost n = fft_len as nat;
    let ghost w = subgroup_root(n);
    proof {
        assert(left_evals@ =~= pad(left@, n));
        assert(right_evals@ =~= pad(right@, n));
    }
    fft(&mut left_evals);
    fft(&mut right_evals);
    let ghost le = left_evals@;
    let mut i: usize = 0;
    while i < fft_len
        invariant
            i <= fft_len,
            n == fft_len,
            left_evals.len() == fft_len,
            right_evals.len() == fft_len,
            le.len() == fft_len,
            all_fe(left_evals@),
            all_fe(right_evals@),
            forall|k: int| 0 <= k < fft_len ==> #[trigger] le[k] == dsum(pad(left@, n), w, k as nat, n),
            forall|k: int| 0 <= k < fft_len ==> #[trigger] right_evals@[k] == dsum(pad(right@, n), w, k as nat, n),
            forall|k: int| 0 <= k < i ==> #[trigger] left_evals@[k] == ((le[k] as nat) * (right_evals@[k] as nat)) % (P as nat),
            forall|k: int| i <= k < fft_len ==> #[trigger] left_evals@[k] == le[k],
        decreases fft_len - i,
    {
        let v = f_mul(left_evals[i], right_evals[i]);
        left_evals.set(i, v);
        i = i + 1;
    }
    let ghost c = poly_mul(left@, right@);
    proof {
        lemma_pointwise_product(left@, right@, n, w, left_evals@);
    }
    ifft(&mut left_evals);
    proof {
        lemma_subgroup_root(n);
        assert forall|s: int| 0 <= s < output_len implies #[trigger] left_evals@[s] == c[s] by {
            assert(all_fe(pad(c, n))) by {
                assert forall|t: int| 0 <= t < n implies #[trigger] pad(c, n)[t] < P by {
                    if t < c.len() {
                        lemma_conv_nonneg(left@, right@, t, left.len() as nat);
                    }
                }
            }
            lemma_inverse_transform(pad(c, n), w, inverse_subgroup_root(n), inverse_length(n), s as nat);
        }
    }
    left_evals.truncate(output_len);
    proof {
        assert(left_evals@ =~= c);
    }
    left_evals
}

/// Convolution sums of canonical coefficients are nonnegative.
proof fn lemma_conv_nonneg(a: Seq<u32>, b: Seq<u32>, d: int, i: nat)
    ensures
        conv_partial(a, b, d, i) >= 0,
    decreases i,
{
    if i > 0 {
        lemma_conv_nonneg(a, b, d, (i - 1) as nat);
    }
}

/// Numbers below `2^25` have logarithm at most 24.
proof fn lemma_log2_le_24(n: nat)
    requires
        n < 0x200_0000,
    ensures
        log2(n) <= 24,
{
    reveal_with_fuel(pow2, 26);
    lemma_log2_lt(n, 25);
}


/// Total degree of a list of non-empty polynomials: the sum of their lengths minus one each.
pub open spec fn total_deg(s: Seq<Vec<u32>>) -> int
    decreases s.len(),
{
    if s.len() == 0 {
        0
    } else {
        (s[0].len() - 1) + total_deg(s.drop_first())
    }
}

proof fn lemma_total_deg_push(s: Seq<Vec<u32>>, x: Vec<u32>)
    ensures
        total_deg(s.push(x)) == total_deg(s) + x.len() - 1,
    decreases s.len(),
{
    if s.len() > 0 {
        assert(s.push(x)[0] == s[0]);
        assert(s.push(x).drop_first() =~= s.drop_first().push(x));
        lemma_total_deg_push(s.drop_first(), x);
    } else {
        assert(s.push(x).drop_first() =~= Seq::<Vec<u32>>::empty());
        assert(s.push(x)[0] == x);
        assert(total_deg(Seq::<Vec<u32>>::empty()) == 0);
        assert(total_deg(s) == 0);
        assert(total_deg(s.push(x)) == x.len() - 1 + total_deg(s.push(x).drop_first()));
    }
}

/// Every polynomial of the list is non-empty, canonical and short.
pub open spec fn level_ok(s: Seq<Vec<u32>>, bound: nat) -> bool {
    forall|i: int| 0 <= i < s.len() ==> #[trigger] s[i].len() >= 1 && s[i].len() <= bound && all_fe(s[i]@)
}

/// `prod (X - r)` over one chunk of roots, by repeated multiplication with linear factors.
#[verifier::spinoff_prover]
#[verifier::rlimit(50)]
fn linear_factors_product(roots: &Vec<u32>, start: usize, end: usize) -> (r: Vec<u32>)
    requires
        start <= end <= roots.len(),
        roots.len() + 1 <= 0x100_0000,
        all_fe(roots@),
    ensures
        r.len() == end - start + 1,
        all_fe(r@),
        covers(r@, roots@, start as nat, end as nat),
{
    let mut polynomial: Vec<u32> = Vec::new();
    polynomial.push(1);
    proof {
        lemma_covers_one(roots@, start as nat);
        assert(polynomial@ =~= seq![1u32]);
    }
    let mut idx = start;
    while idx < end
        invariant
            start <= idx <= end,
            end <= roots.len(),
            roots.len() + 1 <= 0x100_0000,
            all_fe(roots@),
            polynomial.len() == idx - start + 1,
            all_fe(polynomial@),
            covers(polynomial@, roots@, start as nat, idx as nat),
        decreases end - idx,
    {
        let root = roots[idx];
        let ghost lin = linp(root);
        let ghost target = poly_mul(polynomial@, lin);
        let mut next = zeros(polynomial.len() + 1);
        let mut degree: usize = 0;
        while degree < polynomial.len()
            invariant
                degree <= polynomial.len(),
                polynomial.len() >= 1,
                next.len() == polynomial.len() + 1,
                all_fe(next@),
                all_fe(polynomial@),
                root < P,
                lin == linp(root),
                target == poly_mul(polynomial@, lin),
                forall|j: int| 0 <= j < degree ==> #[trigger] next@[j] == target[j],
                next@[degree as int] == (if degree >= 1 { polynomial@[degree - 1] } else { 0u32 }),
                forall|j: int| degree < j <= polynomial.len() ==> #[trigger] next@[j] == 0,
            decreases polynomial.len() - degree,
        {
            let coefficient = polynomial[degree];
            let low = f_sub(next[degree], f_mul(coefficient, root));
            proof {
                lemma_conv_lin(polynomial@, lin, degree as int, polynomial.len() as nat);
                lemma_sub_mul(next@[degree as int] as int, coefficient as int, root as int);
            }
            next.set(degree, low);
            let high = f_add(next[degree + 1], coefficient);
            next.set(degree + 1, high);
            degree = degree + 1;
        }
        proof {
            lemma_conv_lin(polynomial@, lin, polynomial.len() as int, polynomial.len() as nat);
            assert(next@ =~= target);
            lemma_covers_lin(roots@, idx as nat);
            lemma_covers_mul(polynomial@, lin, roots@, start as nat, idx as nat, (idx + 1) as nat);
        }
        polynomial = next;
        idx = idx + 1;
    }
    polynomial
}

/// The monic polynomial whose roots are `roots`: products of linear factors in
/// chunks of 16, then combined pairwise level by level.
#[verifier::spinoff_prover]
#[verifier::rlimit(50)]
pub fn root_polynomial(roots: &Vec<u32>) -> (r: Vec<u32>)
    requires
        all_fe(roots@),
        roots.len() + 1 <= 0x100_0000,
    ensures
        r.len() == roots.len() + 1,
        all_fe(r@),
        covers(r@, roots@, 0, roots.len() as nat),
{
    let mut level: Vec<Vec<u32>> = Vec::new();
    let mut start: usize = 0;
    let ghost mut bounds: Seq<nat> = seq![0nat];
    while start < roots.len()
        invariant
            start <= roots.len(),
            roots.len() + 1 <= 0x100_0000,
            all_fe(roots@),
            level_ok(level@, (start + 1) as nat),
            total_deg(level@) == start,
            start == roots.len() || start % 16 == 0,
            bounds.len() == level.len() + 1,
            bounds[0] == 0,
            bounds[level.len() as int] == start,
            forall|i: int| 0 <= i < level.len() ==> covers(#[trigger] level@[i]@, roots@, bounds[i], bounds[i + 1]),
        decreases roots.len() - start,
    {
        let end = if roots.len() - start > 16 { start + 16 } else { roots.len() };
        let chunk = linear_factors_product(roots, start, end);
        proof {
            lemma_total_deg_push(level@, chunk);
        }
        level.push(chunk);
        proof {
            bounds = bounds.push(end as nat);
        }
        start = end;
    }
    if level.len() == 0 {
        let mut one: Vec<u32> = Vec::new();
        one.push(1);
        proof {
            lemma_covers_one(roots@, 0);
            assert(one@ =~= seq![1u32]);
        }
        return one;
    }
    while level.len() > 1
        invariant
            level.len() >= 1,
            level_ok(level@, (roots.len() + 1) as nat),
            total_deg(level@) == roots.len(),
            roots.len() + 1 <= 0x100_0000,
            bounds.len() == level.len() + 1,
            bounds[0] == 0,
            bounds[level.len() as int] == roots.len(),
            forall|i: int| 0 <= i < level.len() ==> covers(#[trigger] level@[i]@, roots@, bounds[i], bounds[i + 1]),
        decreases level.len(),
    {
        let mut next: Vec<Vec<u32>> = Vec::new();
        let pairs = level.len() / 2;
        let mut p: usize = 0;
        let ghost mut nb: Seq<nat> = seq![0nat];
        assert(level@.subrange(0, level.len() as int) =~= level@);
        while p < pairs
            invariant
                p <= pairs,
                pairs == level.len() / 2,
                level.len() >= 2,
                level_ok(level@, (roots.len() + 1) as nat),
                level_ok(next@, (roots.len() + 1) as nat),
                next.len() == p,
                total_deg(next@) + total_deg(level@.subrange(2 * p as int, level.len() as int)) == roots.len(),
                total_deg(level@) == roots.len(),
                roots.len() + 1 <= 0x100_0000,
                bounds.len() == level.len() + 1,
                bounds[0] == 0,
                forall|i: int| 0 <= i < level.len() ==> covers(#[trigger] level@[i]@, roots@, bounds[i], bounds[i + 1]),
                nb.len() == p + 1,
                forall|q: int| 0 <= q <= p ==> #[trigger] nb[q] == bounds[2 * q],
                forall|q: int| 0 <= q < p ==> covers(#[trigger] next@[q]@, roots@, nb[q], nb[q + 1]),
            decreases pairs - p,
        {
            proof {
                let rest = level@.subrange(2 * p as int, level.len() as int);
                assert(rest.drop_first() =~= level@.subrange(2 * p + 1, level.len() as int));
                assert(rest.drop_first().drop_first() =~= level@.subrange(2 * p + 2, level.len() as int));
                reveal_with_fuel(total_deg, 3);
                let rest2 = level@.subrange(2 * p + 2, level.len() as int);
                assert forall|i: int| 0 <= i < rest2.len() implies #[trigger] rest2[i].len() >= 1 by {
                    assert(rest2[i] == level@[2 * p + 2 + i]);
                }
                lemma_total_deg_nonneg(rest2);
                lemma_total_deg_nonneg(next@);
                assert(rest[0] == level@[2 * p as int]);
                assert(rest.drop_first()[0] == level@[2 * p + 1]);
                assert(level@[2 * p as int].len() >= 1);
                assert(level@[2 * p + 1].len() >= 1);
            }
            let product = multiply_polynomials_base(&level[2 * p], &level[2 * p + 1]);
            proof {
                lemma_total_deg_push(next@, product);
                let i0 = 2 * p as int;
                assert(covers(level@[i0]@, roots@, bounds[i0], bounds[i0 + 1]));
                assert(covers(level@[i0 + 1]@, roots@, bounds[i0 + 1], bounds[i0 + 2]));
                lemma_covers_mul(level@[i0]@, level@[i0 + 1]@, roots@, bounds[i0], bounds[i0 + 1], bounds[i0 + 2]);
            }
            next.push(product);
            proof {
                nb = nb.push(bounds[2 * p + 2]);
                assert(next@[p as int] == product);
            }
            p = p + 1;
        }
        if level.len() % 2 == 1 {
            let last = copy_vec(&level[level.len() - 1]);
            proof {
                let rest = level@.subrange(2 * p as int, level.len() as int);
                assert(rest.drop_first() =~= Seq::<Vec<u32>>::empty());
                assert(rest[0] == level@[level.len() - 1]);
                assert(total_deg(rest.drop_first()) == 0);
                assert(total_deg(rest) == last.len() - 1);
                lemma_total_deg_push(next@, last);
            }
            next.push(last);
            proof {
                assert(covers(level@[level.len() - 1]@, roots@, bounds[level.len() - 1], bounds[level.len() as int]));
                assert(next@[pairs as int] == last);
                nb = nb.push(bounds[level.len() as int]);
            }
        } else {
            proof {
                assert(level@.subrange(2 * p as int, level.len() as int) =~= Seq::<Vec<u32>>::empty());
                assert(total_deg(level@.subrange(2 * p as int, level.len() as int)) == 0);
            }
        }
        level = next;
        proof {
            bounds = nb;
        }
    }
    proof {
        assert(level@.drop_first() =~= Seq::<Vec<u32>>::empty());
        assert(total_deg(level@.drop_first()) == 0);
        assert(level@[0].len() == roots.len() + 1);
    }
    level.pop().unwrap()
}

proof fn lemma_total_deg_nonneg(s: Seq<Vec<u32>>)
    requires
        forall|i: int| 0 <= i < s.len() ==> #[trigger] s[i].len() >= 1,
    ensures
        total_deg(s) >= 0,
    decreases s.len(),
{
    if s.len() > 0 {
        assert(forall|i: int| 0 <= i < s.drop_first().len() ==> #[trigger] s.drop_first()[i] == s[i + 1]);
        lemma_total_deg_nonneg(s.drop_first());
    }
}

/// The first `len` coefficients of `v`.
pub fn prefix(v: &Vec<u32>, len: usize) -> (r: Vec<u32>)
    requires
        len <= v.len(),
    ensures
        r@ == v@.subrange(0, len as int),
{
    let mut r: Vec<u32> = Vec::new();
    let mut i: usize = 0;
    while i < len
        invariant
            i <= len,
            len <= v.len(),
            r@ == v@.subrange(0, i as int),
        decreases len - i,
    {
        r.push(v[i]);
        i = i + 1;
    }
    r
}

/// The power-series inverse of `polynomial` to `target_len` terms, by Newton
/// iteration with doubling precision.
pub fn invert_series(polynomial: &Vec<u32>, target_len: usize) -> (r: Vec<u32>)
    requires
        polynomial.len() >= 1,
        polynomial@[0] != 0,
        all_fe(polynomial@),
        target_len <= 0x80_0001,
    ensures
        r.len() == if target_len == 0 { 1 } else { target_len },
        all_fe(r@),
        is_series_inverse(polynomial@, r@, r.len() as nat),
{
    let first = inverse(polynomial[0]);
    let mut inverse: Vec<u32> = Vec::new();
    inverse.push(first);
    proof {
        lemma_conv_unit(polynomial@, inverse@, polynomial.len() as nat);
        assert(inverse@[0] == first);
    }
    while inverse.len() < target_len
        invariant
            1 <= inverse.len(),
            inverse.len() <= target_len || target_len == 0,
            target_len == 0 ==> inverse.len() == 1,
            all_fe(inverse@),
            all_fe(polynomial@),
            polynomial.len() >= 1,
            target_len <= 0x80_0001,
            is_series_inverse(polynomial@, inverse@, inverse.len() as nat),
        decreases target_len - inverse.len(),
    {
        let next_len = if 2 * inverse.len() < target_len { 2 * inverse.len() } else { target_len };
        let cut = if polynomial.len() < next_len { polynomial.len() } else { next_len };
        let head = prefix(polynomial, cut);
        let product = multiply_polynomials_base(&head, &inverse);
        let mut correction = zeros(next_len);
        correction.set(0, 2);
        let mut i: usize = 0;
        while i < next_len && i < product.len()
            invariant
                i <= next_len,
                i <= product.len(),
                correction.len() == next_len,
                all_fe(correction@),
                all_fe(product@),
                forall|o: int| 0 <= o < i ==> #[trigger] correction@[o] as int == ((if o == 0 { 2int } else { 0int })
                    - product@[o] as int) % (P as int),
                forall|o: int| i <= o < next_len ==> #[trigger] correction@[o] as int == (if o == 0 { 2int } else { 0int }),
            decreases next_len - i,
        {
            let v = f_sub(correction[i], product[i]);
            correction.set(i, v);
            i = i + 1;
        }
        proof {
            let p = polynomial@;
            let q = inverse@;
            assert forall|o: int| 0 <= o < next_len implies #[trigger] correction@[o] as int == ((if o == 0 { 2int } else {
                0int
            }) - conv_partial(p, q, o, p.len()) % (P as int)) % (P as int) by {
                assert(product@ == poly_mul(head@, q));
                assert(head.len() == cut);
                if o < product.len() {
                    assert(o < i);
                    assert forall|j: int| 0 <= j < cut implies #[trigger] head@[j] == p[j] by {}
                    lemma_conv_agree_left(head@, p, q, o, cut as nat);
                    if cut < p.len() {
                        lemma_conv_extend(p, q, o, cut as nat, p.len());
                    }
                    assert(product@[o] as int == conv_partial(head@, q, o, cut as nat) % (P as int));
                } else {
                    assert(cut == p.len());
                    lemma_conv_beyond(p, q, o, p.len());
                    assert(o >= 1);
                    vstd::arithmetic::div_mod::lemma_small_mod(0, P as nat);
                }
            }
        }
        let mut next = multiply_polynomials_base(&inverse, &correction);
        assert(next.len() >= next_len);
        let ghost full = next@;
        next.truncate(next_len);
        proof {
            assert(next@ =~= full.subrange(0, next_len as int));
            lemma_newton_step(polynomial@, inverse@, correction@, next_len as nat);
        }
        inverse = next;
    }
    inverse
}

} // verus!

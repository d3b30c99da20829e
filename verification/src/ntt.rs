//! The mathematics of the radix-2 transform and of polynomials over the
//! base field: powers and sums modulo `P`, the even/odd split and the
//! inversion of the transform, products and evaluations of polynomials,
//! power-series inverses, and the algebra of erasure decoding.
use crate::field::{all_fe, base_inverse, f_add, f_mul, f_sub, fpow, two_adic_generators, P};
use crate::merkle::{is_pow2, log2, pow2};
use vstd::arithmetic::div_mod::{lemma_add_mod_noop, lemma_add_mod_noop_right, lemma_mod_multiples_vanish, lemma_mod_twice, lemma_mul_mod_noop_left, lemma_mul_mod_noop_right, lemma_small_mod, lemma_sub_mod_noop_right};
use vstd::arithmetic::mul::{lemma_mul_is_associative, lemma_mul_is_commutative, lemma_mul_is_distributive_add};
use vstd::prelude::*;

verus! {

/// `fpow` is a canonical residue.
pub proof fn lemma_fpow_range(a: nat, e: nat)
    ensures
        fpow(a, e) < P,
{
    if e > 0 {
        vstd::arithmetic::div_mod::lemma_mod_bound((a * fpow(a, (e - 1) as nat)) as int, P as int);
    }
}

/// Powers add in the exponent.
pub proof fn lemma_fpow_add(a: nat, e1: nat, e2: nat)
    ensures
        fpow(a, e1 + e2) == (fpow(a, e1) * fpow(a, e2)) % (P as nat),
    decreases e1,
{
    lemma_fpow_range(a, e2);
    if e1 == 0 {
        lemma_small_mod(fpow(a, e2), P as nat);
        assert(e1 + e2 == e2);
        assert(fpow(a, e1) == 1);
        assert(fpow(a, e1 + e2) == (fpow(a, e1) * fpow(a, e2)) % (P as nat));
    } else {
        lemma_fpow_add(a, (e1 - 1) as nat, e2);
        let x = fpow(a, (e1 - 1) as nat);
        let y = fpow(a, e2);
        let pp = P as int;
        assert(((e1 + e2) - 1) as nat == ((e1 - 1) as nat + e2) as nat);
        assert(fpow(a, e1 + e2) == (a * fpow(a, ((e1 - 1) as nat + e2) as nat)) % (P as nat));
        assert(fpow(a, ((e1 - 1) as nat + e2) as nat) == (x * y) % (P as nat));
        lemma_mul_mod_noop_right(a as int, (x * y) as int, pp);
        assert((a * ((x * y) % (P as nat))) % (P as nat) == (a * (x * y)) % (P as nat));
        lemma_mul_is_associative(a as int, x as int, y as int);
        lemma_mul_mod_noop_left((a * x) as int, y as int, pp);
        assert(((a * x) * y) % (P as nat) == (((a * x) % (P as nat)) * y) % (P as nat));
        assert(fpow(a, e1) == (a * x) % (P as nat));
        assert(fpow(a, e1 + e2) == (a * (x * y)) % (P as nat));
        assert(a * (x * y) == (a * x) * y);
        assert(fpow(a, e1 + e2) == (fpow(a, e1) * fpow(a, e2)) % (P as nat));
    }
}

/// Powers multiply in the exponent.
pub proof fn lemma_fpow_mul(a: nat, e1: nat, e2: nat)
    ensures
        fpow(a, e1 * e2) == fpow(fpow(a, e1), e2),
    decreases e2,
{
    if e2 == 0 {
        assert(e1 * e2 == 0) by (nonlinear_arith)
            requires
                e2 == 0,
        ;
    } else {
        lemma_fpow_mul(a, e1, (e2 - 1) as nat);
        assert(e1 * e2 == e1 + e1 * (e2 - 1)) by (nonlinear_arith)
            requires
                e2 >= 1,
        ;
        lemma_fpow_add(a, e1, e1 * (e2 - 1) as nat);
        assert((e1 * (e2 - 1)) as nat == e1 * ((e2 - 1) as nat));
    }
}

/// `1^e = 1`.
pub proof fn lemma_fpow_one(e: nat)
    ensures
        fpow(1, e) == 1,
    decreases e,
{
    if e > 0 {
        lemma_fpow_one((e - 1) as nat);
    }
}

/// `a^1 = a` for a canonical `a`.
pub proof fn lemma_fpow_1(a: nat)
    requires
        a < P,
    ensures
        fpow(a, 1) == a,
{
    assert(fpow(a, 0) == 1);
    assert(fpow(a, 1) == (a * 1) % (P as nat));
    lemma_small_mod(a, P as nat);
}

/// `a^2` is the reduced square.
pub proof fn lemma_fpow_2(a: nat)
    requires
        a < P,
    ensures
        fpow(a, 2) == (a * a) % (P as nat),
{
    lemma_fpow_1(a);
}

/// Each two-adic generator squares to the previous one.
pub proof fn lemma_generator_squares(b: nat)
    requires
        1 <= b <= 24,
    ensures
        (two_adic_generators()[b as int] as nat * two_adic_generators()[b as int] as nat) % (P as nat)
            == two_adic_generators()[b - 1] as nat,
{
    let g = two_adic_generators();
    if b == 1 { assert((0x7f000000nat * 0x7f000000nat) % 2130706433nat == 1nat); }
    else if b == 2 { assert((0x7e010002nat * 0x7e010002nat) % 2130706433nat == 0x7f000000nat); }
    else if b == 3 { assert((0x6832fe4anat * 0x6832fe4anat) % 2130706433nat == 0x7e010002nat); }
    else if b == 4 { assert((0x8dbd69cnat * 0x8dbd69cnat) % 2130706433nat == 0x6832fe4anat); }
    else if b == 5 { assert((0xa28f031nat * 0xa28f031nat) % 2130706433nat == 0x8dbd69cnat); }
    else if b == 6 { assert((0x5c4a5b99nat * 0x5c4a5b99nat) % 2130706433nat == 0xa28f031nat); }
    else if b == 7 { assert((0x29b75a80nat * 0x29b75a80nat) % 2130706433nat == 0x5c4a5b99nat); }
    else if b == 8 { assert((0x17668b8anat * 0x17668b8anat) % 2130706433nat == 0x29b75a80nat); }
    else if b == 9 { assert((0x27ad539bnat * 0x27ad539bnat) % 2130706433nat == 0x17668b8anat); }
    else if b == 10 { assert((0x334d48c7nat * 0x334d48c7nat) % 2130706433nat == 0x27ad539bnat); }
    else if b == 11 { assert((0x7744959cnat * 0x7744959cnat) % 2130706433nat == 0x334d48c7nat); }
    else if b == 12 { assert((0x768fc6fanat * 0x768fc6fanat) % 2130706433nat == 0x7744959cnat); }
    else if b == 13 { assert((0x303964b2nat * 0x303964b2nat) % 2130706433nat == 0x768fc6fanat); }
    else if b == 14 { assert((0x3e687d4dnat * 0x3e687d4dnat) % 2130706433nat == 0x303964b2nat); }
    else if b == 15 { assert((0x45a60e61nat * 0x45a60e61nat) % 2130706433nat == 0x3e687d4dnat); }
    else if b == 16 { assert((0x6e2f4d7anat * 0x6e2f4d7anat) % 2130706433nat == 0x45a60e61nat); }
    else if b == 17 { assert((0x163bd499nat * 0x163bd499nat) % 2130706433nat == 0x6e2f4d7anat); }
    else if b == 18 { assert((0x6c4a8a45nat * 0x6c4a8a45nat) % 2130706433nat == 0x163bd499nat); }
    else if b == 19 { assert((0x143ef899nat * 0x143ef899nat) % 2130706433nat == 0x6c4a8a45nat); }
    else if b == 20 { assert((0x514ddcadnat * 0x514ddcadnat) % 2130706433nat == 0x143ef899nat); }
    else if b == 21 { assert((0x484ef19bnat * 0x484ef19bnat) % 2130706433nat == 0x514ddcadnat); }
    else if b == 22 { assert((0x205d63c3nat * 0x205d63c3nat) % 2130706433nat == 0x484ef19bnat); }
    else if b == 23 { assert((0x68e7dd49nat * 0x68e7dd49nat) % 2130706433nat == 0x205d63c3nat); }
    else { assert((0x6ac49f88nat * 0x6ac49f88nat) % 2130706433nat == 0x68e7dd49nat); }
}

/// The generator of order `2^b` raised to `2^(b-1)` is `-1`, and raised to
/// `2^b` is one.
pub proof fn lemma_generator_order(b: nat)
    requires
        b <= 24,
    ensures
        fpow(two_adic_generators()[b as int] as nat, pow2(b)) == 1,
        b >= 1 ==> fpow(two_adic_generators()[b as int] as nat, pow2((b - 1) as nat)) == P - 1,
    decreases b,
{
    let g = two_adic_generators();
    crate::poly::lemma_generators_nonzero(b);
    if b == 0 {
        lemma_fpow_1(1);
    } else {
        lemma_generator_order((b - 1) as nat);
        crate::poly::lemma_generators_nonzero((b - 1) as nat);
        lemma_generator_squares(b);
        let x = g[b as int] as nat;
        lemma_fpow_2(x);
        // x^(2^b) = (x^2)^(2^(b-1)) = g[b-1]^(2^(b-1)) = 1
        lemma_fpow_mul(x, 2, pow2((b - 1) as nat));
        assert(pow2(b) == 2 * pow2((b - 1) as nat));
        if b >= 2 {
            lemma_fpow_mul(x, 2, pow2((b - 2) as nat));
            assert(pow2((b - 1) as nat) == 2 * pow2((b - 2) as nat));
        } else {
            lemma_fpow_1(x);
            assert(pow2(0) == 1);
        }
    }
}


/// `Σ_{t < len} a[t]·w^(t·k)` modulo `P`: entry `k` of the transform of the
/// first `len` values of `a` with root `w`.
pub open spec fn dsum(a: Seq<u32>, w: nat, k: nat, len: nat) -> nat
    decreases len,
{
    if len == 0 {
        0
    } else {
        (dsum(a, w, k, (len - 1) as nat) + (a[len - 1] as nat) * fpow(w, ((len - 1) * k) as nat))
            % (P as nat)
    }
}

/// The entries of `a` at even positions.
pub open spec fn evens(a: Seq<u32>) -> Seq<u32> {
    Seq::new(a.len() / 2, |i: int| a[2 * i])
}

/// The entries of `a` at odd positions.
pub open spec fn odds(a: Seq<u32>) -> Seq<u32> {
    Seq::new(a.len() / 2, |i: int| a[2 * i + 1])
}

/// `w` generates the subgroup of order `n`, a power of two: `w^n = 1` and,
/// for `n >= 2`, `w^(n/2) = -1`.
pub open spec fn is_root_of_order(w: nat, n: nat) -> bool {
    &&& w < P
    &&& fpow(w, n) == 1
    &&& n >= 2 ==> fpow(w, n / 2) == P - 1
}

proof fn lemma_mod_left(x: int, y: int)
    ensures
        ((x % (P as int)) + y) % (P as int) == (x + y) % (P as int),
{
    lemma_add_mod_noop(x, y, P as int);
    lemma_add_mod_noop(x % (P as int), y, P as int);
    lemma_mod_twice(x, P as int);
}

proof fn lemma_mod_inner(a: int, y: int, z: int)
    ensures
        (a + y * (z % (P as int))) % (P as int) == (a + y * z) % (P as int),
{
    lemma_add_mod_noop_right(a, y * (z % (P as int)), P as int);
    lemma_mul_mod_noop_right(y, z, P as int);
    lemma_add_mod_noop_right(a, y * z, P as int);
}

proof fn lemma_split_step(d0: int, e0: int, o0: int, x: int, y: int, t: int, wk: int)
    requires
        d0 == (e0 + wk * o0) % (P as int),
    ensures
        ((d0 + x * t) % (P as int) + y * ((wk * t) % (P as int))) % (P as int)
            == ((e0 + x * t) % (P as int) + wk * ((o0 + y * t) % (P as int))) % (P as int),
{
    let pp = P as int;
    lemma_mod_left(d0 + x * t, y * ((wk * t) % pp));
    lemma_mod_inner(d0 + x * t, y, wk * t);
    lemma_mod_left(e0 + wk * o0, x * t + y * (wk * t));
    assert(d0 + x * t + y * (wk * t) == d0 + (x * t + y * (wk * t)));
    lemma_mod_left(e0 + x * t, wk * ((o0 + y * t) % pp));
    lemma_mod_inner(e0 + x * t, wk, o0 + y * t);
    assert(e0 + wk * o0 + (x * t + y * (wk * t)) == e0 + x * t + wk * (o0 + y * t)) by (nonlinear_arith);
}

/// The even/odd split of the transform: the first `2j` terms of entry `k`
/// are the even part with root `w^2` plus `w^k` times the odd part.
#[verifier::spinoff_prover]
pub proof fn lemma_dsum_split(a: Seq<u32>, w: nat, k: nat, j: nat)
    requires
        2 * j <= a.len(),
    ensures
        dsum(a, w, k, 2 * j) == (dsum(evens(a), fpow(w, 2), k, j) + fpow(w, k) * dsum(
            odds(a),
            fpow(w, 2),
            k,
            j,
        )) % (P as nat),
    decreases j,
{
    if j > 0 {
        let jp = (j - 1) as nat;
        lemma_dsum_split(a, w, k, jp);
        let w2 = fpow(w, 2);
        let wk = fpow(w, k);
        let x = a[2 * jp as int] as nat;
        let y = a[2 * jp + 1 as int] as nat;
        let e2 = (2 * jp * k) as nat;
        let t = fpow(w, e2);
        assert(2 * (jp * k) == 2 * jp * k) by (nonlinear_arith);
        lemma_fpow_mul(w, 2, jp * k);
        assert(fpow(w2, jp * k) == t);
        assert((2 * jp + 1) * k == k + 2 * jp * k) by (nonlinear_arith);
        lemma_fpow_add(w, k, e2);
        assert(fpow(w, ((2 * jp + 1) * k) as nat) == (wk * t) % (P as nat));
        assert(evens(a)[jp as int] == a[2 * jp as int]);
        assert(odds(a)[jp as int] == a[2 * jp + 1 as int]);
        assert(dsum(a, w, k, 2 * jp + 1) == (dsum(a, w, k, 2 * jp) + x * t) % (P as nat));
        assert(dsum(a, w, k, 2 * j) == (dsum(a, w, k, 2 * jp + 1) + y * ((wk * t) % (P as nat)))
            % (P as nat));
        assert(dsum(evens(a), w2, k, j) == (dsum(evens(a), w2, k, jp) + x * t) % (P as nat));
        assert(dsum(odds(a), w2, k, j) == (dsum(odds(a), w2, k, jp) + y * t) % (P as nat));
        lemma_split_step(
            dsum(a, w, k, 2 * jp) as int,
            dsum(evens(a), w2, k, jp) as int,
            dsum(odds(a), w2, k, jp) as int,
            x as int,
            y as int,
            t as int,
            wk as int,
        );
        assert(dsum(a, w, k, 2 * j) == (dsum(evens(a), w2, k, j) + wk * dsum(odds(a), w2, k, j)) % (P as nat));
    } else {
        assert(dsum(a, w, k, 0) == 0);
        assert(dsum(evens(a), fpow(w, 2), k, 0) == 0);
        assert(dsum(odds(a), fpow(w, 2), k, 0) == 0);
    }
}

/// With `v^m = 1` the transform entries repeat with period `m`.
pub proof fn lemma_dsum_period(a: Seq<u32>, v: nat, k: nat, m: nat, len: nat)
    requires
        fpow(v, m) == 1,
    ensures
        dsum(a, v, k + m, len) == dsum(a, v, k, len),
    decreases len,
{
    if len > 0 {
        lemma_dsum_period(a, v, k, m, (len - 1) as nat);
        let t = (len - 1) as nat;
        assert(t * (k + m) == t * k + m * t) by (nonlinear_arith);
        lemma_fpow_add(v, t * k, m * t);
        lemma_fpow_mul(v, m, t);
        lemma_fpow_one(t);
        lemma_fpow_range(v, t * k);
        lemma_small_mod(fpow(v, t * k), P as nat);
        assert(fpow(v, (t * (k + m)) as nat) == fpow(v, t * k));
    }
}

/// One butterfly: the two outputs at `k` and `k + m` from the even and odd
/// transforms at `k`.
pub proof fn lemma_butterfly(a: Seq<u32>, w: nat, k: nat, m: nat, e: nat, o: nat)
    requires
        a.len() == 2 * m,
        k < m,
        fpow(w, m) == P - 1,
        fpow(fpow(w, 2), m) == 1,
        e == dsum(evens(a), fpow(w, 2), k, m),
        o == dsum(odds(a), fpow(w, 2), k, m),
    ensures
        (e + (o * fpow(w, k)) % (P as nat)) % (P as nat) == dsum(a, w, k, 2 * m),
        (e - (o * fpow(w, k)) as int % (P as int)) % (P as int) == dsum(a, w, k + m, 2 * m),
{
    let pp = P as int;
    let wk = fpow(w, k);
    lemma_dsum_split(a, w, k, m);
    lemma_add_mod_noop_right(e as int, (o * wk) as int, pp);
    assert(o * wk == wk * o);
    lemma_dsum_split(a, w, k + m, m);
    lemma_dsum_period(evens(a), fpow(w, 2), k, m, m);
    lemma_dsum_period(odds(a), fpow(w, 2), k, m, m);
    lemma_fpow_add(w, k, m);
    // w^(k+m) = wk·(P-1) reduced
    let c = (wk * (P - 1)) as int;
    assert(fpow(w, k + m) == c % pp);
    vstd::arithmetic::mul::lemma_mul_is_commutative(c % pp, o as int);
    lemma_mod_inner(e as int, o as int, c);
    assert(o * c == pp * (wk * o) + (- (wk * o))) by (nonlinear_arith)
        requires
            c == wk * (pp - 1),
    ;
    lemma_mod_multiples_vanish((wk * o) as int, e - wk * o, pp);
    assert(e + o * c == pp * (wk * o) + (e - wk * o));
    lemma_sub_mod_noop_right(e as int, (o * wk) as int, pp);
}

/// The transform by even/odd recursion; when `w` generates the subgroup of
/// order `n`, entry `k` of the result is `dsum(a, w, k, n)`.
pub fn transform(a: &Vec<u32>, w: u32) -> (r: Vec<u32>)
    requires
        is_pow2(a.len() as nat),
        all_fe(a@),
        w < P,
    ensures
        r.len() == a.len(),
        all_fe(r@),
        is_root_of_order(w as nat, a.len() as nat) ==> forall|k: int|
            0 <= k < a.len() ==> r@[k] == dsum(a@, w as nat, k as nat, a.len() as nat),
    decreases a.len(),
{
    let n = a.len();
    if n == 1 {
        let mut r: Vec<u32> = Vec::new();
        r.push(a[0]);
        proof {
            assert(r@[0] == a@[0]);
            assert(dsum(a@, w as nat, 0, 0) == 0);
            assert(dsum(a@, w as nat, 0, 1) == (0 + (a@[0] as nat) * fpow(w as nat, 0)) % (P as nat));
            lemma_small_mod(a@[0] as nat, P as nat);
            assert(fpow(w as nat, 0) == 1);
            assert((a@[0] as nat) * 1 == a@[0] as nat);
            assert(dsum(a@, w as nat, 0, 1) == a@[0]);
            assert forall|k: int| 0 <= k < a.len() implies r@[k] == dsum(a@, w as nat, k as nat, a.len() as nat) by {
                assert(k == 0);
                assert(a.len() as nat == 1);
            }
        }
        return r;
    }
    let m = n / 2;
    let mut ev: Vec<u32> = Vec::new();
    let mut od: Vec<u32> = Vec::new();
    let mut i: usize = 0;
    while i < m
        invariant
            i <= m,
            m == n / 2,
            n == a.len(),
            n >= 2,
            ev.len() == i,
            od.len() == i,
            forall|j: int| 0 <= j < i ==> #[trigger] ev@[j] == a@[2 * j],
            forall|j: int| 0 <= j < i ==> #[trigger] od@[j] == a@[2 * j + 1],
        decreases m - i,
    {
        ev.push(a[2 * i]);
        od.push(a[2 * i + 1]);
        i = i + 1;
    }
    assert(ev@ =~= evens(a@));
    assert(od@ =~= odds(a@));
    let w2 = f_mul(w, w);
    let ghost ok = is_root_of_order(w as nat, n as nat);
    proof {
        assert(n % 2 == 0 && is_pow2(m as nat));
        assert(m + m == n);
        lemma_fpow_2(w as nat);
        assert(2 * m == n);
        if ok {
            lemma_square_root_order(w as nat, n as nat);
        }
        assert forall|j: int| 0 <= j < m implies #[trigger] ev@[j] < P && od@[j] < P by {
            assert(a@[2 * j] < P);
            assert(a@[2 * j + 1] < P);
        }
    }
    let e = transform(&ev, w2);
    let o = transform(&od, w2);
    let mut lo: Vec<u32> = Vec::new();
    let mut hi: Vec<u32> = Vec::new();
    let mut tw: u32 = 1;
    let mut k: usize = 0;
    while k < m
        invariant
            k <= m,
            n == a.len(),
            n == 2 * m,
            w < P,
            w2 as nat == fpow(w as nat, 2),
            ok == is_root_of_order(w as nat, n as nat),
            ok ==> fpow(w as nat, m as nat) == P - 1,
            ok ==> fpow(w2 as nat, m as nat) == 1,
            e.len() == m,
            o.len() == m,
            all_fe(e@),
            all_fe(o@),
            ok ==> forall|j: int| 0 <= j < m ==> e@[j] == dsum(evens(a@), w2 as nat, j as nat, m as nat),
            ok ==> forall|j: int| 0 <= j < m ==> o@[j] == dsum(odds(a@), w2 as nat, j as nat, m as nat),
            tw < P,
            tw == fpow(w as nat, k as nat),
            lo.len() == k,
            hi.len() == k,
            forall|j: int| 0 <= j < k ==> #[trigger] lo@[j] < P,
            forall|j: int| 0 <= j < k ==> #[trigger] hi@[j] < P,
            ok ==> forall|j: int| 0 <= j < k ==> #[trigger] lo@[j] == dsum(a@, w as nat, j as nat, n as nat),
            ok ==> forall|j: int| 0 <= j < k ==> #[trigger] hi@[j] == dsum(a@, w as nat, (j + m) as nat, n as nat),
        decreases m - k,
    {
        let even = e[k];
        let odd = f_mul(o[k], tw);
        proof {
            if ok {
                lemma_butterfly(a@, w as nat, k as nat, m as nat, even as nat, o@[k as int] as nat);
            }
        }
        lo.push(f_add(even, odd));
        hi.push(f_sub(even, odd));
        let next = f_mul(tw, w);
        proof {
            assert(fpow(w as nat, (k + 1) as nat) == ((w as nat) * fpow(w as nat, k as nat)) % (P as nat));
            assert(tw * w == w * tw);
        }
        tw = next;
        k = k + 1;
    }
    let ghost lo_s = lo@;
    let ghost hi_s = hi@;
    lo.append(&mut hi);
    proof {
        if ok {
            assert forall|j: int| 0 <= j < n implies lo@[j] == dsum(a@, w as nat, j as nat, n as nat) by {
                if j >= m {
                    let jj = j - m;
                    assert(lo@[j] == hi_s[jj]);
                    assert((jj + m) as nat == j as nat);
                }
            }
        }
        assert forall|j: int| 0 <= j < n implies #[trigger] lo@[j] < P by {
            if j >= m {
                assert(lo@[j] == hi_s[j - m]);
            }
        }
    }
    lo
}

/// A power of two of at least two is even.
pub proof fn lemma_pow2_even(n: nat)
    requires
        is_pow2(n),
        n >= 2,
    ensures
        n % 2 == 0,
{
}


/// The fixed generator of the subgroup of order `n`.
pub open spec fn subgroup_root(n: nat) -> nat {
    two_adic_generators()[log2(n) as int] as nat
}

/// The inverse of the generator of the subgroup of order `n`.
pub open spec fn inverse_subgroup_root(n: nat) -> nat {
    base_inverse(two_adic_generators()[log2(n) as int]) as nat
}

/// The inverse of `n` in the field, for `n < P`.
pub open spec fn inverse_length(n: nat) -> nat {
    base_inverse(n as u32) as nat
}

/// The table generator for `n = 2^b` has order exactly `n`.
pub proof fn lemma_subgroup_root(n: nat)
    requires
        is_pow2(n),
        log2(n) <= 24,
    ensures
        is_root_of_order(subgroup_root(n), n),
{
    let b = log2(n);
    crate::merkle::lemma_pow2_log2(n);
    crate::poly::lemma_generators_nonzero(b);
    lemma_generator_order(b);
    if n >= 2 {
        assert(b >= 1);
        assert(pow2(b) == 2 * pow2((b - 1) as nat));
        assert(n / 2 == pow2((b - 1) as nat));
    }
}

/// Powers of mutually inverse elements are mutually inverse.
pub proof fn lemma_fpow_inverse(a: nat, b: nat, e: nat)
    requires
        (a * b) % (P as nat) == 1,
    ensures
        (fpow(a, e) * fpow(b, e)) % (P as nat) == 1,
    decreases e,
{
    let pp = P as int;
    if e > 0 {
        let ep = (e - 1) as nat;
        lemma_fpow_inverse(a, b, ep);
        let x = fpow(a, ep);
        let y = fpow(b, ep);
        // ((a x) % P) * ((b y) % P) ≡ (a b) (x y) ≡ 1
        vstd::arithmetic::div_mod::lemma_mul_mod_noop((a * x) as int, (b * y) as int, pp);
        assert((a * x) * (b * y) == (a * b) * (x * y)) by (nonlinear_arith);
        vstd::arithmetic::div_mod::lemma_mul_mod_noop((a * b) as int, (x * y) as int, pp);
        assert(1int * 1int == 1);
        lemma_small_mod(1, P as nat);
    } else {
        lemma_small_mod(1, P as nat);
    }
}

/// The inverse of a root of order `n` is a root of order `n`.
pub proof fn lemma_inverse_root(a: nat, b: nat, n: nat)
    requires
        is_root_of_order(a, n),
        b < P,
        (a * b) % (P as nat) == 1,
    ensures
        is_root_of_order(b, n),
{
    let pp = P as int;
    lemma_fpow_inverse(a, b, n);
    lemma_fpow_range(b, n);
    assert(1 * fpow(b, n) == fpow(b, n));
    lemma_small_mod(fpow(b, n), P as nat);
    if n >= 2 {
        let x = fpow(b, n / 2);
        lemma_fpow_inverse(a, b, n / 2);
        lemma_fpow_range(b, n / 2);
        // ((P - 1) x) % P == 1 forces x == P - 1
        assert((pp - 1) * x == pp * x + (-(x as int))) by (nonlinear_arith);
        lemma_mod_multiples_vanish(x as int, -(x as int), pp);
        if x == 0 {
            assert((pp - 1) * x == 0) by (nonlinear_arith)
                requires
                    x == 0,
            ;
        } else {
            vstd::arithmetic::div_mod::lemma_mod_add_multiples_vanish(-(x as int), pp);
            lemma_small_mod((pp - x) as nat, P as nat);
        }
    }
}


/// `Σ_{t < len} c[t]·x^t` modulo `P`: the polynomial with coefficients `c`
/// evaluated at `x`.
pub open spec fn peval(c: Seq<u32>, x: nat, len: nat) -> nat
    decreases len,
{
    if len == 0 {
        0
    } else {
        (peval(c, x, (len - 1) as nat) + (c[len - 1] as nat) * fpow(x, (len - 1) as nat)) % (P as nat)
    }
}

/// Entry `k` of the transform with root `w` is the evaluation at `w^k`.
pub proof fn lemma_dsum_eval(a: Seq<u32>, w: nat, k: nat, len: nat)
    ensures
        dsum(a, w, k, len) == peval(a, fpow(w, k), len),
    decreases len,
{
    if len > 0 {
        lemma_dsum_eval(a, w, k, (len - 1) as nat);
        let t = (len - 1) as nat;
        lemma_fpow_mul(w, k, t);
        assert(t * k == k * t) by (nonlinear_arith);
    }
}

/// Evaluations are canonical.
pub proof fn lemma_peval_range(c: Seq<u32>, x: nat, len: nat)
    ensures
        peval(c, x, len) < P,
{
}

/// Polynomials that agree on their first `len` coefficients agree.
pub proof fn lemma_peval_agree(a: Seq<u32>, b: Seq<u32>, x: nat, len: nat)
    requires
        forall|t: int| 0 <= t < len ==> a[t] == b[t],
    ensures
        peval(a, x, len) == peval(b, x, len),
    decreases len,
{
    if len > 0 {
        lemma_peval_agree(a, b, x, (len - 1) as nat);
        assert(a[len - 1] == b[len - 1]);
    }
}

/// Zero coefficients past `j` do not change the value.
pub proof fn lemma_peval_zero_tail(a: Seq<u32>, x: nat, j: nat, len: nat)
    requires
        j <= len,
        forall|t: int| j <= t < len ==> a[t] == 0,
    ensures
        peval(a, x, len) == peval(a, x, j),
    decreases len,
{
    if len > j {
        lemma_peval_zero_tail(a, x, j, (len - 1) as nat);
        assert(a[len - 1] == 0);
        lemma_peval_range(a, x, (len - 1) as nat);
        lemma_small_mod(peval(a, x, (len - 1) as nat), P as nat);
        assert((a[len - 1] as nat) * fpow(x, (len - 1) as nat) == 0);
    }
}


/// `Σ_{i < len} f(i)` over the integers.
pub open spec fn isum(f: spec_fn(int) -> int, len: nat) -> int
    decreases len,
{
    if len == 0 {
        0
    } else {
        isum(f, (len - 1) as nat) + f(len - 1)
    }
}

/// `t ↦ f(t, k)`.
pub open spec fn row_of(f: spec_fn(int, int) -> int, k: int) -> spec_fn(int) -> int {
    |t: int| f(t, k)
}

/// `k ↦ f(t, k)`.
pub open spec fn col_of(f: spec_fn(int, int) -> int, t: int) -> spec_fn(int) -> int {
    |k: int| f(t, k)
}

/// `k ↦ Σ_{t < len} f(t, k)`.
pub open spec fn sum_rows(f: spec_fn(int, int) -> int, len: nat) -> spec_fn(int) -> int {
    |k: int| isum(row_of(f, k), len)
}

/// `t ↦ Σ_{k < len} f(t, k)`.
pub open spec fn sum_cols(f: spec_fn(int, int) -> int, len: nat) -> spec_fn(int) -> int {
    |t: int| isum(col_of(f, t), len)
}

/// Sums of pointwise equal terms are equal.
pub proof fn lemma_isum_ext(f: spec_fn(int) -> int, g: spec_fn(int) -> int, len: nat)
    requires
        forall|i: int| 0 <= i < len ==> #[trigger] f(i) == g(i),
    ensures
        isum(f, len) == isum(g, len),
    decreases len,
{
    if len > 0 {
        lemma_isum_ext(f, g, (len - 1) as nat);
    }
}

/// Sums of pointwise congruent terms are congruent modulo `P`.
pub proof fn lemma_isum_cong(f: spec_fn(int) -> int, g: spec_fn(int) -> int, len: nat)
    requires
        forall|i: int| 0 <= i < len ==> #[trigger] f(i) % (P as int) == g(i) % (P as int),
    ensures
        isum(f, len) % (P as int) == isum(g, len) % (P as int),
    decreases len,
{
    if len > 0 {
        let l = (len - 1) as nat;
        lemma_isum_cong(f, g, l);
        assert(f(l as int) % (P as int) == g(l as int) % (P as int));
        lemma_add_mod_noop(isum(f, l), f(l as int), P as int);
        lemma_add_mod_noop(isum(g, l), g(l as int), P as int);
    }
}

/// The sum of pointwise sums is the sum of the sums.
pub proof fn lemma_isum_add(f: spec_fn(int) -> int, g: spec_fn(int) -> int, h: spec_fn(int) -> int, len: nat)
    requires
        forall|i: int| 0 <= i < len ==> #[trigger] h(i) == f(i) + g(i),
    ensures
        isum(h, len) == isum(f, len) + isum(g, len),
    decreases len,
{
    if len > 0 {
        lemma_isum_add(f, g, h, (len - 1) as nat);
        assert(h(len - 1) == f(len - 1) + g(len - 1));
    }
}

/// A constant factor comes out of a sum.
pub proof fn lemma_isum_scale(f: spec_fn(int) -> int, g: spec_fn(int) -> int, c: int, len: nat)
    requires
        forall|i: int| 0 <= i < len ==> #[trigger] g(i) == c * f(i),
    ensures
        isum(g, len) == c * isum(f, len),
    decreases len,
{
    if len > 0 {
        let l = (len - 1) as nat;
        lemma_isum_scale(f, g, c, l);
        assert(g(l as int) == c * f(l as int));
        lemma_mul_is_distributive_add(c, isum(f, l), f(l as int));
    }
}

/// A sum over `m + len` terms splits after the first `m`.
pub proof fn lemma_isum_concat(f: spec_fn(int) -> int, g: spec_fn(int) -> int, m: nat, len: nat)
    requires
        forall|i: int| 0 <= i < len ==> #[trigger] g(i) == f(i + m),
    ensures
        isum(f, m + len) == isum(f, m) + isum(g, len),
    decreases len,
{
    if len > 0 {
        let l = (len - 1) as nat;
        lemma_isum_concat(f, g, m, l);
        assert(g(l as int) == f(l + m as int));
        assert((m + len - 1) as nat == m + l);
    }
}

/// A sum whose terms vanish but at `s` is its term at `s`.
pub proof fn lemma_isum_single(f: spec_fn(int) -> int, s: int, len: nat)
    requires
        0 <= s < len,
        forall|i: int| 0 <= i < len && i != s ==> #[trigger] f(i) == 0,
    ensures
        isum(f, len) == f(s),
    decreases len,
{
    if len > 0 {
        let l = (len - 1) as nat;
        if s < l {
            lemma_isum_single(f, s, l);
            assert(f(l as int) == 0);
        } else {
            lemma_isum_zero(f, l);
        }
    }
}

/// A sum of zeros is zero.
pub proof fn lemma_isum_zero(f: spec_fn(int) -> int, len: nat)
    requires
        forall|i: int| 0 <= i < len ==> #[trigger] f(i) == 0,
    ensures
        isum(f, len) == 0,
    decreases len,
{
    if len > 0 {
        lemma_isum_zero(f, (len - 1) as nat);
        assert(f(len - 1) == 0);
    }
}

/// Finite double sums may be taken in either order.
pub proof fn lemma_isum_swap(f: spec_fn(int, int) -> int, rows: nat, cols: nat)
    ensures
        isum(sum_rows(f, rows), cols) == isum(sum_cols(f, cols), rows),
    decreases cols,
{
    if cols == 0 {
        assert forall|t: int| 0 <= t < rows implies #[trigger] sum_cols(f, 0)(t) == 0 by {
            assert(isum(col_of(f, t), 0) == 0);
        }
        lemma_isum_zero(sum_cols(f, 0), rows);
    } else {
        let c = (cols - 1) as nat;
        lemma_isum_swap(f, rows, c);
        assert(sum_rows(f, rows)(c as int) == isum(row_of(f, c as int), rows));
        assert forall|t: int| 0 <= t < rows implies #[trigger] sum_cols(f, cols)(t) == sum_cols(f, c)(t) + row_of(f, c as int)(t) by {
            assert(isum(col_of(f, t), cols) == isum(col_of(f, t), c) + col_of(f, t)(c as int));
        }
        lemma_isum_add(sum_cols(f, c), row_of(f, c as int), sum_cols(f, cols), rows);
    }
}


/// `i ↦ f(i + m)`.
pub open spec fn shifted(f: spec_fn(int) -> int, m: nat) -> spec_fn(int) -> int {
    |i: int| f(i + m)
}

/// `k ↦ w^(k·j)`.
pub open spec fn geo(w: nat, j: nat) -> spec_fn(int) -> int {
    |k: int| fpow(w, (k * j) as nat) as int
}

/// The square of a root of order `n >= 2` is a root of order `n / 2`.
pub proof fn lemma_square_root_order(w: nat, n: nat)
    requires
        is_pow2(n),
        n >= 2,
        is_root_of_order(w, n),
    ensures
        is_pow2(n / 2),
        n == 2 * (n / 2),
        is_root_of_order(fpow(w, 2), n / 2),
{
    let m = n / 2;
    lemma_fpow_range(w, 2);
    lemma_fpow_mul(w, 2, m);
    if m >= 2 {
        lemma_pow2_even(m);
        lemma_fpow_mul(w, 2, m / 2);
        assert(2 * (m / 2) == m);
    }
}

/// `(-1)^j` is `1` for even `j` and `-1` for odd `j`.
pub proof fn lemma_fpow_minus_one(j: nat)
    ensures
        fpow((P - 1) as nat, j) == if j % 2 == 0 { 1 } else { P - 1 },
    decreases j,
{
    if j > 0 {
        lemma_fpow_minus_one((j - 1) as nat);
        if (j - 1) as nat % 2 == 0 {
            assert(((P - 1) as nat * 1nat) % (P as nat) == P - 1);
        } else {
            assert((2130706432nat * 2130706432nat) % 2130706433nat == 1nat);
        }
    }
}

/// Geometric sums over the subgroup of order `n`: `Σ_{k<n} w^(k·j)` is `n`
/// when `n` divides `j` and `0` otherwise.
pub proof fn lemma_geometric(w: nat, n: nat, j: nat)
    requires
        is_pow2(n),
        is_root_of_order(w, n),
    ensures
        isum(geo(w, j), n) % (P as int) == (if j % n == 0 { n as int } else { 0 }) % (P as int),
    decreases n,
{
    let pp = P as int;
    let f = geo(w, j);
    if n == 1 {
        assert(isum(f, 0) == 0);
        assert(f(0) == fpow(w, 0) as int);
        assert(isum(f, 1) == 1);
    } else {
        let m = n / 2;
        lemma_square_root_order(w, n);
        lemma_isum_concat(f, shifted(f, m), m, m);
        assert(m + m == n);
        let s = fpow(w, m * j);
        lemma_fpow_mul(w, m, j);
        lemma_fpow_minus_one(j);
        assert forall|k: int| 0 <= k < m implies #[trigger] shifted(f, m)(k) == ((f(k) * s) % pp) by {
            assert((k + m) * j == k * j + m * j) by (nonlinear_arith);
            lemma_fpow_add(w, (k * j) as nat, m * j);
            assert(((k + m) * j) as nat == (k * j) as nat + m * j);
        }
        if j % 2 == 1 {
            assert(s == P - 1);
            let g = |k: int| (pp - 1) * f(k);
            assert forall|k: int| 0 <= k < m implies #[trigger] shifted(f, m)(k) % pp == g(k) % pp by {
                lemma_mod_twice(f(k) * s, pp);
            }
            lemma_isum_cong(shifted(f, m), g, m);
            lemma_isum_scale(f, g, pp - 1, m);
            assert(isum(f, m) + (pp - 1) * isum(f, m) == pp * isum(f, m) + 0) by (nonlinear_arith);
            lemma_add_mod_noop(isum(f, m), isum(shifted(f, m), m), pp);
            lemma_add_mod_noop(isum(f, m), (pp - 1) * isum(f, m), pp);
            lemma_mod_multiples_vanish(isum(f, m), 0, pp);
            assert(j % n != 0) by {
                vstd::arithmetic::div_mod::lemma_mod_mod(j as int, 2, m as int);
                assert(n == 2 * m);
            }
        } else {
            assert(s == 1);
            assert forall|k: int| 0 <= k < m implies #[trigger] shifted(f, m)(k) == f(k) by {
                lemma_fpow_range(w, (k * j) as nat);
                lemma_small_mod(fpow(w, (k * j) as nat), P as nat);
            }
            lemma_isum_ext(shifted(f, m), f, m);
            let jj = j / 2;
            let w2 = fpow(w, 2);
            assert forall|k: int| 0 <= k < m implies #[trigger] f(k) == geo(w2, jj)(k) by {
                assert(k * j == 2 * (k * jj)) by (nonlinear_arith)
                    requires
                        j == 2 * jj,
                ;
                lemma_fpow_mul(w, 2, (k * jj) as nat);
            }
            lemma_isum_ext(f, geo(w2, jj), m);
            lemma_geometric(w2, m, jj);
            let x = isum(f, m);
            lemma_add_mod_noop(x, x, pp);
            if jj % m == 0 {
                assert(j % n == 0) by {
                    assert(j == 2 * jj);
                    vstd::arithmetic::div_mod::lemma_fundamental_div_mod(jj as int, m as int);
                    let q = jj as int / m as int;
                    assert(j == n * q) by (nonlinear_arith)
                        requires
                            j == 2 * jj,
                            jj == m * q + 0,
                            n == 2 * m,
                    ;
                    vstd::arithmetic::div_mod::lemma_mod_multiples_basic(q, n as int);
                    assert(q * n == n * q) by (nonlinear_arith);
                }
                lemma_add_mod_noop(m as int, m as int, pp);
            } else {
                assert(j % n != 0) by {
                    if j % n == 0 {
                        vstd::arithmetic::div_mod::lemma_fundamental_div_mod(j as int, n as int);
                        let q = j as int / n as int;
                        assert(jj == m * q) by (nonlinear_arith)
                            requires
                                j == 2 * jj,
                                j == n * q + 0,
                                n == 2 * m,
                        ;
                        vstd::arithmetic::div_mod::lemma_mod_multiples_basic(q, m as int);
                        assert(q * m == m * q) by (nonlinear_arith);
                    }
                }
            }
        }
    }
}


/// The transform of `a` with root `w`, as field elements.
pub open spec fn dft(a: Seq<u32>, w: nat) -> Seq<u32> {
    Seq::new(a.len(), |k: int| dsum(a, w, k as nat, a.len()) as u32)
}

/// `t ↦ a[t]·w^(t·k)`.
pub open spec fn dterms(a: Seq<u32>, w: nat, k: nat) -> spec_fn(int) -> int {
    |t: int| (a[t] as int) * (fpow(w, (t * k) as nat) as int)
}

/// `i ↦ c·f(i)`.
pub open spec fn scaled(f: spec_fn(int) -> int, c: int) -> spec_fn(int) -> int {
    |i: int| c * f(i)
}

/// `(t, k) ↦ a[t]·w^(t·k)·v^(k·s)`.
pub open spec fn inv_kernel(a: Seq<u32>, w: nat, v: nat, s: nat) -> spec_fn(int, int) -> int {
    |t: int, k: int| (a[t] as int) * (fpow(w, (t * k) as nat) as int) * (fpow(v, (k * s) as nat) as int)
}

/// `t ↦ a[t]·n` at `t = s`, zero elsewhere.
pub open spec fn spike(a: Seq<u32>, s: nat, n: nat) -> spec_fn(int) -> int {
    |t: int| if t == s { (a[t] as int) * (n as int) } else { 0 }
}

/// `dsum` is the integer sum of its terms, reduced.
pub proof fn lemma_dsum_isum(a: Seq<u32>, w: nat, k: nat, len: nat)
    ensures
        dsum(a, w, k, len) == isum(dterms(a, w, k), len) % (P as int),
    decreases len,
{
    if len > 0 {
        let l = (len - 1) as nat;
        lemma_dsum_isum(a, w, k, l);
        lemma_mod_left(isum(dterms(a, w, k), l), dterms(a, w, k)(l as int));
        assert(((len - 1) * k) as nat == (l * k) as nat);
    }
}

/// The transform is canonical.
pub proof fn lemma_dsum_range(a: Seq<u32>, w: nat, k: nat, len: nat)
    ensures
        dsum(a, w, k, len) < P,
{
}

/// With `w^n = 1` and `v` inverse to `w`, `v^s = w^(n-s)`.
pub proof fn lemma_inverse_power(w: nat, v: nat, n: nat, s: nat)
    requires
        w < P,
        v < P,
        fpow(w, n) == 1,
        (w * v) % (P as nat) == 1,
        s <= n,
    ensures
        fpow(v, s) == fpow(w, (n - s) as nat),
{
    let pp = P as int;
    let z = fpow(w, s);
    let x = fpow(v, s);
    let y = fpow(w, (n - s) as nat);
    lemma_fpow_inverse(w, v, s);
    lemma_fpow_add(w, (n - s) as nat, s);
    assert((n - s) as nat + s == n);
    lemma_fpow_range(v, s);
    lemma_fpow_range(w, (n - s) as nat);
    lemma_mul_mod_noop_right(x as int, (y * z) as int, pp);
    lemma_small_mod(x, P as nat);
    assert(x * 1 == x);
    assert(x * (y * z) == y * (z * x)) by (nonlinear_arith);
    lemma_mul_mod_noop_right(y as int, (z * x) as int, pp);
    assert(z * x == x * z) by (nonlinear_arith);
    lemma_small_mod(y, P as nat);
    assert(y * 1 == y);
}

/// Transforming with a root `w` of order `n`, then with its inverse, and
/// scaling by `1/n` gives back every input entry.
pub proof fn lemma_inverse_transform(a: Seq<u32>, w: nat, v: nat, ni: nat, s: nat)
    requires
        is_pow2(a.len()),
        all_fe(a),
        is_root_of_order(w, a.len()),
        v < P,
        (w * v) % (P as nat) == 1,
        (a.len() * ni) % (P as nat) == 1,
        s < a.len(),
    ensures
        (dsum(dft(a, w), v, s, a.len()) * ni) % (P as nat) == a[s as int],
{
    let pp = P as int;
    let n = a.len();
    let big_a = dft(a, w);
    let f = inv_kernel(a, w, v, s);
    lemma_dsum_isum(big_a, v, s, n);
    // each outer term is a row sum of the kernel
    assert forall|k: int| 0 <= k < n implies #[trigger] dterms(big_a, v, s)(k) % pp == sum_rows(f, n)(k) % pp by {
        let c = fpow(v, (k * s) as nat) as int;
        lemma_dsum_isum(a, w, k as nat, n);
        lemma_dsum_range(a, w, k as nat, n);
        assert(big_a[k] as int == isum(dterms(a, w, k as nat), n) % pp);
        assert forall|t: int| 0 <= t < n implies #[trigger] row_of(f, k)(t) == c * dterms(a, w, k as nat)(t) by {
            let x = a[t] as int;
            let y = fpow(w, (t * k) as nat) as int;
            assert(x * y * c == c * (x * y)) by (nonlinear_arith);
            assert((t * (k as nat)) as nat == (t * k) as nat);
        }
        lemma_isum_scale(dterms(a, w, k as nat), row_of(f, k), c, n);
        lemma_mul_mod_noop_left(isum(dterms(a, w, k as nat), n), c, pp);
        assert(isum(dterms(a, w, k as nat), n) * c == c * isum(dterms(a, w, k as nat), n)) by (nonlinear_arith);
    }
    lemma_isum_cong(dterms(big_a, v, s), sum_rows(f, n), n);
    lemma_isum_swap(f, n, n);
    // each inner column sum is a geometric sum
    assert forall|t: int| 0 <= t < n implies #[trigger] sum_cols(f, n)(t) % pp == spike(a, s, n)(t) % pp by {
        let at = a[t] as int;
        let j = (t + n - s) as nat;
        assert forall|k: int| 0 <= k < n implies #[trigger] col_of(f, t)(k) % pp == scaled(geo(w, j), at)(k) % pp by {
            let q = fpow(w, (t * k) as nat);
            lemma_fpow_mul(v, s, k as nat);
            assert((k * s) as nat == s * (k as nat)) by (nonlinear_arith)
                requires
                    k >= 0,
            ;
            lemma_inverse_power(w, v, n, s);
            lemma_fpow_mul(w, (n - s) as nat, k as nat);
            let r = fpow(w, ((n - s) as nat * (k as nat)) as nat);
            assert(fpow(v, (k * s) as nat) == r);
            lemma_fpow_add(w, (t * k) as nat, ((n - s) as nat * (k as nat)) as nat);
            assert((k * j) as nat == (t * k) as nat + ((n - s) as nat * (k as nat)) as nat) by (nonlinear_arith)
                requires
                    j == t + n - s,
                    0 <= t,
                    0 <= k,
                    s <= n,
            ;
            assert(geo(w, j)(k) == ((q * r) % (P as nat)) as int);
            assert(col_of(f, t)(k) == at * (q as int) * (r as int));
            assert(at * (q as int) * (r as int) == at * ((q * r) as int)) by (nonlinear_arith);
            lemma_mul_mod_noop_right(at, (q * r) as int, pp);
        }
        lemma_isum_cong(col_of(f, t), scaled(geo(w, j), at), n);
        lemma_isum_scale(geo(w, j), scaled(geo(w, j), at), at, n);
        lemma_geometric(w, n, j);
        lemma_mul_mod_noop_right(at, isum(geo(w, j), n), pp);
        let e = if j % n == 0 { n as int } else { 0 };
        lemma_mul_mod_noop_right(at, e, pp);
        if t == s {
            assert(j == n);
            vstd::arithmetic::div_mod::lemma_mod_self_0(n as int);
        } else {
            assert(j % n != 0) by {
                if t < s {
                    lemma_small_mod(j, n);
                } else {
                    vstd::arithmetic::div_mod::lemma_mod_add_multiples_vanish((t - s) as int, n as int);
                    lemma_small_mod((t - s) as nat, n);
                    assert(j == n + (t - s));
                }
            }
            assert(at * 0 == 0);
        }
    }
    lemma_isum_cong(sum_cols(f, n), spike(a, s, n), n);
    lemma_isum_single(spike(a, s, n), s as int, n);
    // (a_s·n reduced)·(1/n) is a_s
    let x = isum(dterms(big_a, v, s), n);
    let as_ = a[s as int] as int;
    assert(x % pp == (as_ * n) % pp);
    lemma_mul_mod_noop_left(x, ni as int, pp);
    lemma_mul_mod_noop_left(as_ * n, ni as int, pp);
    assert((as_ * n) * ni == as_ * (n * ni)) by (nonlinear_arith);
    lemma_mul_mod_noop_right(as_, (n * ni) as int, pp);
    assert(as_ * 1 == as_);
    lemma_small_mod(as_ as nat, P as nat);
}


/// `d ↦ c[d]·x^d`.
pub open spec fn pterms(c: Seq<u32>, x: nat) -> spec_fn(int) -> int {
    |d: int| (c[d] as int) * (fpow(x, d as nat) as int)
}

/// `j ↦ a[j]·b[d - j]` where `b[d - j]` exists, else zero.
pub open spec fn convterms(a: Seq<u32>, b: Seq<u32>, d: int) -> spec_fn(int) -> int {
    |j: int| if 0 <= d - j < b.len() { a[j] * b[d - j] } else { 0int }
}

/// `(i, d) ↦ a[i]·b[d - i]·x^d` where `b[d - i]` exists, else zero.
pub open spec fn prod_kernel(a: Seq<u32>, b: Seq<u32>, x: nat) -> spec_fn(int, int) -> int {
    |i: int, d: int| convterms(a, b, d)(i) * (fpow(x, d as nat) as int)
}

/// `peval` is the integer sum of its terms, reduced.
pub proof fn lemma_peval_isum(c: Seq<u32>, x: nat, len: nat)
    ensures
        peval(c, x, len) == isum(pterms(c, x), len) % (P as int),
    decreases len,
{
    if len > 0 {
        let l = (len - 1) as nat;
        lemma_peval_isum(c, x, l);
        lemma_mod_left(isum(pterms(c, x), l), pterms(c, x)(l as int));
    }
}

/// The convolution coefficient is the sum of its terms.
pub proof fn lemma_conv_isum(a: Seq<u32>, b: Seq<u32>, d: int, i: nat)
    ensures
        crate::poly::conv_partial(a, b, d, i) == isum(convterms(a, b, d), i),
    decreases i,
{
    if i > 0 {
        lemma_conv_isum(a, b, d, (i - 1) as nat);
    }
}

/// A sum whose terms vanish outside `[start, start + len)` is the sum of
/// the shifted window.
pub proof fn lemma_isum_window(g: spec_fn(int) -> int, h: spec_fn(int) -> int, start: nat, len: nat, total: nat)
    requires
        start + len <= total,
        forall|d: int| 0 <= d < start ==> #[trigger] g(d) == 0,
        forall|d: int| start + len <= d < total ==> #[trigger] g(d) == 0,
        forall|j: int| 0 <= j < len ==> #[trigger] h(j) == g(j + start),
    ensures
        isum(g, total) == isum(h, len),
{
    lemma_isum_zero(g, start);
    lemma_isum_concat(g, h, start, len);
    let rest = (total - (start + len)) as nat;
    assert forall|j: int| 0 <= j < rest implies #[trigger] shifted(g, start + len)(j) == 0 by {
        assert(g(j + (start + len)) == 0);
    }
    lemma_isum_zero(shifted(g, start + len), rest);
    lemma_isum_concat(g, shifted(g, start + len), start + len, rest);
    assert(start + len + rest == total);
}

/// Evaluation turns the product of polynomials into the product of values.
pub proof fn lemma_peval_mul(a: Seq<u32>, b: Seq<u32>, x: nat)
    requires
        a.len() >= 1,
        b.len() >= 1,
    ensures
        peval(crate::poly::poly_mul(a, b), x, (a.len() + b.len() - 1) as nat) == (peval(a, x, a.len()) * peval(
            b,
            x,
            b.len(),
        )) % (P as nat),
{
    let pp = P as int;
    let la = a.len();
    let lb = b.len();
    let total = (la + lb - 1) as nat;
    let c = crate::poly::poly_mul(a, b);
    let k = prod_kernel(a, b, x);
    let sb = isum(pterms(b, x), lb);
    lemma_peval_isum(c, x, total);
    lemma_peval_isum(a, x, la);
    lemma_peval_isum(b, x, lb);
    // each output term is congruent to a row of the kernel
    assert forall|d: int| 0 <= d < total implies #[trigger] pterms(c, x)(d) % pp == sum_rows(k, la)(d) % pp by {
        let xd = fpow(x, d as nat) as int;
        lemma_conv_isum(a, b, d, la);
        assert(c[d] as int == isum(convterms(a, b, d), la) % pp);
        assert forall|i: int| 0 <= i < la implies #[trigger] row_of(k, d)(i) == xd * convterms(a, b, d)(i) by {
            assert(convterms(a, b, d)(i) * xd == xd * convterms(a, b, d)(i)) by (nonlinear_arith);
        }
        lemma_isum_scale(convterms(a, b, d), row_of(k, d), xd, la);
        lemma_mul_mod_noop_left(isum(convterms(a, b, d), la), xd, pp);
        assert(isum(convterms(a, b, d), la) * xd == xd * isum(convterms(a, b, d), la)) by (nonlinear_arith);
    }
    lemma_isum_cong(pterms(c, x), sum_rows(k, la), total);
    lemma_isum_swap(k, la, total);
    // each column of the kernel is a_i x^i times the sum for b
    assert forall|i: int| 0 <= i < la implies #[trigger] sum_cols(k, total)(i) % pp == scaled(pterms(a, x), sb)(i) % pp by {
        let ai = a[i] as int;
        let xi = fpow(x, i as nat) as int;
        let h = |j: int| ai * xi * pterms(b, x)(j);
        assert forall|d: int| 0 <= d < i implies #[trigger] col_of(k, i)(d) == 0 by {}
        assert forall|d: int| i + lb <= d < total implies #[trigger] col_of(k, i)(d) == 0 by {}
        assert forall|j: int| 0 <= j < lb implies #[trigger] h(j) % pp == col_of(k, i)(j + i) % pp by {
            let bj = b[j] as int;
            let xj = fpow(x, j as nat) as int;
            lemma_fpow_add(x, i as nat, j as nat);
            assert((i + j) as nat == i as nat + j as nat);
            assert(col_of(k, i)(j + i) == ai * bj * (((xi * xj) % pp)));
            lemma_mul_mod_noop_right(ai * bj, xi * xj, pp);
            assert(ai * xi * (bj * xj) == ai * bj * (xi * xj)) by (nonlinear_arith);
        }
        let g2 = shifted(col_of(k, i), i as nat);
        assert forall|j: int| 0 <= j < lb implies #[trigger] g2(j) == col_of(k, i)(j + i) by {}
        lemma_isum_window(col_of(k, i), g2, i as nat, lb, total);
        lemma_isum_cong(h, g2, lb);
        lemma_isum_scale(pterms(b, x), h, ai * xi, lb);
        assert(scaled(pterms(a, x), sb)(i) == sb * (ai * xi));
        assert(ai * xi * sb == sb * (ai * xi)) by (nonlinear_arith);
    }
    lemma_isum_cong(sum_cols(k, total), scaled(pterms(a, x), sb), la);
    lemma_isum_scale(pterms(a, x), scaled(pterms(a, x), sb), sb, la);
    let sa = isum(pterms(a, x), la);
    vstd::arithmetic::div_mod::lemma_mul_mod_noop(sa, sb, pp);
    assert(sb * sa == sa * sb) by (nonlinear_arith);
}


/// `a` followed by zeros up to length `n`.
pub open spec fn pad(a: Seq<u32>, n: nat) -> Seq<u32> {
    Seq::new(n, |t: int| if t < a.len() { a[t] } else { 0u32 })
}

/// The transform of a zero-padded polynomial evaluates it at the powers of
/// the root.
pub proof fn lemma_dsum_pad(a: Seq<u32>, w: nat, k: nat, n: nat)
    requires
        a.len() <= n,
    ensures
        dsum(pad(a, n), w, k, n) == peval(a, fpow(w, k), a.len()),
{
    lemma_dsum_eval(pad(a, n), w, k, n);
    lemma_peval_zero_tail(pad(a, n), fpow(w, k), a.len(), n);
    lemma_peval_agree(pad(a, n), a, fpow(w, k), a.len());
}

/// Pointwise products of transforms are the transform of the product.
pub proof fn lemma_pointwise_product(a: Seq<u32>, b: Seq<u32>, n: nat, w: nat, e: Seq<u32>)
    requires
        a.len() >= 1,
        b.len() >= 1,
        a.len() + b.len() - 1 <= n,
        e.len() == n,
        forall|k: int|
            0 <= k < n ==> #[trigger] e[k] == (dsum(pad(a, n), w, k as nat, n) * dsum(pad(b, n), w, k as nat, n))
                % (P as nat),
    ensures
        e == dft(pad(crate::poly::poly_mul(a, b), n), w),
{
    let c = crate::poly::poly_mul(a, b);
    assert forall|k: int| 0 <= k < n implies #[trigger] e[k] == dft(pad(c, n), w)[k] by {
        let x = fpow(w, k as nat);
        lemma_dsum_pad(a, w, k as nat, n);
        lemma_dsum_pad(b, w, k as nat, n);
        lemma_dsum_pad(c, w, k as nat, n);
        lemma_peval_mul(a, b, x);
        lemma_dsum_range(pad(c, n), w, k as nat, n);
    }
    assert(e =~= dft(pad(c, n), w));
}


/// `x - r` in the field.
pub open spec fn lin_at(x: nat, r: u32) -> nat {
    ((x as int - r as int) % (P as int)) as nat
}

/// `Π_{start <= i < end} (x - roots[i])` modulo `P`.
pub open spec fn range_prod(roots: Seq<u32>, x: nat, start: nat, end: nat) -> nat
    decreases end,
{
    if end <= start {
        1
    } else {
        (range_prod(roots, x, start, (end - 1) as nat) * lin_at(x, roots[end - 1])) % (P as nat)
    }
}

/// The linear polynomial `X - r`, low coefficient first.
pub open spec fn linp(r: u32) -> Seq<u32> {
    seq![((P - r) % (P as int)) as u32, 1u32]
}

/// `p` is the monic polynomial `Π_{s <= i < e} (X - roots[i])`: of degree
/// `e - s`, leading coefficient one, canonical, and evaluating to the
/// product of the linear factors everywhere.
pub open spec fn covers(p: Seq<u32>, roots: Seq<u32>, s: nat, e: nat) -> bool {
    &&& s <= e
    &&& p.len() == e - s + 1
    &&& p[e - s] == 1
    &&& all_fe(p)
    &&& forall|x: nat| #[trigger] peval(p, x, p.len()) == range_prod(roots, x, s, e)
}

pub proof fn lemma_range_prod_range(roots: Seq<u32>, x: nat, s: nat, e: nat)
    ensures
        range_prod(roots, x, s, e) < P,
    decreases e,
{
}

/// Products over adjacent ranges combine.
pub proof fn lemma_range_prod_concat(roots: Seq<u32>, x: nat, s: nat, m: nat, e: nat)
    requires
        s <= m <= e,
    ensures
        range_prod(roots, x, s, e) == (range_prod(roots, x, s, m) * range_prod(roots, x, m, e)) % (P as nat),
    decreases e,
{
    let pp = P as int;
    lemma_range_prod_range(roots, x, s, m);
    if e == m {
        lemma_small_mod(range_prod(roots, x, s, m), P as nat);
        assert(range_prod(roots, x, m, m) == 1);
        assert(range_prod(roots, x, s, m) * 1 == range_prod(roots, x, s, m));
    } else {
        let el = (e - 1) as nat;
        lemma_range_prod_concat(roots, x, s, m, el);
        let a = range_prod(roots, x, s, m) as int;
        let b = range_prod(roots, x, m, el) as int;
        let l = lin_at(x, roots[el as int]) as int;
        assert(range_prod(roots, x, s, e) == (range_prod(roots, x, s, el) * lin_at(x, roots[el as int])) % (P as nat));
        assert(range_prod(roots, x, m, e) == (range_prod(roots, x, m, el) * lin_at(x, roots[el as int])) % (P as nat));
        assert(range_prod(roots, x, s, el) == (a * b) % pp);
        lemma_mul_mod_noop_left(a * b, l, pp);
        lemma_mul_mod_noop_right(a, b * l, pp);
        assert(a * b * l == a * (b * l)) by (nonlinear_arith);
    }
}

/// The convolution of `a` with a two-term `b`.
pub proof fn lemma_conv_lin(a: Seq<u32>, b: Seq<u32>, d: int, i: nat)
    requires
        b.len() == 2,
    ensures
        crate::poly::conv_partial(a, b, d, i) == (if 0 <= d < i { a[d] * b[0] } else { 0int }) + (if 1 <= d <= i {
            a[d - 1] * b[1]
        } else {
            0int
        }),
    decreases i,
{
    if i > 0 {
        lemma_conv_lin(a, b, d, (i - 1) as nat);
    }
}

/// The top convolution coefficient is the product of the leading ones.
pub proof fn lemma_conv_top(a: Seq<u32>, b: Seq<u32>, i: nat)
    requires
        b.len() >= 1,
        i <= a.len(),
    ensures
        crate::poly::conv_partial(a, b, a.len() + b.len() - 2, i) == if i == a.len() && i >= 1 {
            a[a.len() - 1] * b[b.len() - 1]
        } else {
            0int
        },
    decreases i,
{
    if i > 0 {
        lemma_conv_top(a, b, (i - 1) as nat);
    }
}

/// The product of the polynomials of adjacent ranges covers their union.
pub proof fn lemma_covers_mul(a: Seq<u32>, b: Seq<u32>, roots: Seq<u32>, s: nat, m: nat, e: nat)
    requires
        covers(a, roots, s, m),
        covers(b, roots, m, e),
    ensures
        covers(crate::poly::poly_mul(a, b), roots, s, e),
{
    let c = crate::poly::poly_mul(a, b);
    let top = (a.len() + b.len() - 2) as int;
    lemma_conv_top(a, b, a.len());
    assert(c[top] == ((a[a.len() - 1] * b[b.len() - 1]) % (P as int)) as u32);
    assert(a[a.len() - 1] == 1);
    assert(b[b.len() - 1] == 1);
    assert(1int * 1int == 1);
    lemma_small_mod(1, P as nat);
    assert(c[top] == 1);
    assert(e - s == top);
    assert(c.len() == e - s + 1);
    assert forall|t: int| 0 <= t < c.len() implies #[trigger] c[t] < P by {}
    assert forall|x: nat| #[trigger] peval(c, x, c.len()) == range_prod(roots, x, s, e) by {
        lemma_peval_mul(a, b, x);
        assert(c.len() == (a.len() + b.len() - 1) as nat);
        assert(peval(a, x, a.len()) == range_prod(roots, x, s, m));
        assert(peval(b, x, b.len()) == range_prod(roots, x, m, e));
        lemma_range_prod_concat(roots, x, s, m, e);
    }
}

/// `X - roots[i]` covers the single root `i`.
pub proof fn lemma_covers_lin(roots: Seq<u32>, i: nat)
    requires
        i < roots.len(),
        roots[i as int] < P,
    ensures
        covers(linp(roots[i as int]), roots, i, i + 1),
{
    let pp = P as int;
    let r = roots[i as int];
    let p = linp(r);
    assert forall|x: nat| #[trigger] peval(p, x, p.len()) == range_prod(roots, x, i, i + 1) by {
        let l0 = p[0] as int;
        assert(l0 == (pp - r) % pp);
        assert(peval(p, x, 0) == 0);
        assert(fpow(x, 0) == 1);
        assert(peval(p, x, 1) == (l0 * 1) % pp);
        lemma_small_mod(l0 as nat, P as nat);
        assert(fpow(x, 1) == (x * 1) % (P as nat));
        assert(peval(p, x, 2) == (l0 + 1 * (((x * 1) as int) % pp)) % pp);
        lemma_add_mod_noop_right(l0, x as int, pp);
        assert(l0 + (x as int) == (pp - r) % pp + x);
        lemma_mod_left(pp - r, x as int);
        lemma_mod_multiples_vanish(1, x - r, pp);
        assert(pp - r + x == pp * 1 + (x - r));
        assert(range_prod(roots, x, i, i) == 1);
        assert(((i + 1) - 1) as nat == i);
        lemma_small_mod(lin_at(x, r), P as nat);
        assert(1 * lin_at(x, r) == lin_at(x, r));
    }
}

/// `X^0 = 1` covers the empty range.
pub proof fn lemma_covers_one(roots: Seq<u32>, s: nat)
    ensures
        covers(seq![1u32], roots, s, s),
{
    let one = seq![1u32];
    assert forall|x: nat| #[trigger] peval(one, x, 1) == range_prod(roots, x, s, s) by {
        assert(peval(one, x, 0) == 0);
        assert(fpow(x, 0) == 1);
        assert(one[0] == 1);
        assert((one[0] as nat) * fpow(x, 0) == 1);
        lemma_small_mod(1, P as nat);
        assert(peval(one, x, 1) == (0 + 1nat) % (P as nat));
    }
    assert(one.len() == 1);
}

/// One step of multiplying by `X - r`: `prev - c·r` against the
/// convolution form `c·(P - r) + prev`.
pub proof fn lemma_sub_mul(prev: int, c: int, r: int)
    requires
        0 <= r < P,
    ensures
        (prev - (c * r) % (P as int)) % (P as int) == (c * ((P - r) % (P as int)) + prev) % (P as int),
{
    let pp = P as int;
    lemma_sub_mod_noop_right(prev, c * r, pp);
    lemma_add_mod_noop(c * ((pp - r) % pp), prev, pp);
    lemma_mul_mod_noop_right(c, pp - r, pp);
    lemma_add_mod_noop(c * (pp - r), prev, pp);
    assert(c * (pp - r) + prev == pp * c + (prev - c * r)) by (nonlinear_arith);
    lemma_mod_multiples_vanish(c, prev - c * r, pp);
}


/// `(i, j) ↦ a[j]·b[i]·c[o - j - i]` where `c[o - j - i]` exists, else zero.
pub open spec fn assoc_left(a: Seq<u32>, b: Seq<u32>, c: Seq<u32>, o: int) -> spec_fn(int, int) -> int {
    |i: int, j: int|
        if 0 <= o - j - i < c.len() {
            (a[j] as int) * ((b[i] as int) * (c[o - j - i] as int))
        } else {
            0int
        }
}

/// `(j, u) ↦ a[j]·b[u - j]·c[o - u]` where both exist, else zero.
pub open spec fn assoc_right(a: Seq<u32>, b: Seq<u32>, c: Seq<u32>, o: int) -> spec_fn(int, int) -> int {
    |j: int, u: int|
        if 0 <= o - u < c.len() && 0 <= u - j < b.len() {
            (a[j] as int) * (b[u - j] as int) * (c[o - u] as int)
        } else {
            0int
        }
}

/// Convolution is associative, coefficient by coefficient, modulo `P`.
pub proof fn lemma_conv_assoc(a: Seq<u32>, b: Seq<u32>, c: Seq<u32>, o: int)
    requires
        a.len() >= 1,
        b.len() >= 1,
        c.len() >= 1,
    ensures
        crate::poly::conv_partial(a, crate::poly::poly_mul(b, c), o, a.len()) % (P as int)
            == crate::poly::conv_partial(crate::poly::poly_mul(a, b), c, o, (a.len() + b.len() - 1) as nat)
            % (P as int),
{
    let pp = P as int;
    let la = a.len();
    let lb = b.len();
    let lab = (a.len() + b.len() - 1) as nat;
    let bc = crate::poly::poly_mul(b, c);
    let ab = crate::poly::poly_mul(a, b);
    let tl = assoc_left(a, b, c, o);
    let tr = assoc_right(a, b, c, o);
    lemma_conv_isum(a, bc, o, la);
    lemma_conv_isum(ab, c, o, lab);
    // left side: each outer term is a row of the left kernel
    assert forall|j: int| 0 <= j < la implies #[trigger] convterms(a, bc, o)(j) % pp == sum_rows(tl, lb)(j) % pp by {
        let aj = a[j] as int;
        if 0 <= o - j < bc.len() {
            lemma_conv_isum(b, c, o - j, lb);
            let x = isum(convterms(b, c, o - j), lb);
            assert(bc[o - j] as int == x % pp);
            assert forall|i: int| 0 <= i < lb implies #[trigger] row_of(tl, j)(i) == aj * convterms(b, c, o - j)(i) by {}
            lemma_isum_scale(convterms(b, c, o - j), row_of(tl, j), aj, lb);
            lemma_mul_mod_noop_right(aj, x, pp);
        } else {
            assert forall|i: int| 0 <= i < lb implies #[trigger] row_of(tl, j)(i) == 0 by {}
            lemma_isum_zero(row_of(tl, j), lb);
        }
    }
    lemma_isum_cong(convterms(a, bc, o), sum_rows(tl, lb), la);
    // right side: each outer term is a row of the right kernel
    assert forall|u: int| 0 <= u < lab implies #[trigger] convterms(ab, c, o)(u) % pp == sum_rows(tr, la)(u) % pp by {
        if 0 <= o - u < c.len() {
            let cu = c[o - u] as int;
            lemma_conv_isum(a, b, u, la);
            let x = isum(convterms(a, b, u), la);
            assert(ab[u] as int == x % pp);
            assert forall|j: int| 0 <= j < la implies #[trigger] row_of(tr, u)(j) == cu * convterms(a, b, u)(j) by {
                if 0 <= u - j < lb {
                    assert((a[j] as int) * (b[u - j] as int) * cu == cu * ((a[j] as int) * (b[u - j] as int)))
                        by (nonlinear_arith);
                }
            }
            lemma_isum_scale(convterms(a, b, u), row_of(tr, u), cu, la);
            lemma_mul_mod_noop_left(x, cu, pp);
            assert(x * cu == cu * x) by (nonlinear_arith);
        } else {
            assert forall|j: int| 0 <= j < la implies #[trigger] row_of(tr, u)(j) == 0 by {}
            lemma_isum_zero(row_of(tr, u), la);
        }
    }
    lemma_isum_cong(convterms(ab, c, o), sum_rows(tr, la), lab);
    lemma_isum_swap(tr, la, lab);
    // each column of the right kernel is the matching row of the left kernel
    assert forall|j: int| 0 <= j < la implies #[trigger] sum_cols(tr, lab)(j) == sum_rows(tl, lb)(j) by {
        assert forall|u: int| 0 <= u < j implies #[trigger] col_of(tr, j)(u) == 0 by {}
        assert forall|u: int| j + lb <= u < lab implies #[trigger] col_of(tr, j)(u) == 0 by {}
        assert forall|i: int| 0 <= i < lb implies #[trigger] row_of(tl, j)(i) == col_of(tr, j)(i + j) by {
            if 0 <= o - j - i < c.len() {
                assert((a[j] as int) * ((b[i] as int) * (c[o - j - i] as int)) == (a[j] as int) * (b[i] as int) * (
                c[o - j - i] as int)) by (nonlinear_arith);
                assert(o - (i + j) == o - j - i);
                assert(i + j - j == i);
            }
        }
        lemma_isum_window(col_of(tr, j), row_of(tl, j), j as nat, lb, lab);
    }
    lemma_isum_ext(sum_cols(tr, lab), sum_rows(tl, lb), la);
}


/// `q` inverts `p` as a power series to `len` terms: the coefficients of
/// `p·q` below `len` are those of `1`.
pub open spec fn is_series_inverse(p: Seq<u32>, q: Seq<u32>, len: nat) -> bool {
    forall|o: int|
        0 <= o < len ==> #[trigger] (crate::poly::conv_partial(p, q, o, p.len()) % (P as int)) == (if o == 0 {
            1int
        } else {
            0int
        })
}

/// A sum whose terms vanish but at `s1` and `s2` is the sum of those two.
pub proof fn lemma_isum_two(f: spec_fn(int) -> int, s1: int, s2: int, len: nat)
    requires
        0 <= s1 < s2 < len,
        forall|i: int| 0 <= i < len && i != s1 && i != s2 ==> #[trigger] f(i) == 0,
    ensures
        isum(f, len) == f(s1) + f(s2),
    decreases len,
{
    let l = (len - 1) as nat;
    if s2 < l {
        lemma_isum_two(f, s1, s2, l);
        assert(f(l as int) == 0);
    } else {
        lemma_isum_single(f, s1, l);
    }
}

/// Convolutions agree when the second factors agree on the indices used.
pub proof fn lemma_conv_agree(a: Seq<u32>, b1: Seq<u32>, b2: Seq<u32>, d: int, i: nat)
    requires
        0 <= d < b1.len(),
        d < b2.len(),
        forall|v: int| 0 <= v <= d ==> #[trigger] b1[v] == b2[v],
    ensures
        crate::poly::conv_partial(a, b1, d, i) == crate::poly::conv_partial(a, b2, d, i),
    decreases i,
{
    if i > 0 {
        lemma_conv_agree(a, b1, b2, d, (i - 1) as nat);
    }
}

/// Convolution coefficients past the top degree vanish.
pub proof fn lemma_conv_beyond(a: Seq<u32>, b: Seq<u32>, d: int, i: nat)
    requires
        i <= a.len(),
        d >= a.len() + b.len() - 1,
    ensures
        crate::poly::conv_partial(a, b, d, i) == 0,
    decreases i,
{
    if i > 0 {
        lemma_conv_beyond(a, b, d, (i - 1) as nat);
    }
}

/// One Newton step: with `q` inverting `p` to `l` terms and `c = 2 - p·q`
/// to `n <= 2l` terms, `q·c` inverts `p` to `n` terms.
#[verifier::spinoff_prover]
pub proof fn lemma_newton_step(p: Seq<u32>, q: Seq<u32>, c: Seq<u32>, n: nat)
    requires
        p.len() >= 1,
        q.len() >= 1,
        q.len() < n <= 2 * q.len(),
        is_series_inverse(p, q, q.len()),
        c.len() == n,
        forall|o: int|
            0 <= o < n ==> #[trigger] c[o] as int == ((if o == 0 { 2int } else { 0int }) - crate::poly::conv_partial(
                p,
                q,
                o,
                p.len(),
            ) % (P as int)) % (P as int),
    ensures
        is_series_inverse(p, crate::poly::poly_mul(q, c).subrange(0, n as int), n),
{
    let pp = P as int;
    let l = q.len();
    let qc = crate::poly::poly_mul(q, c);
    let t = qc.subrange(0, n as int);
    let pq = crate::poly::poly_mul(p, q);
    let lpq = (p.len() + l - 1) as nat;
    assert forall|o: int| 0 <= o < n implies #[trigger] (crate::poly::conv_partial(p, t, o, p.len()) % pp) == (if o
        == 0 {
        1int
    } else {
        0int
    }) by {
        lemma_conv_agree(p, t, qc, o, p.len());
        lemma_conv_assoc(p, q, c, o);
        lemma_conv_isum(pq, c, o, lpq);
        let f = convterms(pq, c, o);
        assert(pq[0] == 1) by {
            assert(crate::poly::conv_partial(p, q, 0, p.len()) % pp == 1);
        }
        assert(c[0] == 1) by {
            assert(crate::poly::conv_partial(p, q, 0, p.len()) % pp == 1);
        }
        assert forall|u: int| 0 <= u < lpq && u != 0 && u != o implies #[trigger] f(u) == 0 by {
            if 0 <= o - u < c.len() {
                if u < l {
                    assert(crate::poly::conv_partial(p, q, u, p.len()) % pp == 0);
                    assert(pq[u] == 0);
                } else {
                    assert(0 < o - u < l);
                    assert(crate::poly::conv_partial(p, q, o - u, p.len()) % pp == 0);
                    assert(c[o - u] == 0);
                }
            }
        }
        let e = crate::poly::conv_partial(p, q, o, p.len()) % pp;
        if o == 0 {
            lemma_isum_single(f, 0, lpq);
            assert(f(0) == 1);
        } else if o < l {
            assert(e == 0);
            assert(c[o] == 0);
            assert(pq[o] == 0);
            assert(f(o) == (pq[o] as int) * (c[0] as int));
            assert(f(o) == 0);
            lemma_isum_single(f, 0, lpq);
        } else if o < lpq {
            lemma_isum_two(f, 0, o, lpq);
            assert(f(0) == c[o] as int);
            assert(f(o) == pq[o] as int);
            assert(pq[o] as int == e);
            assert(c[o] as int == (0 - e) % pp);
            lemma_add_mod_noop_right(e, 0 - e, pp);
            assert(c[o] as int + e == (0 - e) % pp + e);
            lemma_mod_left(0 - e, e);
        } else {
            lemma_conv_beyond(p, q, o, p.len());
            assert(e == 0);
            assert(c[o] == 0);
            lemma_isum_single(f, 0, lpq);
        }
    }
}


/// Convolutions agree when the first factors agree on the indices summed.
pub proof fn lemma_conv_agree_left(a1: Seq<u32>, a2: Seq<u32>, b: Seq<u32>, d: int, i: nat)
    requires
        forall|j: int| 0 <= j < i ==> #[trigger] a1[j] == a2[j],
    ensures
        crate::poly::conv_partial(a1, b, d, i) == crate::poly::conv_partial(a2, b, d, i),
    decreases i,
{
    if i > 0 {
        lemma_conv_agree_left(a1, a2, b, d, (i - 1) as nat);
    }
}

/// Terms past index `d` add nothing to coefficient `d`.
pub proof fn lemma_conv_extend(a: Seq<u32>, b: Seq<u32>, d: int, i: nat, i2: nat)
    requires
        d < i <= i2,
    ensures
        crate::poly::conv_partial(a, b, d, i2) == crate::poly::conv_partial(a, b, d, i),
    decreases i2,
{
    if i2 > i {
        lemma_conv_extend(a, b, d, i, (i2 - 1) as nat);
    }
}

/// A one-term second factor picks out `a[0]·b[0]` at index zero.
pub proof fn lemma_conv_unit(a: Seq<u32>, b: Seq<u32>, i: nat)
    requires
        b.len() == 1,
        i >= 1,
    ensures
        crate::poly::conv_partial(a, b, 0, i) == a[0] * b[0],
    decreases i,
{
    if i > 1 {
        lemma_conv_unit(a, b, (i - 1) as nat);
    } else {
        assert(crate::poly::conv_partial(a, b, 0, 0) == 0);
    }
}


/// `s` in reverse order.
pub open spec fn reversed(s: Seq<u32>) -> Seq<u32> {
    Seq::new(s.len(), |i: int| s[s.len() - 1 - i])
}

/// `j ↦ g(n - 1 - j)`.
pub open spec fn rev_fn(g: spec_fn(int) -> int, n: nat) -> spec_fn(int) -> int {
    |j: int| g(n - 1 - j)
}

/// A sum may be taken backwards.
pub proof fn lemma_isum_reverse(g: spec_fn(int) -> int, n: nat)
    ensures
        isum(g, n) == isum(rev_fn(g, n), n),
    decreases n,
{
    if n > 0 {
        let l = (n - 1) as nat;
        lemma_isum_reverse(g, l);
        assert forall|j: int| 0 <= j < l implies #[trigger] shifted(rev_fn(g, n), 1)(j) == rev_fn(g, l)(j) by {
            assert(n - 1 - (j + 1) == l - 1 - j);
        }
        lemma_isum_ext(shifted(rev_fn(g, n), 1), rev_fn(g, l), l);
        lemma_isum_concat(rev_fn(g, n), shifted(rev_fn(g, n), 1), 1, l);
        assert(isum(rev_fn(g, n), 1) == rev_fn(g, n)(0)) by {
            assert(isum(rev_fn(g, n), 0) == 0);
        }
        assert(1 + l == n);
    }
}

/// Reversing both factors reverses the product: coefficient `o` of the
/// reversed product is coefficient `D - o` of the product.
pub proof fn lemma_conv_reverse(f: Seq<u32>, z: Seq<u32>, o: int)
    requires
        f.len() >= 1,
        z.len() >= 1,
    ensures
        crate::poly::conv_partial(f, z, f.len() + z.len() - 2 - o, f.len())
            == crate::poly::conv_partial(reversed(f), reversed(z), o, f.len()),
{
    let n = f.len();
    let d = f.len() + z.len() - 2 - o;
    lemma_conv_isum(f, z, d, n);
    lemma_conv_isum(reversed(f), reversed(z), o, n);
    lemma_isum_reverse(convterms(f, z, d), n);
    assert forall|j: int| 0 <= j < n implies #[trigger] rev_fn(convterms(f, z, d), n)(j) == convterms(
        reversed(f),
        reversed(z),
        o,
    )(j) by {
        let i = n - 1 - j;
        assert(d - i == z.len() - 1 - (o - j));
        if 0 <= o - j < z.len() {
            assert(reversed(z)[o - j] == z[z.len() - 1 - (o - j)]);
            assert(reversed(f)[j] == f[i]);
        }
    }
    lemma_isum_ext(rev_fn(convterms(f, z, d), n), convterms(reversed(f), reversed(z), o), n);
}

/// Multiplying `F·Z` by a series inverse of `Z` gives back `F` below the
/// inverse's length.
#[verifier::spinoff_prover]
pub proof fn lemma_series_divide(big_f: Seq<u32>, zr: Seq<u32>, inv: Seq<u32>, o: int)
    requires
        big_f.len() >= 1,
        zr.len() >= 1,
        inv.len() == big_f.len(),
        all_fe(big_f),
        is_series_inverse(zr, inv, big_f.len()),
        0 <= o < big_f.len(),
    ensures
        crate::poly::conv_partial(crate::poly::poly_mul(big_f, zr), inv, o, (big_f.len() + zr.len() - 1) as nat)
            % (P as int) == big_f[o] as int,
{
    let pp = P as int;
    let k = big_f.len();
    lemma_conv_assoc(big_f, zr, inv, o);
    let zi = crate::poly::poly_mul(zr, inv);
    lemma_conv_isum(big_f, zi, o, k);
    let g = convterms(big_f, zi, o);
    assert forall|j: int| 0 <= j < k && j != o implies #[trigger] g(j) == 0 by {
        if 0 <= o - j < zi.len() {
            assert(0 < o - j < k);
            assert(crate::poly::conv_partial(zr, inv, o - j, zr.len()) % pp == 0);
            assert(zi[o - j] == 0);
            assert(g(j) == (big_f[j] as int) * 0);
        } else {
            assert(g(j) == 0);
        }
    }
    lemma_isum_single(g, o, k);
    assert(crate::poly::conv_partial(zr, inv, 0, zr.len()) % pp == 1);
    assert(zi[0] == 1);
    assert(o - o == 0);
    assert(g(o) == (big_f[o] as int) * 1);
    lemma_small_mod(big_f[o] as nat, P as nat);
}

/// Decoding one coordinate: the product of the message polynomial `f` with
/// the locator `z`, evaluated on the whole domain, interpolated, reversed
/// and divided by the reversed locator as a power series, gives back `f`.
#[verifier::spinoff_prover]
pub proof fn lemma_decode_coord(
    f: Seq<u32>,
    z: Seq<u32>,
    nv: Seq<u32>,
    np: Seq<u32>,
    rr: Seq<u32>,
    inv: Seq<u32>,
    out: Seq<u32>,
    m: nat,
    w: nat,
    wi: nat,
    ni: nat,
)
    requires
        m >= 2,
        is_pow2(m),
        is_root_of_order(w, m),
        wi < P,
        (w * wi) % (P as nat) == 1,
        (m * ni) % (P as nat) == 1,
        f.len() >= 1,
        m == 2 * f.len(),
        all_fe(f),
        z.len() >= 1,
        z.len() <= f.len() + 1,
        all_fe(z),
        nv.len() == m,
        forall|i: int| 0 <= i < m ==> #[trigger] nv[i] as nat == (peval(f, fpow(w, i as nat), f.len()) * peval(
            z,
            fpow(w, i as nat),
            z.len(),
        )) % (P as nat),
        np.len() == m,
        forall|s: int| 0 <= s < m ==> #[trigger] np[s] as nat == (dsum(nv, wi, s as nat, m) * ni) % (P as nat),
        rr.len() == f.len(),
        forall|o: int| 0 <= o < f.len() ==> #[trigger] rr[o] == np[f.len() + z.len() - 2 - o],
        inv.len() == f.len(),
        is_series_inverse(reversed(z), inv, f.len()),
        out.len() == f.len(),
        forall|j: int| 0 <= j < f.len() ==> #[trigger] out[j] == crate::poly::poly_mul(rr, inv)[f.len() - 1 - j],
    ensures
        out == f,
{
    let pp = P as int;
    let k = f.len();
    let e1 = z.len();
    let fz = crate::poly::poly_mul(f, z);
    let big_f = reversed(f);
    let zr = reversed(z);
    // the numerator values are the transform of the padded product
    assert forall|i: int| 0 <= i < m implies #[trigger] nv[i] == dft(pad(fz, m), w)[i] by {
        lemma_dsum_pad(fz, w, i as nat, m);
        lemma_peval_mul(f, z, fpow(w, i as nat));
        lemma_dsum_range(pad(fz, m), w, i as nat, m);
    }
    assert(nv =~= dft(pad(fz, m), w));
    assert(all_fe(pad(fz, m))) by {
        assert forall|t: int| 0 <= t < m implies #[trigger] pad(fz, m)[t] < P by {}
    }
    // interpolation gives back the product's coefficients
    assert forall|s: int| 0 <= s < m implies #[trigger] np[s] == pad(fz, m)[s] by {
        lemma_inverse_transform(pad(fz, m), w, wi, ni, s as nat);
    }
    // the reversed numerator agrees with the product of the reversals
    let fzr = crate::poly::poly_mul(big_f, zr);
    assert forall|u: int| 0 <= u < k implies #[trigger] rr[u] == fzr[u] by {
        lemma_conv_reverse(f, z, u);
        assert(rr[u] == np[k + e1 - 2 - u]);
        assert(np[k + e1 - 2 - u] == fz[k + e1 - 2 - u]);
    }
    assert forall|o: int| 0 <= o < k implies #[trigger] crate::poly::poly_mul(rr, inv)[o] == big_f[o] by {
        lemma_conv_agree_left(rr, fzr, inv, o, k);
        lemma_conv_extend(fzr, inv, o, k, (k + e1 - 1) as nat);
        lemma_series_divide(big_f, zr, inv, o);
    }
    assert forall|j: int| 0 <= j < k implies #[trigger] out[j] == f[j] by {
        assert(big_f[k - 1 - j] == f[k - 1 - (k - 1 - j)]);
    }
    assert(out =~= f);
}


/// A product with a vanishing factor vanishes.
pub proof fn lemma_range_prod_zero(roots: Seq<u32>, x: nat, s: nat, e: nat, t: nat)
    requires
        s <= t < e,
        roots[t as int] as nat == x,
        x < P,
    ensures
        range_prod(roots, x, s, e) == 0,
    decreases e,
{
    let el = (e - 1) as nat;
    if t < el {
        lemma_range_prod_zero(roots, x, s, el, t);
        assert(0 * lin_at(x, roots[el as int]) == 0);
    } else {
        assert(lin_at(x, roots[el as int]) == 0);
        assert(range_prod(roots, x, s, el) * 0 == 0);
    }
}

} // verus!

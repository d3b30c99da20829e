//! Arithmetic in the KoalaBear prime field and in its quintic extension.
//!
//! Base-field elements are canonical `u32` values below `P`.  Extension
//! elements are five base-field coordinates over the basis `1, X, .., X^4`
//! of `F[X] / (X^5 + X^2 - 1)`.
use p3_field::extension::QuinticTrinomialExtensionField;
use p3_field::{BasedVectorSpace, Field, PrimeCharacteristicRing, PrimeField32, TwoAdicField};
use p3_koala_bear::KoalaBear;
use vstd::prelude::*;

verus! {

/// The KoalaBear prime `2^31 - 2^24 + 1`.
pub const P: u32 = 2130706433;

/// Largest `bits` for which a two-adic generator of order `2^bits` exists.
pub const TWO_ADICITY: usize = 24;

/// All entries of a sequence are canonical base-field elements.
pub open spec fn all_fe(s: Seq<u32>) -> bool {
    forall|i: int| 0 <= i < s.len() ==> #[trigger] s[i] < P
}

/// `a^e` in the base field.
pub open spec fn fpow(a: nat, e: nat) -> nat
    decreases e,
{
    if e == 0 {
        1
    } else {
        (a * fpow(a, (e - 1) as nat)) % (P as nat)
    }
}

/// Subtraction in the base field on canonical values.
pub open spec fn fsub_spec(a: nat, b: nat) -> nat {
    ((a + P - b) % (P as int)) as nat
}

/// The two-adic generators of KoalaBear, indexed by `bits`.
pub open spec fn two_adic_generators() -> Seq<u32> {
    seq![
        0x1u32, 0x7f000000u32, 0x7e010002u32, 0x6832fe4au32, 0x8dbd69cu32, 0xa28f031u32,
        0x5c4a5b99u32, 0x29b75a80u32, 0x17668b8au32, 0x27ad539bu32, 0x334d48c7u32,
        0x7744959cu32, 0x768fc6fau32, 0x303964b2u32, 0x3e687d4du32, 0x45a60e61u32,
        0x6e2f4d7au32, 0x163bd499u32, 0x6c4a8a45u32, 0x143ef899u32, 0x514ddcadu32,
        0x484ef19bu32, 0x205d63c3u32, 0x68e7dd49u32, 0x6ac49f88u32,
    ]
}

pub fn f_add(a: u32, b: u32) -> (r: u32)
    requires
        a < P,
        b < P,
    ensures
        r < P,
        r == (a + b) % (P as int),
{
    let s: u64 = a as u64 + b as u64;
    if s >= P as u64 {
        (s - P as u64) as u32
    } else {
        s as u32
    }
}

pub fn f_sub(a: u32, b: u32) -> (r: u32)
    requires
        a < P,
        b < P,
    ensures
        r < P,
        r == fsub_spec(a as nat, b as nat),
        r == (a - b) % (P as int),
{
    if a >= b {
        proof {
            vstd::arithmetic::div_mod::lemma_mod_add_multiples_vanish((a - b) as int, P as int);
        }
        a - b
    } else {
        proof {
            vstd::arithmetic::div_mod::lemma_mod_add_multiples_vanish((a - b) as int, P as int);
        }
        P - b + a
    }
}

pub fn f_mul(a: u32, b: u32) -> (r: u32)
    requires
        a < P,
        b < P,
    ensures
        r < P,
        r == (a * b) % (P as int),
{
    proof {
        vstd::arithmetic::mul::lemma_mul_upper_bound(a as int, 2130706432, b as int, 2130706432);
    }
    let prod: u64 = (a as u64) * (b as u64);
    (prod % (P as u64)) as u32
}

/// The base-field element `x mod P`.
pub fn f_from_usize(x: usize) -> (r: u32)
    ensures
        r < P,
        r == (x as int) % (P as int),
{
    (x % (P as usize)) as u32
}

/// The inverse of `a` modulo `P`: the canonical `r` with `a·r = 1`, which is
/// unique where it exists.
pub open spec fn base_inverse(a: u32) -> u32 {
    (choose|r: nat| #[trigger] is_inverse_mod_p(a as nat, r)) as u32
}

/// `r` is a canonical inverse of `a` modulo `P`.
pub open spec fn is_inverse_mod_p(a: nat, r: nat) -> bool {
    r < P && (a * r) % (P as nat) == 1
}

/// Two canonical inverses of the same element are equal.
pub proof fn lemma_inverse_unique(a: nat, r1: nat, r2: nat)
    requires
        r1 < P,
        r2 < P,
        (a * r1) % (P as nat) == 1,
        (a * r2) % (P as nat) == 1,
    ensures
        r1 == r2,
{
    let pp = P as int;
    vstd::arithmetic::div_mod::lemma_small_mod(r1, P as nat);
    vstd::arithmetic::div_mod::lemma_small_mod(r2, P as nat);
    vstd::arithmetic::div_mod::lemma_mul_mod_noop_right(r1 as int, (a * r2) as int, pp);
    vstd::arithmetic::div_mod::lemma_mul_mod_noop_right(r2 as int, (a * r1) as int, pp);
    assert(r1 * (a * r2) == r2 * (a * r1)) by (nonlinear_arith);
    assert(r1 * 1 == r1);
    assert(r2 * 1 == r2);
}

/// The inverse of a nonzero canonical element.
pub fn inverse(a: u32) -> (r: u32)
    requires
        0 < a < P,
    ensures
        r == base_inverse(a),
        r < P,
        (a * r) % (P as int) == 1,
{
    let r = f_inverse(a);
    proof {
        assert(is_inverse_mod_p(a as nat, r as nat));
        let c = choose|x: nat| #[trigger] is_inverse_mod_p(a as nat, x);
        lemma_inverse_unique(a as nat, c, r as nat);
    }
    r
}

/// `KoalaBear::try_inverse`: the multiplicative inverse of a nonzero element.
/// Trusted: the contract states that the result is canonical and an inverse
/// modulo `P`; this is what the crate documents and computes.
#[verifier::external_body]
fn f_inverse(a: u32) -> (r: u32)
    requires
        0 < a < P,
    ensures
        r < P,
        (a * r) % (P as int) == 1,
{
    let x = KoalaBear::from_u32(a);
    x.try_inverse().unwrap().as_canonical_u32()
}

/// `KoalaBear::two_adic_generator`: the fixed generator of the subgroup of
/// order `2^bits`.  Trusted: the contract states the table the crate returns.
#[verifier::external_body]
pub(crate) fn two_adic_generator(bits: usize) -> (r: u32)
    requires
        bits <= TWO_ADICITY,
    ensures
        r == two_adic_generators()[bits as int],
        r < P,
{
    KoalaBear::two_adic_generator(bits).as_canonical_u32()
}

/// An element of the quintic extension `F[X] / (X^5 + X^2 - 1)`.
#[derive(Clone, Copy, Debug, PartialEq, Eq, Structural)]
pub struct Ext {
    pub c0: u32,
    pub c1: u32,
    pub c2: u32,
    pub c3: u32,
    pub c4: u32,
}

impl Ext {
    /// All coordinates are canonical.
    pub open spec fn wf(self) -> bool {
        self.c0 < P && self.c1 < P && self.c2 < P && self.c3 < P && self.c4 < P
    }

    /// The coordinates, lowest degree first.
    pub open spec fn coords(self) -> Seq<u32> {
        seq![self.c0, self.c1, self.c2, self.c3, self.c4]
    }
}

pub open spec fn all_ext_wf(s: Seq<Ext>) -> bool {
    forall|i: int| 0 <= i < s.len() ==> #[trigger] s[i].wf()
}

pub open spec fn ext_zero() -> Ext {
    Ext { c0: 0, c1: 0, c2: 0, c3: 0, c4: 0 }
}

pub open spec fn ext_one() -> Ext {
    Ext { c0: 1, c1: 0, c2: 0, c3: 0, c4: 0 }
}

/// The base-field element `x` seen in the extension.
pub open spec fn ext_base(x: u32) -> Ext {
    Ext { c0: x, c1: 0, c2: 0, c3: 0, c4: 0 }
}

pub open spec fn modp(x: int) -> u32 {
    (x % (P as int)) as u32
}

pub open spec fn ext_sub_spec(a: Ext, b: Ext) -> Ext {
    Ext {
        c0: modp(a.c0 - b.c0),
        c1: modp(a.c1 - b.c1),
        c2: modp(a.c2 - b.c2),
        c3: modp(a.c3 - b.c3),
        c4: modp(a.c4 - b.c4),
    }
}

/// Multiplication of an extension element by a base-field scalar.
pub open spec fn ext_scale_spec(a: Ext, s: u32) -> Ext {
    Ext {
        c0: modp(a.c0 * s),
        c1: modp(a.c1 * s),
        c2: modp(a.c2 * s),
        c3: modp(a.c3 * s),
        c4: modp(a.c4 * s),
    }
}

/// Coefficient `d` of the unreduced product of two degree-4 polynomials.
#[verifier::opaque]
pub open spec fn conv5(a: Ext, b: Ext, d: int) -> int {
    let x = a.coords();
    let y = b.coords();
    (if 0 <= d && d <= 4 { x[0] * y[d] } else { 0 })
    + (if 1 <= d && d <= 5 { x[1] * y[d - 1] } else { 0 })
    + (if 2 <= d && d <= 6 { x[2] * y[d - 2] } else { 0 })
    + (if 3 <= d && d <= 7 { x[3] * y[d - 3] } else { 0 })
    + (if 4 <= d && d <= 8 { x[4] * y[d - 4] } else { 0 })
}

/// Product in `F[X] / (X^5 + X^2 - 1)`, reducing with `X^5 = 1 - X^2`.
pub open spec fn ext_mul_spec(a: Ext, b: Ext) -> Ext {
    let d0 = conv5(a, b, 0);
    let d1 = conv5(a, b, 1);
    let d2 = conv5(a, b, 2);
    let d3 = conv5(a, b, 3);
    let d4 = conv5(a, b, 4);
    let d5 = conv5(a, b, 5);
    let d6 = conv5(a, b, 6);
    let d7 = conv5(a, b, 7);
    let d8 = conv5(a, b, 8);
    Ext {
        c0: modp(d0 + d5 - d8),
        c1: modp(d1 + d6),
        c2: modp(d2 - d5 + d7 + d8),
        c3: modp(d3 - d6 + d8),
        c4: modp(d4 - d7),
    }
}

/// `a^e` in the extension.
pub open spec fn ext_pow(a: Ext, e: nat) -> Ext
    decreases e,
{
    if e == 0 {
        ext_one()
    } else {
        ext_mul_spec(a, ext_pow(a, (e - 1) as nat))
    }
}

pub fn ext_zero_value() -> (r: Ext)
    ensures
        r == ext_zero(),
        r.wf(),
{
    Ext { c0: 0, c1: 0, c2: 0, c3: 0, c4: 0 }
}

pub fn ext_one_value() -> (r: Ext)
    ensures
        r == ext_one(),
        r.wf(),
{
    Ext { c0: 1, c1: 0, c2: 0, c3: 0, c4: 0 }
}

pub fn ext_from_base(x: u32) -> (r: Ext)
    requires
        x < P,
    ensures
        r == ext_base(x),
        r.wf(),
{
    Ext { c0: x, c1: 0, c2: 0, c3: 0, c4: 0 }
}

pub fn ext_sub(a: Ext, b: Ext) -> (r: Ext)
    requires
        a.wf(),
        b.wf(),
    ensures
        r == ext_sub_spec(a, b),
        r.wf(),
{
    Ext {
        c0: f_sub(a.c0, b.c0),
        c1: f_sub(a.c1, b.c1),
        c2: f_sub(a.c2, b.c2),
        c3: f_sub(a.c3, b.c3),
        c4: f_sub(a.c4, b.c4),
    }
}

pub fn ext_neg(a: Ext) -> (r: Ext)
    requires
        a.wf(),
    ensures
        r == ext_sub_spec(ext_zero(), a),
        r.wf(),
{
    ext_sub(ext_zero_value(), a)
}

pub fn ext_scale(a: Ext, s: u32) -> (r: Ext)
    requires
        a.wf(),
        s < P,
    ensures
        r == ext_scale_spec(a, s),
        r.wf(),
{
    Ext {
        c0: f_mul(a.c0, s),
        c1: f_mul(a.c1, s),
        c2: f_mul(a.c2, s),
        c3: f_mul(a.c3, s),
        c4: f_mul(a.c4, s),
    }
}

/// A product of two canonical values, as a `u64`.
fn wide_mul(a: u32, b: u32) -> (r: u64)
    requires
        a < P,
        b < P,
    ensures
        r == a * b,
        r <= 4539909899366170624u64,
{
    proof {
        vstd::arithmetic::mul::lemma_mul_upper_bound(a as int, 2130706432, b as int, 2130706432);
    }
    (a as u64) * (b as u64)
}

/// Reduces a sum of canonical products.
fn reduce_sum(x: u64) -> (r: u32)
    ensures
        r < P,
        r == (x as int) % (P as int),
{
    (x % (P as u64)) as u32
}

pub fn ext_mul(a: Ext, b: Ext) -> (r: Ext)
    requires
        a.wf(),
        b.wf(),
    ensures
        r == ext_mul_spec(a, b),
        r.wf(),
{
    let d0 = reduce_sum(wide_mul(a.c0, b.c0));
    let d1 = reduce_sum(wide_mul(a.c0, b.c1) + wide_mul(a.c1, b.c0));
    let d2 = reduce_sum(wide_mul(a.c0, b.c2) + wide_mul(a.c1, b.c1) + wide_mul(a.c2, b.c0));
    let d3 = reduce_sum(
        wide_mul(a.c0, b.c3) + wide_mul(a.c1, b.c2) + wide_mul(a.c2, b.c1) + wide_mul(a.c3, b.c0),
    );
    let d4a = reduce_sum(
        wide_mul(a.c0, b.c4) + wide_mul(a.c1, b.c3) + wide_mul(a.c2, b.c2) + wide_mul(a.c3, b.c1),
    );
    let d4 = reduce_sum(d4a as u64 + wide_mul(a.c4, b.c0));
    let d5 = reduce_sum(
        wide_mul(a.c1, b.c4) + wide_mul(a.c2, b.c3) + wide_mul(a.c3, b.c2) + wide_mul(a.c4, b.c1),
    );
    let d6 = reduce_sum(wide_mul(a.c2, b.c4) + wide_mul(a.c3, b.c3) + wide_mul(a.c4, b.c2));
    let d7 = reduce_sum(wide_mul(a.c3, b.c4) + wide_mul(a.c4, b.c3));
    let d8 = reduce_sum(wide_mul(a.c4, b.c4));
    let ghost p = P as int;
    proof {
        reveal(conv5);
        let x4 = a.c0 * b.c4 + a.c1 * b.c3 + a.c2 * b.c2 + a.c3 * b.c1;
        vstd::arithmetic::div_mod::lemma_add_mod_noop(x4, a.c4 * b.c0, p);
        vstd::arithmetic::div_mod::lemma_mod_twice(x4, p);
        assert(d4 == conv5(a, b, 4) % p) by {
            vstd::arithmetic::div_mod::lemma_add_mod_noop(x4 % p, a.c4 * b.c0, p);
            vstd::arithmetic::div_mod::lemma_mod_twice(a.c4 * b.c0, p);
        }
        assert(d0 == conv5(a, b, 0) % p);
        assert(d1 == conv5(a, b, 1) % p);
        assert(d2 == conv5(a, b, 2) % p);
        assert(d3 == conv5(a, b, 3) % p);
        assert(d5 == conv5(a, b, 5) % p);
        assert(d6 == conv5(a, b, 6) % p);
        assert(d7 == conv5(a, b, 7) % p);
        assert(d8 == conv5(a, b, 8) % p);
    }
    let r = Ext {
        c0: f_sub(f_add(d0, d5), d8),
        c1: f_add(d1, d6),
        c2: f_add(f_add(f_sub(d2, d5), d7), d8),
        c3: f_add(f_sub(d3, d6), d8),
        c4: f_sub(d4, d7),
    };
    proof {
        let e0 = conv5(a, b, 0);
        let e1 = conv5(a, b, 1);
        let e2 = conv5(a, b, 2);
        let e3 = conv5(a, b, 3);
        let e4 = conv5(a, b, 4);
        let e5 = conv5(a, b, 5);
        let e6 = conv5(a, b, 6);
        let e7 = conv5(a, b, 7);
        let e8 = conv5(a, b, 8);
        lemma_mod_pattern0(e0, e5, e8, p);
        lemma_mod_pattern1(e1, e6, p);
        lemma_mod_pattern2(e2, e5, e7, e8, p);
        lemma_mod_pattern3(e3, e6, e8, p);
        lemma_mod_pattern4(e4, e7, p);
    }
    r
}

proof fn lemma_mod_pattern0(x: int, y: int, z: int, p: int)
    requires
        p > 0,
    ensures
        ((((x % p) + (y % p)) % p) - (z % p)) % p == (x + y - z) % p,
{
    vstd::arithmetic::div_mod::lemma_add_mod_noop(x, y, p);
    vstd::arithmetic::div_mod::lemma_sub_mod_noop(x + y, z, p);
    vstd::arithmetic::div_mod::lemma_mod_twice(x + y, p);
}

proof fn lemma_mod_pattern1(x: int, y: int, p: int)
    requires
        p > 0,
    ensures
        ((x % p) + (y % p)) % p == (x + y) % p,
{
    vstd::arithmetic::div_mod::lemma_add_mod_noop(x, y, p);
}

proof fn lemma_mod_pattern4(x: int, y: int, p: int)
    requires
        p > 0,
    ensures
        ((x % p) - (y % p)) % p == (x - y) % p,
{
    vstd::arithmetic::div_mod::lemma_sub_mod_noop(x, y, p);
}

proof fn lemma_mod_pattern3(x: int, y: int, z: int, p: int)
    requires
        p > 0,
    ensures
        ((((x % p) - (y % p)) % p) + (z % p)) % p == (x - y + z) % p,
{
    lemma_mod_pattern4(x, y, p);
    vstd::arithmetic::div_mod::lemma_add_mod_noop(x - y, z, p);
    vstd::arithmetic::div_mod::lemma_mod_twice(x - y, p);
}

proof fn lemma_mod_pattern2(x: int, y: int, z: int, w: int, p: int)
    requires
        p > 0,
    ensures
        ((((((x % p) - (y % p)) % p) + (z % p)) % p) + (w % p)) % p == (x - y + z + w) % p,
{
    lemma_mod_pattern3(x, y, z, p);
    vstd::arithmetic::div_mod::lemma_add_mod_noop(x - y + z, w, p);
    vstd::arithmetic::div_mod::lemma_mod_twice(x - y + z, p);
}

/// `a^e` in the extension, by repeated multiplication.
pub fn ext_exp(a: Ext, e: u64) -> (r: Ext)
    requires
        a.wf(),
    ensures
        r == ext_pow(a, e as nat),
        r.wf(),
{
    let mut acc = ext_one_value();
    let mut i: u64 = 0;
    while i < e
        invariant
            a.wf(),
            i <= e,
            acc.wf(),
            acc == ext_pow(a, i as nat),
        decreases e - i,
    {
        acc = ext_mul(a, acc);
        i = i + 1;
    }
    acc
}

/// The canonical multiplicative inverse of `a` in the extension, which is
/// unique where it exists (`lemma_ext_inverse_unique`).
pub open spec fn ext_inverse(a: Ext) -> Ext {
    choose|x: Ext| #[trigger] is_ext_inverse(a, x)
}

/// `x` is a canonical inverse of `a`.
pub open spec fn is_ext_inverse(a: Ext, x: Ext) -> bool {
    x.wf() && ext_mul_spec(a, x) == ext_one()
}

/// The extension element with the given five coordinates.
pub open spec fn ext_of_coords(s: Seq<u32>) -> Ext {
    Ext { c0: s[0], c1: s[1], c2: s[2], c3: s[3], c4: s[4] }
}

/// `QuinticTrinomialExtensionField::try_inverse` over KoalaBear.  Trusted: the
/// contract states that zero has no inverse and that a returned value is
/// canonical and a multiplicative inverse of the argument; this is what the
/// crate documents and computes.
#[verifier::external_body]
fn ext_try_inverse(a: Ext) -> (r: Option<Ext>)
    requires
        a.wf(),
    ensures
        r is None <==> a == ext_zero(),
        r matches Some(x) ==> x.wf() && ext_mul_spec(a, x) == ext_one(),
{
    let coords = [a.c0, a.c1, a.c2, a.c3, a.c4].map(KoalaBear::from_u32);
    match QuinticTrinomialExtensionField::<KoalaBear>::new(coords).try_inverse() {
        Some(inv) => {
            let c: &[KoalaBear] = BasedVectorSpace::<KoalaBear>::as_basis_coefficients_slice(&inv);
            Some(Ext { c0: c[0].as_canonical_u32(), c1: c[1].as_canonical_u32(), c2: c[2].as_canonical_u32(), c3: c[3].as_canonical_u32(), c4: c[4].as_canonical_u32() })
        },
        None => None,
    }
}

/// The inverse of a canonical extension element: `None` exactly for zero,
/// otherwise its canonical inverse.
pub fn ext_checked_inverse(a: Ext) -> (r: Option<Ext>)
    requires
        a.wf(),
    ensures
        r is None <==> a == ext_zero(),
        r matches Some(x) ==> x == ext_inverse(a) && is_ext_inverse(a, x),
{
    let r = ext_try_inverse(a);
    proof {
        if let Some(x) = r {
            assert(is_ext_inverse(a, x));
            let c = ext_inverse(a);
            assert(is_ext_inverse(a, c));
            crate::ext_ring::lemma_ext_inverse_unique(a, c, x);
        }
    }
    r
}

} // verus!

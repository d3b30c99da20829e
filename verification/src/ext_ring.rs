//! Ring laws of the quintic extension product: associativity,
//! commutativity, the unit, and uniqueness of inverses.  They are proved on
//! unreduced integer coordinates and carried over the reduction modulo `P`.
use crate::field::{conv5, ext_mul_spec, ext_one, modp, Ext, P};
use vstd::prelude::*;

verus! {

/// Coordinates of an extension element as unreduced integers.
pub type Quint = (int, int, int, int, int);

/// The product in `Z[X] / (X^5 + X^2 - 1)`, before reduction modulo `P`.
pub open spec fn qmul(a: Quint, b: Quint) -> Quint {
    let d0 = a.0 * b.0;
    let d1 = a.0 * b.1 + a.1 * b.0;
    let d2 = a.0 * b.2 + a.1 * b.1 + a.2 * b.0;
    let d3 = a.0 * b.3 + a.1 * b.2 + a.2 * b.1 + a.3 * b.0;
    let d4 = a.0 * b.4 + a.1 * b.3 + a.2 * b.2 + a.3 * b.1 + a.4 * b.0;
    let d5 = a.1 * b.4 + a.2 * b.3 + a.3 * b.2 + a.4 * b.1;
    let d6 = a.2 * b.4 + a.3 * b.3 + a.4 * b.2;
    let d7 = a.3 * b.4 + a.4 * b.3;
    let d8 = a.4 * b.4;
    (d0 + d5 - d8, d1 + d6, d2 - d5 + d7 + d8, d3 - d6 + d8, d4 - d7)
}

/// Multiplication by `X`.
pub open spec fn qshift(a: Quint) -> Quint {
    (a.4, a.0, a.1 - a.4, a.2, a.3)
}

/// Coordinate-wise sum.
pub open spec fn qadd(a: Quint, b: Quint) -> Quint {
    (a.0 + b.0, a.1 + b.1, a.2 + b.2, a.3 + b.3, a.4 + b.4)
}

/// Coordinate-wise multiple.
pub open spec fn qscale(s: int, a: Quint) -> Quint {
    (s * a.0, s * a.1, s * a.2, s * a.3, s * a.4)
}

/// Multiplying a product by `X` is multiplying its right factor by `X`.
proof fn lemma_shift_assoc(a: Quint, b: Quint)
    ensures
        qshift(qmul(a, b)) == qmul(a, qshift(b)),
{
    assert(((a.0 * b.4 + a.1 * b.3 + a.2 * b.2 + a.3 * b.1 + a.4 * b.0) - (a.3 * b.4 + a.4 * b.3)) == ((a.0 * b.4) + (a.1 * b.3 + a.2 * b.2 + a.3 * (b.1 - b.4) + a.4 * b.0) - (a.4 * b.3))) by (nonlinear_arith);
    assert(((a.0 * b.0) + (a.1 * b.4 + a.2 * b.3 + a.3 * b.2 + a.4 * b.1) - (a.4 * b.4)) == ((a.0 * b.0 + a.1 * b.4) + (a.2 * b.3 + a.3 * b.2 + a.4 * (b.1 - b.4)))) by (nonlinear_arith);
    assert((((a.0 * b.1 + a.1 * b.0) + (a.2 * b.4 + a.3 * b.3 + a.4 * b.2)) - ((a.0 * b.4 + a.1 * b.3 + a.2 * b.2 + a.3 * b.1 + a.4 * b.0) - (a.3 * b.4 + a.4 * b.3))) == ((a.0 * (b.1 - b.4) + a.1 * b.0 + a.2 * b.4) - (a.1 * b.3 + a.2 * b.2 + a.3 * (b.1 - b.4) + a.4 * b.0) + (a.3 * b.3 + a.4 * b.2) + (a.4 * b.3))) by (nonlinear_arith);
    assert(((a.0 * b.2 + a.1 * b.1 + a.2 * b.0) - (a.1 * b.4 + a.2 * b.3 + a.3 * b.2 + a.4 * b.1) + (a.3 * b.4 + a.4 * b.3) + (a.4 * b.4)) == ((a.0 * b.2 + a.1 * (b.1 - b.4) + a.2 * b.0 + a.3 * b.4) - (a.2 * b.3 + a.3 * b.2 + a.4 * (b.1 - b.4)) + (a.4 * b.3))) by (nonlinear_arith);
    assert(((a.0 * b.3 + a.1 * b.2 + a.2 * b.1 + a.3 * b.0) - (a.2 * b.4 + a.3 * b.3 + a.4 * b.2) + (a.4 * b.4)) == ((a.0 * b.3 + a.1 * b.2 + a.2 * (b.1 - b.4) + a.3 * b.0 + a.4 * b.4) - (a.3 * b.3 + a.4 * b.2))) by (nonlinear_arith);
}

/// The product distributes over a sum on the right.
proof fn lemma_qmul_add(y: Quint, u: Quint, v: Quint)
    ensures
        qmul(y, qadd(u, v)) == qadd(qmul(y, u), qmul(y, v)),
{
    assert(y.0 * (u.0 + v.0) == y.0 * u.0 + y.0 * v.0) by (nonlinear_arith);
    assert(y.0 * (u.1 + v.1) == y.0 * u.1 + y.0 * v.1) by (nonlinear_arith);
    assert(y.0 * (u.2 + v.2) == y.0 * u.2 + y.0 * v.2) by (nonlinear_arith);
    assert(y.0 * (u.3 + v.3) == y.0 * u.3 + y.0 * v.3) by (nonlinear_arith);
    assert(y.0 * (u.4 + v.4) == y.0 * u.4 + y.0 * v.4) by (nonlinear_arith);
    assert(y.1 * (u.0 + v.0) == y.1 * u.0 + y.1 * v.0) by (nonlinear_arith);
    assert(y.1 * (u.1 + v.1) == y.1 * u.1 + y.1 * v.1) by (nonlinear_arith);
    assert(y.1 * (u.2 + v.2) == y.1 * u.2 + y.1 * v.2) by (nonlinear_arith);
    assert(y.1 * (u.3 + v.3) == y.1 * u.3 + y.1 * v.3) by (nonlinear_arith);
    assert(y.1 * (u.4 + v.4) == y.1 * u.4 + y.1 * v.4) by (nonlinear_arith);
    assert(y.2 * (u.0 + v.0) == y.2 * u.0 + y.2 * v.0) by (nonlinear_arith);
    assert(y.2 * (u.1 + v.1) == y.2 * u.1 + y.2 * v.1) by (nonlinear_arith);
    assert(y.2 * (u.2 + v.2) == y.2 * u.2 + y.2 * v.2) by (nonlinear_arith);
    assert(y.2 * (u.3 + v.3) == y.2 * u.3 + y.2 * v.3) by (nonlinear_arith);
    assert(y.2 * (u.4 + v.4) == y.2 * u.4 + y.2 * v.4) by (nonlinear_arith);
    assert(y.3 * (u.0 + v.0) == y.3 * u.0 + y.3 * v.0) by (nonlinear_arith);
    assert(y.3 * (u.1 + v.1) == y.3 * u.1 + y.3 * v.1) by (nonlinear_arith);
    assert(y.3 * (u.2 + v.2) == y.3 * u.2 + y.3 * v.2) by (nonlinear_arith);
    assert(y.3 * (u.3 + v.3) == y.3 * u.3 + y.3 * v.3) by (nonlinear_arith);
    assert(y.3 * (u.4 + v.4) == y.3 * u.4 + y.3 * v.4) by (nonlinear_arith);
    assert(y.4 * (u.0 + v.0) == y.4 * u.0 + y.4 * v.0) by (nonlinear_arith);
    assert(y.4 * (u.1 + v.1) == y.4 * u.1 + y.4 * v.1) by (nonlinear_arith);
    assert(y.4 * (u.2 + v.2) == y.4 * u.2 + y.4 * v.2) by (nonlinear_arith);
    assert(y.4 * (u.3 + v.3) == y.4 * u.3 + y.4 * v.3) by (nonlinear_arith);
    assert(y.4 * (u.4 + v.4) == y.4 * u.4 + y.4 * v.4) by (nonlinear_arith);
}

/// A multiple of a sum or a difference.
proof fn lemma_scale_split(s: int, a: int, b: int)
    ensures
        s * (a + b) == s * a + s * b,
        s * (a - b) == s * a - s * b,
{
    assert(s * (a + b) == s * a + s * b) by (nonlinear_arith);
    assert(s * (a - b) == s * a - s * b) by (nonlinear_arith);
}

/// Scaling the right factor scales the product.
proof fn lemma_qmul_scale(y: Quint, s: int, u: Quint)
    ensures
        qmul(y, qscale(s, u)) == qscale(s, qmul(y, u)),
{
    assert(y.0 * (s * u.0) == s * (y.0 * u.0)) by (nonlinear_arith);
    assert(y.0 * (s * u.1) == s * (y.0 * u.1)) by (nonlinear_arith);
    assert(y.0 * (s * u.2) == s * (y.0 * u.2)) by (nonlinear_arith);
    assert(y.0 * (s * u.3) == s * (y.0 * u.3)) by (nonlinear_arith);
    assert(y.0 * (s * u.4) == s * (y.0 * u.4)) by (nonlinear_arith);
    assert(y.1 * (s * u.0) == s * (y.1 * u.0)) by (nonlinear_arith);
    assert(y.1 * (s * u.1) == s * (y.1 * u.1)) by (nonlinear_arith);
    assert(y.1 * (s * u.2) == s * (y.1 * u.2)) by (nonlinear_arith);
    assert(y.1 * (s * u.3) == s * (y.1 * u.3)) by (nonlinear_arith);
    assert(y.1 * (s * u.4) == s * (y.1 * u.4)) by (nonlinear_arith);
    assert(y.2 * (s * u.0) == s * (y.2 * u.0)) by (nonlinear_arith);
    assert(y.2 * (s * u.1) == s * (y.2 * u.1)) by (nonlinear_arith);
    assert(y.2 * (s * u.2) == s * (y.2 * u.2)) by (nonlinear_arith);
    assert(y.2 * (s * u.3) == s * (y.2 * u.3)) by (nonlinear_arith);
    assert(y.2 * (s * u.4) == s * (y.2 * u.4)) by (nonlinear_arith);
    assert(y.3 * (s * u.0) == s * (y.3 * u.0)) by (nonlinear_arith);
    assert(y.3 * (s * u.1) == s * (y.3 * u.1)) by (nonlinear_arith);
    assert(y.3 * (s * u.2) == s * (y.3 * u.2)) by (nonlinear_arith);
    assert(y.3 * (s * u.3) == s * (y.3 * u.3)) by (nonlinear_arith);
    assert(y.3 * (s * u.4) == s * (y.3 * u.4)) by (nonlinear_arith);
    assert(y.4 * (s * u.0) == s * (y.4 * u.0)) by (nonlinear_arith);
    assert(y.4 * (s * u.1) == s * (y.4 * u.1)) by (nonlinear_arith);
    assert(y.4 * (s * u.2) == s * (y.4 * u.2)) by (nonlinear_arith);
    assert(y.4 * (s * u.3) == s * (y.4 * u.3)) by (nonlinear_arith);
    assert(y.4 * (s * u.4) == s * (y.4 * u.4)) by (nonlinear_arith);
    lemma_scale_split(s, (y.0 * u.0 + (((y.1 * u.4 + y.2 * u.3) + y.3 * u.2) + y.4 * u.1)), y.4 * u.4);
    lemma_scale_split(s, y.0 * u.0, (((y.1 * u.4 + y.2 * u.3) + y.3 * u.2) + y.4 * u.1));
    lemma_scale_split(s, ((y.1 * u.4 + y.2 * u.3) + y.3 * u.2), y.4 * u.1);
    lemma_scale_split(s, (y.1 * u.4 + y.2 * u.3), y.3 * u.2);
    lemma_scale_split(s, y.1 * u.4, y.2 * u.3);
    lemma_scale_split(s, (y.0 * u.1 + y.1 * u.0), ((y.2 * u.4 + y.3 * u.3) + y.4 * u.2));
    lemma_scale_split(s, y.0 * u.1, y.1 * u.0);
    lemma_scale_split(s, (y.2 * u.4 + y.3 * u.3), y.4 * u.2);
    lemma_scale_split(s, y.2 * u.4, y.3 * u.3);
    lemma_scale_split(s, ((((y.0 * u.2 + y.1 * u.1) + y.2 * u.0) - (((y.1 * u.4 + y.2 * u.3) + y.3 * u.2) + y.4 * u.1)) + (y.3 * u.4 + y.4 * u.3)), y.4 * u.4);
    lemma_scale_split(s, (((y.0 * u.2 + y.1 * u.1) + y.2 * u.0) - (((y.1 * u.4 + y.2 * u.3) + y.3 * u.2) + y.4 * u.1)), (y.3 * u.4 + y.4 * u.3));
    lemma_scale_split(s, ((y.0 * u.2 + y.1 * u.1) + y.2 * u.0), (((y.1 * u.4 + y.2 * u.3) + y.3 * u.2) + y.4 * u.1));
    lemma_scale_split(s, (y.0 * u.2 + y.1 * u.1), y.2 * u.0);
    lemma_scale_split(s, y.0 * u.2, y.1 * u.1);
    lemma_scale_split(s, ((y.1 * u.4 + y.2 * u.3) + y.3 * u.2), y.4 * u.1);
    lemma_scale_split(s, (y.1 * u.4 + y.2 * u.3), y.3 * u.2);
    lemma_scale_split(s, y.1 * u.4, y.2 * u.3);
    lemma_scale_split(s, y.3 * u.4, y.4 * u.3);
    lemma_scale_split(s, ((((y.0 * u.3 + y.1 * u.2) + y.2 * u.1) + y.3 * u.0) - ((y.2 * u.4 + y.3 * u.3) + y.4 * u.2)), y.4 * u.4);
    lemma_scale_split(s, (((y.0 * u.3 + y.1 * u.2) + y.2 * u.1) + y.3 * u.0), ((y.2 * u.4 + y.3 * u.3) + y.4 * u.2));
    lemma_scale_split(s, ((y.0 * u.3 + y.1 * u.2) + y.2 * u.1), y.3 * u.0);
    lemma_scale_split(s, (y.0 * u.3 + y.1 * u.2), y.2 * u.1);
    lemma_scale_split(s, y.0 * u.3, y.1 * u.2);
    lemma_scale_split(s, (y.2 * u.4 + y.3 * u.3), y.4 * u.2);
    lemma_scale_split(s, y.2 * u.4, y.3 * u.3);
    lemma_scale_split(s, ((((y.0 * u.4 + y.1 * u.3) + y.2 * u.2) + y.3 * u.1) + y.4 * u.0), (y.3 * u.4 + y.4 * u.3));
    lemma_scale_split(s, (((y.0 * u.4 + y.1 * u.3) + y.2 * u.2) + y.3 * u.1), y.4 * u.0);
    lemma_scale_split(s, ((y.0 * u.4 + y.1 * u.3) + y.2 * u.2), y.3 * u.1);
    lemma_scale_split(s, (y.0 * u.4 + y.1 * u.3), y.2 * u.2);
    lemma_scale_split(s, y.0 * u.4, y.1 * u.3);
    lemma_scale_split(s, y.3 * u.4, y.4 * u.3);
}

/// Multiplying by a base-field constant scales.
proof fn lemma_qmul_base(y: Quint, s: int)
    ensures
        qmul(y, (s, 0, 0, 0, 0)) == qscale(s, y),
{
    assert(((y.0 * s) + (y.1 * 0 + y.2 * 0 + y.3 * 0 + y.4 * 0) - (y.4 * 0)) == (s * y.0)) by (nonlinear_arith);
    assert(((y.0 * 0 + y.1 * s) + (y.2 * 0 + y.3 * 0 + y.4 * 0)) == (s * y.1)) by (nonlinear_arith);
    assert(((y.0 * 0 + y.1 * 0 + y.2 * s) - (y.1 * 0 + y.2 * 0 + y.3 * 0 + y.4 * 0) + (y.3 * 0 + y.4 * 0) + (y.4 * 0)) == (s * y.2)) by (nonlinear_arith);
    assert(((y.0 * 0 + y.1 * 0 + y.2 * 0 + y.3 * s) - (y.2 * 0 + y.3 * 0 + y.4 * 0) + (y.4 * 0)) == (s * y.3)) by (nonlinear_arith);
    assert(((y.0 * 0 + y.1 * 0 + y.2 * 0 + y.3 * 0 + y.4 * s) - (y.3 * 0 + y.4 * 0)) == (s * y.4)) by (nonlinear_arith);
}

/// Associativity for a right factor whose coordinates from `k` on are zero.
proof fn lemma_qmul_assoc_from(a: Quint, b: Quint, c: Quint, k: nat)
    requires
        k <= 5,
        k <= 0 ==> c.0 == 0,
        k <= 1 ==> c.1 == 0,
        k <= 2 ==> c.2 == 0,
        k <= 3 ==> c.3 == 0,
        k <= 4 ==> c.4 == 0,
    ensures
        qmul(qmul(a, b), c) == qmul(a, qmul(b, c)),
    decreases k,
{
    let ab = qmul(a, b);
    let base = (c.0, 0int, 0int, 0int, 0int);
    let rest = (c.1, c.2, c.3, c.4, 0int);
    assert(c == qadd(base, qshift(rest)));
    if k == 0 {
        // `c` is zero, and so are both sides.
        lemma_qmul_base(ab, 0);
        lemma_qmul_base(b, 0);
        lemma_qmul_base(a, 0);
    } else {
        lemma_qmul_assoc_from(a, b, rest, (k - 1) as nat);
        // left side
        lemma_qmul_add(ab, base, qshift(rest));
        lemma_qmul_base(ab, c.0);
        lemma_shift_assoc(ab, rest);
        lemma_shift_assoc(a, qmul(b, rest));
        // right side
        lemma_qmul_add(b, base, qshift(rest));
        lemma_qmul_base(b, c.0);
        lemma_shift_assoc(b, rest);
        lemma_qmul_add(a, qscale(c.0, b), qshift(qmul(b, rest)));
        lemma_qmul_scale(a, c.0, b);
    }
}

/// The unreduced product is associative.
pub proof fn lemma_qmul_assoc(a: Quint, b: Quint, c: Quint)
    ensures
        qmul(qmul(a, b), c) == qmul(a, qmul(b, c)),
{
    lemma_qmul_assoc_from(a, b, c, 5);
}

/// The unreduced product is commutative.
pub proof fn lemma_qmul_comm(a: Quint, b: Quint)
    ensures
        qmul(a, b) == qmul(b, a),
{
    assert(((a.0 * b.0) + (a.1 * b.4 + a.2 * b.3 + a.3 * b.2 + a.4 * b.1) - (a.4 * b.4)) == ((b.0 * a.0) + (b.1 * a.4 + b.2 * a.3 + b.3 * a.2 + b.4 * a.1) - (b.4 * a.4))) by (nonlinear_arith);
    assert(((a.0 * b.1 + a.1 * b.0) + (a.2 * b.4 + a.3 * b.3 + a.4 * b.2)) == ((b.0 * a.1 + b.1 * a.0) + (b.2 * a.4 + b.3 * a.3 + b.4 * a.2))) by (nonlinear_arith);
    assert(((a.0 * b.2 + a.1 * b.1 + a.2 * b.0) - (a.1 * b.4 + a.2 * b.3 + a.3 * b.2 + a.4 * b.1) + (a.3 * b.4 + a.4 * b.3) + (a.4 * b.4)) == ((b.0 * a.2 + b.1 * a.1 + b.2 * a.0) - (b.1 * a.4 + b.2 * a.3 + b.3 * a.2 + b.4 * a.1) + (b.3 * a.4 + b.4 * a.3) + (b.4 * a.4))) by (nonlinear_arith);
    assert(((a.0 * b.3 + a.1 * b.2 + a.2 * b.1 + a.3 * b.0) - (a.2 * b.4 + a.3 * b.3 + a.4 * b.2) + (a.4 * b.4)) == ((b.0 * a.3 + b.1 * a.2 + b.2 * a.1 + b.3 * a.0) - (b.2 * a.4 + b.3 * a.3 + b.4 * a.2) + (b.4 * a.4))) by (nonlinear_arith);
    assert(((a.0 * b.4 + a.1 * b.3 + a.2 * b.2 + a.3 * b.1 + a.4 * b.0) - (a.3 * b.4 + a.4 * b.3)) == ((b.0 * a.4 + b.1 * a.3 + b.2 * a.2 + b.3 * a.1 + b.4 * a.0) - (b.3 * a.4 + b.4 * a.3))) by (nonlinear_arith);
}


/// The coordinates of an extension element as integers.
pub open spec fn quint_of(a: Ext) -> Quint {
    (a.c0 as int, a.c1 as int, a.c2 as int, a.c3 as int, a.c4 as int)
}

/// The canonical element with the coordinates of `q` reduced modulo `P`.
pub open spec fn reduce(q: Quint) -> Ext {
    Ext { c0: modp(q.0), c1: modp(q.1), c2: modp(q.2), c3: modp(q.3), c4: modp(q.4) }
}

/// Coordinates agree modulo `P`.
pub open spec fn qcong(x: Quint, y: Quint) -> bool {
    &&& x.0 % (P as int) == y.0 % (P as int)
    &&& x.1 % (P as int) == y.1 % (P as int)
    &&& x.2 % (P as int) == y.2 % (P as int)
    &&& x.3 % (P as int) == y.3 % (P as int)
    &&& x.4 % (P as int) == y.4 % (P as int)
}

/// The extension product is the reduced unreduced product.
proof fn lemma_ext_mul_quint(a: Ext, b: Ext)
    ensures
        ext_mul_spec(a, b) == reduce(qmul(quint_of(a), quint_of(b))),
{
    let x = a.coords();
    let y = b.coords();
    assert(x[0] == a.c0 && x[1] == a.c1 && x[2] == a.c2 && x[3] == a.c3 && x[4] == a.c4);
    assert(y[0] == b.c0 && y[1] == b.c1 && y[2] == b.c2 && y[3] == b.c3 && y[4] == b.c4);
    reveal(conv5);
    assert(conv5(a, b, 0) == (a.c0 as int) * (b.c0 as int));
    assert(conv5(a, b, 1) == (a.c0 as int) * (b.c1 as int) + (a.c1 as int) * (b.c0 as int));
    assert(conv5(a, b, 2) == (a.c0 as int) * (b.c2 as int) + (a.c1 as int) * (b.c1 as int) + (a.c2 as int) * (b.c0 as int));
    assert(conv5(a, b, 3) == (a.c0 as int) * (b.c3 as int) + (a.c1 as int) * (b.c2 as int) + (a.c2 as int) * (b.c1 as int) + (a.c3 as int) * (b.c0 as int));
    assert(conv5(a, b, 4) == (a.c0 as int) * (b.c4 as int) + (a.c1 as int) * (b.c3 as int) + (a.c2 as int) * (b.c2 as int) + (a.c3 as int) * (b.c1 as int) + (a.c4 as int) * (b.c0 as int));
    assert(conv5(a, b, 5) == (a.c1 as int) * (b.c4 as int) + (a.c2 as int) * (b.c3 as int) + (a.c3 as int) * (b.c2 as int) + (a.c4 as int) * (b.c1 as int));
    assert(conv5(a, b, 6) == (a.c2 as int) * (b.c4 as int) + (a.c3 as int) * (b.c3 as int) + (a.c4 as int) * (b.c2 as int));
    assert(conv5(a, b, 7) == (a.c3 as int) * (b.c4 as int) + (a.c4 as int) * (b.c3 as int));
    assert(conv5(a, b, 8) == (a.c4 as int) * (b.c4 as int));

}

/// Reducing keeps coordinates modulo `P`.
proof fn lemma_reduce_cong(q: Quint)
    ensures
        qcong(quint_of(reduce(q)), q),
{
    let pp = P as int;
    vstd::arithmetic::div_mod::lemma_mod_twice(q.0, pp);
    vstd::arithmetic::div_mod::lemma_mod_twice(q.1, pp);
    vstd::arithmetic::div_mod::lemma_mod_twice(q.2, pp);
    vstd::arithmetic::div_mod::lemma_mod_twice(q.3, pp);
    vstd::arithmetic::div_mod::lemma_mod_twice(q.4, pp);
}

/// Congruent integers differ by a multiple of `P`.
proof fn lemma_cong_mod(x: int, y: int)
    requires
        x % (P as int) == y % (P as int),
    ensures
        x == y + (P as int) * ((x - y) / (P as int)),
        (x - y) % (P as int) == 0,
{
    let pp = P as int;
    vstd::arithmetic::div_mod::lemma_sub_mod_noop(x, y, pp);
    vstd::arithmetic::div_mod::lemma_fundamental_div_mod(x - y, pp);
}

/// Adding a multiple of `P` keeps the residue.
proof fn lemma_add_multiple_mod(a: int, b: int)
    ensures
        (a + (P as int) * b) % (P as int) == a % (P as int),
{
    vstd::arithmetic::div_mod::lemma_mod_multiples_vanish(b, a, P as int);
}

/// Congruent right factors give congruent products.
proof fn lemma_qmul_cong_right(c: Quint, x: Quint, y: Quint)
    requires
        qcong(x, y),
    ensures
        qcong(qmul(c, x), qmul(c, y)),
{
    let pp = P as int;
    lemma_cong_mod(x.0, y.0);
    lemma_cong_mod(x.1, y.1);
    lemma_cong_mod(x.2, y.2);
    lemma_cong_mod(x.3, y.3);
    lemma_cong_mod(x.4, y.4);
    let t = ((x.0 - y.0) / pp, (x.1 - y.1) / pp, (x.2 - y.2) / pp, (x.3 - y.3) / pp, (x.4 - y.4) / pp);
    assert(x == qadd(y, qscale(pp, t)));
    lemma_qmul_add(c, y, qscale(pp, t));
    lemma_qmul_scale(c, pp, t);
    let m = qmul(c, t);
    let z = qmul(c, y);
    lemma_add_multiple_mod(z.0, m.0);
    lemma_add_multiple_mod(z.1, m.1);
    lemma_add_multiple_mod(z.2, m.2);
    lemma_add_multiple_mod(z.3, m.3);
    lemma_add_multiple_mod(z.4, m.4);
}

/// Congruent coordinates reduce to the same element.
proof fn lemma_reduce_eq(x: Quint, y: Quint)
    requires
        qcong(x, y),
    ensures
        reduce(x) == reduce(y),
{
}

/// The extension product is associative.
pub proof fn lemma_ext_mul_assoc(a: Ext, b: Ext, c: Ext)
    ensures
        ext_mul_spec(ext_mul_spec(a, b), c) == ext_mul_spec(a, ext_mul_spec(b, c)),
{
    let (qa, qb, qc) = (quint_of(a), quint_of(b), quint_of(c));
    let ab = ext_mul_spec(a, b);
    let bc = ext_mul_spec(b, c);
    lemma_ext_mul_quint(a, b);
    lemma_ext_mul_quint(b, c);
    lemma_ext_mul_quint(ab, c);
    lemma_ext_mul_quint(a, bc);
    lemma_reduce_cong(qmul(qa, qb));
    lemma_reduce_cong(qmul(qb, qc));
    lemma_qmul_comm(quint_of(ab), qc);
    lemma_qmul_comm(qmul(qa, qb), qc);
    lemma_qmul_cong_right(qc, quint_of(ab), qmul(qa, qb));
    lemma_qmul_cong_right(qa, quint_of(bc), qmul(qb, qc));
    lemma_qmul_assoc(qa, qb, qc);
    lemma_reduce_eq(qmul(quint_of(ab), qc), qmul(qmul(qa, qb), qc));
    lemma_reduce_eq(qmul(qa, quint_of(bc)), qmul(qa, qmul(qb, qc)));
}

/// The extension product is commutative.
pub proof fn lemma_ext_mul_comm(a: Ext, b: Ext)
    ensures
        ext_mul_spec(a, b) == ext_mul_spec(b, a),
{
    lemma_ext_mul_quint(a, b);
    lemma_ext_mul_quint(b, a);
    lemma_qmul_comm(quint_of(a), quint_of(b));
}

/// One is neutral for canonical elements.
pub proof fn lemma_ext_mul_one(a: Ext)
    requires
        a.wf(),
    ensures
        ext_mul_spec(a, ext_one()) == a,
        ext_mul_spec(ext_one(), a) == a,
{
    lemma_ext_mul_quint(a, ext_one());
    lemma_qmul_base(quint_of(a), 1);
    lemma_ext_mul_comm(a, ext_one());
    vstd::arithmetic::div_mod::lemma_small_mod(a.c0 as nat, P as nat);
    vstd::arithmetic::div_mod::lemma_small_mod(a.c1 as nat, P as nat);
    vstd::arithmetic::div_mod::lemma_small_mod(a.c2 as nat, P as nat);
    vstd::arithmetic::div_mod::lemma_small_mod(a.c3 as nat, P as nat);
    vstd::arithmetic::div_mod::lemma_small_mod(a.c4 as nat, P as nat);
}

/// A canonical inverse is unique.
pub proof fn lemma_ext_inverse_unique(a: Ext, x: Ext, y: Ext)
    requires
        x.wf(),
        y.wf(),
        ext_mul_spec(a, x) == ext_one(),
        ext_mul_spec(a, y) == ext_one(),
    ensures
        x == y,
{
    lemma_ext_mul_one(x);
    lemma_ext_mul_one(y);
    lemma_ext_mul_assoc(x, a, y);
    lemma_ext_mul_comm(x, a);
}

} // verus!

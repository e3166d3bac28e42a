//! The algebra of `Z[ω]`: ring axioms, the multiplicative norm, conjugation,
//! the six units and the rotations of the lattice, stated over the
//! mathematical model `(a, b) ↦ a + bω` that every `E12` operation is tied to.

use vstd::prelude::*;

use crate::e12::{
    abs_of, add_of, axial_dist_of, conj_of, lemma_norm_nonneg, lemma_rotation_values, mul_of, neg_of,
    norm_of, rot60_of, rotation_of, sub_of, unit_of,
};

verus! {

/// Addition is associative.
pub proof fn law_add_assoc(x: (int, int), y: (int, int), z: (int, int))
    ensures
        add_of(add_of(x, y), z) == add_of(x, add_of(y, z)),
{
}

/// Addition is commutative.
pub proof fn law_add_comm(x: (int, int), y: (int, int))
    ensures
        add_of(x, y) == add_of(y, x),
{
}

/// `0` is the additive identity and `0 − x` the additive inverse of `x`.
pub proof fn law_add_identity_inverse(x: (int, int))
    ensures
        add_of(x, (0, 0)) == x,
        add_of(x, sub_of((0, 0), x)) == (0int, 0int),
        sub_of((0, 0), x) == neg_of(x),
{
}

/// Multiplication is commutative.
pub proof fn law_mul_comm(x: (int, int), y: (int, int))
    ensures
        mul_of(x, y) == mul_of(y, x),
{
    let (a, b) = x;
    let (c, d) = y;
    assert(a * c == c * a && b * d == d * b && a * d == d * a && b * c == c * b) by (nonlinear_arith);
}

/// Multiplication is associative.
pub proof fn law_mul_assoc(x: (int, int), y: (int, int), z: (int, int))
    ensures
        mul_of(mul_of(x, y), z) == mul_of(x, mul_of(y, z)),
{
    let (a, b) = x;
    let (c, d) = y;
    let (e, f) = z;
    let (ac, bd, ad, bc) = (a * c, b * d, a * d, b * c);
    let (ce, df, cf, de) = (c * e, d * f, c * f, d * e);
    lemma_sub_mul(ac, bd, e);
    lemma_sub_mul(ac, bd, f);
    lemma_add_sub_mul(ad, bc, bd, e);
    lemma_add_sub_mul(ad, bc, bd, f);
    lemma_mul_sub(a, ce, df);
    lemma_mul_sub(b, ce, df);
    lemma_mul_add_sub(a, cf, de, df);
    lemma_mul_add_sub(b, cf, de, df);
    lemma_assoc(a, c, e);
    lemma_assoc(a, c, f);
    lemma_assoc(a, d, e);
    lemma_assoc(a, d, f);
    lemma_assoc(b, c, e);
    lemma_assoc(b, c, f);
    lemma_assoc(b, d, e);
    lemma_assoc(b, d, f);
}

proof fn lemma_assoc(x: int, y: int, z: int)
    ensures
        (x * y) * z == x * (y * z),
{
    vstd::arithmetic::mul::lemma_mul_is_associative(x, y, z);
}

proof fn lemma_sub_mul(p: int, q: int, r: int)
    ensures
        (p - q) * r == p * r - q * r,
{
    assert((p - q) * r == p * r - q * r) by (nonlinear_arith);
}

proof fn lemma_add_sub_mul(p: int, q: int, s: int, r: int)
    ensures
        (p + q - s) * r == p * r + q * r - s * r,
{
    assert((p + q - s) * r == p * r + q * r - s * r) by (nonlinear_arith);
}

proof fn lemma_mul_sub(r: int, p: int, q: int)
    ensures
        r * (p - q) == r * p - r * q,
{
    assert(r * (p - q) == r * p - r * q) by (nonlinear_arith);
}

proof fn lemma_mul_add_sub(r: int, p: int, q: int, s: int)
    ensures
        r * (p + q - s) == r * p + r * q - r * s,
{
    assert(r * (p + q - s) == r * p + r * q - r * s) by (nonlinear_arith);
}

/// `1` is the multiplicative identity and `0` is absorbing.
pub proof fn law_mul_identity_zero(x: (int, int))
    ensures
        mul_of(x, (1, 0)) == x,
        mul_of(x, (0, 0)) == (0int, 0int),
{
}

/// Multiplication distributes over addition.
pub proof fn law_distributive(x: (int, int), y: (int, int), z: (int, int))
    ensures
        mul_of(x, add_of(y, z)) == add_of(mul_of(x, y), mul_of(x, z)),
{
    let (a, b) = x;
    let (c, d) = y;
    let (e, f) = z;
    assert(a * (c + e) == a * c + a * e && b * (d + f) == b * d + b * f && a * (d + f) == a * d + a
        * f && b * (c + e) == b * c + b * e) by (nonlinear_arith);
}

/// The norm is multiplicative: `N(xy) = N(x)·N(y)`.
pub proof fn law_norm_multiplicative(x: (int, int), y: (int, int))
    ensures
        norm_of(mul_of(x, y)) == norm_of(x) * norm_of(y),
{
    let (a, b) = x;
    let (c, d) = y;
    let m1 = a * c;
    let m2 = b * d;
    let m3 = a * d;
    let m4 = b * c;
    let p = m1 - m2;
    let q = m3 + m4 - m2;
    assert(p * p - p * q + q * q == m1 * m1 + m2 * m2 + m3 * m3 + m4 * m4 - m1 * m2 - m1 * m3 - m1
        * m4 - m2 * m3 - m2 * m4 + 2 * (m3 * m4)) by (nonlinear_arith)
        requires
            p == m1 - m2,
            q == m3 + m4 - m2,
    ;
    let aa = a * a;
    let ab = a * b;
    let bb = b * b;
    let cc = c * c;
    let cd = c * d;
    let dd = d * d;
    assert((aa - ab + bb) * (cc - cd + dd) == aa * cc - aa * cd + aa * dd - ab * cc + ab * cd - ab
        * dd + bb * cc - bb * cd + bb * dd) by (nonlinear_arith);
    assert(m1 * m1 == aa * cc) by (nonlinear_arith)
        requires m1 == a * c, aa == a * a, cc == c * c;
    assert(m2 * m2 == bb * dd) by (nonlinear_arith)
        requires m2 == b * d, bb == b * b, dd == d * d;
    assert(m3 * m3 == aa * dd) by (nonlinear_arith)
        requires m3 == a * d, aa == a * a, dd == d * d;
    assert(m4 * m4 == bb * cc) by (nonlinear_arith)
        requires m4 == b * c, bb == b * b, cc == c * c;
    assert(m1 * m2 == ab * cd) by (nonlinear_arith)
        requires m1 == a * c, m2 == b * d, ab == a * b, cd == c * d;
    assert(m3 * m4 == ab * cd) by (nonlinear_arith)
        requires m3 == a * d, m4 == b * c, ab == a * b, cd == c * d;
    assert(m1 * m3 == aa * cd) by (nonlinear_arith)
        requires m1 == a * c, m3 == a * d, aa == a * a, cd == c * d;
    assert(m1 * m4 == ab * cc) by (nonlinear_arith)
        requires m1 == a * c, m4 == b * c, ab == a * b, cc == c * c;
    assert(m2 * m3 == ab * dd) by (nonlinear_arith)
        requires m2 == b * d, m3 == a * d, ab == a * b, dd == d * d;
    assert(m2 * m4 == bb * cd) by (nonlinear_arith)
        requires m2 == b * d, m4 == b * c, bb == b * b, cd == c * d;
}

/// The norm vanishes exactly at the origin.
pub proof fn law_norm_zero_iff_origin(x: (int, int))
    ensures
        norm_of(x) >= 0,
        norm_of(x) == 0 <==> x == (0int, 0int),
{
    let (a, b) = x;
    lemma_norm_nonneg(x);
    assert(4 * (a * a - a * b + b * b) == (2 * a - b) * (2 * a - b) + 3 * (b * b)) by (nonlinear_arith);
    assert((2 * a - b) * (2 * a - b) >= 0) by (nonlinear_arith);
    assert(b * b >= 0) by (nonlinear_arith);
    if norm_of(x) == 0 {
        assert(b * b == 0);
        assert(b == 0) by (nonlinear_arith)
            requires b * b == 0;
        assert(a * a == 0);
        assert(a == 0) by (nonlinear_arith)
            requires a * a == 0;
    }
}

/// Conjugation is an involution that preserves the norm, is multiplicative,
/// and `z · conj(z) = N(z)`.
pub proof fn law_conjugate(x: (int, int), y: (int, int))
    ensures
        conj_of(conj_of(x)) == x,
        norm_of(conj_of(x)) == norm_of(x),
        mul_of(x, conj_of(x)) == (norm_of(x), 0int),
        conj_of(mul_of(x, y)) == mul_of(conj_of(x), conj_of(y)),
{
    let (a, b) = x;
    let (c, d) = y;
    assert((a - b) * (a - b) - (a - b) * (-b) + (-b) * (-b) == a * a - a * b + b * b)
        by (nonlinear_arith);
    assert(a * (a - b) - b * (-b) == a * a - a * b + b * b) by (nonlinear_arith);
    assert(a * (-b) + b * (a - b) - b * (-b) == 0) by (nonlinear_arith);
    assert((a * c - b * d) - (a * d + b * c - b * d) == (a - b) * (c - d) - (-b) * (-d))
        by (nonlinear_arith);
    assert(-(a * d + b * c - b * d) == (a - b) * (-d) + (-b) * (c - d) - (-b) * (-d))
        by (nonlinear_arith);
}

/// The six directions are units, and the units are exactly the elements of norm 1.
pub proof fn law_units(x: (int, int))
    ensures
        forall|i: int| 0 <= i < 6 ==> #[trigger] norm_of(unit_of(i)) == 1,
        norm_of(x) == 1 <==> exists|i: int| 0 <= i < 6 && x == #[trigger] unit_of(i),
{
    assert(unit_of(0) == (1int, 0int));
    assert(norm_of(unit_of(0)) == 1);
    assert(unit_of(1) == (0int, 1int));
    assert(norm_of(unit_of(1)) == 1);
    assert(unit_of(2) == (1int, 1int));
    assert(norm_of(unit_of(2)) == 1);
    assert(unit_of(3) == (-1int, 0int));
    assert((-1int) * (-1int) == 1) by (nonlinear_arith);
    assert(norm_of(unit_of(3)) == 1);
    assert(unit_of(4) == (0int, -1int));
    assert(norm_of(unit_of(4)) == 1);
    assert(unit_of(5) == (-1int, -1int));
    assert(norm_of(unit_of(5)) == 1);
    let (a, b) = x;
    if norm_of(x) == 1 {
        assert(4 == (2 * a - b) * (2 * a - b) + 3 * (b * b)) by (nonlinear_arith)
            requires a * a - a * b + b * b == 1;
        assert((2 * a - b) * (2 * a - b) >= 0) by (nonlinear_arith);
        assert(-1 <= b <= 1) by (nonlinear_arith)
            requires 3 * (b * b) <= 4;
        if b == 0 {
            assert(a * b == 0 && b * b == 0) by (nonlinear_arith)
                requires b == 0;
            assert(a * a == 1);
            assert(a == 1 || a == -1) by (nonlinear_arith)
                requires a * a == 1;
            if a == 1 { assert(x == unit_of(0)); } else { assert(x == unit_of(3)); }
        } else if b == 1 {
            assert(a * b == a && b * b == 1) by (nonlinear_arith)
                requires b == 1;
            assert(a * a - a == 0);
            assert(a == 0 || a == 1) by (nonlinear_arith)
                requires a * a - a == 0;
            if a == 0 { assert(x == unit_of(1)); } else { assert(x == unit_of(2)); }
        } else {
            assert(a * b == -a) by (nonlinear_arith)
                requires b == -1;
            assert(b * b == 1) by (nonlinear_arith)
                requires b == -1;
            assert(a * a + a == 0);
            assert(a == 0 || a == -1) by (nonlinear_arith)
                requires a * a + a == 0;
            if a == 0 { assert(x == unit_of(4)); } else { assert(x == unit_of(5)); }
        }
    }
}

/// The product of two units is a unit.
pub proof fn law_units_closed(i: int, j: int)
    requires
        0 <= i < 6,
        0 <= j < 6,
    ensures
        exists|k: int| 0 <= k < 6 && mul_of(unit_of(i), unit_of(j)) == #[trigger] unit_of(k),
{
    law_units(unit_of(i));
    law_units(unit_of(j));
    law_norm_multiplicative(unit_of(i), unit_of(j));
    law_units(mul_of(unit_of(i), unit_of(j)));
}

/// `ω³ = 1`, `ω² = conj(ω)` and `1 + ω + ω² = 0`.
pub proof fn law_omega()
    ensures
        mul_of(mul_of((0int, 1int), (0int, 1int)), (0int, 1int)) == (1int, 0int),
        mul_of((0int, 1int), (0int, 1int)) == conj_of((0int, 1int)),
        add_of(add_of((1int, 0int), (0int, 1int)), mul_of((0int, 1int), (0int, 1int))) == (0int, 0int),
{
}

/// Every rotation of the lattice preserves the norm; six 60° steps are the
/// identity and three are negation, and two steps equal multiplication by `ω²`.
pub proof fn law_rotations(x: (int, int), k: nat)
    ensures
        norm_of(rotation_of(x, k)) == norm_of(x),
        rotation_of(x, 6) == x,
        rotation_of(x, 3) == neg_of(x),
        rotation_of(x, 2) == mul_of(mul_of(x, (0int, 1int)), (0int, 1int)),
        rotation_of(x, k + 6) == rotation_of(x, k),
    decreases k,
{
    lemma_rotation_values(x);
    if k > 0 {
        law_rotations(x, (k - 1) as nat);
        law_norm_multiplicative(rotation_of(x, (k - 1) as nat), (0, -1));
        assert(norm_of((0int, -1int)) == 1);
        let n1 = norm_of(rotation_of(x, (k - 1) as nat));
        let n2 = norm_of((0int, -1int));
        assert(n1 * n2 == n1) by (nonlinear_arith)
            requires n2 == 1;
        assert(rotation_of(x, k) == mul_of(rotation_of(x, (k - 1) as nat), (0, -1)));
        assert(rotation_of(x, k + 6) == mul_of(rotation_of(x, (k + 5) as nat), (0, -1)));
    } else {
        reveal_with_fuel(rotation_of, 7);
    }
}

/// The 60° rotation `z ↦ (1 + ω)z` applied `n` times.
pub open spec fn rot60_iter(x: (int, int), n: nat) -> (int, int)
    decreases n,
{
    if n == 0 {
        x
    } else {
        rot60_of(rot60_iter(x, (n - 1) as nat))
    }
}

/// Rotating by 60° is multiplication by the unit `1 + ω`; the norm never changes, three steps negate,
/// and any number of steps equals that number modulo six (zero drift).
pub proof fn law_rotate_60(x: (int, int), n: nat)
    ensures
        rot60_of(x) == mul_of(x, (1int, 1int)),
        norm_of(rot60_of(x)) == norm_of(x),
        rot60_iter(x, 3) == neg_of(x),
        rot60_iter(x, 6) == x,
        rot60_iter(x, n) == rot60_iter(x, n % 6),
    decreases n,
{
    let (a, b) = x;
    assert(a * 1 - b * 1 == a - b && a * 1 + b * 1 - b * 1 == a) by (nonlinear_arith);
    assert(rot60_of(x) == mul_of(x, (1, 1)));
    law_norm_multiplicative(x, (1, 1));
    let n1 = norm_of(x);
    let n2 = norm_of((1int, 1int));
    assert(n1 * n2 == n1) by (nonlinear_arith)
        requires n2 == 1;
    lemma_rot60_values(x);
    if n >= 6 {
        law_rotate_60(x, (n - 6) as nat);
        lemma_rot60_shift(x, (n - 6) as nat);
        assert(n % 6 == (n - 6) as nat % 6);
    } else {
        assert(n % 6 == n);
    }
}

proof fn lemma_rot60_values(x: (int, int))
    ensures
        rot60_iter(x, 3) == neg_of(x),
        rot60_iter(x, 6) == x,
{
    assert(rot60_iter(x, 0) == x);
    assert(rot60_iter(x, 1) == (x.0 - x.1, x.0));
    assert(rot60_iter(x, 2) == (-x.1, x.0 - x.1));
    assert(rot60_iter(x, 3) == (-x.0, -x.1));
    assert(rot60_iter(x, 4) == (x.1 - x.0, -x.0));
    assert(rot60_iter(x, 5) == (x.1, x.1 - x.0));
    assert(rot60_iter(x, 6) == x);
}

proof fn lemma_rot60_shift(x: (int, int), n: nat)
    ensures
        rot60_iter(x, n + 6) == rot60_iter(x, n),
    decreases n,
{
    if n == 0 {
        lemma_rot60_values(x);
    } else {
        lemma_rot60_shift(x, (n - 1) as nat);
        assert(rot60_iter(x, n + 6) == rot60_of(rot60_iter(x, (n + 5) as nat)));
    }
}

proof fn lemma_axial_even(v: (int, int))
    ensures
        (abs_of(v.0) + abs_of(v.1) + abs_of(v.0 + v.1)) % 2 == 0,
        2 * axial_dist_of(v) == abs_of(v.0) + abs_of(v.1) + abs_of(v.0 + v.1),
{
}

/// The axial hex distance is a metric: zero exactly on equal points,
/// symmetric, and it satisfies the triangle inequality.
pub proof fn law_axial_metric(x: (int, int), y: (int, int), z: (int, int))
    ensures
        axial_dist_of(sub_of(x, y)) >= 0,
        axial_dist_of(sub_of(x, y)) == 0 <==> x == y,
        axial_dist_of(sub_of(x, y)) == axial_dist_of(sub_of(y, x)),
        axial_dist_of(sub_of(x, z)) <= axial_dist_of(sub_of(x, y)) + axial_dist_of(sub_of(y, z)),
{
    lemma_axial_even(sub_of(x, y));
    lemma_axial_even(sub_of(y, x));
    lemma_axial_even(sub_of(x, z));
    lemma_axial_even(sub_of(y, z));
}

} // verus!

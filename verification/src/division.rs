//! Division with remainder in `Z[ω]`, divisibility, and the greatest
//! common divisor: `Z[ω]` is a Euclidean domain under the norm.

use vstd::prelude::*;
use vstd::arithmetic::div_mod::{lemma_fundamental_div_mod, lemma_mod_bound};

use crate::grid::coord_lt;
use crate::numeric::{int_sqrt, is_isqrt};
use crate::e12::{add_of, rotation_of, conj_of, fits_i32, in_i32, lemma_norm_nonneg, mul_of, neg_of, norm_of, sub_of, E12};
use crate::ring_laws::{
    law_conjugate, law_distributive, law_mul_assoc, law_mul_comm, law_mul_identity_zero,
    law_norm_multiplicative, law_norm_zero_iff_origin,
};

verus! {

/// `x / n` rounded to the nearest integer, halves rounded up: `⌊(2x + n) / 2n⌋`.
pub open spec fn round_div(x: int, n: int) -> int {
    (2 * x + n) / (2 * n)
}

/// The quotient `α / β` rounded coordinate-wise to the nearest lattice
/// point: `α·conj(β) / N(β)`, each coordinate rounded, halves up.
pub open spec fn quot_of(alpha: (int, int), beta: (int, int)) -> (int, int) {
    let num = mul_of(alpha, conj_of(beta));
    let n = norm_of(beta);
    (round_div(num.0, n), round_div(num.1, n))
}

/// The remainder `α − β·q` left by the rounded quotient.
pub open spec fn rem_of(alpha: (int, int), beta: (int, int)) -> (int, int) {
    sub_of(alpha, mul_of(beta, quot_of(alpha, beta)))
}

/// `x·z − y·z = (x − y)·z`.
proof fn lemma_mul_sub_left(x: (int, int), y: (int, int), z: (int, int))
    ensures
        mul_of(sub_of(x, y), z) == sub_of(mul_of(x, z), mul_of(y, z)),
{
    let (a, b) = x;
    let (c, d) = y;
    let (e, f) = z;
    assert((a - c) * e == a * e - c * e) by (nonlinear_arith);
    assert((b - d) * f == b * f - d * f) by (nonlinear_arith);
    assert((a - c) * f == a * f - c * f) by (nonlinear_arith);
    assert((b - d) * e == b * e - d * e) by (nonlinear_arith);
}

/// `(β·q)·conj(β) = N(β)·q`.
proof fn lemma_times_conj(beta: (int, int), q: (int, int))
    ensures
        mul_of(mul_of(beta, q), conj_of(beta)) == (norm_of(beta) * q.0, norm_of(beta) * q.1),
{
    law_mul_comm(beta, q);
    law_mul_assoc(q, beta, conj_of(beta));
    law_conjugate(beta, q);
    let n = norm_of(beta);
    assert(mul_of(q, (n, 0int)) == (q.0 * n - q.1 * 0, q.0 * 0 + q.1 * n - q.1 * 0));
    assert(q.0 * n == n * q.0 && q.1 * n == n * q.1) by (nonlinear_arith);
}

/// Rounding leaves an error of at most half the divisor:
/// `−n ≤ 2(x − n·round_div(x, n)) < n`.
proof fn lemma_round_div(x: int, n: int)
    requires
        n > 0,
    ensures
        -n <= 2 * (x - n * round_div(x, n)) < n,
{
    let t = 2 * x + n;
    let d = 2 * n;
    let q = round_div(x, n);
    lemma_fundamental_div_mod(t, d);
    lemma_mod_bound(t, d);
    assert(d * q == 2 * (n * q)) by (nonlinear_arith)
        requires
            d == 2 * n,
    ;
}

/// `u² − uv + v² ≤ 3n²` when `|u|, |v| ≤ n`.
proof fn lemma_box_norm(u: int, v: int, n: int)
    requires
        -n <= u <= n,
        -n <= v <= n,
    ensures
        u * u - u * v + v * v <= 3 * (n * n),
{
    assert(u * u <= n * n) by (nonlinear_arith)
        requires
            -n <= u <= n,
    ;
    assert(v * v <= n * n) by (nonlinear_arith)
        requires
            -n <= v <= n,
    ;
    assert(-(u * v) <= n * n) by (nonlinear_arith)
        requires
            -n <= u <= n,
            -n <= v <= n,
    ;
}

/// Division with remainder: `β·q + r = α` and `N(r) < N(β)` for the rounded
/// quotient `q` and remainder `r` — `Z[ω]` is a Euclidean domain.
pub proof fn law_euclidean(alpha: (int, int), beta: (int, int))
    requires
        beta != (0int, 0int),
    ensures
        add_of(mul_of(beta, quot_of(alpha, beta)), rem_of(alpha, beta)) == alpha,
        0 <= norm_of(rem_of(alpha, beta)) < norm_of(beta),
{
    let n = norm_of(beta);
    law_norm_zero_iff_origin(beta);
    let cb = conj_of(beta);
    let num = mul_of(alpha, cb);
    let q = quot_of(alpha, beta);
    let r = rem_of(alpha, beta);
    lemma_norm_nonneg(r);
    // r·conj(β) = α·conj(β) − N(β)·q
    lemma_mul_sub_left(alpha, mul_of(beta, q), cb);
    lemma_times_conj(beta, q);
    let e = mul_of(r, cb);
    assert(e == (num.0 - n * q.0, num.1 - n * q.1));
    // each coordinate of the error is at most half of N(β)
    lemma_round_div(num.0, n);
    lemma_round_div(num.1, n);
    let u = 2 * e.0;
    let v = 2 * e.1;
    lemma_box_norm(u, v, n);
    assert(4 * norm_of(e) == u * u - u * v + v * v) by (nonlinear_arith)
        requires
            u == 2 * e.0,
            v == 2 * e.1,
    ;
    // N(r)·N(β) = N(e) ≤ 3N(β)²/4 < N(β)²
    law_norm_multiplicative(r, cb);
    law_conjugate(beta, beta);
    let nr = norm_of(r);
    assert(nr * n == norm_of(e));
    assert(nr < n) by (nonlinear_arith)
        requires
            nr * n == norm_of(e),
            4 * norm_of(e) <= 3 * (n * n),
            n > 0,
    ;
}

/// `⌊t / d⌋` for a positive divisor, computed on magnitudes.
fn floor_div(t: i128, d: i128) -> (r: i128)
    requires
        d > 0,
        t > i128::MIN,
    ensures
        r == t / d,
{
    if t >= 0 {
        let q = (t as u128) / (d as u128);
        proof {
            lemma_fundamental_div_mod(t as int, d as int);
            lemma_mod_bound(t as int, d as int);
            assert((t as int) / (d as int) <= t) by (nonlinear_arith)
                requires
                    t == d * ((t as int) / (d as int)) + (t as int) % (d as int),
                    0 <= (t as int) % (d as int),
                    d >= 1,
                    t >= 0,
            ;
        }
        q as i128
    } else {
        let u = (-t) as u128;
        let dd = d as u128;
        let c = (u + dd - 1) / dd;
        proof {
            let ui = u as int;
            let di = d as int;
            let ci = c as int;
            lemma_fundamental_div_mod(ui + di - 1, di);
            lemma_mod_bound(ui + di - 1, di);
            lemma_fundamental_div_mod(t as int, di);
            lemma_mod_bound(t as int, di);
            let m = (ui + di - 1) % di;
            // u = d·c − (d − 1 − m), so t = d·(−c) + (d − 1 − m) with 0 ≤ d − 1 − m < d
            assert(t == di * (-ci) + (di - 1 - m)) by (nonlinear_arith)
                requires
                    ui + di - 1 == di * ci + m,
                    t == -ui,
            ;
            assert(t == (-ci) * di + (di - 1 - m)) by (nonlinear_arith)
                requires
                    t == di * (-ci) + (di - 1 - m),
            ;
            vstd::arithmetic::div_mod::lemma_fundamental_div_mod_converse(t as int, di, -ci, di - 1 - m);
            assert(ci <= ui) by (nonlinear_arith)
                requires
                    ui + di - 1 == di * ci + m,
                    0 <= m,
                    di >= 1,
                    ui >= 1,
            ;
        }
        -(c as i128)
    }
}

/// Coordinates of magnitude at most `2^33`: room for every product the
/// division forms in `i128`.
pub open spec fn small_pair(v: (int, int)) -> bool {
    -0x2_0000_0000 <= v.0 <= 0x2_0000_0000 && -0x2_0000_0000 <= v.1 <= 0x2_0000_0000
}

/// The rounded quotient and the remainder of `α / β`, in `i128`.
fn quot_rem(alpha: (i64, i64), beta: (i64, i64)) -> (qr: ((i128, i128), (i128, i128)))
    requires
        small_pair((alpha.0 as int, alpha.1 as int)),
        small_pair((beta.0 as int, beta.1 as int)),
        (beta.0 as int, beta.1 as int) != (0int, 0int),
    ensures
        (qr.0.0 as int, qr.0.1 as int) == quot_of(
            (alpha.0 as int, alpha.1 as int),
            (beta.0 as int, beta.1 as int),
        ),
        (qr.1.0 as int, qr.1.1 as int) == rem_of(
            (alpha.0 as int, alpha.1 as int),
            (beta.0 as int, beta.1 as int),
        ),
{
    let ghost av = (alpha.0 as int, alpha.1 as int);
    let ghost bv = (beta.0 as int, beta.1 as int);
    let a0 = alpha.0 as i128;
    let a1 = alpha.1 as i128;
    let b0 = beta.0 as i128;
    let b1 = beta.1 as i128;
    let c0 = b0 - b1;
    let c1 = -b1;
    let lim: i128 = 0x2_0000_0000;
    assert(-lim * (2 * lim) <= a0 * c0 <= lim * (2 * lim)) by (nonlinear_arith)
        requires -lim <= a0 <= lim, -2 * lim <= c0 <= 2 * lim, lim == 0x2_0000_0000;
    assert(-lim * lim <= a1 * c1 <= lim * lim) by (nonlinear_arith)
        requires -lim <= a1 <= lim, -lim <= c1 <= lim, lim == 0x2_0000_0000;
    assert(-lim * lim <= a0 * c1 <= lim * lim) by (nonlinear_arith)
        requires -lim <= a0 <= lim, -lim <= c1 <= lim, lim == 0x2_0000_0000;
    assert(-lim * (2 * lim) <= a1 * c0 <= lim * (2 * lim)) by (nonlinear_arith)
        requires -lim <= a1 <= lim, -2 * lim <= c0 <= 2 * lim, lim == 0x2_0000_0000;
    let x = a0 * c0 - a1 * c1;
    let y = a0 * c1 + a1 * c0 - a1 * c1;
    assert(0 <= b0 * b0 <= lim * lim) by (nonlinear_arith)
        requires -lim <= b0 <= lim, lim == 0x2_0000_0000;
    assert(0 <= b1 * b1 <= lim * lim) by (nonlinear_arith)
        requires -lim <= b1 <= lim, lim == 0x2_0000_0000;
    assert(-lim * lim <= b0 * b1 <= lim * lim) by (nonlinear_arith)
        requires -lim <= b0 <= lim, -lim <= b1 <= lim, lim == 0x2_0000_0000;
    let n = b0 * b0 - b0 * b1 + b1 * b1;
    proof {
        law_norm_zero_iff_origin(bv);
        assert(mul_of(av, conj_of(bv)) == (x as int, y as int));
    }
    let q0 = floor_div(2 * x + n, 2 * n);
    let q1 = floor_div(2 * y + n, 2 * n);
    proof {
        lemma_round_div(x as int, n as int);
        lemma_round_div(y as int, n as int);
    }
    // |q| ≤ |num| / n + 1 ≤ 2^69
    assert(-0x20_0000_0000_0000_0000 <= q0 <= 0x20_0000_0000_0000_0000) by (nonlinear_arith)
        requires
            -(n as int) <= 2 * (x - n * q0) < n,
            n >= 1,
            -0x10_0000_0000_0000_0000 <= x <= 0x10_0000_0000_0000_0000,
    ;
    assert(-0x20_0000_0000_0000_0000 <= q1 <= 0x20_0000_0000_0000_0000) by (nonlinear_arith)
        requires
            -(n as int) <= 2 * (y - n * q1) < n,
            n >= 1,
            -0x10_0000_0000_0000_0000 <= y <= 0x10_0000_0000_0000_0000,
    ;
    let big: i128 = 0x20_0000_0000_0000_0000;
    assert(-lim * big <= b0 * q0 <= lim * big) by (nonlinear_arith)
        requires -lim <= b0 <= lim, -big <= q0 <= big;
    assert(-lim * big <= b1 * q1 <= lim * big) by (nonlinear_arith)
        requires -lim <= b1 <= lim, -big <= q1 <= big;
    assert(-lim * big <= b0 * q1 <= lim * big) by (nonlinear_arith)
        requires -lim <= b0 <= lim, -big <= q1 <= big;
    assert(-lim * big <= b1 * q0 <= lim * big) by (nonlinear_arith)
        requires -lim <= b1 <= lim, -big <= q0 <= big;
    let p0 = b0 * q0 - b1 * q1;
    let p1 = b0 * q1 + b1 * q0 - b1 * q1;
    let r0 = a0 - p0;
    let r1 = a1 - p1;
    ((q0, q1), (r0, r1))
}

/// `div_rem(α, β)` succeeds: `β ≠ 0` and the quotient and remainder fit in `i32`.
pub open spec fn div_rem_defined(alpha: (int, int), beta: (int, int)) -> bool {
    &&& beta != (0int, 0int)
    &&& fits_i32(quot_of(alpha, beta))
    &&& fits_i32(rem_of(alpha, beta))
}

impl E12 {
    /// Division with remainder: the quotient `q` is `self / β` rounded to the
    /// nearest lattice point (coordinate-wise, halves up) and the remainder
    /// is `self − β·q`, so `β·q + r = self` with `N(r) < N(β)`. `None` when
    /// `β` is zero or the quotient or remainder leaves the `i32` lattice.
    pub fn div_rem(self, beta: E12) -> (r: Option<(E12, E12)>)
        ensures
            r is Some <==> div_rem_defined(self@, beta@),
            r matches Some((q, m)) ==> q@ == quot_of(self@, beta@) && m@ == rem_of(self@, beta@),
    {
        if beta.a() == 0 && beta.b() == 0 {
            return None;
        }
        let (q, m) = quot_rem((self.a() as i64, self.b() as i64), (beta.a() as i64, beta.b() as i64));
        if q.0 < i32::MIN as i128 || q.0 > i32::MAX as i128 || q.1 < i32::MIN as i128 || q.1
            > i32::MAX as i128 {
            return None;
        }
        if m.0 < i32::MIN as i128 || m.0 > i32::MAX as i128 || m.1 < i32::MIN as i128 || m.1
            > i32::MAX as i128 {
            return None;
        }
        Some((E12::new(q.0 as i32, q.1 as i32), E12::new(m.0 as i32, m.1 as i32)))
    }
}

/// `d` divides `x` in `Z[ω]`: `x = d·γ` for some Eisenstein integer `γ`.
pub open spec fn divides_of(d: (int, int), x: (int, int)) -> bool {
    exists|g: (int, int)| #[trigger] mul_of(d, g) == x
}

/// Scaling the second factor by an integer scales the product.
proof fn lemma_mul_scalar(d: (int, int), g: (int, int), n: int)
    ensures
        mul_of(d, (n * g.0, n * g.1)) == (n * mul_of(d, g).0, n * mul_of(d, g).1),
{
    let (a, b) = d;
    let (c, e) = g;
    assert(a * (n * c) - b * (n * e) == n * (a * c - b * e)) by (nonlinear_arith);
    assert(a * (n * e) + b * (n * c) - b * (n * e) == n * (a * e + b * c - b * e)) by (nonlinear_arith);
}

/// For `d ≠ 0`: `d | x` exactly when `N(d)` divides both coordinates of
/// `x·conj(d)`, and then `x / d = x·conj(d) / N(d)`.
proof fn lemma_divides_by_norm(d: (int, int), x: (int, int))
    requires
        d != (0int, 0int),
    ensures
        divides_of(d, x) <==> (mul_of(x, conj_of(d)).0 % norm_of(d) == 0 && mul_of(x, conj_of(d)).1
            % norm_of(d) == 0),
{
    let n = norm_of(d);
    law_norm_zero_iff_origin(d);
    let num = mul_of(x, conj_of(d));
    if divides_of(d, x) {
        let g = choose|g: (int, int)| #[trigger] mul_of(d, g) == x;
        lemma_times_conj(d, g);
        assert(num == (n * g.0, n * g.1));
        assert(n * g.0 == g.0 * n && n * g.1 == g.1 * n) by (nonlinear_arith);
        vstd::arithmetic::div_mod::lemma_mod_multiples_basic(g.0, n);
        vstd::arithmetic::div_mod::lemma_mod_multiples_basic(g.1, n);
    }
    if num.0 % n == 0 && num.1 % n == 0 {
        lemma_fundamental_div_mod(num.0, n);
        lemma_fundamental_div_mod(num.1, n);
        let g = (num.0 / n, num.1 / n);
        assert(num == (n * g.0, n * g.1));
        // d·num = d·(x·conj d) = x·(d·conj d) = N(d)·x
        lemma_mul_scalar(d, g, n);
        law_mul_comm(x, conj_of(d));
        law_mul_assoc(d, conj_of(d), x);
        law_conjugate(d, d);
        law_mul_comm(d, x);
        law_mul_assoc(x, d, conj_of(d));
        law_mul_comm((n, 0int), x);
        assert(mul_of(x, (n, 0int)) == (x.0 * n - x.1 * 0, x.0 * 0 + x.1 * n - x.1 * 0));
        let m = mul_of(d, g);
        assert(n * m.0 == x.0 * n && n * m.1 == x.1 * n);
        assert(m.0 == x.0) by (nonlinear_arith)
            requires
                n * m.0 == x.0 * n,
                n > 0,
        ;
        assert(m.1 == x.1) by (nonlinear_arith)
            requires
                n * m.1 == x.1 * n,
                n > 0,
        ;
        assert(mul_of(d, g) == x);
    }
}

/// Whether `n` divides `t`, computed on magnitudes.
fn divisible(t: i128, n: i128) -> (r: bool)
    requires
        n > 0,
        t > i128::MIN,
    ensures
        r == (t % n == 0),
{
    let u: u128 = if t < 0 {
        (-t) as u128
    } else {
        t as u128
    };
    let z = u % (n as u128) == 0;
    proof {
        let ti = t as int;
        let ni = n as int;
        let ui = u as int;
        lemma_fundamental_div_mod(ui, ni);
        lemma_mod_bound(ui, ni);
        lemma_fundamental_div_mod(ti, ni);
        lemma_mod_bound(ti, ni);
        if t < 0 {
            let k = ui / ni;
            if ui % ni == 0 {
                assert(ti == (-k) * ni + 0) by (nonlinear_arith)
                    requires
                        ui == ni * k + 0,
                        ti == -ui,
                ;
                vstd::arithmetic::div_mod::lemma_fundamental_div_mod_converse(ti, ni, -k, 0);
            }
            if ti % ni == 0 {
                let k2 = ti / ni;
                assert(ui == (-k2) * ni + 0) by (nonlinear_arith)
                    requires
                        ti == ni * k2 + 0,
                        ti == -ui,
                ;
                vstd::arithmetic::div_mod::lemma_fundamental_div_mod_converse(ui, ni, -k2, 0);
            }
        }
    }
    z
}

impl E12 {
    /// Does `self` divide `other` in `Z[ω]` (`other = self·γ` for some
    /// Eisenstein integer `γ`)? The origin divides nothing here.
    pub fn divides(self, other: E12) -> (r: bool)
        ensures
            r == (self@ != (0int, 0int) && divides_of(self@, other@)),
    {
        if self.a() == 0 && self.b() == 0 {
            return false;
        }
        let ghost dv = self@;
        let ghost xv = other@;
        let d0 = self.a() as i128;
        let d1 = self.b() as i128;
        let x0 = other.a() as i128;
        let x1 = other.b() as i128;
        let c0 = d0 - d1;
        let c1 = -d1;
        let lim: i128 = 0x8000_0000;
        assert(-lim * (2 * lim) <= x0 * c0 <= lim * (2 * lim)) by (nonlinear_arith)
            requires -lim <= x0 <= lim, -2 * lim <= c0 <= 2 * lim;
        assert(-lim * lim <= x1 * c1 <= lim * lim) by (nonlinear_arith)
            requires -lim <= x1 <= lim, -lim <= c1 <= lim;
        assert(-lim * lim <= x0 * c1 <= lim * lim) by (nonlinear_arith)
            requires -lim <= x0 <= lim, -lim <= c1 <= lim;
        assert(-lim * (2 * lim) <= x1 * c0 <= lim * (2 * lim)) by (nonlinear_arith)
            requires -lim <= x1 <= lim, -2 * lim <= c0 <= 2 * lim;
        assert(0 <= d0 * d0 <= lim * lim) by (nonlinear_arith)
            requires -lim <= d0 <= lim;
        assert(0 <= d1 * d1 <= lim * lim) by (nonlinear_arith)
            requires -lim <= d1 <= lim;
        assert(-lim * lim <= d0 * d1 <= lim * lim) by (nonlinear_arith)
            requires -lim <= d0 <= lim, -lim <= d1 <= lim;
        let y0 = x0 * c0 - x1 * c1;
        let y1 = x0 * c1 + x1 * c0 - x1 * c1;
        let n = d0 * d0 - d0 * d1 + d1 * d1;
        proof {
            law_norm_zero_iff_origin(dv);
            lemma_divides_by_norm(dv, xv);
            assert(mul_of(xv, conj_of(dv)) == (y0 as int, y1 as int));
        }
        divisible(y0, n) && divisible(y1, n)
    }
}

/// The last nonzero remainder of Euclid's algorithm on `a` and `b`
/// (`a` itself when `b` is zero).
pub open spec fn gcd_euclid(a: (int, int), b: (int, int)) -> (int, int)
    decreases norm_of(b),
{
    if b == (0int, 0int) {
        a
    } else {
        proof {
            law_euclidean(a, b);
        }
        gcd_euclid(b, rem_of(a, b))
    }
}

/// The associate of `g` in the half-plane `a > 0`, or `a = 0, b ≥ 0`:
/// `g` or `−g`.
pub open spec fn normalized(g: (int, int)) -> (int, int) {
    if g.0 < 0 || (g.0 == 0 && g.1 < 0) {
        neg_of(g)
    } else {
        g
    }
}

/// The greatest common divisor `E12::gcd` returns: Euclid's result, normalized.
pub open spec fn gcd_of(a: (int, int), b: (int, int)) -> (int, int) {
    normalized(gcd_euclid(a, b))
}

/// `d·(x − y) = d·x − d·y`.
proof fn lemma_mul_sub_right(d: (int, int), x: (int, int), y: (int, int))
    ensures
        mul_of(d, sub_of(x, y)) == sub_of(mul_of(d, x), mul_of(d, y)),
{
    let (a, b) = d;
    let (c, e) = x;
    let (f, h) = y;
    assert(a * (c - f) == a * c - a * f) by (nonlinear_arith);
    assert(b * (e - h) == b * e - b * h) by (nonlinear_arith);
    assert(a * (e - h) == a * e - a * h) by (nonlinear_arith);
    assert(b * (c - f) == b * c - b * f) by (nonlinear_arith);
}

/// A common divisor of `b` and `r` divides `b·q + r`.
proof fn lemma_divides_combination(d: (int, int), b: (int, int), r: (int, int), q: (int, int))
    requires
        divides_of(d, b),
        divides_of(d, r),
    ensures
        divides_of(d, add_of(mul_of(b, q), r)),
{
    let g1 = choose|g: (int, int)| #[trigger] mul_of(d, g) == b;
    let g2 = choose|g: (int, int)| #[trigger] mul_of(d, g) == r;
    law_mul_assoc(d, g1, q);
    law_distributive(d, mul_of(g1, q), g2);
    let w = add_of(mul_of(g1, q), g2);
    assert(mul_of(d, w) == add_of(mul_of(b, q), r));
}

/// A common divisor of `a` and `b` divides `a − b·q`.
proof fn lemma_divides_difference(d: (int, int), a: (int, int), b: (int, int), q: (int, int))
    requires
        divides_of(d, a),
        divides_of(d, b),
    ensures
        divides_of(d, sub_of(a, mul_of(b, q))),
{
    let g1 = choose|g: (int, int)| #[trigger] mul_of(d, g) == a;
    let g2 = choose|g: (int, int)| #[trigger] mul_of(d, g) == b;
    law_mul_assoc(d, g2, q);
    lemma_mul_sub_right(d, g1, mul_of(g2, q));
    let w = sub_of(g1, mul_of(g2, q));
    assert(mul_of(d, w) == sub_of(a, mul_of(b, q)));
}

/// Every element divides itself and divides zero.
proof fn lemma_divides_self_zero(x: (int, int))
    ensures
        divides_of(x, x),
        divides_of(x, (0int, 0int)),
{
    law_mul_identity_zero(x);
    assert(mul_of(x, (1int, 0int)) == x);
    assert(mul_of(x, (0int, 0int)) == (0int, 0int));
}

/// Negating either side preserves divisibility.
proof fn lemma_divides_neg(d: (int, int), x: (int, int))
    requires
        divides_of(d, x),
    ensures
        divides_of(neg_of(d), x),
        divides_of(d, neg_of(x)),
{
    let g = choose|g: (int, int)| #[trigger] mul_of(d, g) == x;
    assert(mul_of(neg_of(d), neg_of(g)) == x) by {
        let (a, b) = d;
        let (c, e) = g;
        assert((-a) * (-c) == a * c && (-b) * (-e) == b * e && (-a) * (-e) == a * e && (-b) * (-c)
            == b * c) by (nonlinear_arith);
    }
    assert(mul_of(d, neg_of(g)) == neg_of(x)) by {
        let (a, b) = d;
        let (c, e) = g;
        assert(a * (-c) == -(a * c) && b * (-e) == -(b * e) && a * (-e) == -(a * e) && b * (-c) == -(b
            * c)) by (nonlinear_arith);
    }
}

/// Euclid's result divides both arguments, every common divisor divides
/// it, and it is zero only when both arguments are.
proof fn lemma_gcd_euclid(a: (int, int), b: (int, int))
    ensures
        divides_of(gcd_euclid(a, b), a),
        divides_of(gcd_euclid(a, b), b),
        forall|d: (int, int)|
            divides_of(d, a) && divides_of(d, b) ==> #[trigger] divides_of(d, gcd_euclid(a, b)),
        gcd_euclid(a, b) == (0int, 0int) <==> (a == (0int, 0int) && b == (0int, 0int)),
    decreases norm_of(b),
{
    if b == (0int, 0int) {
        lemma_divides_self_zero(a);
    } else {
        law_euclidean(a, b);
        let q = quot_of(a, b);
        let r = rem_of(a, b);
        lemma_gcd_euclid(b, r);
        let g = gcd_euclid(b, r);
        assert(gcd_euclid(a, b) == g);
        lemma_divides_combination(g, b, r, q);
        assert forall|d: (int, int)| divides_of(d, a) && divides_of(d, b) implies #[trigger] divides_of(
            d,
            gcd_euclid(a, b),
        ) by {
            lemma_divides_difference(d, a, b, q);
        }
    }
}

/// The greatest common divisor: `gcd(a, b)` divides `a` and `b`, every
/// common divisor of `a` and `b` divides it, it is zero only for
/// `gcd(0, 0)`, and it lies in the half-plane `a > 0` or `a = 0, b ≥ 0`.
pub proof fn law_gcd(a: (int, int), b: (int, int), d: (int, int))
    ensures
        divides_of(gcd_of(a, b), a),
        divides_of(gcd_of(a, b), b),
        divides_of(d, a) && divides_of(d, b) ==> divides_of(d, gcd_of(a, b)),
        gcd_of(a, b) == (0int, 0int) <==> (a == (0int, 0int) && b == (0int, 0int)),
        gcd_of(a, b).0 > 0 || (gcd_of(a, b).0 == 0 && gcd_of(a, b).1 >= 0),
{
    lemma_gcd_euclid(a, b);
    let g = gcd_euclid(a, b);
    if g.0 < 0 || (g.0 == 0 && g.1 < 0) {
        lemma_divides_neg(g, a);
        lemma_divides_neg(g, b);
        if divides_of(d, a) && divides_of(d, b) {
            assert(divides_of(d, g));
            lemma_divides_neg(d, g);
        }
    }
}

/// An `i32` lattice point has norm at most `3·2^62`.
proof fn lemma_i32_norm_bound(v: (int, int))
    requires
        fits_i32(v),
    ensures
        norm_of(v) <= 0xc000_0000_0000_0000,
{
    let (a, b) = v;
    assert(a * a <= 0x4000_0000_0000_0000) by (nonlinear_arith)
        requires -0x8000_0000 <= a <= 0x7fff_ffff;
    assert(b * b <= 0x4000_0000_0000_0000) by (nonlinear_arith)
        requires -0x8000_0000 <= b <= 0x7fff_ffff;
    assert(-(a * b) <= 0x4000_0000_0000_0000) by (nonlinear_arith)
        requires -0x8000_0000 <= a <= 0x7fff_ffff, -0x8000_0000 <= b <= 0x7fff_ffff;
}

/// `3a² ≤ 4N(a + bω)` and `3b² ≤ 4N(a + bω)`: a norm of at most `3·2^62`
/// keeps both coordinates within `2^32`.
proof fn lemma_norm_bounds_coords(v: (int, int))
    requires
        norm_of(v) <= 0xc000_0000_0000_0000,
    ensures
        small_pair(v),
        -0x1_0000_0000 <= v.0 <= 0x1_0000_0000,
        -0x1_0000_0000 <= v.1 <= 0x1_0000_0000,
{
    let (a, b) = v;
    let n = norm_of(v);
    assert(4 * n == (2 * a - b) * (2 * a - b) + 3 * (b * b)) by (nonlinear_arith)
        requires n == a * a - a * b + b * b;
    assert(4 * n == (2 * b - a) * (2 * b - a) + 3 * (a * a)) by (nonlinear_arith)
        requires n == a * a - a * b + b * b;
    assert((2 * a - b) * (2 * a - b) >= 0) by (nonlinear_arith);
    assert((2 * b - a) * (2 * b - a) >= 0) by (nonlinear_arith);
    assert(-0x1_0000_0000 <= a <= 0x1_0000_0000) by (nonlinear_arith)
        requires 3 * (a * a) <= 4 * 0xc000_0000_0000_0000;
    assert(-0x1_0000_0000 <= b <= 0x1_0000_0000) by (nonlinear_arith)
        requires 3 * (b * b) <= 4 * 0xc000_0000_0000_0000;
}

/// Arguments of small norm have a gcd on the `i32` lattice.
proof fn lemma_small_gcd_fits(a: (int, int), b: (int, int))
    requires
        norm_of(a) + norm_of(b) < 0x3000_0000_0000_0000,
    ensures
        fits_i32(gcd_of(a, b)),
{
    lemma_norm_nonneg(a);
    lemma_norm_nonneg(b);
    let g = gcd_of(a, b);
    law_gcd(a, b, a);
    if a == (0int, 0int) && b == (0int, 0int) {
        assert(g == (0int, 0int));
    } else {
        let x = if a != (0int, 0int) { a } else { b };
        lemma_divisor_norm(g, x);
        let n = norm_of(g);
        let (p, q) = g;
        assert(4 * n == (2 * p - q) * (2 * p - q) + 3 * (q * q)) by (nonlinear_arith)
            requires n == p * p - p * q + q * q;
        assert(4 * n == (2 * q - p) * (2 * q - p) + 3 * (p * p)) by (nonlinear_arith)
            requires n == p * p - p * q + q * q;
        assert((2 * p - q) * (2 * p - q) >= 0) by (nonlinear_arith);
        assert((2 * q - p) * (2 * q - p) >= 0) by (nonlinear_arith);
        assert(-0x7fff_ffff <= p <= 0x7fff_ffff) by (nonlinear_arith)
            requires 3 * (p * p) <= 4 * n, n < 0x3000_0000_0000_0000;
        assert(-0x7fff_ffff <= q <= 0x7fff_ffff) by (nonlinear_arith)
            requires 3 * (q * q) <= 4 * n, n < 0x3000_0000_0000_0000;
    }
}

impl E12 {
    /// The greatest common divisor, by Euclid's algorithm with the rounded
    /// division of `div_rem`, normalized to the half-plane `a > 0` or
    /// `a = 0, b ≥ 0`; `gcd(0, 0) = 0`.
    pub fn gcd(self, other: E12) -> (g: E12)
        requires
            fits_i32(gcd_of(self@, other@)) || norm_of(self@) + norm_of(other@) < 0x3000_0000_0000_0000,
        ensures
            g@ == gcd_of(self@, other@),
    {
        proof {
            if !fits_i32(gcd_of(self@, other@)) {
                lemma_small_gcd_fits(self@, other@);
            }
        }
        let mut x: (i64, i64) = (self.a() as i64, self.b() as i64);
        let mut y: (i64, i64) = (other.a() as i64, other.b() as i64);
        proof {
            lemma_i32_norm_bound(self@);
            lemma_i32_norm_bound(other@);
            lemma_norm_nonneg(other@);
        }
        while !(y.0 == 0 && y.1 == 0)
            invariant
                gcd_euclid((x.0 as int, x.1 as int), (y.0 as int, y.1 as int)) == gcd_euclid(
                    self@,
                    other@,
                ),
                norm_of((x.0 as int, x.1 as int)) <= 0xc000_0000_0000_0000,
                norm_of((y.0 as int, y.1 as int)) <= 0xc000_0000_0000_0000,
                norm_of((y.0 as int, y.1 as int)) >= 0,
            decreases norm_of((y.0 as int, y.1 as int)),
        {
            let ghost xv = (x.0 as int, x.1 as int);
            let ghost yv = (y.0 as int, y.1 as int);
            proof {
                lemma_norm_bounds_coords(xv);
                lemma_norm_bounds_coords(yv);
                law_euclidean(xv, yv);
                lemma_norm_bounds_coords(rem_of(xv, yv));
            }
            let (_, r) = quot_rem(x, y);
            x = y;
            y = (r.0 as i64, r.1 as i64);
        }
        if x.0 < 0 || (x.0 == 0 && x.1 < 0) {
            E12::new((-x.0) as i32, (-x.1) as i32)
        } else {
            E12::new(x.0 as i32, x.1 as i32)
        }
    }
}

/// A divisor of a nonzero element has a norm no larger than its norm.
proof fn lemma_divisor_norm(d: (int, int), x: (int, int))
    requires
        divides_of(d, x),
        x != (0int, 0int),
    ensures
        0 <= norm_of(d) <= norm_of(x),
{
    let g = choose|g: (int, int)| #[trigger] mul_of(d, g) == x;
    law_norm_multiplicative(d, g);
    law_norm_zero_iff_origin(d);
    law_norm_zero_iff_origin(g);
    law_mul_identity_zero(d);
    if g == (0int, 0int) {
        assert(mul_of(d, g) == (0int, 0int));
    }
    let nd = norm_of(d);
    let ng = norm_of(g);
    assert(nd <= nd * ng) by (nonlinear_arith)
        requires
            nd >= 0,
            ng >= 1,
    ;
}

/// The coordinates of a divisor of a nonzero `x` lie strictly within
/// `2·(⌊√N(x)⌋ + 1)` of zero.
proof fn lemma_divisor_coords(d: (int, int), x: (int, int), s: int)
    requires
        divides_of(d, x),
        x != (0int, 0int),
        is_isqrt(norm_of(x), s),
    ensures
        -(2 * s + 2) < d.0 < 2 * s + 2,
        -(2 * s + 2) < d.1 < 2 * s + 2,
{
    lemma_divisor_norm(d, x);
    let (a, b) = d;
    let nd = norm_of(d);
    let n = norm_of(x);
    assert(4 * nd == (2 * a - b) * (2 * a - b) + 3 * (b * b)) by (nonlinear_arith)
        requires nd == a * a - a * b + b * b;
    assert(4 * nd == (2 * b - a) * (2 * b - a) + 3 * (a * a)) by (nonlinear_arith)
        requires nd == a * a - a * b + b * b;
    assert((2 * a - b) * (2 * a - b) >= 0) by (nonlinear_arith);
    assert((2 * b - a) * (2 * b - a) >= 0) by (nonlinear_arith);
    let t = 2 * s + 2;
    assert(4 * n < t * t) by (nonlinear_arith)
        requires
            n < (s + 1) * (s + 1),
            t == 2 * s + 2,
    ;
    assert(-t < a < t) by (nonlinear_arith)
        requires
            3 * (a * a) <= 4 * n,
            4 * n < t * t,
            t > 0,
    ;
    assert(-t < b < t) by (nonlinear_arith)
        requires
            3 * (b * b) <= 4 * n,
            4 * n < t * t,
            t > 0,
    ;
}

/// The lattice points of the `i32` lattice that divide `x`.
pub open spec fn is_lattice_divisor(d: (int, int), x: (int, int)) -> bool {
    fits_i32(d) && divides_of(d, x)
}

impl E12 {
    /// Every element of the `i32` lattice that divides `self`, in increasing
    /// coordinate order (by `a`, then `b`) — each has a norm dividing
    /// `N(self)`, the units and `self` among them. Empty for zero, which
    /// every element divides.
    pub fn norm_divisors(self) -> (r: Vec<E12>)
        ensures
            self@ == (0int, 0int) ==> r@.len() == 0,
            self@ != (0int, 0int) ==> forall|d: (int, int)|
                (exists|i: int| 0 <= i < r@.len() && #[trigger] r@[i]@ == d) <==> is_lattice_divisor(
                    d,
                    self@,
                ),
            forall|i: int, j: int| 0 <= i < j < r@.len() ==> coord_lt(#[trigger] r@[i]@, #[trigger] r@[j]@),
    {
        let mut r: Vec<E12> = Vec::new();
        let n = self.norm();
        if n == 0 {
            proof {
                law_norm_zero_iff_origin(self@);
            }
            return r;
        }
        let ghost x = self@;
        proof {
            law_norm_zero_iff_origin(x);
        }
        let bound: i64 = if n < 0x7fff_ffff_ffff_ffff {
            let s = int_sqrt(n as i64);
            proof {
                assert(s * s <= n);
                assert(s <= 0xffff_ffff) by (nonlinear_arith)
                    requires
                        s * s <= n,
                        n < 0x7fff_ffff_ffff_ffff,
                        s >= 0,
                {
                    if s > 0xffff_ffff {
                        assert(s * s > 0xffff_ffff * 0xffff_ffff);
                    }
                }
                assert forall|d: (int, int)| #[trigger] is_lattice_divisor(d, x) implies -(2 * s + 2) < d.0
                    < 2 * s + 2 && -(2 * s + 2) < d.1 < 2 * s + 2 by {
                    lemma_divisor_coords(d, x, s as int);
                }
            }
            2 * s + 2
        } else {
            0x1_0000_0000
        };
        let lo: i64 = if -bound < i32::MIN as i64 {
            i32::MIN as i64
        } else {
            -bound
        };
        let hi: i64 = if bound > i32::MAX as i64 {
            i32::MAX as i64
        } else {
            bound
        };
        assert forall|d: (int, int)| #[trigger] is_lattice_divisor(d, x) implies lo <= d.0 <= hi && lo
            <= d.1 <= hi by {}
        let mut a: i64 = lo;
        while a <= hi
            invariant
                x == self@,
                x != (0int, 0int),
                i32::MIN <= lo,
                hi <= i32::MAX,
                lo <= a <= hi + 1,
                forall|d: (int, int)| #[trigger] is_lattice_divisor(d, x) ==> lo <= d.0 <= hi && lo <= d.1
                    <= hi,
                forall|d: (int, int)|
                    (exists|i: int| 0 <= i < r@.len() && #[trigger] r@[i]@ == d) <==> (
                    is_lattice_divisor(d, x) && d.0 < a),
                forall|i: int, j: int| 0 <= i < j < r@.len() ==> coord_lt(#[trigger] r@[i]@, #[trigger] r@[j]@),
                forall|i: int| 0 <= i < r@.len() ==> (#[trigger] r@[i]@).0 < a,
            decreases hi + 1 - a,
        {
            let mut b: i64 = lo;
            while b <= hi
                invariant
                    x == self@,
                    x != (0int, 0int),
                    i32::MIN <= lo,
                    hi <= i32::MAX,
                    lo <= a <= hi,
                    lo <= b <= hi + 1,
                    forall|d: (int, int)| #[trigger] is_lattice_divisor(d, x) ==> lo <= d.0 <= hi && lo
                        <= d.1 <= hi,
                    forall|d: (int, int)|
                        (exists|i: int| 0 <= i < r@.len() && #[trigger] r@[i]@ == d) <==> (
                        is_lattice_divisor(d, x) && (d.0 < a || (d.0 == a && d.1 < b))),
                    forall|i: int, j: int|
                        0 <= i < j < r@.len() ==> coord_lt(#[trigger] r@[i]@, #[trigger] r@[j]@),
                    forall|i: int|
                        0 <= i < r@.len() ==> coord_lt(#[trigger] r@[i]@, (a as int, b as int)),
                decreases hi + 1 - b,
            {
                let d = E12::new(a as i32, b as i32);
                let ghost old_r = r@;
                if d.divides(self) {
                    r.push(d);
                    proof {
                        assert(r@[r@.len() - 1] == d);
                        assert forall|dd: (int, int)|
                            (exists|i: int| 0 <= i < r@.len() && #[trigger] r@[i]@ == dd) <==> (
                            is_lattice_divisor(dd, x) && (dd.0 < a || (dd.0 == a && dd.1 < b + 1))) by {
                            if exists|i: int| 0 <= i < r@.len() && #[trigger] r@[i]@ == dd {
                                let i = choose|i: int| 0 <= i < r@.len() && #[trigger] r@[i]@ == dd;
                                if i < old_r.len() {
                                    assert(old_r[i]@ == dd);
                                }
                            }
                            if is_lattice_divisor(dd, x) && (dd.0 < a || (dd.0 == a && dd.1 < b + 1)) {
                                if dd == d@ {
                                    assert(r@[r@.len() - 1]@ == dd);
                                } else {
                                    let i = choose|i: int| 0 <= i < old_r.len() && #[trigger] old_r[i]@ == dd;
                                    assert(r@[i]@ == dd);
                                }
                            }
                        }
                        assert forall|i: int, j: int| 0 <= i < j < r@.len() implies coord_lt(
                            #[trigger] r@[i]@,
                            #[trigger] r@[j]@,
                        ) by {
                            if j < old_r.len() {
                                assert(r@[i] == old_r[i] && r@[j] == old_r[j]);
                            } else {
                                assert(r@[i] == old_r[i]);
                            }
                        }
                    }
                } else {
                    proof {
                        assert forall|dd: (int, int)|
                            (exists|i: int| 0 <= i < r@.len() && #[trigger] r@[i]@ == dd) <==> (
                            is_lattice_divisor(dd, x) && (dd.0 < a || (dd.0 == a && dd.1 < b + 1))) by {
                            if dd == d@ && is_lattice_divisor(dd, x) {
                                assert(divides_of(d@, x));
                            }
                        }
                    }
                }
                b = b + 1;
            }
            proof {
                assert forall|dd: (int, int)|
                    (exists|i: int| 0 <= i < r@.len() && #[trigger] r@[i]@ == dd) <==> (
                    is_lattice_divisor(dd, x) && dd.0 < a + 1) by {}
            }
            a = a + 1;
        }
        r
    }
}

/// The norm of a divisor divides the norm: `d | x ⟹ N(d) | N(x)`.
pub proof fn law_divisor_norm_divides(d: (int, int), x: (int, int))
    requires
        divides_of(d, x),
    ensures
        exists|k: int| k >= 0 && norm_of(x) == #[trigger] (norm_of(d) * k),
{
    let g = choose|g: (int, int)| #[trigger] mul_of(d, g) == x;
    law_norm_multiplicative(d, g);
    lemma_norm_nonneg(g);
    assert(norm_of(x) == norm_of(d) * norm_of(g));
}

/// Elements that divide each other have the same norm.
proof fn lemma_mutual_divisors_norm(x: (int, int), y: (int, int))
    requires
        divides_of(x, y),
        divides_of(y, x),
    ensures
        norm_of(x) == norm_of(y),
{
    let g1 = choose|g: (int, int)| #[trigger] mul_of(x, g) == y;
    let g2 = choose|g: (int, int)| #[trigger] mul_of(y, g) == x;
    law_norm_multiplicative(x, g1);
    law_norm_multiplicative(y, g2);
    lemma_norm_nonneg(x);
    lemma_norm_nonneg(g1);
    lemma_norm_nonneg(g2);
    let nx = norm_of(x);
    let n1 = norm_of(g1);
    let n2 = norm_of(g2);
    let ny = norm_of(y);
    assert(nx == ny) by (nonlinear_arith)
        requires
            ny == nx * n1,
            nx == ny * n2,
            nx >= 0,
            n1 >= 0,
            n2 >= 0,
    {
        if nx != 0 {
            assert(nx == nx * (n1 * n2));
            assert(n1 * n2 == 1);
            assert(n1 == 1);
        }
    }
}

/// The gcd is determined up to a unit: it has the norm of an argument that
/// divides the other, and swapping the arguments keeps its norm.
pub proof fn law_gcd_norm(a: (int, int), b: (int, int))
    ensures
        divides_of(a, b) ==> norm_of(gcd_of(a, b)) == norm_of(a),
        divides_of(b, a) ==> norm_of(gcd_of(a, b)) == norm_of(b),
        norm_of(gcd_of(a, b)) == norm_of(gcd_of(b, a)),
{
    let g = gcd_of(a, b);
    let h = gcd_of(b, a);
    law_gcd(a, b, a);
    law_gcd(a, b, b);
    law_gcd(b, a, g);
    law_gcd(a, b, h);
    lemma_divides_self_zero(a);
    lemma_divides_self_zero(b);
    if divides_of(a, b) {
        lemma_mutual_divisors_norm(g, a);
    }
    if divides_of(b, a) {
        lemma_mutual_divisors_norm(g, b);
    }
    lemma_mutual_divisors_norm(g, h);
}

/// Rotating by `j` then by `k` multiples of 60° rotates by `j + k`.
proof fn lemma_rotation_compose(x: (int, int), j: nat, k: nat)
    ensures
        rotation_of(rotation_of(x, j), k) == rotation_of(x, j + k),
    decreases k,
{
    if k > 0 {
        lemma_rotation_compose(x, j, (k - 1) as nat);
        assert(rotation_of(x, j + k) == mul_of(rotation_of(x, (j + k - 1) as nat), (0, -1)));
    }
}

/// An element divides each of its rotations by multiples of 60°.
proof fn lemma_divides_rotation(x: (int, int), k: nat)
    ensures
        divides_of(x, rotation_of(x, k)),
    decreases k,
{
    if k == 0 {
        lemma_divides_self_zero(x);
    } else {
        lemma_divides_rotation(x, (k - 1) as nat);
        let g = choose|g: (int, int)| #[trigger] mul_of(x, g) == rotation_of(x, (k - 1) as nat);
        law_mul_assoc(x, g, (0int, -1int));
        assert(mul_of(x, mul_of(g, (0int, -1int))) == rotation_of(x, k));
    }
}

/// Associates divide each other: an element and any of its rotations by a
/// multiple of 60° (its products with the six units) each divide the other.
pub proof fn law_associates_divide(x: (int, int), k: nat)
    requires
        k < 6,
    ensures
        divides_of(x, rotation_of(x, k)),
        divides_of(rotation_of(x, k), x),
{
    lemma_divides_rotation(x, k);
    lemma_divides_rotation(rotation_of(x, k), (6 - k) as nat);
    lemma_rotation_compose(x, k, (6 - k) as nat);
    crate::ring_laws::law_rotations(x, 0);
}

/// Division by a unit is exact: the remainder is zero and the quotient is
/// `α·conj(u)`.
pub proof fn law_division_by_unit(alpha: (int, int), u: (int, int))
    requires
        norm_of(u) == 1,
    ensures
        quot_of(alpha, u) == mul_of(alpha, conj_of(u)),
        rem_of(alpha, u) == (0int, 0int),
{
    let num = mul_of(alpha, conj_of(u));
    assert(round_div(num.0, 1) == num.0) by {
        vstd::arithmetic::div_mod::lemma_fundamental_div_mod_converse(2 * num.0 + 1, 2, num.0, 1);
    }
    assert(round_div(num.1, 1) == num.1) by {
        vstd::arithmetic::div_mod::lemma_fundamental_div_mod_converse(2 * num.1 + 1, 2, num.1, 1);
    }
    assert(quot_of(alpha, u) == num);
    law_mul_comm(alpha, conj_of(u));
    law_mul_assoc(u, conj_of(u), alpha);
    law_conjugate(u, u);
    law_mul_comm((1int, 0int), alpha);
    law_mul_identity_zero(alpha);
}

/// Zero divided by any nonzero element leaves quotient and remainder zero.
pub proof fn law_zero_dividend(beta: (int, int))
    requires
        beta != (0int, 0int),
    ensures
        quot_of((0int, 0int), beta) == (0int, 0int),
        rem_of((0int, 0int), beta) == (0int, 0int),
{
    let n = norm_of(beta);
    law_norm_zero_iff_origin(beta);
    let num = mul_of((0int, 0int), conj_of(beta));
    assert(num == (0int, 0int));
    assert(round_div(0, n) == 0) by {
        vstd::arithmetic::div_mod::lemma_fundamental_div_mod_converse(n, 2 * n, 0, n);
    }
    law_mul_identity_zero(beta);
}

} // verus!

//! Integer square roots and greatest common divisors.

use vstd::prelude::*;
use vstd::arithmetic::div_mod::{lemma_fundamental_div_mod, lemma_mod_bound, lemma_div_pos_is_pos};

verus! {

/// `r` is the integer square root of `n`: `r² ≤ n < (r + 1)²`.
pub open spec fn is_isqrt(n: int, r: int) -> bool {
    r >= 0 && r * r <= n && n < (r + 1) * (r + 1)
}

/// `x + ⌊n/x⌋ ≤ n + 1` for `1 ≤ x ≤ n`: the Newton step never overflows.
proof fn lemma_newton_sum_bound(n: int, x: int)
    requires
        1 <= x <= n,
    ensures
        x + n / x <= n + 1,
        n / x >= 1,
{
    lemma_fundamental_div_mod(n, x);
    lemma_mod_bound(n, x);
    let q = n / x;
    assert(x * q <= n);
    assert(q <= n + 1 - x) by (nonlinear_arith)
        requires
            x * q <= n,
            1 <= x <= n,
            x * q + (n % x) == n,
            0 <= n % x < x,
    {
        if q > n + 1 - x {
            assert(x * q >= x * (n + 2 - x));
            assert(x * (n + 2 - x) - n == (x - 1) * (n - x) + x);
        }
    }
    assert(q >= 1) by (nonlinear_arith)
        requires
            x * q + (n % x) == n,
            0 <= n % x < x,
            1 <= x <= n,
    {
        if q <= 0 {
            assert(x * q <= 0);
        }
    }
}

/// The Newton step never undershoots: `(⌊(x + ⌊n/x⌋)/2⌋ + 1)² > n`.
proof fn lemma_newton_step(n: int, x: int)
    requires
        1 <= x,
        1 <= n,
    ensures
        ((x + n / x) / 2 + 1) * ((x + n / x) / 2 + 1) > n,
{
    lemma_fundamental_div_mod(n, x);
    lemma_mod_bound(n, x);
    lemma_div_pos_is_pos(n, x);
    let q = n / x;
    let y = (x + q) / 2;
    lemma_fundamental_div_mod(x + q, 2);
    lemma_mod_bound(x + q, 2);
    assert(n < x * (q + 1)) by (nonlinear_arith)
        requires
            x * q + (n % x) == n,
            n % x < x,
    ;
    assert(2 * (y + 1) >= x + q + 1);
    assert(4 * ((y + 1) * (y + 1)) >= (x + q + 1) * (x + q + 1)) by (nonlinear_arith)
        requires
            2 * (y + 1) >= x + q + 1,
            x + q + 1 >= 0,
    ;
    assert((x + q + 1) * (x + q + 1) >= 4 * (x * (q + 1))) by (nonlinear_arith) {
        assert((x + q + 1) * (x + q + 1) - 4 * (x * (q + 1)) == (x - q - 1) * (x - q - 1));
    }
}

/// When `x² > n`, the Newton step strictly decreases `x`.
proof fn lemma_newton_descends(n: int, x: int)
    requires
        1 <= x,
        0 <= n,
        x * x > n,
    ensures
        (x + n / x) / 2 < x,
{
    lemma_fundamental_div_mod(n, x);
    lemma_mod_bound(n, x);
    let q = n / x;
    assert(q < x) by (nonlinear_arith)
        requires
            x * q + (n % x) == n,
            0 <= n % x,
            x * x > n,
            x >= 1,
    {
        if q >= x {
            assert(x * q >= x * x);
        }
    }
}

/// Integer square root by Newton's method: the largest `r` with `r² ≤ n`
/// (0 for `n ≤ 0`).
pub(crate) fn int_sqrt(n: i64) -> (r: i64)
    requires
        n < i64::MAX,
    ensures
        n <= 0 ==> r == 0,
        n > 0 ==> is_isqrt(n as int, r as int),
{
    if n <= 0 {
        return 0;
    }
    let mut x = n;
    let mut y = (x + 1) / 2;
    proof {
        lemma_fundamental_div_mod(n as int, n as int);
        assert(n as int / n as int == 1) by {
            vstd::arithmetic::div_mod::lemma_div_basics(n as int);
        }
        assert((n + 1) * (n + 1) > n) by (nonlinear_arith)
            requires n >= 1;
    }
    while y < x
        invariant
            1 <= n < i64::MAX,
            1 <= x <= n,
            y == (x + n / x) / 2,
            n < (x + 1) * (x + 1),
        decreases x,
    {
        proof {
            lemma_newton_step(n as int, x as int);
            lemma_div_pos_is_pos((x + n / x) as int, 2);
            assert(y >= 1) by (nonlinear_arith)
                requires (y + 1) * (y + 1) > n, n >= 1, y >= 0;
        }
        x = y;
        proof {
            lemma_newton_sum_bound(n as int, x as int);
        }
        y = (x + n / x) / 2;
    }
    proof {
        if x * x > n {
            lemma_newton_descends(n as int, x as int);
        }
    }
    x
}

/// Euclid's greatest common divisor.
pub open spec fn gcd_of(a: nat, b: nat) -> nat
    decreases b,
{
    if b == 0 {
        a
    } else {
        gcd_of(b, a % b)
    }
}

/// `d` divides `n`.
pub open spec fn divides_nat(d: nat, n: nat) -> bool {
    exists|k: nat| n == #[trigger] (d * k)
}

/// `a` and `b` have no common divisor greater than 1.
pub open spec fn coprime(a: nat, b: nat) -> bool {
    forall|d: nat| d > 1 ==> !(#[trigger] divides_nat(d, a) && divides_nat(d, b))
}

/// Greatest common divisor (Euclid's algorithm).
pub(crate) fn gcd(a: u32, b: u32) -> (g: u32)
    ensures
        g == gcd_of(a as nat, b as nat),
{
    let ghost (a0, b0) = (a as nat, b as nat);
    let mut a = a;
    let mut b = b;
    while b != 0
        invariant
            gcd_of(a as nat, b as nat) == gcd_of(a0, b0),
        decreases b,
    {
        let t = b;
        b = a % b;
        a = t;
    }
    a
}

/// The gcd divides both arguments.
pub proof fn lemma_gcd_divides(a: nat, b: nat)
    ensures
        divides_nat(gcd_of(a, b), a),
        divides_nat(gcd_of(a, b), b),
    decreases b,
{
    if b == 0 {
        assert(a == a * 1nat);
        assert(b == a * 0nat);
    } else {
        lemma_gcd_divides(b, a % b);
        let g = gcd_of(a, b);
        let k1 = choose|k: nat| b == #[trigger] (g * k);
        let k2 = choose|k: nat| a % b == #[trigger] (g * k);
        lemma_fundamental_div_mod(a as int, b as int);
        let q = a / b;
        assert(a == g * (k1 * q + k2)) by (nonlinear_arith)
            requires
                b == g * k1,
                a % b == g * k2,
                a == b * q + a % b,
        ;
        assert(a == g * ((k1 * q + k2) as nat));
    }
}

/// Every common divisor divides the gcd.
pub proof fn lemma_common_divides_gcd(a: nat, b: nat, d: nat)
    requires
        divides_nat(d, a),
        divides_nat(d, b),
    ensures
        divides_nat(d, gcd_of(a, b)),
    decreases b,
{
    if b != 0 {
        let ka = choose|k: nat| a == #[trigger] (d * k);
        let kb = choose|k: nat| b == #[trigger] (d * k);
        lemma_fundamental_div_mod(a as int, b as int);
        lemma_mod_bound(a as int, b as int);
        let q = a / b;
        let k: int = ka - kb * q;
        assert(b * q == d * (kb * q)) by (nonlinear_arith)
            requires b == d * kb;
        assert(d * ka - d * (kb * q) == d * k) by (nonlinear_arith)
            requires k == ka - kb * q;
        assert(a % b == d * k);
        if d == 0 {
            assert(a == 0) by (nonlinear_arith)
                requires d == 0, a == d * ka;
            vstd::arithmetic::div_mod::lemma_small_mod(0, b);
            assert(a % b == d * 0nat);
        } else {
            assert(k >= 0) by (nonlinear_arith)
                requires
                    a % b == d * k,
                    a % b >= 0,
                    d > 0,
            ;
            assert(a % b == d * (k as nat));
        }
        lemma_common_divides_gcd(b, a % b, d);
    }
}

/// The gcd is 1 exactly when the two numbers have no common divisor above 1.
pub proof fn law_gcd_one_iff_coprime(a: nat, b: nat)
    ensures
        gcd_of(a, b) == 1 <==> coprime(a, b),
{
    lemma_gcd_divides(a, b);
    let g = gcd_of(a, b);
    if g == 1 {
        assert forall|d: nat| d > 1 implies !(#[trigger] divides_nat(d, a) && divides_nat(d, b)) by {
            if divides_nat(d, a) && divides_nat(d, b) {
                lemma_common_divides_gcd(a, b, d);
                let k = choose|k: nat| 1 == #[trigger] (d * k);
                assert(false) by (nonlinear_arith)
                    requires
                        1 == d * k,
                        d > 1,
                ;
            }
        }
    } else if g == 0 {
        let k1 = choose|k: nat| a == #[trigger] (g * k);
        let k2 = choose|k: nat| b == #[trigger] (g * k);
        assert(a == 0 && b == 0);
        assert(0 == 2 * 0nat);
        assert(divides_nat(2, a) && divides_nat(2, b));
    } else {
        assert(divides_nat(g, a) && divides_nat(g, b));
    }
}

} // verus!

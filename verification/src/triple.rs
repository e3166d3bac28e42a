//! Eisenstein triples `(a, b, c)` with `a² − ab + b² = c²`, and searches for them.

use vstd::prelude::*;

use crate::e12::{norm_of, E12};
use crate::numeric::{coprime, divides_nat, gcd, gcd_of, int_sqrt, is_isqrt, law_gcd_one_iff_coprime};

verus! {

/// `(a, b)` lies in the search triangle `0 ≤ b ≤ a ≤ m`.
pub open spec fn in_triangle(m: int, a: int, b: int) -> bool {
    0 <= b <= a <= m
}

/// `(a1, b1)` comes before `(a2, b2)` in the search order.
pub open spec fn search_before(a1: int, b1: int, a2: int, b2: int) -> bool {
    a1 < a2 || (a1 == a2 && b1 < b2)
}

/// `t` is the square of a positive integer.
pub open spec fn is_positive_square(t: int) -> bool {
    exists|c: int| c > 0 && #[trigger] (c * c) == t
}

/// `(a, b)` is the first point of the search triangle (in search order) whose
/// norm is `t`.
pub open spec fn first_rep(t: int, m: int, a: int, b: int) -> bool {
    &&& in_triangle(m, a, b)
    &&& norm_of((a, b)) == t
    &&& forall|a2: int, b2: int|
        in_triangle(m, a2, b2) && search_before(a2, b2, a, b) ==> #[trigger] norm_of((a2, b2)) != t
}

/// No point of the search triangle has norm `t`.
pub open spec fn no_rep(t: int, m: int) -> bool {
    forall|a2: int, b2: int| in_triangle(m, a2, b2) ==> #[trigger] norm_of((a2, b2)) != t
}

/// `(a, b, c)` is an Eisenstein triple with `0 ≤ b ≤ a` on the `i32`
/// lattice and `0 < c ≤ c_max`.
pub open spec fn bounded_triple(c_max: int, a: int, b: int, c: int) -> bool {
    &&& in_triangle(i32::MAX as int, a, b)
    &&& c > 0
    &&& c <= c_max
    &&& c * c == norm_of((a, b))
}

/// `(a, b, c)` is a primitive Eisenstein triple as `generate` enumerates them.
pub open spec fn generated_triple(a: int, b: int, c: int) -> bool {
    &&& 1 <= a <= i32::MAX
    &&& 0 <= b <= a
    &&& c > 1
    &&& c * c == norm_of((a, b))
    &&& coprime(a as nat, b as nat)
}

/// Eisenstein triple: `a² − ab + b² = c²` (like Pythagorean but hexagonal).
#[derive(Clone, Copy, Debug, PartialEq, Eq, Structural)]
pub struct EisensteinTriple {
    a: i32,
    b: i32,
    c: u32,
}

impl View for EisensteinTriple {
    type V = (int, int, int);

    closed spec fn view(&self) -> (int, int, int) {
        (self.a as int, self.b as int, self.c as int)
    }
}

/// The sequence `s` of triples is strictly increasing in search order.
pub open spec fn search_sorted(s: Seq<EisensteinTriple>) -> bool {
    forall|i: int, j: int|
        0 <= i < j < s.len() ==> search_before(
            #[trigger] s[i]@.0,
            s[i]@.1,
            #[trigger] s[j]@.0,
            s[j]@.1,
        )
}

proof fn lemma_small_norm(a: int, b: int)
    requires
        0 <= b <= a <= i32::MAX,
    ensures
        0 <= norm_of((a, b)) <= a * a,
        a * a <= 0x4000_0000_0000_0000,
{
    assert(a * a - a * b + b * b <= a * a) by (nonlinear_arith)
        requires 0 <= b <= a;
    assert(a * a - a * b + b * b >= 0) by (nonlinear_arith)
        requires 0 <= b <= a;
    assert(a * a <= 0x4000_0000_0000_0000) by (nonlinear_arith)
        requires 0 <= a <= 0x7fff_ffff;
}

/// The norm of `(a, b)` with `0 ≤ b ≤ a`, computed exactly in `i64`.
fn triangle_norm(a: i32, b: i32) -> (n: i64)
    requires
        0 <= b <= a,
    ensures
        n == norm_of((a as int, b as int)),
        0 <= n <= a * a,
{
    proof {
        lemma_small_norm(a as int, b as int);
    }
    let a_i = a as i64;
    let b_i = b as i64;
    assert(a_i * b_i <= a_i * a_i && b_i * b_i <= a_i * a_i) by (nonlinear_arith)
        requires 0 <= b_i <= a_i;
    a_i * a_i - a_i * b_i + b_i * b_i
}

/// `4N(a + bω) − 3a² = (a − 2b)²`: a representation of `t` with
/// `0 ≤ b ≤ a` has `3a² ≤ 4t`.
proof fn lemma_rep_bound(a: int, b: int, t: int)
    requires
        0 <= b <= a,
        norm_of((a, b)) == t,
    ensures
        3 * (a * a) <= 4 * t,
{
    assert(4 * t - 3 * (a * a) == (a - 2 * b) * (a - 2 * b)) by (nonlinear_arith)
        requires t == a * a - a * b + b * b;
    assert((a - 2 * b) * (a - 2 * b) >= 0) by (nonlinear_arith);
}

/// A bound on the first coordinate of every representation of `t`:
/// `a ≤ m` whenever `0 ≤ b ≤ a` and `a² − ab + b² = t`.
fn scan_limit(t: i64) -> (m: i64)
    requires
        t >= 0,
    ensures
        0 <= m <= i32::MAX,
        forall|a: int, b: int|
            in_triangle(i32::MAX as int, a, b) && #[trigger] norm_of((a, b)) == t ==> a <= m,
{
    let u: i64 = if t > 0 {
        t - 1
    } else {
        0
    };
    let s = int_sqrt(u);
    proof {
        // t ≤ (s + 1)²
        if u > 0 {
            assert(u < (s + 1) * (s + 1));
        } else {
            assert(s == 0);
        }
        assert(t <= (s + 1) * (s + 1));
        assert(s * s <= u || u == 0);
        if u > 0 {
            assert(s <= 0xffff_ffff) by (nonlinear_arith)
                requires
                    s * s <= u,
                    u < 0x7fff_ffff_ffff_ffff,
                    s >= 0,
            {
                if s > 0xffff_ffff {
                    assert(s * s >= 0x1_0000_0000 * s);
                    assert(0x1_0000_0000 * s >= 0x1_0000_0000 * 0x1_0000_0000);
                }
            }
        }
    }
    let bound = s + s / 6 + 2;
    proof {
        assert forall|a: int, b: int|
            in_triangle(i32::MAX as int, a, b) && #[trigger] norm_of((a, b)) == t implies a <= bound by {
            lemma_rep_bound(a, b, t as int);
            let si = s as int;
            vstd::arithmetic::div_mod::lemma_fundamental_div_mod(si, 6);
            vstd::arithmetic::div_mod::lemma_mod_bound(si, 6);
            if a > bound {
                assert(6 * a > 7 * (si + 1));
                assert(36 * (a * a) > 49 * ((si + 1) * (si + 1))) by (nonlinear_arith)
                    requires
                        6 * a > 7 * (si + 1),
                        si >= 0,
                ;
                assert(3 * (a * a) <= 4 * ((si + 1) * (si + 1))) by (nonlinear_arith)
                    requires
                        3 * (a * a) <= 4 * t,
                        t <= (si + 1) * (si + 1),
                ;
            }
        }
    }
    if bound > i32::MAX as i64 {
        i32::MAX as i64
    } else {
        bound
    }
}

/// A bound on the first coordinate of every triple with `c ≤ c_max`:
/// `a ≤ ⌊7·c_max / 6⌋`, since `3a² ≤ 4c² < (7c/6)²·3`.
fn triple_limit(c_max: u32) -> (m: i64)
    ensures
        0 <= m <= i32::MAX,
        forall|a: int, b: int, c: int| #[trigger] bounded_triple(c_max as int, a, b, c) ==> a <= m,
{
    let cm = c_max as i64;
    let bound = cm + cm / 6;
    proof {
        assert forall|a: int, b: int, c: int| #[trigger] bounded_triple(c_max as int, a, b, c) implies a
            <= bound by {
            lemma_rep_bound(a, b, c * c);
            vstd::arithmetic::div_mod::lemma_fundamental_div_mod(cm as int, 6);
            vstd::arithmetic::div_mod::lemma_mod_bound(cm as int, 6);
            assert(6 * a < 7 * c) by (nonlinear_arith)
                requires
                    3 * (a * a) <= 4 * (c * c),
                    c > 0,
                    a >= 0,
            {
                if 6 * a >= 7 * c {
                    assert(36 * (a * a) >= 49 * (c * c));
                }
            }
        }
    }
    if bound > i32::MAX as i64 {
        i32::MAX as i64
    } else {
        bound
    }
}

impl EisensteinTriple {
    /// Create a new Eisenstein triple.
    pub fn new(a: i32, b: i32, c: u32) -> (t: EisensteinTriple)
        ensures
            t@ == (a as int, b as int, c as int),
    {
        EisensteinTriple { a, b, c }
    }

    pub fn a(self) -> (r: i32)
        ensures
            r == self@.0,
    {
        self.a
    }

    pub fn b(self) -> (r: i32)
        ensures
            r == self@.1,
    {
        self.b
    }

    pub fn c(self) -> (r: u32)
        ensures
            r == self@.2,
    {
        self.c
    }

    /// The norm `a² − ab + b²`.
    pub fn norm(self) -> (r: u64)
        ensures
            r == norm_of((self@.0, self@.1)),
    {
        E12::new(self.a, self.b).norm()
    }

    /// Find `(a, b)` such that `a² − ab + b² = target` (the Eisenstein norm
    /// equals `target`), with `c = √target`: the first representation with
    /// `0 ≤ b ≤ a` in search order (by `a`, then `b`). `None` unless `target`
    /// is the square of a positive integer (then `(c, 0)` represents it).
    pub fn from_norm(target: u32) -> (r: Option<EisensteinTriple>)
        ensures
            r is Some <==> is_positive_square(target as int) && !no_rep(
                target as int,
                i32::MAX as int,
            ),
            r matches Some(t) ==> first_rep(target as int, i32::MAX as int, t@.0, t@.1) && t@.2 > 0
                && t@.2 * t@.2 == target,
    {
        let target_i = target as i64;
        let max_a = scan_limit(target_i);
        let mut a: i64 = 0;
        while a <= max_a
            invariant
                target_i == target,
                0 <= max_a <= i32::MAX,
                forall|a2: int, b2: int|
                    in_triangle(i32::MAX as int, a2, b2) && #[trigger] norm_of((a2, b2)) == target_i
                        ==> a2 <= max_a,
                0 <= a <= max_a + 1,
                !is_positive_square(target as int) || forall|a2: int, b2: int|
                    in_triangle(i32::MAX as int, a2, b2) && a2 < a ==> #[trigger] norm_of((a2, b2))
                        != target,
            decreases max_a + 1 - a,
        {
            let mut b: i64 = 0;
            while b <= a
                invariant
                    target_i == target,
                    0 <= max_a <= i32::MAX,
                    0 <= a <= max_a,
                    0 <= b <= a + 1,
                    !is_positive_square(target as int) || forall|a2: int, b2: int|
                        in_triangle(i32::MAX as int, a2, b2) && search_before(a2, b2, a as int, b as int)
                            ==> #[trigger] norm_of((a2, b2)) != target,
                decreases a + 1 - b,
            {
                let val = triangle_norm(a as i32, b as i32);
                if val == target_i {
                    let c = int_sqrt(target_i);
                    if c * c == target_i && c > 0 {
                        assert(c <= target_i) by (nonlinear_arith)
                            requires c * c == target_i, c > 0;
                        let t = EisensteinTriple::new(a as i32, b as i32, c as u32);
                        return Some(t);
                    }
                    proof {
                        lemma_not_square(target as int, c as int);
                    }
                }
                b = b + 1;
            }
            a = a + 1;
        }
        None
    }

    /// Find `(a, b)` such that `a² − ab + b²` equals the given raw norm value:
    /// the first representation with `0 ≤ b ≤ a` (on the `i32` lattice) in
    /// search order. Unlike `from_norm`, this does not require a perfect square.
    pub fn from_norm_raw(target: i64) -> (r: Option<(i32, i32)>)
        ensures
            r is None <==> no_rep(target as int, i32::MAX as int),
            r matches Some(p) ==> first_rep(target as int, i32::MAX as int, p.0 as int, p.1 as int),
    {
        if target < 0 {
            proof {
                assert forall|a2: int, b2: int| in_triangle(i32::MAX as int, a2, b2)
                    implies #[trigger] norm_of((a2, b2)) != target by {
                    lemma_small_norm(a2, b2);
                }
            }
            return None;
        }
        let max_a = scan_limit(target);
        let mut a: i64 = 0;
        while a <= max_a
            invariant
                0 <= max_a <= i32::MAX,
                forall|a2: int, b2: int|
                    in_triangle(i32::MAX as int, a2, b2) && #[trigger] norm_of((a2, b2)) == target
                        ==> a2 <= max_a,
                0 <= a <= max_a + 1,
                forall|a2: int, b2: int|
                    in_triangle(i32::MAX as int, a2, b2) && a2 < a ==> #[trigger] norm_of((a2, b2))
                        != target,
            decreases max_a + 1 - a,
        {
            let mut b: i64 = 0;
            while b <= a
                invariant
                    0 <= max_a <= i32::MAX,
                    0 <= a <= max_a,
                    0 <= b <= a + 1,
                    forall|a2: int, b2: int|
                        in_triangle(i32::MAX as int, a2, b2) && search_before(a2, b2, a as int, b as int)
                            ==> #[trigger] norm_of((a2, b2)) != target,
                decreases a + 1 - b,
            {
                let val = triangle_norm(a as i32, b as i32);
                if val == target {
                    return Some((a as i32, b as i32));
                }
                b = b + 1;
            }
            a = a + 1;
        }
        None
    }
}

impl EisensteinTriple {
    /// Find all Eisenstein triples with `c ≤ c_max`: every `(a, b, c)` with
    /// `0 ≤ b ≤ a` (on the `i32` lattice), `0 < c ≤ c_max` and
    /// `a² − ab + b² = c²`, in search order (by `a`, then `b`).
    pub fn all_with_max_norm(c_max: u32) -> (v: Vec<EisensteinTriple>)
        ensures
            forall|i: int|
                0 <= i < v.len() ==> bounded_triple(
                    c_max as int,
                    #[trigger] v[i]@.0,
                    v[i]@.1,
                    v[i]@.2,
                ),
            search_sorted(v@),
            forall|a: int, b: int, c: int|
                bounded_triple(c_max as int, a, b, c) ==> exists|i: int|
                    0 <= i < v.len() && #[trigger] v[i]@ == (a, b, c),
    {
        let mut results: Vec<EisensteinTriple> = Vec::new();
        let max_a = triple_limit(c_max);
        let mut a: i64 = 0;
        while a <= max_a
            invariant
                0 <= max_a <= i32::MAX,
                forall|a2: int, b2: int, c2: int| #[trigger] bounded_triple(c_max as int, a2, b2, c2) ==> a2 <= max_a,
                0 <= a <= max_a + 1,
                forall|i: int|
                    0 <= i < results.len() ==> bounded_triple(
                        c_max as int,
                        #[trigger] results[i]@.0,
                        results[i]@.1,
                        results[i]@.2,
                    ) && results[i]@.0 < a,
                search_sorted(results@),
                forall|a2: int, b2: int, c2: int|
                    bounded_triple(c_max as int, a2, b2, c2) && a2 < a ==> exists|i: int|
                        0 <= i < results.len() && #[trigger] results[i]@ == (a2, b2, c2),
            decreases max_a + 1 - a,
        {
            let mut b: i64 = 0;
            while b <= a
                invariant
                    0 <= max_a <= i32::MAX,
                    0 <= a <= max_a,
                    0 <= b <= a + 1,
                    forall|i: int|
                        0 <= i < results.len() ==> bounded_triple(
                            c_max as int,
                            #[trigger] results[i]@.0,
                            results[i]@.1,
                            results[i]@.2,
                        ) && search_before(results[i]@.0, results[i]@.1, a as int, b as int),
                    search_sorted(results@),
                    forall|a2: int, b2: int, c2: int|
                        bounded_triple(c_max as int, a2, b2, c2) && search_before(
                            a2,
                            b2,
                            a as int,
                            b as int,
                        ) ==> exists|i: int|
                            0 <= i < results.len() && #[trigger] results[i]@ == (a2, b2, c2),
                decreases a + 1 - b,
            {
                let val = triangle_norm(a as i32, b as i32);
                if val > 0 {
                    proof {
                        lemma_small_norm(a as int, b as int);
                    }
                    let sqrt_val = int_sqrt(val);
                    proof {
                        lemma_isqrt_le(val as int, sqrt_val as int, a as int);
                    }
                    if sqrt_val * sqrt_val == val && sqrt_val > 0 && (sqrt_val as u32) <= c_max {
                        let ghost old_results = results@;
                        results.push(EisensteinTriple::new(a as i32, b as i32, sqrt_val as u32));
                        proof {
                            assert(results@[results.len() - 1]@ == (a as int, b as int, sqrt_val as int));
                            assert forall|a2: int, b2: int, c2: int|
                                bounded_triple(c_max as int, a2, b2, c2) && search_before(
                                    a2,
                                    b2,
                                    a as int,
                                    b + 1,
                                ) implies exists|i: int|
                                0 <= i < results.len() && #[trigger] results[i]@ == (a2, b2, c2) by {
                                if a2 == a && b2 == b {
                                    lemma_sqrt_unique(norm_of((a2, b2)), c2, sqrt_val as int);
                                    assert(results[results.len() - 1]@ == (a2, b2, c2));
                                } else {
                                    let i = choose|i: int|
                                        0 <= i < old_results.len() && #[trigger] old_results[i]@ == (
                                            a2,
                                            b2,
                                            c2,
                                        );
                                    assert(results[i]@ == (a2, b2, c2));
                                }
                            }
                        }
                    } else {
                        proof {
                            assert forall|c2: int| !bounded_triple(c_max as int, a as int, b as int, c2) by {
                                if bounded_triple(c_max as int, a as int, b as int, c2) {
                                    lemma_isqrt_unique(val as int, c2, sqrt_val as int);
                                }
                            }
                        }
                    }
                } else {
                    proof {
                        assert forall|c2: int| !bounded_triple(c_max as int, a as int, b as int, c2) by {
                            if bounded_triple(c_max as int, a as int, b as int, c2) {
                                assert(c2 * c2 > 0) by (nonlinear_arith)
                                    requires c2 > 0;
                            }
                        }
                    }
                }
                b = b + 1;
            }
            a = a + 1;
        }
        results
    }

    /// Is this triple primitive: `gcd(|a|, |b|) = 1`, i.e. no integer above 1
    /// divides both `|a|` and `|b|`?
    pub fn is_primitive(self) -> (r: bool)
        ensures
            r == (gcd_of(abs_nat(self@.0), abs_nat(self@.1)) == 1),
            r == coprime(abs_nat(self@.0), abs_nat(self@.1)),
    {
        proof {
            law_gcd_one_iff_coprime(abs_nat(self@.0), abs_nat(self@.1));
        }
        gcd(u32_abs(self.a), u32_abs(self.b)) == 1
    }
}

impl EisensteinTriple {
    /// Generate the first `n` primitive Eisenstein triples `(a, b, c)` with
    /// `a ≥ 1`, `0 ≤ b ≤ a`, `c > 1`, in search order (by `a`, then `b`).
    /// Fewer come back only if the search runs out of `i32` values for `a`.
    pub fn generate(n: usize) -> (v: Vec<EisensteinTriple>)
        ensures
            v.len() <= n,
            forall|i: int|
                0 <= i < v.len() ==> generated_triple(#[trigger] v[i]@.0, v[i]@.1, v[i]@.2),
            search_sorted(v@),
            v.len() > 0 ==> forall|a: int, b: int, c: int|
                generated_triple(a, b, c) && search_before(a, b, v@.last()@.0, v@.last()@.1)
                    ==> exists|i: int| 0 <= i < v.len() && #[trigger] v[i]@ == (a, b, c),
            v.len() < n ==> forall|a: int, b: int, c: int|
                generated_triple(a, b, c) ==> exists|i: int|
                    0 <= i < v.len() && #[trigger] v[i]@ == (a, b, c),
    {
        let mut results: Vec<EisensteinTriple> = Vec::new();
        if n == 0 {
            return results;
        }
        let mut a: i32 = 1;
        loop
            invariant_except_break
                1 <= a,
                results.len() < n,
                forall|i: int|
                    0 <= i < results.len() ==> generated_triple(
                        #[trigger] results[i]@.0,
                        results[i]@.1,
                        results[i]@.2,
                    ) && results[i]@.0 < a,
                search_sorted(results@),
                forall|a2: int, b2: int, c2: int|
                    generated_triple(a2, b2, c2) && a2 < a ==> exists|i: int|
                        0 <= i < results.len() && #[trigger] results[i]@ == (a2, b2, c2),
            ensures
                results.len() <= n,
                forall|i: int|
                    0 <= i < results.len() ==> generated_triple(
                        #[trigger] results[i]@.0,
                        results[i]@.1,
                        results[i]@.2,
                    ),
                search_sorted(results@),
                results.len() == n ==> forall|a2: int, b2: int, c2: int|
                    generated_triple(a2, b2, c2) && search_before(
                        a2,
                        b2,
                        results@.last()@.0,
                        results@.last()@.1,
                    ) ==> exists|i: int|
                        0 <= i < results.len() && #[trigger] results[i]@ == (a2, b2, c2),
                results.len() < n ==> forall|a2: int, b2: int, c2: int|
                    generated_triple(a2, b2, c2) ==> exists|i: int|
                        0 <= i < results.len() && #[trigger] results[i]@ == (a2, b2, c2),
            decreases i32::MAX - a,
        {
            let mut b: i32 = 0;
            loop
                invariant_except_break
                    results.len() < n,
                    forall|i: int|
                        0 <= i < results.len() ==> generated_triple(
                            #[trigger] results[i]@.0,
                            results[i]@.1,
                            results[i]@.2,
                        ) && search_before(results[i]@.0, results[i]@.1, a as int, b as int),
                    search_sorted(results@),
                    forall|a2: int, b2: int, c2: int|
                        generated_triple(a2, b2, c2) && search_before(a2, b2, a as int, b as int)
                            ==> exists|i: int|
                            0 <= i < results.len() && #[trigger] results[i]@ == (a2, b2, c2),
                invariant
                    1 <= a,
                    0 <= b <= a,
                    results.len() <= n,
                    forall|i: int|
                        0 <= i < results.len() ==> generated_triple(
                            #[trigger] results[i]@.0,
                            results[i]@.1,
                            results[i]@.2,
                        ) && results[i]@.0 <= a,
                    search_sorted(results@),
                ensures
                    results.len() <= n,
                    forall|i: int|
                        0 <= i < results.len() ==> generated_triple(
                            #[trigger] results[i]@.0,
                            results[i]@.1,
                            results[i]@.2,
                        ) && results[i]@.0 <= a,
                    search_sorted(results@),
                    results.len() == n ==> forall|a2: int, b2: int, c2: int|
                        generated_triple(a2, b2, c2) && search_before(
                            a2,
                            b2,
                            results@.last()@.0,
                            results@.last()@.1,
                        ) ==> exists|i: int|
                            0 <= i < results.len() && #[trigger] results[i]@ == (a2, b2, c2),
                    results.len() < n ==> forall|a2: int, b2: int, c2: int|
                        generated_triple(a2, b2, c2) && a2 <= a ==> exists|i: int|
                            0 <= i < results.len() && #[trigger] results[i]@ == (a2, b2, c2),
                decreases a - b,
            {
                let val = triangle_norm(a, b);
                let ghost before = results@;
                if val > 1 {
                    proof {
                        lemma_small_norm(a as int, b as int);
                    }
                    let sqrt_val = int_sqrt(val);
                    proof {
                        lemma_isqrt_le(val as int, sqrt_val as int, a as int);
                    }
                    if sqrt_val * sqrt_val == val && sqrt_val > 1 {
                        let triple = EisensteinTriple::new(a, b, sqrt_val as u32);
                        if triple.is_primitive() {
                            results.push(triple);
                            proof {
                                assert(results@[results.len() - 1]@ == (a as int, b as int, sqrt_val as int));
                                assert forall|a2: int, b2: int, c2: int|
                                    generated_triple(a2, b2, c2) && search_before(a2, b2, a as int, b + 1)
                                        implies exists|i: int|
                                    0 <= i < results.len() && #[trigger] results[i]@ == (a2, b2, c2) by {
                                    if a2 == a && b2 == b {
                                        lemma_isqrt_unique(val as int, c2, sqrt_val as int);
                                        assert(results[results.len() - 1]@ == (a2, b2, c2));
                                    } else {
                                        let i = choose|i: int|
                                            0 <= i < before.len() && #[trigger] before[i]@ == (a2, b2, c2);
                                        assert(results[i]@ == (a2, b2, c2));
                                    }
                                }
                            }
                            if results.len() >= n {
                                break;
                            }
                        } else {
                            proof {
                                assert forall|c2: int| !generated_triple(a as int, b as int, c2) by {
                                    if generated_triple(a as int, b as int, c2) {
                                        lemma_isqrt_unique(val as int, c2, sqrt_val as int);
                                    }
                                }
                            }
                        }
                    } else {
                        proof {
                            assert forall|c2: int| !generated_triple(a as int, b as int, c2) by {
                                if generated_triple(a as int, b as int, c2) {
                                    lemma_isqrt_unique(val as int, c2, sqrt_val as int);
                                }
                            }
                        }
                    }
                } else {
                    proof {
                        assert forall|c2: int| !generated_triple(a as int, b as int, c2) by {
                            if generated_triple(a as int, b as int, c2) {
                                assert(c2 * c2 > 1) by (nonlinear_arith)
                                    requires c2 > 1;
                            }
                        }
                    }
                }
                if b == a {
                    break;
                }
                b = b + 1;
            }
            if results.len() >= n {
                break;
            }
            if a == i32::MAX {
                break;
            }
            a = a + 1;
        }
        results
    }
}

/// The absolute value of an integer as a natural number.
pub open spec fn abs_nat(x: int) -> nat {
    if x < 0 {
        (-x) as nat
    } else {
        x as nat
    }
}

fn u32_abs(x: i32) -> (r: u32)
    ensures
        r == abs_nat(x as int),
{
    if x < 0 {
        (-(x as i64)) as u32
    } else {
        x as u32
    }
}

/// The integer square root of a perfect square is its root.
proof fn lemma_isqrt_unique(n: int, c: int, s: int)
    requires
        c >= 0,
        c * c == n,
        is_isqrt(n, s),
    ensures
        c == s,
{
    if c < s {
        assert(c * c < s * s) by (nonlinear_arith)
            requires 0 <= c < s;
    } else if c > s {
        assert(c * c >= (s + 1) * (s + 1)) by (nonlinear_arith)
            requires c > s, s >= 0;
    }
}

/// The integer square root of `n ≤ a²` is at most `a`.
proof fn lemma_isqrt_le(n: int, s: int, a: int)
    requires
        is_isqrt(n, s),
        n <= a * a,
        a >= 0,
    ensures
        s <= a,
{
    if s > a {
        assert(s * s > a * a) by (nonlinear_arith)
            requires s > a, a >= 0;
    }
}

/// A non-negative number has at most one non-negative square root.
proof fn lemma_sqrt_unique(n: int, c: int, d: int)
    requires
        c >= 0,
        d >= 0,
        c * c == n,
        d * d == n,
    ensures
        c == d,
{
    if c < d {
        assert(c * c < d * d) by (nonlinear_arith)
            requires 0 <= c < d;
    } else if c > d {
        assert(d * d < c * c) by (nonlinear_arith)
            requires 0 <= d < c;
    }
}

/// If `c` is the integer square root of `t` but `c² ≠ t` (or `c = 0`), then
/// `t` is not the square of a positive integer.
proof fn lemma_not_square(t: int, c: int)
    requires
        t >= 0,
        t > 0 ==> is_isqrt(t, c),
        t <= 0 ==> c == 0,
        !(c * c == t && c > 0),
    ensures
        !is_positive_square(t),
{
    if is_positive_square(t) {
        let d = choose|d: int| d > 0 && #[trigger] (d * d) == t;
        if d < c {
            assert(d * d < c * c) by (nonlinear_arith)
                requires 0 < d < c;
        } else if d > c {
            assert(d * d >= (c + 1) * (c + 1)) by (nonlinear_arith)
                requires d > c, c >= 0;
        }
    }
}

/// The triples `all_with_max_norm(c_max)` lists are exactly the solutions of
/// `a² − ab + b² = c²` with `0 ≤ b ≤ a` (within `i32`) and `0 < c ≤ c_max`,
/// whatever common factor `a` and `b` share.
pub proof fn law_bounded_triples_are_all_solutions(c_max: int, a: int, b: int, c: int)
    ensures
        bounded_triple(c_max, a, b, c) <==> (0 <= b <= a <= i32::MAX && 0 < c <= c_max && a * a - a
            * b + b * b == c * c),
{
}

/// A multiple `k·t` of a listed triple `t` is listed too, while its
/// hypotenuse stays within `c_max`.
pub proof fn law_bounded_triples_scale(c_max: int, a: int, b: int, c: int, k: int)
    requires
        bounded_triple(c_max, a, b, c),
        k >= 1,
        k * c <= c_max,
        k * a <= i32::MAX,
    ensures
        bounded_triple(c_max, k * a, k * b, k * c),
{
    assert((k * a) * (k * a) - (k * a) * (k * b) + (k * b) * (k * b) == k * k * (a * a - a * b + b
        * b)) by (nonlinear_arith);
    assert((k * c) * (k * c) == k * k * (c * c)) by (nonlinear_arith);
    assert(0 <= k * b <= k * a) by (nonlinear_arith)
        requires
            k >= 1,
            0 <= b <= a,
    ;
    assert(k * c > 0) by (nonlinear_arith)
        requires
            k >= 1,
            c > 0,
    ;
}

/// The triples `generate` enumerates are exactly the primitive solutions of
/// `a² − ab + b² = c²` with `0 ≤ b ≤ a`, `1 ≤ a` (within `i32`) and `c > 1`:
/// those whose legs have greatest common divisor 1.
pub proof fn law_generated_triples_are_primitive_solutions(a: int, b: int, c: int)
    ensures
        generated_triple(a, b, c) <==> (1 <= a <= i32::MAX && 0 <= b <= a && c > 1 && a * a - a * b
            + b * b == c * c && gcd_of(a as nat, b as nat) == 1),
{
    law_gcd_one_iff_coprime(a as nat, b as nat);
}

/// The enumerated triples are closed under the mirror `(a, b, c) ↦ (a, a − b, c)`:
/// `a² − a(a − b) + (a − b)² = a² − ab + b²`, and the mirror shares no
/// factor with `a` that `b` does not.
pub proof fn law_generated_triples_mirror(a: int, b: int, c: int)
    requires
        generated_triple(a, b, c),
    ensures
        generated_triple(a, a - b, c),
{
    assert(a * a - a * (a - b) + (a - b) * (a - b) == a * a - a * b + b * b) by (nonlinear_arith);
    let an = a as nat;
    let bn = b as nat;
    let mn = (a - b) as nat;
    assert forall|d: nat| d > 1 implies !(#[trigger] divides_nat(d, an) && divides_nat(d, mn)) by {
        if divides_nat(d, an) && divides_nat(d, mn) {
            let k1 = choose|k: nat| an == #[trigger] (d * k);
            let k2 = choose|k: nat| mn == #[trigger] (d * k);
            assert(b == d * (k1 - k2)) by (nonlinear_arith)
                requires
                    a == d * k1,
                    a - b == d * k2,
            ;
            assert(k1 - k2 >= 0) by (nonlinear_arith)
                requires
                    b == d * (k1 - k2),
                    b >= 0,
                    d > 1,
            ;
            let k3 = (k1 - k2) as nat;
            assert(bn == d * k3);
            assert(divides_nat(d, bn));
            assert(!(divides_nat(d, an) && divides_nat(d, bn)));
        }
    }
    assert(coprime(an, mn));
}

/// The searches list triples by increasing `a`, and by increasing `b` for
/// equal `a`: a strict total order on the legs.
pub proof fn law_search_order(a1: int, b1: int, a2: int, b2: int)
    ensures
        search_before(a1, b1, a2, b2) <==> (a1 < a2 || (a1 == a2 && b1 < b2)),
        !search_before(a1, b1, a1, b1),
        (a1, b1) != (a2, b2) ==> search_before(a1, b1, a2, b2) || search_before(a2, b2, a1, b1),
{
}

} // verus!

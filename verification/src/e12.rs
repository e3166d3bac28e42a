//! The Eisenstein integer `a + bω` with `i32` coordinates.

use vstd::prelude::*;

verus! {

/// Whether an integer fits in an `i32`.
pub open spec fn in_i32(x: int) -> bool {
    i32::MIN <= x <= i32::MAX
}

/// Whether both coordinates of a lattice point fit in `i32`.
pub open spec fn fits_i32(v: (int, int)) -> bool {
    in_i32(v.0) && in_i32(v.1)
}

/// The Eisenstein norm `a² − ab + b²` of `a + bω`.
pub open spec fn norm_of(v: (int, int)) -> int {
    v.0 * v.0 - v.0 * v.1 + v.1 * v.1
}

pub open spec fn add_of(x: (int, int), y: (int, int)) -> (int, int) {
    (x.0 + y.0, x.1 + y.1)
}

pub open spec fn sub_of(x: (int, int), y: (int, int)) -> (int, int) {
    (x.0 - y.0, x.1 - y.1)
}

pub open spec fn neg_of(x: (int, int)) -> (int, int) {
    (-x.0, -x.1)
}

/// `(a + bω)(c + dω) = (ac − bd) + (ad + bc − bd)ω`, using `ω² = −1 − ω`.
pub open spec fn mul_of(x: (int, int), y: (int, int)) -> (int, int) {
    (x.0 * y.0 - x.1 * y.1, x.0 * y.1 + x.1 * y.0 - x.1 * y.1)
}

/// The complex conjugate: `conj(a + bω) = a + bω² = (a − b) − bω`.
pub open spec fn conj_of(x: (int, int)) -> (int, int) {
    (x.0 - x.1, -x.1)
}

/// The six units `±1, ±ω, ±ω²`, in the order of `E12::directions`.
pub open spec fn unit_of(i: int) -> (int, int) {
    if i == 0 {
        (1, 0)
    } else if i == 1 {
        (0, 1)
    } else if i == 2 {
        (1, 1)
    } else if i == 3 {
        (-1, 0)
    } else if i == 4 {
        (0, -1)
    } else {
        (-1, -1)
    }
}

/// Eisenstein integer in the E12 lattice: `a + bω` where `ω = e^(2πi/3)`.
#[derive(Clone, Copy, PartialEq, Eq, Hash, Debug, Structural)]
pub struct E12 {
    a: i32,
    b: i32,
}

impl View for E12 {
    type V = (int, int);

    closed spec fn view(&self) -> (int, int) {
        (self.a as int, self.b as int)
    }
}

/// The lattice point with the given coordinates (meaningful when they fit in `i32`).
pub closed spec fn e12_of(v: (int, int)) -> E12 {
    E12 { a: v.0 as i32, b: v.1 as i32 }
}

pub broadcast proof fn lemma_e12_of_view(v: (int, int))
    requires
        fits_i32(v),
    ensures
        #[trigger] e12_of(v)@ == v,
{
}

pub broadcast proof fn lemma_view_fits(x: E12)
    ensures
        #[trigger] fits_i32(x@),
{
}

pub broadcast proof fn lemma_view_injective(x: E12, y: E12)
    ensures
        #[trigger] x@ == #[trigger] y@ <==> x == y,
{
}

pub broadcast group group_e12 {
    lemma_e12_of_view,
    lemma_view_fits,
    lemma_view_injective,
}

impl E12 {
    /// Create a new Eisenstein integer `a + bω`.
    pub fn new(a: i32, b: i32) -> (r: E12)
        ensures
            r@ == (a as int, b as int),
    {
        E12 { a, b }
    }

    /// Real coefficient.
    pub fn a(self) -> (r: i32)
        ensures
            r == self@.0,
    {
        self.a
    }

    /// ω coefficient.
    pub fn b(self) -> (r: i32)
        ensures
            r == self@.1,
    {
        self.b
    }

    /// Norm: `a² − ab + b²`. Always non-negative.
    pub fn norm(self) -> (r: u64)
        ensures
            r == norm_of(self@),
    {
        let a = self.a as i128;
        let b = self.b as i128;
        proof {
            lemma_norm_nonneg(self@);
            lemma_norm_upper(self@);
        }
        assert(a * a <= 0x4000_0000_0000_0000) by (nonlinear_arith)
            requires -0x8000_0000 <= a <= 0x7fff_ffff;
        assert(b * b <= 0x4000_0000_0000_0000) by (nonlinear_arith)
            requires -0x8000_0000 <= b <= 0x7fff_ffff;
        assert(-0x4000_0000_0000_0000 <= a * b <= 0x4000_0000_0000_0000) by (nonlinear_arith)
            requires -0x8000_0000 <= a <= 0x7fff_ffff, -0x8000_0000 <= b <= 0x7fff_ffff;
        let n = a * a - a * b + b * b;
        n as u64
    }
}

/// Multiplication by `1 + ω = −ω²`, the rotation of the plane by 60°.
pub open spec fn rot60_of(x: (int, int)) -> (int, int) {
    (x.0 - x.1, x.0)
}

/// The `k`-th element of the clockwise 60° rotation orbit of `x`: `x·(−ω)^k`.
pub open spec fn rotation_of(x: (int, int), k: nat) -> (int, int)
    decreases k,
{
    if k == 0 {
        x
    } else {
        mul_of(rotation_of(x, (k - 1) as nat), (0, -1))
    }
}

pub open spec fn abs_of(x: int) -> int {
    if x < 0 {
        -x
    } else {
        x
    }
}

/// The axial hex distance of `a + bω` from the origin: `(|a| + |b| + |a + b|) / 2`.
pub open spec fn axial_dist_of(v: (int, int)) -> int {
    (abs_of(v.0) + abs_of(v.1) + abs_of(v.0 + v.1)) / 2
}

impl E12 {
    /// Complex conjugate: `conj(a + bω) = a + bω² = (a − b) − bω`.
    pub fn conjugate(self) -> (r: E12)
        requires
            fits_i32(conj_of(self@)),
        ensures
            r@ == conj_of(self@),
    {
        E12 { a: self.a - self.b, b: -self.b }
    }

    /// Create from axial hex coordinates `(q, r)`.
    pub fn from_axial(q: i32, r: i32) -> (z: E12)
        ensures
            z@ == (q as int, r as int),
    {
        E12 { a: q, b: r }
    }

    /// Convert to axial hex coordinates `(q, r)`.
    pub fn to_axial(self) -> (r: (i32, i32))
        ensures
            r.0 == self@.0,
            r.1 == self@.1,
    {
        (self.a, self.b)
    }

    /// The six unit directions of the hexagonal lattice: the units
    /// `1, ω, −ω², −1, −ω, ω²` of `Z[ω]`, each of norm 1.
    pub fn directions() -> (r: [E12; 6])
        ensures
            forall|i: int| 0 <= i < 6 ==> #[trigger] r[i]@ == unit_of(i),
    {
        [
            E12 { a: 1, b: 0 },
            E12 { a: 0, b: 1 },
            E12 { a: 1, b: 1 },
            E12 { a: -1, b: 0 },
            E12 { a: 0, b: -1 },
            E12 { a: -1, b: -1 },
        ]
    }

    /// The six neighbors in the hexagonal lattice (self + each unit direction).
    pub fn neighbors(self) -> (r: [E12; 6])
        requires
            i32::MIN < self@.0 < i32::MAX,
            i32::MIN < self@.1 < i32::MAX,
        ensures
            forall|i: int| 0 <= i < 6 ==> #[trigger] r[i]@ == add_of(self@, unit_of(i)),
    {
        let dirs = E12::directions();
        [
            self + dirs[0],
            self + dirs[1],
            self + dirs[2],
            self + dirs[3],
            self + dirs[4],
            self + dirs[5],
        ]
    }

    /// Rotate the plane by 60° about the origin (multiply by `1 + ω`).
    pub fn rotate_60(self) -> (r: E12)
        requires
            in_i32(self@.0 - self@.1),
        ensures
            r@ == rot60_of(self@),
    {
        E12 { a: self.a - self.b, b: self.a }
    }

    /// Multiply both coordinates by the integer `k`.
    pub fn scale(self, k: i32) -> (r: E12)
        requires
            fits_i32((self@.0 * k, self@.1 * k)),
        ensures
            r@ == (self@.0 * k, self@.1 * k),
    {
        E12 { a: self.a * k, b: self.b * k }
    }

    /// Is this one of the six units (norm 1)?
    pub fn is_unit(self) -> (r: bool)
        ensures
            r == (norm_of(self@) == 1),
    {
        self.norm() == 1
    }

    /// Axial hex distance `(|Δa| + |Δb| + |Δa + Δb|) / 2` to another point.
    pub fn hex_distance_to(self, other: E12) -> (r: u64)
        ensures
            r == axial_dist_of(sub_of(self@, other@)),
    {
        let da = self.a as i64 - other.a as i64;
        let db = self.b as i64 - other.b as i64;
        let s = da + db;
        let ua: i64 = if da < 0 { -da } else { da };
        let ub: i64 = if db < 0 { -db } else { db };
        let us: i64 = if s < 0 { -s } else { s };
        ((ua + ub + us) / 2) as u64
    }

    /// The six rotations of this point by multiples of 60° (clockwise): entry
    /// `k` is `self·(−ω)^k`, so entry 3 is `−self`.
    pub fn d6_rotations(self) -> (r: [E12; 6])
        requires
            i32::MIN < self@.0,
            i32::MIN < self@.1,
            in_i32(self@.0 - self@.1),
            in_i32(self@.1 - self@.0),
        ensures
            forall|k: int| 0 <= k < 6 ==> #[trigger] r[k]@ == rotation_of(self@, k as nat),
    {
        let a = self.a;
        let b = self.b;
        let r = [
            E12 { a, b },
            E12 { a: b, b: b - a },
            E12 { a: b - a, b: -a },
            E12 { a: -a, b: -b },
            E12 { a: -b, b: a - b },
            E12 { a: a - b, b: a },
        ];
        proof {
            lemma_rotation_values(self@);
            assert(forall|k: int| 0 <= k < 6 ==> #[trigger] r[k]@ == rotation_of(self@, k as nat)) by {
                assert(r[0]@ == rotation_of(self@, 0));
                assert(r[1]@ == rotation_of(self@, 1));
                assert(r[2]@ == rotation_of(self@, 2));
                assert(r[3]@ == rotation_of(self@, 3));
                assert(r[4]@ == rotation_of(self@, 4));
                assert(r[5]@ == rotation_of(self@, 5));
            }
        }
        r
    }
}

impl core::ops::Add for E12 {
    type Output = E12;

    /// `(a + bω) + (c + dω) = (a + c) + (b + d)ω`.
    fn add(self, rhs: E12) -> (r: E12)
        ensures
            r@ == add_of(self@, rhs@),
    {
        E12 { a: self.a + rhs.a, b: self.b + rhs.b }
    }
}

impl vstd::std_specs::ops::AddSpecImpl for E12 {
    open spec fn obeys_add_spec() -> bool {
        true
    }

    open spec fn add_req(self, rhs: E12) -> bool {
        fits_i32(add_of(self@, rhs@))
    }

    open spec fn add_spec(self, rhs: E12) -> E12 {
        e12_of(add_of(self@, rhs@))
    }
}

impl core::ops::Sub for E12 {
    type Output = E12;

    /// `(a + bω) − (c + dω) = (a − c) + (b − d)ω`.
    fn sub(self, rhs: E12) -> (r: E12)
        ensures
            r@ == sub_of(self@, rhs@),
    {
        E12 { a: self.a - rhs.a, b: self.b - rhs.b }
    }
}

impl vstd::std_specs::ops::SubSpecImpl for E12 {
    open spec fn obeys_sub_spec() -> bool {
        true
    }

    open spec fn sub_req(self, rhs: E12) -> bool {
        fits_i32(sub_of(self@, rhs@))
    }

    open spec fn sub_spec(self, rhs: E12) -> E12 {
        e12_of(sub_of(self@, rhs@))
    }
}

impl core::ops::Neg for E12 {
    type Output = E12;

    /// `−(a + bω) = −a − bω`.
    fn neg(self) -> (r: E12)
        ensures
            r@ == neg_of(self@),
    {
        E12 { a: -self.a, b: -self.b }
    }
}

impl vstd::std_specs::ops::NegSpecImpl for E12 {
    open spec fn obeys_neg_spec() -> bool {
        true
    }

    open spec fn neg_req(self) -> bool {
        fits_i32(neg_of(self@))
    }

    open spec fn neg_spec(self) -> E12 {
        e12_of(neg_of(self@))
    }
}

impl core::ops::Mul for E12 {
    type Output = E12;

    /// `(a + bω)(c + dω) = (ac − bd) + (ad + bc − bd)ω`, since `ω² = −1 − ω`.
    fn mul(self, rhs: E12) -> (r: E12)
        ensures
            r@ == mul_of(self@, rhs@),
    {
        let a = self.a as i64;
        let b = self.b as i64;
        let c = rhs.a as i64;
        let d = rhs.b as i64;
        proof {
            lemma_i32_product(a as int, c as int);
            lemma_i32_product(b as int, d as int);
            lemma_i32_product(a as int, d as int);
            lemma_i32_product(b as int, c as int);
        }
        let x = a * c - b * d;
        let y = a * d + b * c - b * d;
        E12 { a: x as i32, b: y as i32 }
    }
}

impl vstd::std_specs::ops::MulSpecImpl for E12 {
    open spec fn obeys_mul_spec() -> bool {
        true
    }

    open spec fn mul_req(self, rhs: E12) -> bool {
        fits_i32(mul_of(self@, rhs@))
    }

    open spec fn mul_spec(self, rhs: E12) -> E12 {
        e12_of(mul_of(self@, rhs@))
    }
}

/// The rotation orbit of `(a, b)` in closed form.
pub proof fn lemma_rotation_values(x: (int, int))
    ensures
        rotation_of(x, 0) == x,
        rotation_of(x, 1) == (x.1, x.1 - x.0),
        rotation_of(x, 2) == (x.1 - x.0, -x.0),
        rotation_of(x, 3) == neg_of(x),
        rotation_of(x, 4) == (-x.1, x.0 - x.1),
        rotation_of(x, 5) == (x.0 - x.1, x.0),
        rotation_of(x, 6) == x,
{
    reveal_with_fuel(rotation_of, 7);
}

proof fn lemma_i32_product(x: int, y: int)
    requires
        in_i32(x),
        in_i32(y),
    ensures
        -0x4000_0000_0000_0000 <= x * y <= 0x4000_0000_0000_0000,
{
    assert(-0x4000_0000_0000_0000 <= x * y <= 0x4000_0000_0000_0000) by (nonlinear_arith)
        requires
            -0x8000_0000 <= x <= 0x7fff_ffff,
            -0x8000_0000 <= y <= 0x7fff_ffff,
    ;
}

/// The norm is never negative: `4(a² − ab + b²) = (2a − b)² + 3b²`.
pub proof fn lemma_norm_nonneg(v: (int, int))
    ensures
        norm_of(v) >= 0,
{
    let (a, b) = v;
    assert(4 * (a * a - a * b + b * b) == (2 * a - b) * (2 * a - b) + 3 * (b * b)) by (nonlinear_arith);
    assert((2 * a - b) * (2 * a - b) >= 0) by (nonlinear_arith);
    assert(b * b >= 0) by (nonlinear_arith);
}

proof fn lemma_norm_upper(v: (int, int))
    requires
        fits_i32(v),
    ensures
        norm_of(v) <= u64::MAX,
{
    let (a, b) = v;
    assert(a * a - a * b + b * b <= 3 * 0x4000_0000_0000_0000) by (nonlinear_arith)
        requires -0x8000_0000 <= a <= 0x7fff_ffff, -0x8000_0000 <= b <= 0x7fff_ffff;
}

} // verus!

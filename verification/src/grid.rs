//! Row-by-row scans of a square grid `[−R, R]²` and the counting and
//! ordering facts about the points they keep.

use vstd::prelude::*;

use crate::e12::abs_of;

verus! {

/// The points `p` of the square `[−R, R]²` with `inside(p)`, scanned row by row
/// (`q` from `−R` to `R`) and within a row by `r` from `−R` to `R`, starting at
/// grid position `(q, r)`.
pub open spec fn grid_scan(inside: spec_fn((int, int)) -> bool, radius: int, q: int, r: int) -> Seq<
    (int, int),
>
    decreases radius + 1 - q, radius + 1 - r,
{
    if q > radius {
        Seq::empty()
    } else if r > radius {
        grid_scan(inside, radius, q + 1, -radius)
    } else if inside((q, r)) {
        seq![(q, r)].add(grid_scan(inside, radius, q, r + 1))
    } else {
        grid_scan(inside, radius, q, r + 1)
    }
}

/// Lexicographic order on lattice points: first by the first coordinate.
pub open spec fn coord_lt(x: (int, int), y: (int, int)) -> bool {
    x.0 < y.0 || (x.0 == y.0 && x.1 < y.1)
}

/// `inside` keeps, in each row `q` of `[−R, R]`, exactly the interval
/// `lo(q) ..= hi(q)`, of length `2R + 1 − |q|`: the shape of a hexagon.
pub open spec fn hexagon_rows(
    inside: spec_fn((int, int)) -> bool,
    radius: int,
    lo: spec_fn(int) -> int,
    hi: spec_fn(int) -> int,
) -> bool {
    &&& radius >= 0
    &&& forall|p: (int, int)|
        #[trigger] inside(p) <==> (-radius <= p.0 <= radius && lo(p.0) <= p.1 <= hi(p.0))
    &&& forall|q: int|
        -radius <= q <= radius ==> -radius <= #[trigger] lo(q) && hi(q) <= radius && hi(q) - lo(q)
            + 1 == 2 * radius + 1 - abs_of(q)
}

/// The number of kept points of row `q` at positions `r` and beyond.
spec fn row_rest(lo: spec_fn(int) -> int, hi: spec_fn(int) -> int, q: int, r: int) -> int {
    let l = if r > lo(q) { r } else { lo(q) };
    if hi(q) >= l {
        hi(q) - l + 1
    } else {
        0
    }
}

/// `Σ (2R + 1 − |q'|)` over the rows `q' = q ..= R`.
spec fn rows_total(radius: int, q: int) -> int
    decreases radius + 1 - q,
{
    if q > radius {
        0
    } else {
        (2 * radius + 1 - abs_of(q)) + rows_total(radius, q + 1)
    }
}

proof fn lemma_row_len(
    inside: spec_fn((int, int)) -> bool,
    radius: int,
    lo: spec_fn(int) -> int,
    hi: spec_fn(int) -> int,
    q: int,
    r: int,
)
    requires
        hexagon_rows(inside, radius, lo, hi),
        -radius <= q <= radius,
        -radius <= r <= radius + 1,
    ensures
        grid_scan(inside, radius, q, r).len() == row_rest(lo, hi, q, r) + grid_scan(
            inside,
            radius,
            q + 1,
            -radius,
        ).len(),
    decreases radius + 1 - r,
{
    assert(-radius <= lo(q) && hi(q) <= radius);
    if r <= radius {
        assert(inside((q, r)) <==> lo(q) <= r <= hi(q));
        lemma_row_len(inside, radius, lo, hi, q, r + 1);
    }
}

proof fn lemma_rows_len(
    inside: spec_fn((int, int)) -> bool,
    radius: int,
    lo: spec_fn(int) -> int,
    hi: spec_fn(int) -> int,
    q: int,
)
    requires
        hexagon_rows(inside, radius, lo, hi),
        -radius <= q <= radius + 1,
    ensures
        grid_scan(inside, radius, q, -radius).len() == rows_total(radius, q),
    decreases radius + 1 - q,
{
    if q <= radius {
        assert(-radius <= lo(q) && hi(q) <= radius && hi(q) - lo(q) + 1 == 2 * radius + 1 - abs_of(q));
        lemma_row_len(inside, radius, lo, hi, q, -radius);
        lemma_rows_len(inside, radius, lo, hi, q + 1);
    }
}

proof fn lemma_rows_total_closed(radius: int, q: int)
    requires
        radius >= 0,
        -radius <= q <= radius + 1,
    ensures
        q >= 0 ==> 2 * rows_total(radius, q) == (radius - q + 1) * (3 * radius + 2 - q),
        q < 0 ==> 2 * rows_total(radius, q) == (radius + 1) * (3 * radius + 2) + (-q) * (4 * radius
            + 1 + q),
    decreases radius + 1 - q,
{
    if q <= radius {
        lemma_rows_total_closed(radius, q + 1);
        let t1 = rows_total(radius, q + 1);
        assert(rows_total(radius, q) == (2 * radius + 1 - abs_of(q)) + t1);
        if q >= 0 {
            assert(2 * t1 == (radius - (q + 1) + 1) * (3 * radius + 2 - (q + 1)));
            assert(2 * ((2 * radius + 1 - q) + t1) == (radius - q + 1) * (3 * radius + 2 - q))
                by (nonlinear_arith)
                requires
                    2 * t1 == (radius - (q + 1) + 1) * (3 * radius + 2 - (q + 1)),
            ;
        } else if q == -1 {
            assert(2 * t1 == (radius - 0 + 1) * (3 * radius + 2 - 0));
            assert((-q) * (4 * radius + 1 + q) == 4 * radius) by (nonlinear_arith)
                requires q == -1;
        } else {
            assert(2 * t1 == (radius + 1) * (3 * radius + 2) + (-(q + 1)) * (4 * radius + 1 + (q
                + 1)));
            assert(2 * ((2 * radius + 1 + q) + t1) == (radius + 1) * (3 * radius + 2) + (-q) * (4
                * radius + 1 + q)) by (nonlinear_arith)
                requires
                    2 * t1 == (radius + 1) * (3 * radius + 2) + (-(q + 1)) * (4 * radius + 1 + (q
                        + 1)),
            ;
        }
    } else {
        assert((radius - q + 1) * (3 * radius + 2 - q) == 0) by (nonlinear_arith)
            requires q == radius + 1;
    }
}

/// A hexagon-shaped scan keeps exactly `3R² + 3R + 1` points.
pub proof fn lemma_hexagon_count(
    inside: spec_fn((int, int)) -> bool,
    radius: int,
    lo: spec_fn(int) -> int,
    hi: spec_fn(int) -> int,
)
    requires
        hexagon_rows(inside, radius, lo, hi),
    ensures
        grid_scan(inside, radius, -radius, -radius).len() == 3 * radius * radius + 3 * radius + 1,
{
    lemma_rows_len(inside, radius, lo, hi, -radius);
    lemma_rows_total_closed(radius, -radius);
    assert((radius + 1) * (3 * radius + 2) + radius * (4 * radius + 1 - radius) == 2 * (3 * radius
        * radius + 3 * radius + 1)) by (nonlinear_arith);
}

pub proof fn lemma_scan_members(
    inside: spec_fn((int, int)) -> bool,
    radius: int,
    lo: spec_fn(int) -> int,
    hi: spec_fn(int) -> int,
    q: int,
    r: int,
)
    requires
        hexagon_rows(inside, radius, lo, hi),
        -radius <= q <= radius + 1,
        -radius <= r <= radius + 1,
    ensures
        forall|p: (int, int)|
            #[trigger] grid_scan(inside, radius, q, r).contains(p) <==> (inside(p) && (p.0 > q || (p.0
                == q && p.1 >= r))),
        forall|i: int, j: int|
            0 <= i < j < grid_scan(inside, radius, q, r).len() ==> coord_lt(
                #[trigger] grid_scan(inside, radius, q, r)[i],
                #[trigger] grid_scan(inside, radius, q, r)[j],
            ),
        forall|i: int|
            0 <= i < grid_scan(inside, radius, q, r).len() ==> !coord_lt(
                #[trigger] grid_scan(inside, radius, q, r)[i],
                (q, r),
            ),
    decreases radius + 1 - q, radius + 1 - r,
{
    let s = grid_scan(inside, radius, q, r);
    if q > radius {
        assert(s.len() == 0);
        assert forall|p: (int, int)| !(inside(p) && (p.0 > q || (p.0 == q && p.1 >= r))) by {
            assert(inside(p) <==> (-radius <= p.0 <= radius && lo(p.0) <= p.1 <= hi(p.0)));
            if -radius <= p.0 <= radius {
                assert(-radius <= lo(p.0) && hi(p.0) <= radius);
            }
        }
    } else if r > radius {
        lemma_scan_members(inside, radius, lo, hi, q + 1, -radius);
        assert(s == grid_scan(inside, radius, q + 1, -radius));
        assert forall|p: (int, int)|
            s.contains(p) <==> (inside(p) && (p.0 > q || (p.0 == q && p.1 >= r))) by {
            assert(inside(p) <==> (-radius <= p.0 <= radius && lo(p.0) <= p.1 <= hi(p.0)));
            if -radius <= p.0 <= radius {
                assert(-radius <= lo(p.0) && hi(p.0) <= radius);
            }
        }
    } else {
        lemma_scan_members(inside, radius, lo, hi, q, r + 1);
        let t = grid_scan(inside, radius, q, r + 1);
        if inside((q, r)) {
            assert(s == seq![(q, r)].add(t));
            assert forall|p: (int, int)|
                s.contains(p) <==> (inside(p) && (p.0 > q || (p.0 == q && p.1 >= r))) by {
                if p == (q, r) {
                    assert(s[0] == p);
                } else if t.contains(p) {
                    let k = choose|k: int| 0 <= k < t.len() && t[k] == p;
                    assert(s[k + 1] == p);
                } else if s.contains(p) {
                    let k = choose|k: int| 0 <= k < s.len() && s[k] == p;
                    assert(k > 0);
                    assert(t[k - 1] == p);
                }
            }
            assert forall|i: int, j: int| 0 <= i < j < s.len() implies coord_lt(
                #[trigger] s[i],
                #[trigger] s[j],
            ) by {
                if i > 0 {
                    assert(s[i] == t[i - 1] && s[j] == t[j - 1]);
                } else {
                    assert(s[j] == t[j - 1]);
                }
            }
            assert forall|i: int| 0 <= i < s.len() implies !coord_lt(#[trigger] s[i], (q, r)) by {
                if i > 0 {
                    assert(s[i] == t[i - 1]);
                }
            }
        } else {
            assert(s == t);
        }
    }
}

/// A hexagon-shaped scan keeps exactly the points `inside` accepts, each
/// once, in increasing coordinate order.
pub proof fn lemma_hexagon_points(
    inside: spec_fn((int, int)) -> bool,
    radius: int,
    lo: spec_fn(int) -> int,
    hi: spec_fn(int) -> int,
)
    requires
        hexagon_rows(inside, radius, lo, hi),
    ensures
        forall|p: (int, int)|
            #[trigger] grid_scan(inside, radius, -radius, -radius).contains(p) <==> inside(p),
        forall|i: int, j: int|
            0 <= i < j < grid_scan(inside, radius, -radius, -radius).len() ==> coord_lt(
                #[trigger] grid_scan(inside, radius, -radius, -radius)[i],
                #[trigger] grid_scan(inside, radius, -radius, -radius)[j],
            ),
{
    lemma_scan_members(inside, radius, lo, hi, -radius, -radius);
    assert forall|p: (int, int)| inside(p) implies (p.0 > -radius || (p.0 == -radius && p.1
        >= -radius)) by {
        assert(-radius <= lo(p.0));
    }
}

} // verus!

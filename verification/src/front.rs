//! The front of a spreading region: the lattice unit nearest the
//! displacement between the centroids of two frames, in exact integers.

use vstd::prelude::*;

use crate::e12::{norm_of, sub_of, unit_of};
use crate::room_map::{hex_directions, in_i128, pt};

verus! {

/// `Σ a` over the coordinates of a frame.
pub open spec fn sum_a(s: Seq<(i64, i64)>) -> int
    decreases s.len(),
{
    if s.len() == 0 {
        0
    } else {
        sum_a(s.drop_last()) + s.last().0
    }
}

/// `Σ b` over the coordinates of a frame.
pub open spec fn sum_b(s: Seq<(i64, i64)>) -> int
    decreases s.len(),
{
    if s.len() == 0 {
        0
    } else {
        sum_b(s.drop_last()) + s.last().1
    }
}

/// The displacement `D = S_curr·n_prev − S_prev·n_curr`, parallel to the
/// difference of the two centroids.
pub open spec fn displacement(prev: Seq<(i64, i64)>, curr: Seq<(i64, i64)>) -> (int, int) {
    (
        sum_a(curr) * prev.len() - sum_a(prev) * curr.len(),
        sum_b(curr) * prev.len() - sum_b(prev) * curr.len(),
    )
}

/// Every intermediate of the displacement fits in `i128`.
pub open spec fn displacement_fits(prev: Seq<(i64, i64)>, curr: Seq<(i64, i64)>) -> bool {
    &&& in_i128(sum_a(curr) * prev.len())
    &&& in_i128(sum_a(prev) * curr.len())
    &&& in_i128(sum_a(curr) * prev.len() - sum_a(prev) * curr.len())
    &&& in_i128(sum_b(curr) * prev.len())
    &&& in_i128(sum_b(prev) * curr.len())
    &&& in_i128(sum_b(curr) * prev.len() - sum_b(prev) * curr.len())
}

/// `2·Re(D·conj(u))` for `D = (x, y)`, `u = (a, b)`: `2xa − xb − ya + 2yb`.
pub open spec fn alignment(d: (int, int), u: (int, int)) -> int {
    d.0 * (2 * u.0) - d.0 * u.1 - d.1 * u.0 + d.1 * (2 * u.1)
}

/// Every intermediate of the alignment with `u` fits in `i128`.
pub open spec fn alignment_fits(d: (int, int), u: (int, int)) -> bool {
    &&& in_i128(d.0 * (2 * u.0))
    &&& in_i128(d.0 * u.1)
    &&& in_i128(d.0 * (2 * u.0) - d.0 * u.1)
    &&& in_i128(d.1 * u.0)
    &&& in_i128(d.0 * (2 * u.0) - d.0 * u.1 - d.1 * u.0)
    &&& in_i128(d.1 * (2 * u.1))
    &&& in_i128(alignment(d, u))
}

/// Unit `k` is the first of the six units with the greatest alignment with `d`.
pub open spec fn is_front(d: (int, int), k: int) -> bool {
    &&& 0 <= k < 6
    &&& forall|j: int| 0 <= j < k ==> #[trigger] alignment(d, unit_of(j)) < alignment(d, unit_of(k))
    &&& forall|j: int| k < j < 6 ==> #[trigger] alignment(d, unit_of(j)) <= alignment(d, unit_of(k))
}

proof fn lemma_sum_bounds(s: Seq<(i64, i64)>)
    ensures
        -s.len() * 0x8000_0000_0000_0000 <= sum_a(s) <= s.len() * 0x7fff_ffff_ffff_ffff,
        -s.len() * 0x8000_0000_0000_0000 <= sum_b(s) <= s.len() * 0x7fff_ffff_ffff_ffff,
    decreases s.len(),
{
    if s.len() > 0 {
        lemma_sum_bounds(s.drop_last());
    }
}

/// Sum the coordinates of a frame; the partial sums always fit in `i128`.
fn frame_sums(s: &[(i64, i64)]) -> (r: (i128, i128))
    ensures
        r.0 == sum_a(s@),
        r.1 == sum_b(s@),
{
    let mut sa: i128 = 0;
    let mut sb: i128 = 0;
    let mut i: usize = 0;
    while i < s.len()
        invariant
            0 <= i <= s.len(),
            sa == sum_a(s@.take(i as int)),
            sb == sum_b(s@.take(i as int)),
        decreases s.len() - i,
    {
        proof {
            assert(s@.take(i + 1).drop_last() == s@.take(i as int));
            lemma_sum_bounds(s@.take(i + 1));
            assert(i + 1 <= usize::MAX);
            assert((i + 1) * 0x8000_0000_0000_0000 <= 0x1_0000_0000_0000_0000 * 0x8000_0000_0000_0000)
                by (nonlinear_arith)
                requires i + 1 <= 0xffff_ffff_ffff_ffff;
        }
        let (a, b) = s[i];
        sa = sa + a as i128;
        sb = sb + b as i128;
        i = i + 1;
    }
    assert(s@.take(s.len() as int) == s@);
    (sa, sb)
}

fn alignment_exec(dx: i128, dy: i128, a: i128, b: i128) -> (r: Option<i128>)
    requires
        -1 <= a <= 1,
        -1 <= b <= 1,
    ensures
        r is Some <==> alignment_fits((dx as int, dy as int), (a as int, b as int)),
        r matches Some(v) ==> v == alignment((dx as int, dy as int), (a as int, b as int)),
{
    let t1 = match dx.checked_mul(a * 2) {
        Some(v) => v,
        None => return None,
    };
    let t2 = match dx.checked_mul(b) {
        Some(v) => v,
        None => return None,
    };
    let t3 = match t1.checked_sub(t2) {
        Some(v) => v,
        None => return None,
    };
    let t4 = match dy.checked_mul(a) {
        Some(v) => v,
        None => return None,
    };
    let t5 = match t3.checked_sub(t4) {
        Some(v) => v,
        None => return None,
    };
    let t6 = match dy.checked_mul(b * 2) {
        Some(v) => v,
        None => return None,
    };
    t5.checked_add(t6)
}

/// The alignments of `d` with a unit and with its negative sum to zero, so
/// the greatest alignment over the six units is never negative.
proof fn lemma_max_alignment_nonneg(d: (int, int))
    ensures
        exists|k: int| 0 <= k < 6 && alignment(d, #[trigger] unit_of(k)) >= 0,
{
    let (x, y) = d;
    assert(unit_of(0) == (1int, 0int));
    assert(unit_of(3) == (-1int, 0int));
    assert(x * (2 * 1) - x * 0 - y * 1 + y * (2 * 0) == 2 * x - y) by (nonlinear_arith);
    assert(x * (2 * -1) - x * 0 - y * -1 + y * (2 * 0) == -2 * x + y) by (nonlinear_arith);
    assert(alignment(d, unit_of(0)) == 2 * x - y);
    assert(alignment(d, unit_of(3)) == -2 * x + y);
    if alignment(d, unit_of(0)) >= 0 {
        assert(alignment(d, unit_of(0)) >= 0);
    } else {
        assert(alignment(d, unit_of(3)) >= 0);
    }
}

/// Two frames have a front: both are nonempty, the displacement between
/// them is nonzero, and every intermediate value fits in `i128`.
pub open spec fn front_defined(prev: Seq<(i64, i64)>, curr: Seq<(i64, i64)>) -> bool {
    &&& prev.len() > 0
    &&& curr.len() > 0
    &&& displacement_fits(prev, curr)
    &&& displacement(prev, curr) != (0int, 0int)
    &&& forall|k: int| 0 <= k < 6 ==> alignment_fits(displacement(prev, curr), #[trigger] unit_of(k))
}

/// `u` is the front from `prev` to `curr`: the first of the six units best
/// aligned with the displacement.
pub open spec fn is_front_unit(prev: Seq<(i64, i64)>, curr: Seq<(i64, i64)>, u: (i64, i64)) -> bool {
    exists|k: int| is_front(displacement(prev, curr), k) && pt(u) == #[trigger] unit_of(k)
}

/// The front of a spreading fight — the D₆ direction a region moved along
/// between two frames: the unit `u ∈ {±1, ±ω, ±ω²}` maximizing
/// `2·Re(D·conj(u))` for the displacement `D` between the frames' centroids
/// (ties break to the first unit in `hex_directions` order). `None` when a
/// frame is empty, when the displacement is zero, or when an intermediate
/// value overflows `i128`.
pub fn front_direction(previous: &[(i64, i64)], current: &[(i64, i64)]) -> (r: Option<(i64, i64)>)
    ensures
        r is Some <==> front_defined(previous@, current@),
        r matches Some(u) ==> is_front_unit(previous@, current@, u),
{
    if previous.len() == 0 || current.len() == 0 {
        return None;
    }
    let (pa, pb) = frame_sums(previous);
    let (ca, cb) = frame_sums(current);
    let np = previous.len() as i128;
    let nc = current.len() as i128;
    let x1 = match ca.checked_mul(np) {
        Some(v) => v,
        None => return None,
    };
    let x2 = match pa.checked_mul(nc) {
        Some(v) => v,
        None => return None,
    };
    let dx = match x1.checked_sub(x2) {
        Some(v) => v,
        None => return None,
    };
    let y1 = match cb.checked_mul(np) {
        Some(v) => v,
        None => return None,
    };
    let y2 = match pb.checked_mul(nc) {
        Some(v) => v,
        None => return None,
    };
    let dy = match y1.checked_sub(y2) {
        Some(v) => v,
        None => return None,
    };
    if dx == 0 && dy == 0 {
        return None;
    }
    let ghost d = (dx as int, dy as int);
    assert(d == displacement(previous@, current@));
    let dirs = hex_directions();
    let mut best: Option<usize> = None;
    let mut best_align: i128 = i128::MIN;
    let mut i: usize = 0;
    while i < 6
        invariant
            0 <= i <= 6,
            d == (dx as int, dy as int),
            d == displacement(previous@, current@),
            d != (0int, 0int),
            previous@.len() > 0,
            current@.len() > 0,
            displacement_fits(previous@, current@),
            forall|k: int| 0 <= k < 6 ==> #[trigger] pt(dirs[k]) == unit_of(k),
            forall|k: int| 0 <= k < i ==> alignment_fits(d, #[trigger] unit_of(k)),
            best is None ==> best_align == i128::MIN && forall|k: int|
                0 <= k < i ==> #[trigger] alignment(d, unit_of(k)) == i128::MIN,
            best matches Some(b) ==> {
                &&& b < i
                &&& best_align == alignment(d, unit_of(b as int))
                &&& forall|k: int|
                    0 <= k < b ==> #[trigger] alignment(d, unit_of(k)) < best_align
                &&& forall|k: int|
                    b < k < i ==> #[trigger] alignment(d, unit_of(k)) <= best_align
            },
        decreases 6 - i,
    {
        let (a, b) = dirs[i];
        assert(pt(dirs[i as int]) == unit_of(i as int));
        assert((a as i128 as int, b as i128 as int) == unit_of(i as int));
        assert(-1 <= a <= 1 && -1 <= b <= 1);
        let align = match alignment_exec(dx, dy, a as i128, b as i128) {
            Some(v) => v,
            None => {
                assert(!alignment_fits(d, unit_of(i as int)));
                return None;
            },
        };
        if align > best_align {
            best_align = align;
            best = Some(i);
        }
        i = i + 1;
    }
    proof {
        lemma_max_alignment_nonneg(d);
    }
    match best {
        Some(k) => {
            assert(is_front(d, k as int));
            Some(dirs[k])
        },
        None => None,
    }
}

/// A first frame has no front (there is no earlier region to move
/// against), and neither has a region that stands where it stood.
pub proof fn law_no_front_without_movement(s: Seq<(i64, i64)>)
    ensures
        !front_defined(Seq::empty(), s),
        !front_defined(s, s),
{
    let d = displacement(s, s);
    assert(sum_a(s) * s.len() - sum_a(s) * s.len() == 0);
    assert(sum_b(s) * s.len() - sum_b(s) * s.len() == 0);
    assert(d == (0int, 0int));
}

/// Removing one coordinate from a frame removes it from the sums.
proof fn lemma_sums_remove(s: Seq<(i64, i64)>, j: int)
    requires
        0 <= j < s.len(),
    ensures
        sum_a(s) == sum_a(s.remove(j)) + s[j].0,
        sum_b(s) == sum_b(s.remove(j)) + s[j].1,
    decreases s.len(),
{
    if j < s.len() - 1 {
        lemma_sums_remove(s.drop_last(), j);
        assert(s.remove(j).drop_last() =~= s.drop_last().remove(j));
        assert(s.remove(j).last() == s.last());
    } else {
        assert(s.remove(j) =~= s.drop_last());
    }
}

/// Frames holding the same coordinates (in any order) have the same sums.
proof fn lemma_sums_permutation(s1: Seq<(i64, i64)>, s2: Seq<(i64, i64)>)
    requires
        s1.to_multiset() == s2.to_multiset(),
    ensures
        s1.len() == s2.len(),
        sum_a(s1) == sum_a(s2),
        sum_b(s1) == sum_b(s2),
    decreases s1.len(),
{
    broadcast use vstd::seq_lib::to_multiset_len, vstd::seq_lib::to_multiset_contains,
        vstd::seq_lib::to_multiset_build, vstd::seq_lib::to_multiset_remove;

    assert(s1.len() == s1.to_multiset().len());
    assert(s2.len() == s2.to_multiset().len());
    if s1.len() > 0 {
        let x = s1.last();
        let t1 = s1.drop_last();
        assert(s1 =~= t1.push(x));
        assert(s1.to_multiset() =~= t1.to_multiset().insert(x));
        assert(s2.to_multiset().count(x) > 0);
        assert(s2.contains(x));
        let j = choose|j: int| 0 <= j < s2.len() && s2[j] == x;
        let t2 = s2.remove(j);
        assert(t2.to_multiset() == s2.to_multiset().remove(x));
        assert(t1.to_multiset() =~= t2.to_multiset());
        lemma_sums_permutation(t1, t2);
        lemma_sums_remove(s2, j);
    }
}

/// The front does not depend on the order in which either frame lists its
/// coordinates.
pub proof fn law_front_ignores_order(
    p: Seq<(i64, i64)>,
    c: Seq<(i64, i64)>,
    p2: Seq<(i64, i64)>,
    c2: Seq<(i64, i64)>,
    u: (i64, i64),
)
    requires
        p2.to_multiset() == p.to_multiset(),
        c2.to_multiset() == c.to_multiset(),
    ensures
        displacement(p2, c2) == displacement(p, c),
        front_defined(p2, c2) == front_defined(p, c),
        is_front_unit(p2, c2, u) == is_front_unit(p, c, u),
{
    lemma_sums_permutation(p2, p);
    lemma_sums_permutation(c2, c);
}

/// `s2` is `s` moved by the offset `t`.
pub open spec fn is_shift(s: Seq<(i64, i64)>, s2: Seq<(i64, i64)>, t: (int, int)) -> bool {
    &&& s2.len() == s.len()
    &&& forall|i: int| 0 <= i < s.len() ==> #[trigger] s2[i].0 == s[i].0 + t.0 && s2[i].1 == s[i].1 + t.1
}

/// Moving a frame by `t` moves its sums by `n·t`.
proof fn lemma_sums_shift(s: Seq<(i64, i64)>, s2: Seq<(i64, i64)>, t: (int, int))
    requires
        is_shift(s, s2, t),
    ensures
        sum_a(s2) == sum_a(s) + s.len() * t.0,
        sum_b(s2) == sum_b(s) + s.len() * t.1,
    decreases s.len(),
{
    if s.len() > 0 {
        let n = s.len() - 1;
        assert(is_shift(s.drop_last(), s2.drop_last(), t)) by {
            assert forall|i: int| 0 <= i < n implies #[trigger] s2.drop_last()[i].0 == s.drop_last()[i].0
                + t.0 && s2.drop_last()[i].1 == s.drop_last()[i].1 + t.1 by {
                assert(s2[i].0 == s[i].0 + t.0);
            }
        }
        lemma_sums_shift(s.drop_last(), s2.drop_last(), t);
        assert(s2[n].0 == s[n].0 + t.0);
        assert(n * t.0 + t.0 == (n + 1) * t.0) by (nonlinear_arith);
        assert(n * t.1 + t.1 == (n + 1) * t.1) by (nonlinear_arith);
    }
}

/// The front does not change when both frames are moved by the same offset:
/// the displacement, and with it the front unit, is the same.
pub proof fn law_front_ignores_translation(
    p: Seq<(i64, i64)>,
    c: Seq<(i64, i64)>,
    p2: Seq<(i64, i64)>,
    c2: Seq<(i64, i64)>,
    t: (int, int),
    u: (i64, i64),
)
    requires
        is_shift(p, p2, t),
        is_shift(c, c2, t),
    ensures
        displacement(p2, c2) == displacement(p, c),
        is_front_unit(p2, c2, u) == is_front_unit(p, c, u),
{
    lemma_sums_shift(p, p2, t);
    lemma_sums_shift(c, c2, t);
    let np = p.len() as int;
    let nc = c.len() as int;
    assert((sum_a(c) + nc * t.0) * np - (sum_a(p) + np * t.0) * nc == sum_a(c) * np - sum_a(p) * nc)
        by (nonlinear_arith);
    assert((sum_b(c) + nc * t.1) * np - (sum_b(p) + np * t.1) * nc == sum_b(c) * np - sum_b(p) * nc)
        by (nonlinear_arith);
}

/// For a unit `u`, the squared distance from `d` to `u` is `N(d) + 1`
/// minus the alignment of `d` with `u`.
proof fn lemma_distance_to_unit(d: (int, int), k: int)
    requires
        0 <= k < 6,
    ensures
        norm_of(sub_of(d, unit_of(k))) == norm_of(d) + 1 - alignment(d, unit_of(k)),
{
    let (x, y) = d;
    let (a, b) = unit_of(k);
    assert(norm_of(unit_of(k)) == 1) by {
        if k == 0 {
            assert(unit_of(k) == (1int, 0int));
        } else if k == 1 {
            assert(unit_of(k) == (0int, 1int));
        } else if k == 2 {
            assert(unit_of(k) == (1int, 1int));
        } else if k == 3 {
            assert(unit_of(k) == (-1int, 0int));
        } else if k == 4 {
            assert(unit_of(k) == (0int, -1int));
        } else {
            assert(unit_of(k) == (-1int, -1int));
        }
    }
    assert((x - a) * (x - a) - (x - a) * (y - b) + (y - b) * (y - b) == (x * x - x * y + y * y) + (a
        * a - a * b + b * b) - (x * (2 * a) - x * b - y * a + y * (2 * b))) by (nonlinear_arith);
}

/// The front is the unit nearest the displacement: no unit lies closer to
/// `D` in the Euclidean (Eisenstein-norm) distance of the hex plane, and a
/// unit just as close comes no earlier in `hex_directions` order.
pub proof fn law_front_is_nearest_unit(
    prev: Seq<(i64, i64)>,
    curr: Seq<(i64, i64)>,
    u: (i64, i64),
    k: int,
)
    requires
        is_front_unit(prev, curr, u),
        0 <= k < 6,
    ensures
        norm_of(sub_of(displacement(prev, curr), pt(u))) <= norm_of(
            sub_of(displacement(prev, curr), unit_of(k)),
        ),
        norm_of(sub_of(displacement(prev, curr), pt(u))) == norm_of(
            sub_of(displacement(prev, curr), unit_of(k)),
        ) ==> exists|j: int| 0 <= j <= k && pt(u) == #[trigger] unit_of(j),
{
    let d = displacement(prev, curr);
    let f = choose|f: int| is_front(d, f) && pt(u) == #[trigger] unit_of(f);
    lemma_distance_to_unit(d, f);
    lemma_distance_to_unit(d, k);
    if k < f {
        assert(alignment(d, unit_of(k)) < alignment(d, unit_of(f)));
    } else if k > f {
        assert(alignment(d, unit_of(k)) <= alignment(d, unit_of(f)));
    }
    assert(pt(u) == unit_of(f));
}

/// The sums of two frames listed one after the other add up.
proof fn lemma_sums_concat(s: Seq<(i64, i64)>, t: Seq<(i64, i64)>)
    ensures
        sum_a(s + t) == sum_a(s) + sum_a(t),
        sum_b(s + t) == sum_b(s) + sum_b(t),
    decreases t.len(),
{
    if t.len() == 0 {
        assert(s + t =~= s);
    } else {
        lemma_sums_concat(s, t.drop_last());
        assert((s + t).drop_last() =~= s + t.drop_last());
        assert((s + t).last() == t.last());
    }
}

/// Scaling the displacement by a positive factor keeps the front.
proof fn lemma_front_scale(d: (int, int), m: int, k: int)
    requires
        m > 0,
    ensures
        is_front((m * d.0, m * d.1), k) == is_front(d, k),
{
    let d2 = (m * d.0, m * d.1);
    assert forall|j: int| 0 <= j < 6 implies #[trigger] alignment(d2, unit_of(j)) == m * alignment(
        d,
        unit_of(j),
    ) by {
        let (a, b) = unit_of(j);
        let (x, y) = d;
        assert((m * x) * (2 * a) - (m * x) * b - (m * y) * a + (m * y) * (2 * b) == m * (x * (2 * a)
            - x * b - y * a + y * (2 * b))) by (nonlinear_arith);
    }
    assert forall|i: int, j: int| 0 <= i < 6 && 0 <= j < 6 implies ((alignment(d2, unit_of(i))
        < alignment(d2, unit_of(j))) == (alignment(d, unit_of(i)) < alignment(d, unit_of(j))) && (
    alignment(d2, unit_of(i)) <= alignment(d2, unit_of(j))) == (alignment(d, unit_of(i))
        <= alignment(d, unit_of(j)))) by {
        let p = alignment(d, unit_of(i));
        let q = alignment(d, unit_of(j));
        assert(alignment(d2, unit_of(i)) == m * p);
        assert(alignment(d2, unit_of(j)) == m * q);
        assert((m * p < m * q) == (p < q) && (m * p <= m * q) == (p <= q)) by (nonlinear_arith)
            requires
                m > 0,
        ;
    }
    if 0 <= k < 6 {
        if is_front(d, k) {
            assert forall|j: int| 0 <= j < k implies #[trigger] alignment(d2, unit_of(j)) < alignment(
                d2,
                unit_of(k),
            ) by {
                assert(alignment(d, unit_of(j)) < alignment(d, unit_of(k)));
            }
            assert forall|j: int| k < j < 6 implies #[trigger] alignment(d2, unit_of(j)) <= alignment(
                d2,
                unit_of(k),
            ) by {
                assert(alignment(d, unit_of(j)) <= alignment(d, unit_of(k)));
            }
        }
        if is_front(d2, k) {
            assert forall|j: int| 0 <= j < k implies #[trigger] alignment(d, unit_of(j)) < alignment(
                d,
                unit_of(k),
            ) by {
                assert(alignment(d2, unit_of(j)) < alignment(d2, unit_of(k)));
            }
            assert forall|j: int| k < j < 6 implies #[trigger] alignment(d, unit_of(j)) <= alignment(
                d,
                unit_of(k),
            ) by {
                assert(alignment(d2, unit_of(j)) <= alignment(d2, unit_of(k)));
            }
        }
    }
}

/// The front depends only on where the two frames' centroids lie: a frame
/// that lists each of its coordinates twice has the same centroid, and the
/// same front.
pub proof fn law_front_depends_on_centroids(p: Seq<(i64, i64)>, c: Seq<(i64, i64)>, u: (i64, i64))
    ensures
        is_front_unit(p + p, c, u) == is_front_unit(p, c, u),
        is_front_unit(p, c + c, u) == is_front_unit(p, c, u),
{
    lemma_sums_concat(p, p);
    lemma_sums_concat(c, c);
    let d = displacement(p, c);
    let np = p.len() as int;
    let nc = c.len() as int;
    assert(sum_a(c) * (2 * np) - (2 * sum_a(p)) * nc == 2 * (sum_a(c) * np - sum_a(p) * nc))
        by (nonlinear_arith);
    assert(sum_b(c) * (2 * np) - (2 * sum_b(p)) * nc == 2 * (sum_b(c) * np - sum_b(p) * nc))
        by (nonlinear_arith);
    assert((2 * sum_a(c)) * np - sum_a(p) * (2 * nc) == 2 * (sum_a(c) * np - sum_a(p) * nc))
        by (nonlinear_arith);
    assert((2 * sum_b(c)) * np - sum_b(p) * (2 * nc) == 2 * (sum_b(c) * np - sum_b(p) * nc))
        by (nonlinear_arith);
    assert(displacement(p + p, c) == (2 * d.0, 2 * d.1));
    assert(displacement(p, c + c) == (2 * d.0, 2 * d.1));
    assert forall|k: int| #[trigger] is_front((2 * d.0, 2 * d.1), k) == is_front(d, k) by {
        lemma_front_scale(d, 2, k);
    }
}

} // verus!

//! Hexagonal disks of the lattice, measured with the axial hex distance
//! `(|a| + |b| + |a + b|) / 2`, and their enumeration.

use vstd::prelude::*;

use crate::e12::{abs_of, axial_dist_of, neg_of, sub_of, E12};
use crate::grid::{coord_lt, grid_scan, hexagon_rows, lemma_hexagon_count, lemma_hexagon_points};

verus! {

/// `3R² + 3R + 1`, the number of lattice points in a hex disk of radius `R`.
pub open spec fn disk_count_of(radius: int) -> int {
    3 * radius * radius + 3 * radius + 1
}

/// Whether `p` lies in the disk of radius `radius` about the origin.
pub open spec fn in_disk(radius: int, p: (int, int)) -> bool {
    axial_dist_of(p) <= radius
}

/// The points of the disk of radius `radius`, in the order the disk is walked:
/// row by row (`q` from `−R` to `R`), and within a row by `r` from `−R` to `R`,
/// starting at grid position `(q, r)`.
pub open spec fn disk_seq_from(radius: int, q: int, r: int) -> Seq<(int, int)> {
    grid_scan(disk_inside(radius), radius, q, r)
}

/// Membership in the disk of radius `radius`, as a predicate.
pub open spec fn disk_inside(radius: int) -> spec_fn((int, int)) -> bool {
    |p: (int, int)| in_disk(radius, p)
}

/// Every point of the disk of radius `radius`, in walking order.
pub open spec fn disk_points(radius: int) -> Seq<(int, int)> {
    disk_seq_from(radius, -radius, -radius)
}

/// Hex disk of radius R — contains 3R² + 3R + 1 points.
#[derive(Clone, Copy, Debug)]
pub struct HexDisk {
    radius: u32,
}

impl View for HexDisk {
    type V = int;

    /// The radius.
    closed spec fn view(&self) -> int {
        self.radius as int
    }
}

/// Iterator over all points in a hex disk.
pub struct HexDiskIter {
    disk: HexDisk,
    q: i32,
    r: i32,
    r_min: i32,
    r_max: i32,
    done: bool,
}

impl HexDiskIter {
    /// The state invariant of the walk.
    pub closed spec fn wf(&self) -> bool {
        let radius = self.disk.radius as int;
        &&& radius < i32::MAX
        &&& self.r_min == -radius
        &&& self.r_max == radius
        &&& -radius <= self.q <= radius + 1
        &&& -radius <= self.r <= radius + 1
    }

    /// The radius of the disk being walked.
    pub closed spec fn radius_of(&self) -> int {
        self.disk.radius as int
    }

    /// The points the walk has still to yield, in order.
    pub closed spec fn remaining(&self) -> Seq<(int, int)> {
        if self.done {
            Seq::empty()
        } else {
            disk_seq_from(self.disk.radius as int, self.q as int, self.r as int)
        }
    }

    fn new(disk: HexDisk) -> (it: HexDiskIter)
        requires
            disk@ < i32::MAX,
        ensures
            it.wf(),
            it.radius_of() == disk@,
            it.remaining() == disk_points(disk@),
    {
        let r_max = disk.radius as i32;
        let r_min = -(disk.radius as i32);
        let q_start = -(disk.radius as i32);
        HexDiskIter { disk, q: q_start, r: r_min, r_min, r_max, done: false }
    }

    /// The next point of the disk, in walking order.
    pub fn next(&mut self) -> (p: Option<E12>)
        requires
            old(self).wf(),
        ensures
            final(self).wf(),
            final(self).radius_of() == old(self).radius_of(),
            old(self).remaining().len() == 0 ==> p is None && final(self).remaining().len() == 0,
            old(self).remaining().len() > 0 ==> {
                &&& p is Some
                &&& p->0@ == old(self).remaining()[0]
                &&& final(self).remaining() == old(self).remaining().drop_first()
            },
    {
        if self.done {
            return None;
        }
        let ghost rest = self.remaining();
        let ghost radius = self.disk.radius as int;
        loop
            invariant
                self.wf(),
                !self.done,
                radius == self.disk.radius,
                radius == old(self).radius_of(),
                rest == self.remaining(),
                rest == old(self).remaining(),
            decreases radius + 1 - self.q, radius + 2 - self.r,
        {
            if self.r > self.r_max {
                assert(disk_seq_from(radius, self.q as int, self.r as int) == disk_seq_from(
                    radius,
                    self.q + 1,
                    -radius,
                ));
                if self.q >= self.r_max {
                    self.done = true;
                    return None;
                }
                self.q = self.q + 1;
                self.r = self.r_min;
            }
            let ghost q0 = self.q as int;
            let ghost r0 = self.r as int;
            assert(rest == disk_seq_from(radius, q0, r0));
            let p = E12::new(self.q, self.r);
            self.r = self.r + 1;
            if self.disk.contains(&p) {
                assert(rest == seq![p@].add(disk_seq_from(radius, q0, r0 + 1)));
                assert(seq![p@].add(self.remaining()).drop_first() == self.remaining());
                return Some(p);
            }
            assert(rest == disk_seq_from(radius, q0, r0 + 1));
        }
    }
}

impl HexDisk {
    /// Create a hex disk with the given radius.
    pub fn radius(radius: u32) -> (d: HexDisk)
        ensures
            d@ == radius,
    {
        HexDisk { radius }
    }

    /// Check if a point is inside this disk: its axial hex distance from the
    /// origin, `(|a| + |b| + |a + b|) / 2`, is at most the radius.
    pub fn contains(&self, p: &E12) -> (r: bool)
        ensures
            r == in_disk(self@, p@),
    {
        let d = p.hex_distance_to(E12::new(0, 0));
        assert(sub_of(p@, (0int, 0int)) == p@);
        d <= self.radius as u64
    }

    /// Number of points: `3R² + 3R + 1`.
    pub fn count(&self) -> (n: u64)
        requires
            disk_count_of(self@) <= u64::MAX,
        ensures
            n == disk_count_of(self@),
    {
        let r = self.radius as u64;
        assert(0 <= 3 * r * r <= u64::MAX) by (nonlinear_arith)
            requires 3 * r * r + 3 * r + 1 <= u64::MAX, r >= 0;
        3 * r * r + 3 * r + 1
    }

    /// Iterate over all points in the disk.
    pub fn iter(&self) -> (it: HexDiskIter)
        requires
            self@ < i32::MAX,
        ensures
            it.wf(),
            it.radius_of() == self@,
            it.remaining() == disk_points(self@),
    {
        HexDiskIter::new(*self)
    }
}

/// In row `q` the disk starts at this position.
pub open spec fn disk_row_lo(radius: int) -> spec_fn(int) -> int {
    |q: int| if q >= 0 { -radius } else { -radius - q }
}

/// In row `q` the disk ends at this position.
pub open spec fn disk_row_hi(radius: int) -> spec_fn(int) -> int {
    |q: int| if q >= 0 { radius - q } else { radius }
}

proof fn lemma_disk_hexagon(radius: int)
    requires
        radius >= 0,
    ensures
        hexagon_rows(disk_inside(radius), radius, disk_row_lo(radius), disk_row_hi(radius)),
{
    assert forall|p: (int, int)|
        #[trigger] disk_inside(radius)(p) <==> (-radius <= p.0 <= radius && disk_row_lo(radius)(p.0)
            <= p.1 <= disk_row_hi(radius)(p.0)) by {
        let a = abs_of(p.0) + abs_of(p.1) + abs_of(p.0 + p.1);
        assert(a % 2 == 0);
        assert(2 * axial_dist_of(p) == a);
    }
}

/// A hex disk of radius `R` holds exactly `3R² + 3R + 1` points, and the walk
/// yields that many.
pub proof fn law_disk_count(radius: int)
    requires
        radius >= 0,
    ensures
        disk_points(radius).len() == disk_count_of(radius),
{
    lemma_disk_hexagon(radius);
    lemma_hexagon_count(disk_inside(radius), radius, disk_row_lo(radius), disk_row_hi(radius));
}

/// The walk of a disk yields exactly the points of the disk, each once, in
/// increasing coordinate order.
pub proof fn law_disk_points(radius: int)
    requires
        radius >= 0,
    ensures
        forall|p: (int, int)| disk_points(radius).contains(p) <==> in_disk(radius, p),
        forall|i: int, j: int|
            0 <= i < j < disk_points(radius).len() ==> coord_lt(
                #[trigger] disk_points(radius)[i],
                #[trigger] disk_points(radius)[j],
            ),
{
    lemma_disk_hexagon(radius);
    lemma_hexagon_points(disk_inside(radius), radius, disk_row_lo(radius), disk_row_hi(radius));
}

/// A disk is symmetric under negation (the 180° rotation), and disks are
/// nested: a point of a smaller disk lies in every larger one.
pub proof fn law_disk_symmetry_nesting(r1: int, r2: int, p: (int, int))
    ensures
        in_disk(r1, p) ==> in_disk(r1, neg_of(p)),
        r1 <= r2 && in_disk(r1, p) ==> in_disk(r2, p),
{
}

} // verus!

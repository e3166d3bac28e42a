//! A room map placed on the Eisenstein lattice: rooms at hex coordinates,
//! the true hex distance (the minimal number of unit steps), hex disks,
//! breadth-first paths through occupied rooms, and the region and front of
//! a spreading disturbance.

use vstd::prelude::*;

use std::collections::{BTreeMap, BTreeSet};

use crate::e12::{abs_of, in_i32, unit_of, E12};
use crate::grid::{coord_lt, grid_scan, hexagon_rows, lemma_hexagon_count, lemma_hexagon_points};
use crate::front::{front_defined, front_direction, is_front_unit, law_no_front_without_movement};
use crate::order::sorted_keys;
use crate::walk::{component, connected, is_first_largest_component, is_first_shortest_walk, largest_component, shortest_path};

verus! {

/// Whether an integer fits in an `i64`.
pub open spec fn in_i64(x: int) -> bool {
    i64::MIN <= x <= i64::MAX
}

/// Whether an integer fits in an `i128`.
pub open spec fn in_i128(x: int) -> bool {
    i128::MIN <= x <= i128::MAX
}

pub open spec fn iabs(x: int) -> int {
    if x < 0 {
        -x
    } else {
        x
    }
}

pub open spec fn max3(x: int, y: int, z: int) -> int {
    if x >= y && x >= z {
        x
    } else if y >= z {
        y
    } else {
        z
    }
}

/// A coordinate pair as mathematical integers.
pub open spec fn pt(p: (i64, i64)) -> (int, int) {
    (p.0 as int, p.1 as int)
}

/// The hex (lattice) distance of the difference `d = (Δa, Δb)`:
/// `max(|Δa|, |Δb|, |Δa − Δb|)`, the minimal number of unit steps.
pub open spec fn hex_metric(d: (int, int)) -> int {
    max3(iabs(d.0), iabs(d.1), iabs(d.0 - d.1))
}

/// The differences `hex_distance` forms all fit in `i64`.
pub open spec fn hex_distance_defined(a: (i64, i64), b: (i64, i64)) -> bool {
    &&& in_i64(a.0 - b.0)
    &&& in_i64(a.1 - b.1)
    &&& in_i64((a.0 - b.0) - (a.1 - b.1))
}

/// The Eisenstein norm of `a − b`.
pub open spec fn norm_diff(a: (i64, i64), b: (i64, i64)) -> int {
    let da = a.0 - b.0;
    let db = a.1 - b.1;
    da * da - da * db + db * db
}

/// The six D₆ unit directions of the Eisenstein lattice, as i64 coordinates:
/// `1, ω, −ω², −1, −ω, ω²`, in the order of `E12::directions`.
pub fn hex_directions() -> (r: [(i64, i64); 6])
    ensures
        forall|i: int| 0 <= i < 6 ==> #[trigger] pt(r[i]) == unit_of(i),
{
    let dirs = E12::directions();
    [
        (dirs[0].a() as i64, dirs[0].b() as i64),
        (dirs[1].a() as i64, dirs[1].b() as i64),
        (dirs[2].a() as i64, dirs[2].b() as i64),
        (dirs[3].a() as i64, dirs[3].b() as i64),
        (dirs[4].a() as i64, dirs[4].b() as i64),
        (dirs[5].a() as i64, dirs[5].b() as i64),
    ]
}

fn abs_u64(x: i64) -> (r: u64)
    ensures
        r == iabs(x as int),
{
    if x < 0 {
        (-(x as i128)) as u64
    } else {
        x as u64
    }
}

/// True hex distance on the Eisenstein lattice: the minimal number of unit
/// steps between two cells, `max(|Δa|, |Δb|, |Δa − Δb|)`. `None` exactly when
/// one of the differences overflows `i64`.
pub fn hex_distance(a: (i64, i64), b: (i64, i64)) -> (r: Option<u64>)
    ensures
        r is Some <==> hex_distance_defined(a, b),
        r matches Some(d) ==> d == hex_metric((a.0 - b.0, a.1 - b.1)),
{
    let da = match a.0.checked_sub(b.0) {
        Some(v) => v,
        None => return None,
    };
    let db = match a.1.checked_sub(b.1) {
        Some(v) => v,
        None => return None,
    };
    let ds = match da.checked_sub(db) {
        Some(v) => v,
        None => return None,
    };
    let x = abs_u64(da);
    let y = abs_u64(db);
    let z = abs_u64(ds);
    let m = if x >= y && x >= z {
        x
    } else if y >= z {
        y
    } else {
        z
    };
    Some(m)
}

/// The Eisenstein norm of the difference `a − b`: `Δa² − Δa·Δb + Δb²`, the
/// squared Euclidean distance on the standard embedding. `None` exactly when
/// a difference overflows `i64` or the norm exceeds `u64::MAX`.
pub fn norm_distance(a: (i64, i64), b: (i64, i64)) -> (r: Option<u64>)
    ensures
        r is Some <==> in_i64(a.0 - b.0) && in_i64(a.1 - b.1) && norm_diff(a, b) <= u64::MAX,
        r matches Some(n) ==> n == norm_diff(a, b),
{
    let da = match a.0.checked_sub(b.0) {
        Some(v) => v as i128,
        None => return None,
    };
    let db = match a.1.checked_sub(b.1) {
        Some(v) => v as i128,
        None => return None,
    };
    proof {
        lemma_norm_lower(da as int, db as int);
    }
    let lim: i128 = 0x2_0000_0000;
    if da > lim || da < -lim || db > lim || db < -lim {
        return None;
    }
    assert(-0x4_0000_0000_0000_0000 <= da * db <= 0x4_0000_0000_0000_0000) by (nonlinear_arith)
        requires -0x2_0000_0000 <= da <= 0x2_0000_0000, -0x2_0000_0000 <= db <= 0x2_0000_0000;
    assert(0 <= da * da <= 0x4_0000_0000_0000_0000) by (nonlinear_arith)
        requires -0x2_0000_0000 <= da <= 0x2_0000_0000;
    assert(0 <= db * db <= 0x4_0000_0000_0000_0000) by (nonlinear_arith)
        requires -0x2_0000_0000 <= db <= 0x2_0000_0000;
    let n = da * da - da * db + db * db;
    if n > u64::MAX as i128 {
        None
    } else {
        Some(n as u64)
    }
}

/// `4N(x, y) ≥ 3·max(x², y²)`; in particular a coordinate above `2^33` in
/// absolute value forces the norm past `u64::MAX`.
proof fn lemma_norm_lower(x: int, y: int)
    ensures
        x * x - x * y + y * y >= 0,
        (x > 0x2_0000_0000 || x < -0x2_0000_0000 || y > 0x2_0000_0000 || y < -0x2_0000_0000) ==> x
            * x - x * y + y * y > u64::MAX,
{
    assert(4 * (x * x - x * y + y * y) == (2 * x - y) * (2 * x - y) + 3 * (y * y)) by (nonlinear_arith);
    assert(4 * (x * x - x * y + y * y) == (2 * y - x) * (2 * y - x) + 3 * (x * x)) by (nonlinear_arith);
    assert((2 * x - y) * (2 * x - y) >= 0) by (nonlinear_arith);
    assert((2 * y - x) * (2 * y - x) >= 0) by (nonlinear_arith);
    assert(x * x >= 0 && y * y >= 0) by (nonlinear_arith);
    if x > 0x2_0000_0000 || x < -0x2_0000_0000 {
        assert(x * x > 0x4_0000_0000_0000_0000) by (nonlinear_arith)
            requires x > 0x2_0000_0000 || x < -0x2_0000_0000;
    }
    if y > 0x2_0000_0000 || y < -0x2_0000_0000 {
        assert(y * y > 0x4_0000_0000_0000_0000) by (nonlinear_arith)
            requires y > 0x2_0000_0000 || y < -0x2_0000_0000;
    }
}

/// Why a coordinate is rejected.
#[derive(Debug, Clone, Copy, PartialEq, Eq, Structural)]
pub enum MapError {
    /// Coordinates outside the crate's i32 E12 lattice cannot live on the map.
    OutOfLatticeRange,
    /// A room needs a name (the map is a MUD, not a grid).
    UnnamedRoom,
    /// The coordinate is not a room on this map.
    RoomNotFound,
}

/// The coordinate lies on the crate's `i32` lattice.
pub open spec fn on_lattice(c: (i64, i64)) -> bool {
    in_i32(c.0 as int) && in_i32(c.1 as int)
}

/// HexRoomMap — rooms placed on the Eisenstein lattice.
///
/// The map owns the rooms (`coord -> name`), the readings of each room
/// (`coord -> F`, whatever a room's field is), and the montage memory: the
/// region the ring named last time.
#[derive(Debug, Clone)]
pub struct HexRoomMap<F> {
    rooms: BTreeMap<(i64, i64), String>,
    fields: BTreeMap<(i64, i64), F>,
    last_blaze: Option<Vec<(i64, i64)>>,
}

impl<F> HexRoomMap<F> {
    /// The rooms: coordinate to name.
    pub closed spec fn rooms_view(&self) -> Map<(i64, i64), Seq<char>> {
        self.rooms@.map_values(|s: String| s@)
    }

    /// The readings: coordinate to field.
    pub closed spec fn fields_view(&self) -> Map<(i64, i64), F> {
        self.fields@
    }

    /// The region the ring named last (the montage memory).
    pub closed spec fn montage(&self) -> Option<Seq<(i64, i64)>> {
        match self.last_blaze {
            Some(v) => Some(v@),
            None => None,
        }
    }

    /// Every room is on the lattice and every reading belongs to a room.
    pub closed spec fn wf(&self) -> bool {
        &&& forall|c: (i64, i64)| #[trigger] self.rooms@.contains_key(c) ==> on_lattice(c)
        &&& forall|c: (i64, i64)|
            #[trigger] self.fields@.contains_key(c) ==> self.rooms@.contains_key(c)
    }

    /// A new, empty map.
    pub fn new() -> (m: HexRoomMap<F>)
        ensures
            m.wf(),
            m.rooms_view() == Map::<(i64, i64), Seq<char>>::empty(),
            m.fields_view() == Map::<(i64, i64), F>::empty(),
            m.montage() is None,
    {
        let m = HexRoomMap { rooms: BTreeMap::new(), fields: BTreeMap::new(), last_blaze: None };
        assert(m.rooms_view() =~= Map::<(i64, i64), Seq<char>>::empty());
        m
    }

    /// Add a room at an Eisenstein coordinate. The coordinate must lie on the
    /// `i32` lattice and the name must be non-empty; adding a room at an
    /// existing coordinate overwrites the name.
    pub fn add_room(&mut self, coord: (i64, i64), name: &str) -> (r: Result<(), MapError>)
        requires
            old(self).wf(),
        ensures
            final(self).wf(),
            !on_lattice(coord) ==> r == Err::<(), MapError>(MapError::OutOfLatticeRange),
            on_lattice(coord) && name@.len() == 0 ==> r == Err::<(), MapError>(MapError::UnnamedRoom),
            on_lattice(coord) && name@.len() > 0 ==> r is Ok,
            r is Ok ==> final(self).rooms_view() == old(self).rooms_view().insert(coord, name@),
            r is Err ==> final(self).rooms_view() == old(self).rooms_view(),
            final(self).fields_view() == old(self).fields_view(),
            final(self).montage() == old(self).montage(),
    {
        if coord.0 > i32::MAX as i64 || coord.0 < i32::MIN as i64 || coord.1 > i32::MAX as i64
            || coord.1 < i32::MIN as i64 {
            return Err(MapError::OutOfLatticeRange);
        }
        if name.is_empty() {
            return Err(MapError::UnnamedRoom);
        }
        let ghost before = self.rooms_view();
        self.rooms.insert(coord, name.to_owned());
        assert(self.rooms_view() =~= before.insert(coord, name@));
        Ok(())
    }

    /// Give a room its field. Only existing rooms can be read.
    pub fn set_field(&mut self, coord: (i64, i64), field: F) -> (r: Result<(), MapError>)
        requires
            old(self).wf(),
        ensures
            final(self).wf(),
            r is Err <==> !old(self).rooms_view().contains_key(coord),
            r is Err ==> r == Err::<(), MapError>(MapError::RoomNotFound) && final(self).fields_view()
                == old(self).fields_view(),
            r is Ok ==> final(self).fields_view() == old(self).fields_view().insert(coord, field),
            final(self).rooms_view() == old(self).rooms_view(),
            final(self).montage() == old(self).montage(),
    {
        if !self.rooms.contains_key(&coord) {
            return Err(MapError::RoomNotFound);
        }
        self.fields.insert(coord, field);
        Ok(())
    }

    /// The room name at a coordinate, if any.
    pub fn get(&self, coord: (i64, i64)) -> (r: Option<&str>)
        ensures
            r is Some <==> self.rooms_view().contains_key(coord),
            r matches Some(s) ==> s@ == self.rooms_view()[coord],
    {
        match self.rooms.get(&coord) {
            Some(s) => Some(s.as_str()),
            None => None,
        }
    }

    /// Is there a room at this hex?
    pub fn contains(&self, coord: (i64, i64)) -> (r: bool)
        ensures
            r == self.rooms_view().contains_key(coord),
    {
        self.rooms.contains_key(&coord)
    }

    /// Number of rooms on the map.
    pub fn room_count(&self) -> (n: usize)
        ensures
            n == self.rooms_view().len(),
    {
        assert(self.rooms_view().dom() =~= self.rooms@.dom());
        self.rooms.len()
    }

    /// The six hex neighbors of a coordinate — the D₆ unit directions, in the
    /// order of `hex_directions`. `None` only if the coordinate arithmetic
    /// overflows `i64`.
    pub fn neighbors(&self, coord: (i64, i64)) -> (r: Option<[(i64, i64); 6]>)
        ensures
            r is Some <==> (i64::MIN < coord.0 < i64::MAX && i64::MIN < coord.1 < i64::MAX),
            r matches Some(ns) ==> forall|i: int|
                0 <= i < 6 ==> #[trigger] pt(ns[i]) == (coord.0 + unit_of(i).0, coord.1 + unit_of(i).1),
    {
        neighbors_of(coord)
    }

    /// True hex distance between two coordinates. See [`hex_distance`].
    pub fn distance(&self, a: (i64, i64), b: (i64, i64)) -> (r: Option<u64>)
        ensures
            r == hex_distance_spec(a, b),
    {
        hex_distance(a, b)
    }

    /// The Eisenstein norm of the difference. See [`norm_distance`].
    pub fn norm_distance(&self, a: (i64, i64), b: (i64, i64)) -> (r: Option<u64>)
        ensures
            r is Some <==> in_i64(a.0 - b.0) && in_i64(a.1 - b.1) && norm_diff(a, b) <= u64::MAX,
            r matches Some(n) ==> n == norm_diff(a, b),
    {
        norm_distance(a, b)
    }

    /// A hex BFS path between two rooms, stepping only through occupied hexes:
    /// a shortest walk from `a` to `b` whose every cell is a room and whose
    /// consecutive cells are hex neighbours. Where several shortest walks tie,
    /// the search tries neighbours in `hex_directions` order, so the walk
    /// returned is the first of them in that order of directions.
    /// `None` exactly when an endpoint is missing or no such walk exists
    /// (an island the war can't reach).
    pub fn path(&self, a: (i64, i64), b: (i64, i64)) -> (r: Option<Vec<(i64, i64)>>)
        requires
            self.wf(),
        ensures
            r is None <==> !(self.rooms_view().contains_key(a) && self.rooms_view().contains_key(b)
                && connected(self.rooms_view().dom(), a, b)),
            r matches Some(p) ==> is_first_shortest_walk(self.rooms_view().dom(), p@, a, b),
    {
        assert(self.rooms_view().dom() =~= self.rooms@.dom());
        shortest_path(&self.rooms, a, b)
    }

    /// Forget the region the ring last named: the montage ends.
    pub fn end_montage(&mut self)
        requires
            old(self).wf(),
        ensures
            final(self).wf(),
            final(self).montage() is None,
            final(self).rooms_view() == old(self).rooms_view(),
            final(self).fields_view() == old(self).fields_view(),
    {
        self.last_blaze = None;
    }
}

impl<F> Default for HexRoomMap<F> {
    /// A new, empty map.
    fn default() -> (m: HexRoomMap<F>)
        ensures
            m.wf(),
            m.rooms_view() == Map::<(i64, i64), Seq<char>>::empty(),
            m.fields_view() == Map::<(i64, i64), F>::empty(),
            m.montage() is None,
    {
        HexRoomMap::new()
    }
}

/// The offsets `d` with `hex_metric(d) ≤ radius`, as a predicate.
pub open spec fn region_inside(radius: int) -> spec_fn((int, int)) -> bool {
    |d: (int, int)| hex_metric(d) <= radius
}

/// The offsets of a region of radius `radius`, in scan order (by `Δa`, then `Δb`).
pub open spec fn region_offsets(radius: int) -> Seq<(int, int)> {
    grid_scan(region_inside(radius), radius, -radius, -radius)
}

/// `region(center, radius)` succeeds: the disk can be sized in a `usize`
/// and every scanned coordinate fits in `i64`.
pub open spec fn region_defined(center: (i64, i64), radius: int) -> bool {
    &&& 3 * radius * radius + 3 * radius + 1 <= usize::MAX
    &&& in_i64(center.0 - radius)
    &&& in_i64(center.0 + radius)
    &&& in_i64(center.1 - radius)
    &&& in_i64(center.1 + radius)
}

impl<F> HexRoomMap<F> {
    /// The hex disk: every lattice cell within `radius` hex steps of `center`,
    /// scanned by `Δa` then `Δb`. Its size is exactly `3R² + 3R + 1`. `None`
    /// if that size does not fit a `usize` or a coordinate overflows `i64`.
    pub fn region(&self, center: (i64, i64), radius: u32) -> (r: Option<Vec<(i64, i64)>>)
        ensures
            r is Some <==> region_defined(center, radius as int),
            r matches Some(v) ==> {
                &&& v@.len() == region_offsets(radius as int).len()
                &&& forall|i: int|
                    0 <= i < v@.len() ==> #[trigger] pt(v@[i]) == (center.0 + region_offsets(
                        radius as int,
                    )[i].0, center.1 + region_offsets(radius as int)[i].1)
            },
    {
        let rr = radius as u128;
        assert(rr * rr <= 0x1_0000_0000_0000_0000) by (nonlinear_arith)
            requires 0 <= rr <= 0xffff_ffff;
        let size = rr * rr * 3 + 3 * rr + 1;
        assert(size == 3 * radius * radius + 3 * radius + 1) by (nonlinear_arith)
            requires size == rr * rr * 3 + 3 * rr + 1, rr == radius;
        if size > usize::MAX as u128 {
            return None;
        }
        let r = radius as i64;
        if center.0 < i64::MIN + r || center.0 > i64::MAX - r || center.1 < i64::MIN + r || center.1
            > i64::MAX - r {
            return None;
        }
        let ghost rad = radius as int;
        let ghost full = region_offsets(rad);
        let ghost mut done: Seq<(int, int)> = Seq::empty();
        let mut out: Vec<(i64, i64)> = Vec::new();
        let mut da: i64 = -r;
        while da <= r
            invariant
                r == rad,
                rad == radius,
                full == region_offsets(rad),
                region_defined(center, rad),
                -rad <= da <= rad + 1,
                done + grid_scan(region_inside(rad), rad, da as int, -rad) == full,
                out@.len() == done.len(),
                forall|i: int|
                    0 <= i < out@.len() ==> #[trigger] pt(out@[i]) == (center.0 + done[i].0, center.1
                        + done[i].1),
            decreases rad + 1 - da,
        {
            let mut db: i64 = -r;
            while db <= r
                invariant
                    r == rad,
                    rad == radius,
                        full == region_offsets(rad),
                    region_defined(center, rad),
                    -rad <= da <= rad,
                    -rad <= db <= rad + 1,
                    done + grid_scan(region_inside(rad), rad, da as int, db as int) == full,
                    out@.len() == done.len(),
                    forall|i: int|
                        0 <= i < out@.len() ==> #[trigger] pt(out@[i]) == (center.0 + done[i].0,
                            center.1 + done[i].1),
                decreases rad + 1 - db,
            {
                let p = (center.0 + da, center.1 + db);
                let d = hex_distance(center, p);
                assert(hex_metric((center.0 - p.0, center.1 - p.1)) == hex_metric((da as int, db as int)));
                let ghost rest = grid_scan(region_inside(rad), rad, da as int, db as int + 1);
                match d {
                    Some(x) => {
                        assert(x == hex_metric((center.0 - p.0, center.1 - p.1)));
                        if x <= radius as u64 {
                            assert(hex_metric((da as int, db as int)) <= rad);
                            assert(region_inside(rad)((da as int, db as int)));
                            assert(grid_scan(region_inside(rad), rad, da as int, db as int) == seq![(da as int, db as int)].add(rest));
                            out.push(p);
                            proof {
                                assert((done.push((da as int, db as int))) + rest == done + grid_scan(region_inside(rad), rad, da as int, db as int));
                                done = done.push((da as int, db as int));
                            }
                        } else {
                            assert(hex_metric((da as int, db as int)) > rad);
                            assert(!region_inside(rad)((da as int, db as int)));
                            assert(grid_scan(region_inside(rad), rad, da as int, db as int) == rest);
                        }
                    },
                    None => {
                        assert(false);
                    },
                }
                db = db + 1;
            }
            assert(grid_scan(region_inside(rad), rad, da as int, rad + 1) == grid_scan(region_inside(rad), rad, da + 1, -rad));
            da = da + 1;
        }
        assert(grid_scan(region_inside(rad), rad, rad + 1, -rad) =~= Seq::<(int, int)>::empty());
        assert(done =~= full);
        Some(out)
    }
}

/// In row `Δa` the region starts at this `Δb`.
pub open spec fn region_row_lo(radius: int) -> spec_fn(int) -> int {
    |q: int| if q >= 0 { q - radius } else { -radius }
}

/// In row `Δa` the region ends at this `Δb`.
pub open spec fn region_row_hi(radius: int) -> spec_fn(int) -> int {
    |q: int| if q >= 0 { radius } else { radius + q }
}

proof fn lemma_region_hexagon(radius: int)
    requires
        radius >= 0,
    ensures
        hexagon_rows(region_inside(radius), radius, region_row_lo(radius), region_row_hi(radius)),
{
    assert forall|q: int| -radius <= q <= radius implies -radius <= #[trigger] region_row_lo(radius)(q)
        && region_row_hi(radius)(q) <= radius && region_row_hi(radius)(q) - region_row_lo(radius)(q)
        + 1 == 2 * radius + 1 - abs_of(q) by {}
}

/// The region of radius `R` about `center` is the hex disk: it holds exactly
/// `3R² + 3R + 1` cells, which are exactly the cells within `R` hex steps of
/// the center, each once, in increasing coordinate order.
pub proof fn law_region(center: (int, int), radius: int)
    requires
        radius >= 0,
    ensures
        region_offsets(radius).len() == 3 * radius * radius + 3 * radius + 1,
        forall|d: (int, int)| #[trigger] region_offsets(radius).contains(d) <==> hex_metric(d) <= radius,
        forall|i: int, j: int|
            0 <= i < j < region_offsets(radius).len() ==> coord_lt(
                (center.0 + region_offsets(radius)[i].0, center.1 + region_offsets(radius)[i].1),
                (center.0 + region_offsets(radius)[j].0, center.1 + region_offsets(radius)[j].1),
            ),
{
    lemma_region_hexagon(radius);
    lemma_hexagon_count(region_inside(radius), radius, region_row_lo(radius), region_row_hi(radius));
    lemma_hexagon_points(region_inside(radius), radius, region_row_lo(radius), region_row_hi(radius));
    assert forall|i: int, j: int| 0 <= i < j < region_offsets(radius).len() implies coord_lt(
        (center.0 + region_offsets(radius)[i].0, center.1 + region_offsets(radius)[i].1),
        (center.0 + region_offsets(radius)[j].0, center.1 + region_offsets(radius)[j].1),
    ) by {
        assert(coord_lt(region_offsets(radius)[i], region_offsets(radius)[j]));
    }
}

/// The value `hex_distance(a, b)` returns.
pub open spec fn hex_distance_spec(a: (i64, i64), b: (i64, i64)) -> Option<u64> {
    if hex_distance_defined(a, b) {
        Some(hex_metric((a.0 - b.0, a.1 - b.1)) as u64)
    } else {
        None
    }
}

/// The six neighbors of a coordinate, when the arithmetic fits `i64`.
pub fn neighbors_of(coord: (i64, i64)) -> (r: Option<[(i64, i64); 6]>)
    ensures
        r is Some <==> (i64::MIN < coord.0 < i64::MAX && i64::MIN < coord.1 < i64::MAX),
        r matches Some(ns) ==> forall|i: int|
            0 <= i < 6 ==> #[trigger] pt(ns[i]) == (coord.0 + unit_of(i).0, coord.1 + unit_of(i).1),
{
    if coord.0 == i64::MIN || coord.0 == i64::MAX || coord.1 == i64::MIN || coord.1 == i64::MAX {
        return None;
    }
    let dirs = hex_directions();
    let mut out = [(0i64, 0i64); 6];
    let mut i: usize = 0;
    while i < 6
        invariant
            0 <= i <= 6,
            i64::MIN < coord.0 < i64::MAX,
            i64::MIN < coord.1 < i64::MAX,
            forall|k: int| 0 <= k < 6 ==> #[trigger] pt(dirs[k]) == unit_of(k),
            forall|k: int|
                0 <= k < i ==> #[trigger] pt(out[k]) == (coord.0 + unit_of(k).0, coord.1 + unit_of(k).1),
        decreases 6 - i,
    {
        let (da, db) = dirs[i];
        assert(pt(dirs[i as int]) == unit_of(i as int));
        assert(-1 <= da <= 1 && -1 <= db <= 1);
        out[i] = (coord.0 + da, coord.1 + db);
        i = i + 1;
    }
    Some(out)
}

impl MapError {
    /// A description of the error.
    pub fn message(&self) -> (s: &'static str)
        ensures
            *self == MapError::OutOfLatticeRange ==> s@ == "coordinate is outside the i32 E12 lattice (impossible/NaN-like coordinate)"@,
            *self == MapError::UnnamedRoom ==> s@ == "a room must have a name"@,
            *self == MapError::RoomNotFound ==> s@ == "no room at that coordinate"@,
    {
        match self {
            MapError::OutOfLatticeRange => "coordinate is outside the i32 E12 lattice (impossible/NaN-like coordinate)",
            MapError::UnnamedRoom => "a room must have a name",
            MapError::RoomNotFound => "no room at that coordinate",
        }
    }
}

/// What the ring names when the map's field crosses the deadband: the
/// region's room names, its hex coordinates, its anchor hex (the first
/// coordinate), and the front — the unit the region moved along since the
/// ring last named one.
#[derive(Debug)]
pub struct Blaze {
    /// The room names of the region, in the order of `coords`.
    pub region: Vec<String>,
    /// The hex coordinates of the region's rooms, in coordinate order.
    pub coords: Vec<(i64, i64)>,
    /// The first coordinate of the region (its anchor hex).
    pub center: (i64, i64),
    /// The unit direction the region moved along since the last ring, if any.
    pub front: Option<(i64, i64)>,
}

/// The read rooms listed in `hot`.
pub open spec fn hot_cells(read: Set<(i64, i64)>, hot: Seq<(i64, i64)>) -> Set<(i64, i64)> {
    Set::new(|c: (i64, i64)| read.contains(c) && hot.contains(c))
}

/// The frame the ring named last, or no cells at all.
pub open spec fn previous_frame(montage: Option<Seq<(i64, i64)>>) -> Seq<(i64, i64)> {
    match montage {
        Some(s) => s,
        None => Seq::empty(),
    }
}

/// `s` lists the cells of `set` once each, in increasing coordinate order.
pub open spec fn in_coordinate_order(s: Seq<(i64, i64)>, set: Set<(i64, i64)>) -> bool {
    &&& s.to_set() == set
    &&& s.no_duplicates()
    &&& forall|i: int, j: int| 0 <= i < j < s.len() ==> coord_lt(pt(#[trigger] s[i]), pt(#[trigger] s[j]))
}

/// Whether `c` is one of the cells of `cells`.
fn lists_cell(cells: &[(i64, i64)], c: (i64, i64)) -> (r: bool)
    ensures
        r == cells@.contains(c),
{
    let mut i: usize = 0;
    while i < cells.len()
        invariant
            0 <= i <= cells@.len(),
            forall|j: int| 0 <= j < i ==> cells@[j] != c,
        decreases cells@.len() - i,
    {
        if cells[i].0 == c.0 && cells[i].1 == c.1 {
            assert(cells@[i as int] == c);
            return true;
        }
        i = i + 1;
    }
    false
}

/// The cells of a list, as a set.
fn cell_set(cells: &Vec<(i64, i64)>) -> (s: BTreeSet<(i64, i64)>)
    ensures
        s@ == cells@.to_set(),
{
    let mut s: BTreeSet<(i64, i64)> = BTreeSet::new();
    let mut i: usize = 0;
    while i < cells.len()
        invariant
            0 <= i <= cells@.len(),
            forall|x: (i64, i64)|
                #[trigger] s@.contains(x) <==> exists|j: int| 0 <= j < i && cells@[j] == x,
        decreases cells@.len() - i,
    {
        s.insert(cells[i]);
        proof {
            assert forall|x: (i64, i64)|
                #[trigger] s@.contains(x) <==> exists|j: int| 0 <= j < i + 1 && cells@[j] == x by {
                if x == cells@[i as int] {
                    assert(cells@[i as int] == x);
                }
            }
        }
        i = i + 1;
    }
    assert(s@ =~= cells@.to_set());
    s
}

/// The cells of `keys` that `keep` holds, in the order of `keys`.
fn keep_in_order(keys: &Vec<(i64, i64)>, keep: &BTreeSet<(i64, i64)>) -> (r: Vec<(i64, i64)>)
    requires
        forall|i: int, j: int|
            0 <= i < j < keys@.len() ==> coord_lt(pt(#[trigger] keys@[i]), pt(#[trigger] keys@[j])),
    ensures
        r@.to_set() == keys@.to_set().intersect(keep@),
        in_coordinate_order(r@, r@.to_set()),
{
    let mut r: Vec<(i64, i64)> = Vec::new();
    let mut i: usize = 0;
    while i < keys.len()
        invariant
            0 <= i <= keys@.len(),
            forall|a: int, b: int|
                0 <= a < b < keys@.len() ==> coord_lt(pt(#[trigger] keys@[a]), pt(#[trigger] keys@[b])),
            forall|x: (i64, i64)|
                r@.contains(x) <==> (keep@.contains(x) && exists|j: int| 0 <= j < i && keys@[j] == x),
            forall|t: int| 0 <= t < r@.len() ==> exists|j: int| 0 <= j < i && keys@[j] == #[trigger] r@[t],
            forall|a: int, b: int|
                0 <= a < b < r@.len() ==> coord_lt(pt(#[trigger] r@[a]), pt(#[trigger] r@[b])),
        decreases keys@.len() - i,
    {
        let k = keys[i];
        if keep.contains(&k) {
            let ghost old_r = r@;
            r.push(k);
            proof {
                assert(r@[r@.len() - 1] == k);
                assert forall|t: int| 0 <= t < r@.len() implies exists|j: int|
                    0 <= j < i + 1 && keys@[j] == #[trigger] r@[t] by {
                    if t < old_r.len() {
                        assert(r@[t] == old_r[t]);
                    } else {
                        assert(keys@[i as int] == r@[t]);
                    }
                }
                assert forall|a: int, b: int| 0 <= a < b < r@.len() implies coord_lt(
                    pt(#[trigger] r@[a]),
                    pt(#[trigger] r@[b]),
                ) by {
                    assert(r@[a] == old_r[a]);
                    if b < old_r.len() {
                        assert(r@[b] == old_r[b]);
                    } else {
                        let j = choose|j: int| 0 <= j < i && keys@[j] == old_r[a];
                        assert(coord_lt(pt(keys@[j]), pt(keys@[i as int])));
                    }
                }
                assert forall|x: (i64, i64)|
                    r@.contains(x) <==> (keep@.contains(x) && exists|j: int| 0 <= j < i + 1 && keys@[j] == x) by {
                    if r@.contains(x) {
                        let t = choose|t: int| 0 <= t < r@.len() && r@[t] == x;
                        if t < old_r.len() {
                            assert(old_r[t] == x);
                            assert(old_r.contains(x));
                        }
                    }
                    if keep@.contains(x) && exists|j: int| 0 <= j < i + 1 && keys@[j] == x {
                        if x == k {
                            assert(r@[r@.len() - 1] == x);
                        } else {
                            let j = choose|j: int| 0 <= j < i + 1 && keys@[j] == x;
                            assert(old_r.contains(x));
                            let t = choose|t: int| 0 <= t < old_r.len() && old_r[t] == x;
                            assert(r@[t] == x);
                        }
                    }
                }
            }
        } else {
            proof {
                assert forall|x: (i64, i64)|
                    r@.contains(x) <==> (keep@.contains(x) && exists|j: int| 0 <= j < i + 1 && keys@[j] == x) by {
                    if keep@.contains(x) && exists|j: int| 0 <= j < i + 1 && keys@[j] == x {
                        let j = choose|j: int| 0 <= j < i + 1 && keys@[j] == x;
                        if j == i {
                            assert(x == k);
                        }
                    }
                }
                assert forall|t: int| 0 <= t < r@.len() implies exists|j: int|
                    0 <= j < i + 1 && keys@[j] == #[trigger] r@[t] by {
                    let j = choose|j: int| 0 <= j < i && keys@[j] == r@[t];
                }
            }
        }
        i = i + 1;
    }
    proof {
        assert forall|x: (i64, i64)| r@.to_set().contains(x) <==> keys@.to_set().intersect(keep@).contains(x) by {
            if keys@.to_set().contains(x) && keep@.contains(x) {
                let j = choose|j: int| 0 <= j < keys@.len() && keys@[j] == x;
            }
        }
        assert(r@.to_set() =~= keys@.to_set().intersect(keep@));
        assert(r@.no_duplicates()) by {
            assert forall|a: int, b: int| 0 <= a < b < r@.len() implies r@[a] != r@[b] by {
                assert(coord_lt(pt(r@[a]), pt(r@[b])));
            }
        }
    }
    r
}

/// A copy of a list of cells.
fn copy_cells(cells: &Vec<(i64, i64)>) -> (r: Vec<(i64, i64)>)
    ensures
        r@ == cells@,
{
    let mut r: Vec<(i64, i64)> = Vec::new();
    let mut i: usize = 0;
    while i < cells.len()
        invariant
            0 <= i <= cells@.len(),
            r@ == cells@.subrange(0, i as int),
        decreases cells@.len() - i,
    {
        r.push(cells[i]);
        i = i + 1;
    }
    r
}

impl<F> HexRoomMap<F> {
    /// Every room as `(coord, name)`, in coordinate order.
    pub fn iter(&self) -> (r: Vec<((i64, i64), &str)>)
        ensures
            r@.len() == self.rooms_view().len(),
            forall|i: int|
                0 <= i < r@.len() ==> self.rooms_view().contains_key(#[trigger] r@[i].0) && r@[i].1@
                    == self.rooms_view()[r@[i].0],
            forall|c: (i64, i64)|
                #[trigger] self.rooms_view().contains_key(c) ==> exists|i: int|
                    0 <= i < r@.len() && #[trigger] r@[i].0 == c,
            forall|i: int, j: int|
                0 <= i < j < r@.len() ==> coord_lt(pt(#[trigger] r@[i].0), pt(#[trigger] r@[j].0)),
    {
        let keys = sorted_keys(&self.rooms);
        let mut r: Vec<((i64, i64), &str)> = Vec::new();
        let mut i: usize = 0;
        while i < keys.len()
            invariant
                0 <= i <= keys@.len(),
                r@.len() == i,
                keys@.to_set() == self.rooms@.dom(),
                forall|j: int| 0 <= j < i ==> #[trigger] r@[j].0 == keys@[j],
                forall|j: int|
                    0 <= j < i ==> self.rooms@.contains_key(#[trigger] r@[j].0) && r@[j].1@
                        == self.rooms@[r@[j].0]@,
            decreases keys@.len() - i,
        {
            let k = keys[i];
            assert(keys@.to_set().contains(keys@[i as int]));
            let name = self.rooms.get(&k).unwrap();
            r.push((k, name.as_str()));
            i = i + 1;
        }
        proof {
            keys@.unique_seq_to_set();
            assert(self.rooms_view().dom() =~= self.rooms@.dom());
            assert forall|c: (i64, i64)| #[trigger] self.rooms_view().contains_key(c) implies exists|j: int|
                0 <= j < r@.len() && #[trigger] r@[j].0 == c by {
                assert(keys@.to_set().contains(c));
                let j = choose|j: int| 0 <= j < keys@.len() && keys@[j] == c;
                assert(r@[j].0 == c);
            }
        }
        r
    }

    /// Every reading as `(coord, field)`, in coordinate order — the
    /// read-back twin of `set_field`. Rooms without a reading are left out.
    pub fn fields(&self) -> (r: Vec<((i64, i64), &F)>)
        ensures
            r@.len() == self.fields_view().len(),
            forall|i: int|
                0 <= i < r@.len() ==> self.fields_view().contains_key(#[trigger] r@[i].0) && *r@[i].1
                    == self.fields_view()[r@[i].0],
            forall|c: (i64, i64)|
                #[trigger] self.fields_view().contains_key(c) ==> exists|i: int|
                    0 <= i < r@.len() && #[trigger] r@[i].0 == c,
            forall|i: int, j: int|
                0 <= i < j < r@.len() ==> coord_lt(pt(#[trigger] r@[i].0), pt(#[trigger] r@[j].0)),
    {
        let keys = sorted_keys(&self.fields);
        let mut r: Vec<((i64, i64), &F)> = Vec::new();
        let mut i: usize = 0;
        while i < keys.len()
            invariant
                0 <= i <= keys@.len(),
                r@.len() == i,
                keys@.to_set() == self.fields@.dom(),
                forall|j: int| 0 <= j < i ==> #[trigger] r@[j].0 == keys@[j],
                forall|j: int|
                    0 <= j < i ==> self.fields@.contains_key(#[trigger] r@[j].0) && *r@[j].1
                        == self.fields@[r@[j].0],
            decreases keys@.len() - i,
        {
            let k = keys[i];
            assert(keys@.to_set().contains(keys@[i as int]));
            let f = self.fields.get(&k).unwrap();
            r.push((k, f));
            i = i + 1;
        }
        proof {
            keys@.unique_seq_to_set();
            assert forall|c: (i64, i64)| #[trigger] self.fields_view().contains_key(c) implies exists|j: int|
                0 <= j < r@.len() && #[trigger] r@[j].0 == c by {
                assert(keys@.to_set().contains(c));
                let j = choose|j: int| 0 <= j < keys@.len() && keys@[j] == c;
                assert(r@[j].0 == c);
            }
        }
        r
    }

    /// The region the ring names once the map's field has crossed the
    /// deadband, given the read rooms whose own reading crossed it (`hot`):
    /// the largest connected region of hot rooms (the first in coordinate
    /// order among the largest), or every read room when no room is hot;
    /// either way its cells are listed in coordinate order. The ring remembers the region it names, and
    /// reports the front: the unit the region moved along since the region
    /// it named last.
    pub fn blaze(&mut self, hot: &[(i64, i64)]) -> (b: Blaze)
        requires
            old(self).wf(),
            exists|c: (i64, i64)| old(self).fields_view().contains_key(c),
        ensures
            final(self).wf(),
            final(self).rooms_view() == old(self).rooms_view(),
            final(self).fields_view() == old(self).fields_view(),
            hot_cells(old(self).fields_view().dom(), hot@).is_empty() ==> in_coordinate_order(
                b.coords@,
                old(self).fields_view().dom(),
            ),
            !hot_cells(old(self).fields_view().dom(), hot@).is_empty() ==> is_first_largest_component(
                hot_cells(old(self).fields_view().dom(), hot@),
                b.coords@,
            ) && in_coordinate_order(
                b.coords@,
                component(hot_cells(old(self).fields_view().dom(), hot@), b.coords@[0]),
            ),
            b.coords@.len() > 0,
            b.center == b.coords@[0],
            b.region@.len() == b.coords@.len(),
            forall|i: int|
                0 <= i < b.coords@.len() ==> old(self).rooms_view().contains_key(#[trigger] b.coords@[i])
                    && b.region@[i]@ == old(self).rooms_view()[b.coords@[i]],
            b.front is Some <==> front_defined(previous_frame(old(self).montage()), b.coords@),
            b.front matches Some(u) ==> is_front_unit(previous_frame(old(self).montage()), b.coords@, u),
            final(self).montage() == Some(b.coords@),
    {
        let keys = sorted_keys(&self.fields);
        let ghost read = self.fields@.dom();
        let ghost hs = hot_cells(read, hot@);
        let mut hot_set: BTreeSet<(i64, i64)> = BTreeSet::new();
        let mut i: usize = 0;
        while i < keys.len()
            invariant
                0 <= i <= keys@.len(),
                keys@.to_set() == read,
                read == self.fields@.dom(),
                hs == hot_cells(read, hot@),
                hot_set@.finite(),
                forall|c: (i64, i64)|
                    #[trigger] hot_set@.contains(c) <==> (hs.contains(c) && exists|j: int|
                        0 <= j < i && keys@[j] == c),
            decreases keys@.len() - i,
        {
            let k = keys[i];
            assert(keys@.to_set().contains(keys@[i as int]));
            if lists_cell(hot, k) {
                hot_set.insert(k);
            }
            proof {
                assert forall|c: (i64, i64)| #[trigger] hot_set@.contains(c) <==> (hs.contains(c)
                    && exists|j: int| 0 <= j < i + 1 && keys@[j] == c) by {
                    if c == k {
                        assert(keys@[i as int] == c);
                    }
                }
            }
            i = i + 1;
        }
        proof {
            assert forall|c: (i64, i64)| #[trigger] hot_set@.contains(c) <==> hs.contains(c) by {
                if hs.contains(c) {
                    assert(keys@.to_set().contains(c));
                }
            }
            assert(hot_set@ =~= hs);
            assert forall|c: (i64, i64)| #[trigger] hot_set@.contains(c) implies i64::MIN < c.0
                < i64::MAX && i64::MIN < c.1 < i64::MAX by {
                assert(self.fields@.contains_key(c));
                assert(self.rooms@.contains_key(c));
            }
            assert forall|c: (i64, i64)| #[trigger] hot_set@.contains(c) implies keys@.contains(c) by {
                assert(keys@.to_set().contains(c));
            }
        }
        let best = largest_component(&hot_set, &keys);
        let ghost keys_v = keys@;
        let coords = if best.len() == 0 {
            keys
        } else {
            let bs = cell_set(&best);
            let sorted = keep_in_order(&keys, &bs);
            proof {
                // the region's cells, now in coordinate order, anchored at the same cell
                assert(best@.to_set().subset_of(keys_v.to_set())) by {
                    assert forall|x: (i64, i64)| best@.to_set().contains(x) implies keys_v.to_set().contains(x) by {
                        let w = choose|w: Seq<(i64, i64)>| crate::walk::walk_between(hs, w, best@[0], x);
                        assert(hs.contains(w[w.len() - 1]));
                    }
                }
                assert(sorted@.to_set() =~= best@.to_set());
                assert(sorted@.to_set().contains(best@[0])) by {
                    assert(best@.to_set().contains(best@[0]));
                }
                let j0 = choose|j: int| 0 <= j < sorted@.len() && sorted@[j] == best@[0];
                if j0 > 0 {
                    assert(coord_lt(pt(sorted@[0]), pt(sorted@[j0])));
                    assert(sorted@.to_set().contains(sorted@[0]));
                    assert(component(hs, best@[0]).contains(sorted@[0]));
                }
                assert(sorted@[0] == best@[0]);
                sorted@.unique_seq_to_set();
                best@.unique_seq_to_set();
            }
            sorted
        };
        proof {
            keys_v.unique_seq_to_set();
            if best@.len() == 0 {
                assert(keys_v.len() > 0);
            }
            assert forall|j: int| 0 <= j < coords@.len() implies read.contains(#[trigger] coords@[j]) by {
                if best@.len() == 0 {
                    assert(keys_v.to_set().contains(keys_v[j]));
                } else {
                    assert(coords@.to_set().contains(coords@[j]));
                    let cc = hs;
                    let w = choose|w: Seq<(i64, i64)>| crate::walk::walk_between(cc, w, coords@[0], coords@[j]);
                    assert(cc.contains(w[w.len() - 1]));
                }
            }
        }
        let front = match &self.last_blaze {
            Some(prev) => front_direction(prev.as_slice(), coords.as_slice()),
            None => front_direction(&[], coords.as_slice()),
        };
        proof {
            if self.last_blaze is None {
                assert(previous_frame(self.montage()) =~= Seq::<(i64, i64)>::empty());
            }
        }
        self.last_blaze = Some(copy_cells(&coords));
        let mut region: Vec<String> = Vec::new();
        let mut j: usize = 0;
        while j < coords.len()
            invariant
                0 <= j <= coords@.len(),
                region@.len() == j,
                forall|t: int| 0 <= t < coords@.len() ==> read.contains(#[trigger] coords@[t]),
                read == self.fields@.dom(),
                forall|c: (i64, i64)| #[trigger] self.fields@.contains_key(c) ==> self.rooms@.contains_key(c),
                forall|t: int|
                    0 <= t < j ==> self.rooms@.contains_key(#[trigger] coords@[t]) && region@[t]@
                        == self.rooms@[coords@[t]]@,
            decreases coords@.len() - j,
        {
            let c = coords[j];
            assert(read.contains(coords@[j as int]));
            let name = self.rooms.get(&c).unwrap().clone();
            region.push(name);
            j = j + 1;
        }
        let center = coords[0];
        Blaze { region, coords, center, front }
    }
}

/// The ring names no front when the montage has no earlier frame (a fresh
/// map, or one whose band went quiet) or when it names again the region it
/// named last (a standing fire): `blaze` reports a front exactly when
/// `front_defined` holds of the montage's frame and the region it names.
pub proof fn law_front_needs_movement<F>(m: HexRoomMap<F>, s: Seq<(i64, i64)>)
    ensures
        m.montage() is None ==> !front_defined(previous_frame(m.montage()), s),
        m.montage() == Some(s) ==> !front_defined(previous_frame(m.montage()), s),
{
    law_no_front_without_movement(s);
    if m.montage() is None {
        assert(previous_frame(m.montage()) =~= Seq::<(i64, i64)>::empty());
    }
}

/// The norm of `(x, y)` is 1 exactly when `(x, y)` is one of the six unit
/// steps, which are the offsets of hex distance 1.
proof fn lemma_norm_one(x: int, y: int)
    ensures
        x * x - x * y + y * y == 1 <==> hex_metric((x, y)) == 1,
{
    assert(4 * (x * x - x * y + y * y) == (2 * x - y) * (2 * x - y) + 3 * (y * y)) by (nonlinear_arith);
    if x * x - x * y + y * y == 1 {
        assert(y * y <= 1) by (nonlinear_arith)
            requires
                4 == (2 * x - y) * (2 * x - y) + 3 * (y * y),
        ;
        assert(-1 <= y <= 1) by (nonlinear_arith)
            requires
                y * y <= 1,
        ;
        if y == 0 {
            assert(x * x == 1);
            assert(x == 1 || x == -1) by (nonlinear_arith)
                requires
                    x * x == 1,
            ;
        } else if y == 1 {
            assert(x * x - x == 0);
            assert(x == 0 || x == 1) by (nonlinear_arith)
                requires
                    x * x - x == 0,
            ;
        } else {
            assert(y == -1);
            assert(x * y == -x && y * y == 1) by (nonlinear_arith)
                requires
                    y == -1,
            ;
            assert(x * x + x == 0);
            assert(x == 0 || x == -1) by (nonlinear_arith)
                requires
                    x * x + x == 0,
            ;
        }
    }
    if hex_metric((x, y)) == 1 {
        assert(-1 <= x <= 1 && -1 <= y <= 1 && -1 <= x - y <= 1);
        assert(x * x - x * y + y * y == 1) by (nonlinear_arith)
            requires
                -1 <= x <= 1,
                -1 <= y <= 1,
                -1 <= x - y <= 1,
                x != 0 || y != 0,
        ;
    }
}

/// The norm distance is a squared distance on the hex plane: zero from a
/// cell to itself and only there, never negative, the same both ways, and 1
/// exactly between hex neighbours.
pub proof fn law_norm_distance_metric(a: (i64, i64), b: (i64, i64))
    ensures
        norm_diff(a, a) == 0,
        norm_diff(a, b) >= 0,
        norm_diff(a, b) == 0 <==> a == b,
        norm_diff(a, b) == norm_diff(b, a),
        norm_diff(a, b) == 1 <==> hex_metric((a.0 - b.0, a.1 - b.1)) == 1,
{
    let x = a.0 - b.0;
    let y = a.1 - b.1;
    lemma_norm_lower(x, y);
    lemma_norm_one(x, y);
    assert(4 * (x * x - x * y + y * y) == (2 * x - y) * (2 * x - y) + 3 * (y * y)) by (nonlinear_arith);
    if x * x - x * y + y * y == 0 {
        assert(y * y == 0) by (nonlinear_arith)
            requires
                0 == (2 * x - y) * (2 * x - y) + 3 * (y * y),
        ;
        assert(y == 0) by (nonlinear_arith)
            requires
                y * y == 0,
        ;
        assert(x * x == 0);
        assert(x == 0) by (nonlinear_arith)
            requires
                x * x == 0,
        ;
    }
    assert((-x) * (-x) - (-x) * (-y) + (-y) * (-y) == x * x - x * y + y * y) by (nonlinear_arith);
}

/// Moving both cells by the same offset leaves their norm distance unchanged.
pub proof fn law_norm_distance_translation(
    a: (i64, i64),
    b: (i64, i64),
    a2: (i64, i64),
    b2: (i64, i64),
    t: (int, int),
)
    requires
        a2.0 == a.0 + t.0,
        a2.1 == a.1 + t.1,
        b2.0 == b.0 + t.0,
        b2.1 == b.1 + t.1,
    ensures
        norm_diff(a2, b2) == norm_diff(a, b),
{
    assert(a2.0 - b2.0 == a.0 - b.0);
    assert(a2.1 - b2.1 == a.1 - b.1);
}

/// The norm distance obeys the parallelogram law of a Euclidean distance:
/// for a parallelogram `q, p, s, r` (with `s = p + r − q`) the squared
/// diagonals add up to twice the squared sides.
pub proof fn law_norm_distance_parallelogram(
    p: (i64, i64),
    q: (i64, i64),
    r: (i64, i64),
    s: (i64, i64),
)
    requires
        s.0 == p.0 + r.0 - q.0,
        s.1 == p.1 + r.1 - q.1,
    ensures
        norm_diff(p, r) + norm_diff(q, s) == 2 * norm_diff(p, q) + 2 * norm_diff(q, r),
{
    let (x1, y1) = (p.0 - q.0, p.1 - q.1);
    let (x2, y2) = (r.0 - q.0, r.1 - q.1);
    assert(p.0 - r.0 == x1 - x2 && p.1 - r.1 == y1 - y2);
    assert(q.0 - s.0 == -(x1 + x2) && q.1 - s.1 == -(y1 + y2));
    assert(q.0 - r.0 == -x2 && q.1 - r.1 == -y2);
    assert((x1 - x2) * (x1 - x2) - (x1 - x2) * (y1 - y2) + (y1 - y2) * (y1 - y2) + (-(x1 + x2)) * (
    -(x1 + x2)) - (-(x1 + x2)) * (-(y1 + y2)) + (-(y1 + y2)) * (-(y1 + y2)) == 2 * (x1 * x1 - x1
        * y1 + y1 * y1) + 2 * ((-x2) * (-x2) - (-x2) * (-y2) + (-y2) * (-y2))) by (nonlinear_arith);
}

} // verus!

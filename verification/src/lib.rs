//! Exact arithmetic on the Eisenstein integers `Z[ω]` (ω = e^(2πi/3)) and
//! the hexagonal lattice they describe.

use vstd::prelude::*;

pub mod disk;
pub mod division;
pub mod e12;
pub mod front;
pub mod grid;
pub mod numeric;
pub mod order;
pub mod ring_laws;
pub mod room_map;
pub mod text;
pub mod triple;
pub mod walk;

pub use disk::{HexDisk, HexDiskIter};
pub use e12::E12;
pub use front::front_direction;
pub use room_map::{hex_directions, hex_distance, norm_distance, Blaze, HexRoomMap, MapError};
pub use triple::EisensteinTriple;

verus! {

/// Laman redundancy of the 2D hexagonal lattice, 1.5, in tenths: 15.
pub fn laman_redundancy_2d() -> (r: i32)
    ensures
        r == 15,
{
    15
}

/// Laman redundancy of the 3D hexagonal lattice, 2.0, in tenths: 20.
pub fn laman_redundancy_3d() -> (r: i32)
    ensures
        r == 20,
{
    20
}

/// Laman redundancy of the 2D hexagonal lattice as a ratio: 3/2.
pub fn laman_redundancy_2d_ratio() -> (r: (u32, u32))
    ensures
        r == (3u32, 2u32),
{
    (3, 2)
}

/// Laman redundancy of the 3D hexagonal lattice as a ratio: 2/1.
pub fn laman_redundancy_3d_ratio() -> (r: (u32, u32))
    ensures
        r == (2u32, 1u32),
{
    (2, 1)
}

} // verus!

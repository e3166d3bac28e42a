# eisenstein

Exact arithmetic on the Eisenstein integers `Z[ω]` (`ω = e^(2πi/3)`) and on
the hexagonal lattice they describe, written in Verus: every function of the
library carries a contract, and Verus proves each one, together with the
algebraic laws the library rests on.

## Layout

- `src/e12.rs` — the lattice point `E12 = a + bω`: norm, conjugate,
  neighbours, rotations, the ring operations.
- `src/ring_laws.rs` — the ring axioms, multiplicativity of the norm, the
  units, conjugation and the rotation group, as proved laws.
- `src/division.rs` — rounded division with remainder (the Euclidean
  property), divisibility, the greatest common divisor and the divisors of
  an element.
- `src/disk.rs`, `src/grid.rs` — hex disks of radius `R` (`3R² + 3R + 1`
  points) and the row-by-row scan that walks them.
- `src/triple.rs`, `src/numeric.rs` — Eisenstein triples `a² − ab + b² = c²`,
  integer square roots and gcds.
- `src/room_map.rs`, `src/walk.rs`, `src/front.rs`, `src/order.rs` — rooms on
  the lattice: the true hex distance, hex disks, breadth-first shortest paths
  through occupied rooms, connected regions, and the front a region moves
  along.
- `src/text.rs` — the decimal text `a+bω` of a point.
- `app/` — the floating-point side of the room map (field readings, the map's
  temperature, the deadband that decides when a region is named).
- `tests/` — the test suite.

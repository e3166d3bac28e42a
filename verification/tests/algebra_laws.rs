//! Concrete cases of the laws the library proves: division with
//! remainder, divisibility, gcd, divisors, rotations, text and the Laman
//! constants.

use eisenstein::{laman_redundancy_2d, laman_redundancy_3d};
use eisenstein::{EisensteinTriple, HexDisk, E12};

#[test]
fn div_rem_rounds_to_the_nearest_quotient() {
    // (7 + 3ω) / (2 + ω): α·conj(β) = 10 − ω, N(β) = 3, rounded to (3, 0).
    let (q, r) = E12::new(7, 3).div_rem(E12::new(2, 1)).unwrap();
    assert_eq!(q, E12::new(3, 0));
    assert_eq!(r, E12::new(1, 0));
    assert!(r.norm() < E12::new(2, 1).norm());
    // Halves round up: 3 / 2 = 1.5 -> 2, remainder -1.
    let (q2, r2) = E12::new(3, 0).div_rem(E12::new(2, 0)).unwrap();
    assert_eq!(q2, E12::new(2, 0));
    assert_eq!(r2, E12::new(-1, 0));
}

#[test]
fn div_rem_refuses_zero_and_overflow() {
    assert_eq!(E12::new(5, 5).div_rem(E12::new(0, 0)), None);
    // The exact quotient by a unit leaves the i32 lattice.
    assert_eq!(E12::new(i32::MIN, i32::MAX).div_rem(E12::new(1, 1)), None);
    assert!(E12::new(i32::MAX, i32::MAX).div_rem(E12::new(1, 0)).is_some());
}

#[test]
fn euclidean_remainder_is_smaller_on_a_grid() {
    for a in -6..=6 {
        for b in -6..=6 {
            for c in -4..=4 {
                for d in -4..=4 {
                    let alpha = E12::new(a, b);
                    let beta = E12::new(c, d);
                    if c == 0 && d == 0 {
                        assert_eq!(alpha.div_rem(beta), None);
                        continue;
                    }
                    let (q, r) = alpha.div_rem(beta).unwrap();
                    assert_eq!(beta * q + r, alpha);
                    assert!(r.norm() < beta.norm());
                }
            }
        }
    }
}

#[test]
fn divides_is_exact_divisibility() {
    assert!(E12::new(2, -1).divides(E12::new(6, -3)));
    assert!(!E12::new(2, -1).divides(E12::new(3, 0)));
    assert!(E12::new(1, 1).divides(E12::new(i32::MIN, i32::MAX)), "a unit divides everything");
    assert!(!E12::new(0, 0).divides(E12::new(0, 0)), "zero divides nothing here");
    assert!(E12::new(3, 0).divides(E12::new(0, 0)));
    // Divisibility is exact even where the quotient leaves the i32 lattice.
    assert!(E12::new(-1, 0).divides(E12::new(i32::MIN, 0)));
}

#[test]
fn gcd_of_integers_and_primes() {
    assert_eq!(E12::new(12, 0).gcd(E12::new(8, 0)), E12::new(4, 0));
    assert_eq!(E12::new(0, 0).gcd(E12::new(0, 0)), E12::new(0, 0));
    assert_eq!(E12::new(-6, 0).gcd(E12::new(0, 0)), E12::new(6, 0));
    assert_eq!(E12::new(0, -5).gcd(E12::new(0, 0)), E12::new(0, 5));
    let g = E12::new(2, -1).gcd(E12::new(3, 1));
    assert_eq!(g.norm(), 1, "distinct primes of norm 7 are coprime");
    let g7 = E12::new(7, 0).gcd(E12::new(2, -1));
    assert_eq!(g7.norm(), 7);
    assert!(g7.divides(E12::new(7, 0)) && g7.divides(E12::new(2, -1)));
}

#[test]
fn norm_divisors_lists_every_divisor_in_order() {
    let divs = E12::new(2, -1).norm_divisors();
    let expected: Vec<E12> = [
        (-3, -2),
        (-2, 1),
        (-1, -3),
        (-1, -1),
        (-1, 0),
        (0, -1),
        (0, 1),
        (1, 0),
        (1, 1),
        (1, 3),
        (2, -1),
        (3, 2),
    ]
    .iter()
    .map(|&(a, b)| E12::new(a, b))
    .collect();
    assert_eq!(divs, expected);
    assert!(E12::new(0, 0).norm_divisors().is_empty());
    let four = E12::new(2, 0).norm_divisors();
    assert_eq!(four.len(), 12, "2 stays prime in Z[ω]: the six units and the six associates of 2");
    for d in &four {
        assert!(d.divides(E12::new(2, 0)));
    }
}

#[test]
fn rotate_60_three_times_negates() {
    let z = E12::new(-5, 3);
    assert_eq!(z.norm(), 49);
    assert_eq!(z.rotate_60().rotate_60().rotate_60(), -z);
    assert_eq!(z.rotate_60(), E12::new(-8, -5));
    let mut w = z;
    for _ in 0..6 {
        w = w.rotate_60();
    }
    assert_eq!(w, z);
}

#[test]
fn d6_rotations_follow_the_clockwise_orbit() {
    let z = E12::new(5, 2);
    let r = z.d6_rotations();
    assert_eq!(r[0], z);
    assert_eq!(r[1], E12::new(2, -3));
    assert_eq!(r[2], E12::new(-3, -5));
    assert_eq!(r[3], -z);
    assert_eq!(r[4], E12::new(-2, 3));
    assert_eq!(r[5], E12::new(3, 5));
    for k in 0..6 {
        assert!(z.divides(r[k]) && r[k].divides(z), "associates divide each other");
    }
}

#[test]
fn text_of_points() {
    assert_eq!(E12::new(0, 0).to_text(), "0+0ω");
    assert_eq!(E12::new(-12, 305).to_text(), "-12+305ω");
    assert_eq!(E12::new(i32::MIN, i32::MAX).to_text(), "-2147483648+2147483647ω");
}

#[test]
fn laman_constants_in_tenths() {
    assert_eq!(laman_redundancy_2d(), 15);
    assert_eq!(laman_redundancy_3d(), 20);
}

#[test]
fn scale_and_units() {
    assert_eq!(E12::new(2, -1).scale(-3), E12::new(-6, 3));
    assert!(E12::new(-1, -1).is_unit());
    assert!(!E12::new(1, -1).is_unit());
    assert_eq!(E12::new(4, -7).conjugate(), E12::new(11, 7));
    assert_eq!(E12::new(4, -7) - E12::new(1, 1), E12::new(3, -8));
}

#[test]
fn disk_membership_by_axial_distance() {
    let d = HexDisk::radius(2);
    assert!(d.contains(&E12::new(2, 0)));
    assert!(d.contains(&E12::new(2, -2)));
    assert!(!d.contains(&E12::new(2, 1)), "axial distance (2 + 1 + 3) / 2 = 3");
    assert_eq!(E12::new(2, 1).hex_distance_to(E12::new(0, 0)), 3);
    assert_eq!(HexDisk::radius(1_000_000).count(), 3_000_003_000_001);
}

#[test]
fn triples_edge_cases() {
    assert_eq!(EisensteinTriple::from_norm_raw(-1), None);
    assert_eq!(EisensteinTriple::from_norm_raw(0), Some((0, 0)));
    assert_eq!(EisensteinTriple::from_norm(0), None);
    let first = EisensteinTriple::generate(1);
    assert_eq!((first[0].a(), first[0].b(), first[0].c()), (8, 3, 7));
    assert!(EisensteinTriple::all_with_max_norm(0).is_empty());
    let small = EisensteinTriple::all_with_max_norm(1);
    assert_eq!(small.len(), 2, "(1,0,1) and (1,1,1)");
}

#[test]
fn all_with_max_norm_finds_triples_whose_a_exceeds_c() {
    let triples = EisensteinTriple::all_with_max_norm(7);
    let found: Vec<(i32, i32, u32)> = triples.iter().map(|t| (t.a(), t.b(), t.c())).collect();
    assert!(found.contains(&(8, 3, 7)), "c = 7 ≤ 7 though a = 8");
    assert!(found.contains(&(8, 5, 7)));
    for t in &triples {
        assert!(t.c() <= 7);
        assert_eq!(t.norm(), (t.c() as u64) * (t.c() as u64));
    }
    // Every triple with c ≤ 7 has a ≤ ⌊7·7/6⌋ = 8: nothing beyond is missed.
    assert_eq!(triples.last().map(|t| t.a()), Some(8));
}

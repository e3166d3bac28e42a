//! The crate's core behaviour: norm, neighbours, disks, triples,
//! multiplication, rotations, conjugation, Laman constants and text.

use eisenstein::{laman_redundancy_2d_ratio, laman_redundancy_3d_ratio};
use eisenstein::{EisensteinTriple, HexDisk, E12};

fn disk_points(disk: &HexDisk) -> Vec<E12> {
    let mut it = disk.iter();
    let mut out = Vec::new();
    while let Some(p) = it.next() {
        out.push(p);
    }
    out
}

#[test]
fn test_e12_norm() {
    let p = E12::new(3, -2);
    // 3² - 3(-2) + (-2)² = 9 + 6 + 4 = 19
    assert_eq!(p.norm(), 19);
}

#[test]
fn test_e12_neighbors() {
    let origin = E12::new(0, 0);
    let neighbors = origin.neighbors();
    assert_eq!(neighbors.len(), 6);
    for n in &neighbors {
        assert_eq!(n.norm(), 1);
    }
    for i in 0..6 {
        for j in (i + 1)..6 {
            assert_ne!(neighbors[i], neighbors[j]);
        }
    }
}

#[test]
fn test_hex_disk_counts() {
    assert_eq!(HexDisk::radius(0).count(), 1);
    assert_eq!(HexDisk::radius(1).count(), 7);
    assert_eq!(HexDisk::radius(2).count(), 19);
    assert_eq!(HexDisk::radius(3).count(), 37);
}

#[test]
fn test_hex_disk_formula_large() {
    assert_eq!(HexDisk::radius(36).count(), 3997);
}

#[test]
fn test_hex_disk_iter_counts() {
    for r in 0..=5u32 {
        let disk = HexDisk::radius(r);
        let count = disk_points(&disk).len();
        assert_eq!(count as u64, disk.count(), "Mismatch at radius {}", r);
    }
}

#[test]
fn test_eisenstein_triple_from_norm_13() {
    let (a, b) = EisensteinTriple::from_norm_raw(13).unwrap();
    assert_eq!(a, 4);
    assert_eq!(b, 1);

    let triple = EisensteinTriple::from_norm(49).unwrap();
    assert_eq!(triple.a(), 7);
    assert_eq!(triple.b(), 0);
    assert_eq!(triple.c(), 7);

    let all = EisensteinTriple::all_with_max_norm(10);
    let nontrivial: Vec<_> = all.iter().filter(|t| t.a() > 0 && t.b() > 0).collect();
    assert!(
        nontrivial.iter().any(|t| t.a() == 8 && t.b() == 3 && t.c() == 7),
        "Should find (8,3,7) in non-trivial triples: {:?}",
        nontrivial
    );
}

#[test]
fn test_multiplication() {
    let p1 = E12::new(1, 1);
    let p2 = E12::new(1, -1);
    let result = p1 * p2;
    assert_eq!(result, E12::new(2, 1));
}

#[test]
fn test_weyl_invariance() {
    let test_cases: &[(i32, i32)] = &[(3, -2), (1, 1), (5, 0), (2, 3), (-1, 4)];
    for &(a, b) in test_cases {
        let p = E12::new(a, b);
        let r1 = E12::new(-b, a - b);
        let r2 = E12::new(b - a, -a);
        let r3 = E12::new(-a, -b);
        let r4 = E12::new(b, -a + b);
        let r5 = E12::new(a - b, a);

        assert_eq!(p.norm(), r1.norm(), "D6 rotation 1 failed for ({},{})", a, b);
        assert_eq!(p.norm(), r2.norm(), "D6 rotation 2 failed for ({},{})", a, b);
        assert_eq!(p.norm(), r3.norm(), "D6 rotation 3 failed for ({},{})", a, b);
        assert_eq!(p.norm(), r4.norm(), "D6 rotation 4 failed for ({},{})", a, b);
        assert_eq!(p.norm(), r5.norm(), "D6 rotation 5 failed for ({},{})", a, b);
    }
}

#[test]
fn test_zero_drift() {
    let mut state: u64 = 12345;
    let mut next_small = || -> i32 {
        state = state
            .wrapping_mul(6364136223846793005)
            .wrapping_add(1442695040888963407);
        ((state >> 40) & 0x3FF) as i32 - 512
    };

    for _ in 0..10000 {
        let a = E12::new(next_small(), next_small());
        let b = E12::new(next_small(), next_small());
        let c = E12::new(next_small(), next_small());

        assert_eq!((a + b) + c, a + (b + c));
        assert_eq!(a + b, b + a);

        let norm_a = a.norm();
        let norm_b = b.norm();
        let norm_ab = (a * b).norm();
        if norm_a < (1u64 << 31) && norm_b < (1u64 << 31) {
            assert_eq!(
                norm_ab,
                norm_a * norm_b,
                "Norm multiplicativity failed for ({},{}) * ({},{})",
                a.a(),
                a.b(),
                b.a(),
                b.b()
            );
        }
    }
}

#[test]
fn test_conjugate() {
    let p = E12::new(3, -2);
    let conj = p.conjugate();
    assert_eq!(conj.a(), 3 - (-2));
    assert_eq!(conj.b(), -(-2));
    assert_eq!(conj.a(), 5);
    assert_eq!(conj.b(), 2);
}

#[test]
fn test_laman_redundancy() {
    assert_eq!(laman_redundancy_2d_ratio(), (3, 2));
    assert_eq!(laman_redundancy_3d_ratio(), (2, 1));
}

#[test]
fn test_display() {
    let p = E12::new(3, -2);
    assert_eq!(p.to_text(), "3+-2ω");
}

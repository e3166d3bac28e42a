//! The room map on the Eisenstein lattice: directions, distances, disks,
//! paths, guards, read-back of readings, and the region and front the
//! ring names.

use eisenstein::{front_direction, hex_directions, hex_distance, norm_distance};
use eisenstein::{HexRoomMap, MapError, E12};

#[test]
fn hex_directions_are_the_six_units() {
    let dirs = hex_directions();
    assert_eq!(dirs.len(), 6);
    for (i, d) in dirs.iter().enumerate() {
        assert_eq!(hex_distance((0, 0), *d), Some(1));
        assert_eq!(norm_distance((0, 0), *d), Some(1), "unit {:?}", d);
        for (j, e) in dirs.iter().enumerate() {
            if i != j {
                assert_ne!(d, e);
            }
        }
    }
}

#[test]
fn distance_matches_known_layouts() {
    let m: HexRoomMap<()> = HexRoomMap::new();
    assert_eq!(m.distance((0, 0), (0, 0)), Some(0));
    assert_eq!(m.distance((0, 0), (1, 0)), Some(1));
    assert_eq!(m.distance((0, 0), (0, 1)), Some(1));
    assert_eq!(m.distance((0, 0), (1, 1)), Some(1));
    assert_eq!(m.distance((0, 0), (-1, -1)), Some(1));
    assert_eq!(m.distance((0, 0), (1, -1)), Some(2));
    assert_eq!(m.distance((0, 0), (2, -1)), Some(3));
    assert_eq!(m.distance((0, 0), (3, -2)), Some(5));
    assert_eq!(m.distance((3, -2), (0, 0)), m.distance((0, 0), (3, -2)));
    let (p, q, r) = ((0, 0), (2, 0), (3, 1));
    assert!(m.distance(p, r).unwrap() <= m.distance(p, q).unwrap() + m.distance(q, r).unwrap());
}

#[test]
fn norm_distance_is_the_squared_euclidean() {
    let m: HexRoomMap<()> = HexRoomMap::new();
    assert_eq!(m.norm_distance((0, 0), (1, 0)), Some(1));
    assert_eq!(m.norm_distance((0, 0), (1, 1)), Some(1));
    assert_eq!(m.norm_distance((0, 0), (3, -2)), Some(19));
    assert_eq!(m.norm_distance((0, 0), (1, -1)), Some(3));
    assert_eq!(m.norm_distance((0, 0), (2, 0)), Some(4));
}

#[test]
fn neighbors_are_the_six_hex_neighbors() {
    let m: HexRoomMap<()> = HexRoomMap::new();
    let ns = m.neighbors((0, 0)).unwrap();
    assert_eq!(ns.len(), 6);
    for n in ns {
        assert_eq!(m.distance((0, 0), n), Some(1));
    }
    let dirs = hex_directions();
    for (i, d) in dirs.iter().enumerate() {
        assert_eq!(ns[i], *d);
    }
    let ns2 = m.neighbors((5, -3)).unwrap();
    for n in ns2 {
        assert_eq!(m.distance((5, -3), n), Some(1));
    }
}

#[test]
fn hex_room_map_region_is_a_hex_disk_of_the_right_size() {
    let m: HexRoomMap<()> = HexRoomMap::new();
    for r in 0..=5u32 {
        let disk = m.region((0, 0), r).unwrap();
        assert_eq!(disk.len(), (3 * r * r + 3 * r + 1) as usize, "radius {}", r);
        for p in &disk {
            assert!(m.distance((0, 0), *p).unwrap() <= r as u64);
        }
    }
    let disk1 = m.region((0, 0), 1).unwrap();
    assert_eq!(disk1.len(), 7);
    assert!(disk1.contains(&(0, 0)));
    for n in m.neighbors((0, 0)).unwrap() {
        assert!(disk1.contains(&n));
    }
    assert_eq!(m.region((4, 4), 3).unwrap().len(), m.region((0, 0), 3).unwrap().len());
}

#[test]
fn path_is_valid_and_adjacent() {
    let mut m: HexRoomMap<()> = HexRoomMap::new();
    for c in m.region((0, 0), 1).unwrap() {
        m.add_room(c, &format!("r{}{}", c.0, c.1)).unwrap();
    }
    m.add_room((5, 0), "far").unwrap();
    let p = m.path((0, 0), (1, 1)).unwrap();
    assert_eq!(p.first(), Some(&(0, 0)));
    assert_eq!(p.last(), Some(&(1, 1)));
    for w in p.windows(2) {
        assert_eq!(m.distance(w[0], w[1]), Some(1), "adjacent step {:?}", w);
        assert!(m.contains(w[0]) && m.contains(w[1]));
    }
    assert_eq!(m.path((0, 0), (5, 0)), None);
    for k in 1..=5 {
        m.add_room((k, 0), &format!("road{}", k)).unwrap();
    }
    let p2 = m.path((0, 0), (5, 0)).unwrap();
    assert_eq!(p2.first(), Some(&(0, 0)));
    assert_eq!(p2.last(), Some(&(5, 0)));
    assert_eq!(p2.len(), 6);
    for w in p2.windows(2) {
        assert_eq!(m.distance(w[0], w[1]), Some(1));
    }
    assert_eq!(m.path((0, 0), (0, 0)), Some(vec![(0, 0)]));
    assert_eq!(m.path((9, 9), (0, 0)), None);
    assert_eq!(m.path((0, 0), (9, 9)), None);
}

#[test]
fn front_direction_names_the_d6_unit_of_travel() {
    assert_eq!(front_direction(&[(0, 0)], &[(0, 0), (1, 0)]), Some((1, 0)));
    assert_eq!(front_direction(&[(0, 0)], &[(0, 0), (0, 1)]), Some((0, 1)));
    assert_eq!(front_direction(&[(1, 0)], &[(1, 0), (0, 0)]), Some((-1, 0)));
    assert_eq!(front_direction(&[(0, 0)], &[(0, 0), (-1, -1)]), Some((-1, -1)));
    assert_eq!(
        front_direction(&[(0, 0), (1, 0)], &[(0, 0), (1, 0), (2, 0)]),
        Some((1, 0))
    );
    assert_eq!(
        front_direction(&[(0, 0), (1, 0), (2, 0)], &[(0, 0), (1, 0), (2, 0), (2, 1)]),
        Some((1, 1))
    );
    assert_eq!(front_direction(&[(0, 0), (1, 0)], &[(0, 0), (1, 0)]), None);
    assert_eq!(front_direction(&[], &[(0, 0)]), None);
    assert_eq!(front_direction(&[(0, 0)], &[]), None);
    let f = front_direction(&[(5, -3)], &[(5, -3), (7, -2)]).unwrap();
    assert!(hex_directions().contains(&f));
}

#[test]
fn hex_room_map_guards_reject_impossible_coordinates() {
    let mut m: HexRoomMap<f64> = HexRoomMap::new();
    assert_eq!(m.add_room((1i64 << 40, 0), "far"), Err(MapError::OutOfLatticeRange));
    assert_eq!(m.add_room((0, -(1i64 << 40)), "far"), Err(MapError::OutOfLatticeRange));
    assert_eq!(m.add_room((0, 0), ""), Err(MapError::UnnamedRoom));
    assert_eq!(m.set_field((0, 0), 0.0), Err(MapError::RoomNotFound));
    m.add_room((0, 0), "tap").unwrap();
    assert_eq!(m.get((0, 0)), Some("tap"));
    assert!(m.contains((0, 0)));
    m.add_room((0, 0), "the-tap").unwrap();
    assert_eq!(m.get((0, 0)), Some("the-tap"));
    m.add_room((1, 0), "docks").unwrap();
    assert!(m.path((0, 0), (1, 0)).is_some());
    assert!(m.path((0, 0), (99, 99)).is_none());
}

fn ns_of_origin_as_e12() -> [E12; 6] {
    let m: HexRoomMap<()> = HexRoomMap::new();
    let ns = m.neighbors((0, 0)).unwrap();
    [
        E12::new(ns[0].0 as i32, ns[0].1 as i32),
        E12::new(ns[1].0 as i32, ns[1].1 as i32),
        E12::new(ns[2].0 as i32, ns[2].1 as i32),
        E12::new(ns[3].0 as i32, ns[3].1 as i32),
        E12::new(ns[4].0 as i32, ns[4].1 as i32),
        E12::new(ns[5].0 as i32, ns[5].1 as i32),
    ]
}

#[test]
fn six_neighbors_per_hex() {
    let m: HexRoomMap<()> = HexRoomMap::new();
    let ns = m.neighbors((0, 0)).unwrap();
    assert_eq!(ns.len(), 6);
    assert_eq!(ns, hex_directions());
    for coord in [(0, 0), (7, -3), (-42, 99), (1, 1)] {
        let ns = m.neighbors(coord).unwrap();
        assert_eq!(ns.len(), 6, "neighbors of {:?}", coord);
        for (i, n) in ns.iter().enumerate() {
            assert_eq!(
                hex_distance(coord, *n),
                Some(1),
                "neighbor {} of {:?} must be one hex step away",
                i,
                coord
            );
            for (j, o) in ns.iter().enumerate() {
                if i != j {
                    assert_ne!(n, o);
                }
            }
        }
    }
    let dirs = E12::directions();
    for (i, d) in dirs.iter().enumerate() {
        assert_eq!(ns_of_origin_as_e12()[i], *d, "map directions must be the crate's D₆ units");
    }
}

#[test]
fn distance_matches_hex_layouts() {
    let m: HexRoomMap<()> = HexRoomMap::new();
    type DistCase = ((i64, i64), (i64, i64), u64);
    let cases: &[DistCase] = &[
        ((0, 0), (0, 0), 0),
        ((0, 0), (1, 0), 1),
        ((0, 0), (0, 1), 1),
        ((0, 0), (1, 1), 1),
        ((0, 0), (-1, -1), 1),
        ((0, 0), (1, -1), 2),
        ((0, 0), (2, -1), 3),
        ((0, 0), (3, -2), 5),
        ((0, 0), (4, 4), 4),
        ((5, -3), (5, -3), 0),
    ];
    for (a, b, expect) in cases {
        assert_eq!(m.distance(*a, *b), Some(*expect), "hex distance {:?} -> {:?}", a, b);
    }
    let (a, b) = ((3, -2), (9, 4));
    assert_eq!(m.distance(a, b), m.distance(b, a));
    assert_eq!(m.distance((1, 1), (7, 5)), m.distance((0, 0), (6, 4)), "translation invariance");
    assert_eq!(m.distance((0, 0), (3, -2)), Some(5));
    assert_eq!(E12::new(3, -2).hex_distance_to(E12::new(0, 0)), 3, "crate axial convention");
}

#[test]
fn hex_room_map_path_is_valid_and_adjacent() {
    let mut m: HexRoomMap<()> = HexRoomMap::new();
    for c in m.region((0, 0), 2).unwrap() {
        m.add_room(c, &format!("town{}{}", c.0, c.1)).unwrap();
    }
    let road = [(2, 0), (3, 0), (4, 0), (5, 0), (6, 0), (6, 1), (6, 2)];
    for (k, c) in road.iter().enumerate() {
        m.add_room(*c, &format!("road{}", k)).unwrap();
    }
    m.add_room((7, 2), "keep").unwrap();

    let p = m.path((-2, 0), (2, 2)).unwrap();
    assert_eq!(p.first(), Some(&(-2, 0)));
    assert_eq!(p.last(), Some(&(2, 2)));
    for w in p.windows(2) {
        assert_eq!(m.distance(w[0], w[1]), Some(1), "adjacent step {:?}", w);
        assert!(m.contains(w[0]) && m.contains(w[1]), "path walks rooms only");
    }
    let p2 = m.path((0, 0), (7, 2)).unwrap();
    assert_eq!(p2.first(), Some(&(0, 0)));
    assert_eq!(p2.last(), Some(&(7, 2)));
    assert_eq!(p2.len(), 8, "shortest road walk: town center -> keep");
    for w in p2.windows(2) {
        assert_eq!(m.distance(w[0], w[1]), Some(1));
    }
    m.add_room((100, 100), "island").unwrap();
    assert_eq!(m.path((0, 0), (100, 100)), None);
    assert_eq!(m.path((0, 0), (500, 500)), None);
    assert_eq!(m.path((500, 500), (0, 0)), None);
    assert_eq!(m.path((0, 0), (0, 0)), Some(vec![(0, 0)]));
}

#[test]
fn region_is_a_hex_disk_of_the_right_size() {
    let m: HexRoomMap<()> = HexRoomMap::new();
    for r in 0u32..=6 {
        let disk = m.region((0, 0), r).unwrap();
        assert_eq!(disk.len(), (3 * r * r + 3 * r + 1) as usize, "3R²+3R+1 at radius {}", r);
        for p in &disk {
            assert!(hex_distance((0, 0), *p).unwrap() <= r as u64);
        }
    }
    let d1 = m.region((0, 0), 1).unwrap();
    assert_eq!(d1.len(), 7);
    assert!(d1.contains(&(0, 0)));
    for n in m.neighbors((0, 0)).unwrap() {
        assert!(d1.contains(&n));
    }
    assert_eq!(m.region((-17, 33), 4).unwrap().len(), 61);
}

#[test]
fn guards_reject_impossible_coordinates() {
    let mut m: HexRoomMap<f64> = HexRoomMap::new();
    assert_eq!(m.add_room((1i64 << 40, 0), "far"), Err(MapError::OutOfLatticeRange));
    assert_eq!(m.add_room((0, -3_000_000_000), "far"), Err(MapError::OutOfLatticeRange));
    assert_eq!(m.add_room((0, 0), ""), Err(MapError::UnnamedRoom));
    assert_eq!(m.set_field((0, 0), 0.0), Err(MapError::RoomNotFound));
    m.add_room((0, 0), "tap").unwrap();
    m.add_room((0, 0), "the-tap").unwrap();
    assert_eq!(m.get((0, 0)), Some("the-tap"));
    assert!(m.contains((0, 0)));
    assert_eq!(m.room_count(), 1);
}

/// A room's seven dial readings, as the map stores them.
#[derive(Debug, Clone, Copy, PartialEq)]
struct RoomField {
    mood: f64,
    volume: f64,
    earnestness: f64,
    cynicism: f64,
    joke_landing: f64,
    panic: f64,
    presence: f64,
}

impl RoomField {
    fn new(
        mood: f64,
        volume: f64,
        earnestness: f64,
        cynicism: f64,
        joke_landing: f64,
        panic: f64,
        presence: f64,
    ) -> Self {
        RoomField { mood, volume, earnestness, cynicism, joke_landing, panic, presence }
    }
}

#[test]
fn fields_read_back_what_set_field_wrote() {
    let mut m: HexRoomMap<RoomField> = HexRoomMap::new();
    m.add_room((0, 0), "read").unwrap();
    m.add_room((1, 0), "unread").unwrap();
    assert_eq!(m.fields().len(), 0, "nothing read yet");
    let warm = RoomField::new(0.5, 0.5, 0.5, 0.5, 0.0, 0.0, 0.5);
    m.set_field((0, 0), warm).unwrap();
    let collected = m.fields();
    assert_eq!(collected, vec![((0, 0), &warm)], "coord order, unread skipped");
    let hot = RoomField::new(0.0, 0.5, 0.5, 0.5, 0.0, 0.9, 0.5);
    m.set_field((0, 0), hot).unwrap();
    assert_eq!(m.fields().first().map(|(_, f)| **f), Some(hot));
}

//! Scenarios for the room map: the region and front the ring names as a
//! fight spreads, read-back of readings and rooms, and the edges of the
//! lattice arithmetic.

use eisenstein::{hex_distance, norm_distance, HexRoomMap, MapError};

fn hot_rooms(m: &HexRoomMap<f64>, threshold: f64) -> Vec<(i64, i64)> {
    m.fields()
        .iter()
        .filter(|(_, f)| **f >= threshold)
        .map(|(c, _)| *c)
        .collect()
}

fn district_map() -> HexRoomMap<f64> {
    let mut m: HexRoomMap<f64> = HexRoomMap::new();
    for c in m.region((0, 0), 1).unwrap() {
        m.add_room(c, &format!("tavern-{}{}", c.0, c.1)).unwrap();
    }
    for c in m.region((6, 0), 1).unwrap() {
        m.add_room(c, &format!("temple-{}{}", c.0, c.1)).unwrap();
    }
    m.add_room((12, 0), "lonely-hermit").unwrap();
    for c in m.region((0, 0), 1).unwrap() {
        m.set_field(c, 0.1).unwrap();
    }
    for c in m.region((6, 0), 1).unwrap() {
        m.set_field(c, 0.05).unwrap();
    }
    m.set_field((12, 0), 0.0).unwrap();
    m
}

#[test]
fn blaze_names_the_largest_hot_district() {
    let mut m = district_map();
    for c in m.region((0, 0), 1).unwrap() {
        m.set_field(c, 0.9).unwrap();
    }
    m.set_field((12, 0), 0.95).unwrap();
    let hot = hot_rooms(&m, 0.5);
    assert_eq!(hot.len(), 8);
    let b = m.blaze(&hot);
    assert_eq!(b.coords.len(), 7, "the district, not the hermit");
    assert!(b.region.iter().all(|n| n.starts_with("tavern-")));
    assert_eq!(b.center, (-1, -1), "the least coordinate of the district anchors it");
    assert_eq!(b.coords[0], b.center);
    assert!(b.coords.contains(&(0, 0)));
    assert_eq!(b.front, None, "a first frame has no front");
}

#[test]
fn blaze_without_hot_rooms_names_every_read_room_in_order() {
    let mut m: HexRoomMap<f64> = HexRoomMap::new();
    for k in 0..3 {
        m.add_room((k, 0), &format!("warm-{}", k)).unwrap();
        m.set_field((k, 0), 0.1).unwrap();
    }
    m.add_room((9, 9), "unread").unwrap();
    let b = m.blaze(&[]);
    assert_eq!(b.coords, vec![(0, 0), (1, 0), (2, 0)]);
    assert_eq!(b.region, vec!["warm-0", "warm-1", "warm-2"]);
    assert_eq!(b.center, (0, 0));
}

#[test]
fn blaze_ties_go_to_the_first_region_in_coordinate_order() {
    let mut m: HexRoomMap<f64> = HexRoomMap::new();
    for c in [(5, 5), (6, 5), (0, 0), (1, 0)] {
        m.add_room(c, &format!("room{}{}", c.0, c.1)).unwrap();
        m.set_field(c, 0.9).unwrap();
    }
    let b = m.blaze(&[(5, 5), (6, 5), (0, 0), (1, 0)]);
    assert_eq!(b.coords, vec![(0, 0), (1, 0)]);
    // Hot coordinates that are not read rooms do not count.
    let b2 = m.blaze(&[(5, 5), (6, 5), (40, 40)]);
    assert_eq!(b2.coords, vec![(5, 5), (6, 5)]);
}

#[test]
fn blaze_montage_reports_the_front() {
    let mut m: HexRoomMap<f64> = HexRoomMap::new();
    for c in m.region((0, 0), 3).unwrap() {
        m.add_room(c, &format!("town-{}{}", c.0, c.1)).unwrap();
        m.set_field(c, 0.05).unwrap();
    }
    m.set_field((0, 0), 0.9).unwrap();
    let r1 = m.blaze(&hot_rooms(&m, 0.5));
    assert_eq!(r1.coords, vec![(0, 0)]);
    assert_eq!(r1.region, vec!["town-00"]);
    assert_eq!(r1.front, None);

    m.set_field((1, 0), 0.9).unwrap();
    let r2 = m.blaze(&hot_rooms(&m, 0.5));
    assert_eq!(r2.coords, vec![(0, 0), (1, 0)]);
    assert_eq!(r2.region, vec!["town-00", "town-10"]);
    assert_eq!(r2.front, Some((1, 0)));

    m.set_field((2, 0), 0.9).unwrap();
    let r3 = m.blaze(&hot_rooms(&m, 0.5));
    assert_eq!(r3.coords.len(), 3);
    assert!(r3.coords.contains(&(2, 0)));
    assert_eq!(r3.front, Some((1, 0)));

    m.set_field((2, 1), 0.9).unwrap();
    let r4 = m.blaze(&hot_rooms(&m, 0.5));
    assert_eq!(r4.coords.len(), 4);
    assert_eq!(r4.front, Some((1, 1)));

    let r5 = m.blaze(&hot_rooms(&m, 0.5));
    assert_eq!(r5.coords.len(), 4);
    assert_eq!(r5.front, None, "a standing fire has no front");

    m.end_montage();
    for c in [(0, 0), (1, 0), (2, 0), (2, 1)] {
        m.set_field(c, 0.05).unwrap();
    }
    m.set_field((-3, 0), 0.9).unwrap();
    let r6 = m.blaze(&hot_rooms(&m, 0.5));
    assert_eq!(r6.coords, vec![(-3, 0)]);
    assert_eq!(r6.front, None, "a new montage starts frontless");
}

#[test]
fn fields_read_back_in_coordinate_order() {
    let mut m: HexRoomMap<u32> = HexRoomMap::new();
    m.add_room((1, 0), "east").unwrap();
    m.add_room((0, 0), "read").unwrap();
    m.add_room((-1, 5), "unread").unwrap();
    assert_eq!(m.fields().len(), 0, "nothing read yet");
    m.set_field((1, 0), 7).unwrap();
    m.set_field((0, 0), 3).unwrap();
    assert_eq!(m.fields(), vec![((0, 0), &3), ((1, 0), &7)]);
    m.set_field((0, 0), 9).unwrap();
    assert_eq!(m.fields()[0], ((0, 0), &9), "a new reading replaces the old");
    assert_eq!(
        m.iter(),
        vec![((-1, 5), "unread"), ((0, 0), "read"), ((1, 0), "east")]
    );
    assert_eq!(m.room_count(), 3);
}

#[test]
fn path_takes_the_detour_around_missing_rooms() {
    let mut m: HexRoomMap<()> = HexRoomMap::new();
    for c in m.region((0, 0), 1).unwrap() {
        if c != (0, 0) {
            m.add_room(c, "ring").unwrap();
        }
    }
    // Opposite sides of a hollow ring: three steps around, not two across.
    let p = m.path((1, 0), (-1, 0)).unwrap();
    assert_eq!(p.len(), 4);
    assert_eq!(p[0], (1, 0));
    assert_eq!(p[3], (-1, 0));
    for w in p.windows(2) {
        assert_eq!(hex_distance(w[0], w[1]), Some(1));
        assert!(m.contains(w[1]));
    }
}

#[test]
fn path_breaks_ties_by_direction_order() {
    let mut m: HexRoomMap<()> = HexRoomMap::new();
    for c in m.region((0, 0), 2).unwrap() {
        m.add_room(c, "town").unwrap();
    }
    // Six shortest walks join these corners; the search tries east before
    // north-west, so both east steps come first.
    assert_eq!(
        m.path((-2, 0), (2, 2)),
        Some(vec![(-2, 0), (-1, 0), (0, 0), (1, 1), (2, 2)])
    );
    // Going back, west comes before south-west.
    assert_eq!(
        m.path((2, 2), (-2, 0)),
        Some(vec![(2, 2), (1, 2), (0, 2), (-1, 1), (-2, 0)])
    );
    assert_eq!(
        m.path((2, 0), (0, 2)),
        Some(vec![(2, 0), (2, 1), (2, 2), (1, 2), (0, 2)])
    );
}

#[test]
fn region_lists_the_disk_by_rows() {
    let m: HexRoomMap<()> = HexRoomMap::new();
    assert_eq!(
        m.region((0, 0), 1).unwrap(),
        vec![(-1, -1), (-1, 0), (0, -1), (0, 0), (0, 1), (1, 0), (1, 1)]
    );
    assert_eq!(m.region((10, -4), 0).unwrap(), vec![(10, -4)]);
    assert_eq!(m.region((i64::MAX, 0), 1), None, "coordinates would overflow");
}

#[test]
fn lattice_edges_are_reported_not_wrapped() {
    assert_eq!(hex_distance((i64::MIN, 0), (1, 0)), None);
    assert_eq!(hex_distance((i64::MAX, 0), (0, 0)), Some(i64::MAX as u64));
    assert_eq!(norm_distance((0, 0), (1 << 34, 0)), None);
    assert_eq!(norm_distance((0, 0), (1 << 31, 0)), Some(1u64 << 62));
    let m: HexRoomMap<()> = HexRoomMap::new();
    assert_eq!(m.neighbors((i64::MAX, 0)), None);
    assert_eq!(m.neighbors((0, i64::MIN)), None);
}

#[test]
fn map_errors_describe_themselves() {
    assert_eq!(MapError::UnnamedRoom.message(), "a room must have a name");
    assert_eq!(MapError::RoomNotFound.message(), "no room at that coordinate");
    assert!(MapError::OutOfLatticeRange.message().contains("i32 E12 lattice"));
    let mut m: HexRoomMap<u8> = HexRoomMap::new();
    assert_eq!(m.add_room((i32::MAX as i64 + 1, 0), "x"), Err(MapError::OutOfLatticeRange));
    assert_eq!(m.add_room((i32::MIN as i64, i32::MAX as i64), "corner"), Ok(()));
}

#[test]
fn blaze_lists_the_region_in_coordinate_order() {
    let mut m: HexRoomMap<f64> = HexRoomMap::new();
    for c in [(0, 0), (0, 1), (1, 0), (5, 5)] {
        m.add_room(c, &format!("room{}{}", c.0, c.1)).unwrap();
        m.set_field(c, 0.9).unwrap();
    }
    let b = m.blaze(&[(1, 0), (0, 1), (0, 0)]);
    assert_eq!(b.coords, vec![(0, 0), (0, 1), (1, 0)]);
    assert_eq!(b.region, vec!["room00", "room01", "room10"]);
    assert_eq!(b.center, (0, 0));
}

use hexsnake::coords::{Axial, Direction, Offset};

#[test]
fn axial_offset_roundtrip() {
    for q in -5..=5 {
        for r in -5..=5 {
            let a = Axial::new(q, r);
            assert_eq!(a.to_offset().to_axial(), a, "axial roundtrip for {a:?}");
        }
    }
    for col in -5..=5 {
        for row in -5..=5 {
            let o = Offset::new(col, row);
            assert_eq!(o.to_axial().to_offset(), o, "offset roundtrip for {o:?}");
        }
    }
}

#[test]
fn neighbor_and_opposite_cancel() {
    for q in -2..=2 {
        for r in -2..=2 {
            let a = Axial::new(q, r);
            for dir in Direction::all() {
                assert_eq!(a.neighbor(dir).neighbor(dir.opposite()), a);
            }
        }
    }
}

#[test]
fn neighbors_have_distance_one() {
    let a = Axial::new(3, -2);
    for dir in Direction::all() {
        assert_eq!(a.distance(a.neighbor(dir)), 1);
    }
    assert_eq!(a.distance(a), 0);
}

#[test]
fn opposite_is_involution() {
    for dir in Direction::all() {
        assert_ne!(dir.opposite(), dir);
        assert_eq!(dir.opposite().opposite(), dir);
    }
}

#[test]
fn north_decreases_row_in_offset() {
    // In offset coordinates, a North step decreases the row by exactly 1
    // regardless of column parity.
    for col in 0..4 {
        let o = Offset::new(col, 3);
        let n = o.to_axial().neighbor(Direction::North).to_offset();
        assert_eq!(n, Offset::new(col, 2));
    }
}

#[test]
fn distance_is_symmetric() {
    let a = Axial::new(-3, 5);
    let b = Axial::new(4, -1);
    assert_eq!(a.distance(b), b.distance(a));
}

#[test]
fn rotation_helper_cycles() {
    assert_eq!(Direction::North.rotated_cw(0), Direction::North);
    assert_eq!(Direction::North.rotated_cw(1), Direction::NorthEast);
    assert_eq!(Direction::North.rotated_cw(3), Direction::South);
    assert_eq!(Direction::NorthWest.rotated_cw(1), Direction::North);
    for d in Direction::all() {
        assert_eq!(d.rotated_cw(6), d);
        assert_eq!(d.rotated_cw(3), d.opposite());
    }
}

#[test]
fn axial_delta_and_index_follow_clockwise_order() {
    let all = Direction::all();
    for (i, d) in all.iter().enumerate() {
        assert_eq!(d.index(), i);
    }
    assert_eq!(Direction::North.axial_delta(), (0, -1));
    assert_eq!(Direction::SouthWest.axial_delta(), (-1, 1));
    assert_eq!(Axial::new(2, 1).to_offset(), Offset::new(2, 2));
    assert_eq!(Offset::new(3, 4).to_axial(), Axial::new(3, 3));
}

use hexsnake::board::{Board, BoundaryMode};
use hexsnake::coords::{Direction, Offset};

fn board(boundary: BoundaryMode) -> Board {
    Board::new(8, 6, boundary)
}

#[test]
fn walls_block_all_edges() {
    let b = board(BoundaryMode::Walls);
    // Top and bottom edge.
    for col in 0..b.width {
        assert_eq!(b.neighbor(Offset::new(col, 0), Direction::North), None);
        assert_eq!(b.neighbor(Offset::new(col, b.height - 1), Direction::South), None);
    }
    // Left and right edge: NW/SW resp. NE/SE must not leave the field.
    for row in 0..b.height {
        for dir in [Direction::NorthWest, Direction::SouthWest] {
            let n = b.neighbor(Offset::new(0, row), dir);
            assert!(n.is_none(), "left edge {row} {dir:?} gave {n:?}");
        }
        for dir in [Direction::NorthEast, Direction::SouthEast] {
            let n = b.neighbor(Offset::new(b.width - 1, row), dir);
            assert!(n.is_none(), "right edge {row} {dir:?} gave {n:?}");
        }
    }
}

#[test]
fn periodic_wraps_all_edges() {
    let b = board(BoundaryMode::Periodic);
    for cell in b.cells() {
        for dir in Direction::all() {
            let n = b.neighbor(cell, dir).expect("no walls on a torus");
            assert!(b.contains(n), "neighbor {n:?} of {cell:?} is off-board");
            assert_ne!(n, cell);
        }
    }
    // Explicit wrap examples on the straight axes.
    assert_eq!(
        b.neighbor(Offset::new(3, 0), Direction::North),
        Some(Offset::new(3, b.height - 1))
    );
    assert_eq!(
        b.neighbor(Offset::new(3, b.height - 1), Direction::South),
        Some(Offset::new(3, 0))
    );
}

#[test]
fn periodic_neighbors_have_torus_distance_one() {
    let b = board(BoundaryMode::Periodic);
    for cell in b.cells() {
        for dir in Direction::all() {
            let n = b.neighbor(cell, dir).unwrap();
            assert_eq!(
                b.distance(cell, n),
                1,
                "{cell:?} -> {dir:?} -> {n:?} should have torus distance 1"
            );
        }
    }
}

#[test]
fn torus_distance_never_exceeds_direct_distance() {
    let b = board(BoundaryMode::Periodic);
    let direct = board(BoundaryMode::Walls);
    for a in b.cells() {
        for c in b.cells() {
            assert!(b.distance(a, c) <= direct.distance(a, c));
            assert_eq!(b.distance(a, c), b.distance(c, a), "torus distance symmetric");
        }
    }
}

#[test]
fn torus_distance_wraps_across_edge() {
    let b = board(BoundaryMode::Periodic);
    // Opposite corners are close on the torus.
    let d = b.distance(Offset::new(0, 0), Offset::new(b.width - 1, b.height - 1));
    assert!(d <= 2, "corner-to-corner torus distance was {d}");
}

#[test]
fn walls_distance_is_plain_hex_distance() {
    let b = board(BoundaryMode::Walls);
    assert_eq!(b.distance(Offset::new(0, 0), Offset::new(0, 5)), 5);
}

#[test]
fn cells_are_row_major_and_wrap_is_euclidean() {
    let b = board(BoundaryMode::Periodic);
    let cells = b.cells();
    assert_eq!(cells.len(), b.num_cells());
    assert_eq!(b.num_cells(), 48);
    assert_eq!(cells[0], Offset::new(0, 0));
    assert_eq!(cells[9], Offset::new(1, 1));
    assert_eq!(b.wrap(Offset::new(-1, 6)), Offset::new(7, 0));
    assert_eq!(b.wrap(Offset::new(17, -7)), Offset::new(1, 5));
    assert!(!b.contains(Offset::new(8, 0)));
}

#[test]
fn torus_distance_is_symmetric_on_even_widths() {
    let b = Board::new(8, 5, BoundaryMode::Periodic);
    for ac in 0..8 {
        for ar in 0..5 {
            for bc in 0..8 {
                for br in 0..5 {
                    let a = Offset::new(ac, ar);
                    let c = Offset::new(bc, br);
                    assert_eq!(b.distance(a, c), b.distance(c, a), "{a:?} {c:?}");
                    let plain = Board::new(8, 5, BoundaryMode::Walls).distance(a, c);
                    assert!(b.distance(a, c) <= plain);
                }
            }
        }
    }
}

#[test]
fn odd_width_torus_distance_depends_on_direction() {
    let b = Board::new(3, 3, BoundaryMode::Periodic);
    let a = Offset::new(0, 0);
    let c = Offset::new(2, 1);
    assert_eq!(b.distance(a, c), 2);
    assert_eq!(b.distance(c, a), 1);
}

#[test]
fn periodic_neighbors_are_one_step_away() {
    let b = Board::new(5, 4, BoundaryMode::Periodic);
    for col in 0..5 {
        for row in 0..4 {
            let cell = Offset::new(col, row);
            for dir in Direction::all() {
                let n = b.neighbor(cell, dir).expect("no walls on a torus");
                assert!(b.contains(n));
                assert_ne!(n, cell);
                assert_eq!(b.distance(cell, n), 1);
            }
        }
    }
}

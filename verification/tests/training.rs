use hexsnake::board::{Board, BoundaryMode};
use hexsnake::coords::{Direction, Offset};
use hexsnake::training::{neighbor_table, parse_boundary};

#[test]
fn boundary_names() {
    assert_eq!(parse_boundary("walls"), Some(BoundaryMode::Walls));
    assert_eq!(parse_boundary("torus"), Some(BoundaryMode::Periodic));
    assert_eq!(parse_boundary("periodic"), Some(BoundaryMode::Periodic));
    assert_eq!(parse_boundary("Walls"), None);
    assert_eq!(parse_boundary(""), None);
}

#[test]
fn neighbor_table_marks_walls_and_wraps_on_the_torus() {
    let (w, h) = (5, 4);
    let walls = neighbor_table(w, h, BoundaryMode::Walls);
    assert_eq!(walls.len(), (w * h * 6) as usize);
    // Cell (0, 0): north is off the board, south is the cell below.
    assert_eq!(walls[0], -1);
    assert_eq!(walls[3], w as i64);
    let torus = neighbor_table(w, h, BoundaryMode::Periodic);
    // On the torus north of the top-left cell is the bottom-left cell.
    assert_eq!(torus[0], ((h - 1) * w) as i64);
    assert!(torus.iter().all(|&n| n >= 0 && n < (w * h) as i64));
}

#[test]
fn neighbor_table_agrees_with_the_board() {
    let (w, h) = (6, 5);
    for boundary in [BoundaryMode::Walls, BoundaryMode::Periodic] {
        let table = neighbor_table(w, h, boundary);
        let board = Board::new(w, h, boundary);
        for row in 0..h {
            for col in 0..w {
                let cell = Offset::new(col, row);
                for (k, dir) in Direction::all().into_iter().enumerate() {
                    let want = board
                        .neighbor(cell, dir)
                        .map(|n| (n.row * w + n.col) as i64)
                        .unwrap_or(-1);
                    assert_eq!(table[((row * w + col) * 6) as usize + k], want);
                }
            }
        }
    }
}

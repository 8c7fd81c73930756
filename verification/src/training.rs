//! What the training tools take from the game besides the game itself: the
//! board's neighbor table for convolution models (so they need not redo the
//! hex geometry), and the boundary names they accept.
use vstd::prelude::*;

use crate::board::{Board, BoundaryMode};
use crate::coords::{all_directions, Direction};
use crate::text::str_equals;

verus! {

/// The boundary a name stands for: `walls`, or `torus` / `periodic`.
pub open spec fn boundary_named(s: Seq<char>) -> Option<BoundaryMode> {
    if s == "walls"@ {
        Some(BoundaryMode::Walls)
    } else if s == "torus"@ || s == "periodic"@ {
        Some(BoundaryMode::Periodic)
    } else {
        None
    }
}

/// The boundary named `s`; `None` for any other name.
pub fn parse_boundary(s: &str) -> (b: Option<BoundaryMode>)
    ensures
        b == boundary_named(s@),
{
    if str_equals(s, "walls") {
        Some(BoundaryMode::Walls)
    } else if str_equals(s, "torus") || str_equals(s, "periodic") {
        Some(BoundaryMode::Periodic)
    } else {
        None
    }
}

/// Entry `j` of the neighbor table: cell `j / 6` (row-major), direction
/// `j % 6` in clockwise order; the neighbor's row-major index, or `-1` off
/// the board.
pub open spec fn table_entry(board: Board, j: int) -> i64 {
    match board.neighbor_of(board.cell_at(j / 6), all_directions()[j % 6]) {
        Some(n) => board.index_of(n) as i64,
        None => -1i64,
    }
}

/// For each cell (row-major), its six neighbor indices in clockwise order
/// from north, `-1` where a wall is.
pub fn neighbor_table(width: i32, height: i32, boundary: BoundaryMode) -> (t: Vec<i64>)
    requires
        width > 0,
        height > 0,
        width * height <= i32::MAX,
    ensures
        t@.len() == width * height * 6,
        forall|j: int|
            0 <= j < t@.len() ==> #[trigger] t@[j] == table_entry(
                Board { width, height, boundary },
                j,
            ),
{
    let board = Board::new(width, height, boundary);
    let cells = board.cells();
    let dirs: [Direction; 6] = Direction::all();
    let mut t: Vec<i64> = Vec::new();
    let mut i: usize = 0;
    while i < cells.len()
        invariant
            board == (Board { width, height, boundary }),
            board.wf(),
            width * height <= i32::MAX,
            cells@.len() == board.cell_count(),
            forall|c: int| 0 <= c < cells@.len() ==> #[trigger] cells@[c] == board.cell_at(c),
            forall|c: int| 0 <= c < cells@.len() ==> board.in_bounds(#[trigger] cells@[c]),
            dirs@ == all_directions(),
            0 <= i <= cells@.len(),
            t@.len() == i * 6,
            forall|j: int| 0 <= j < t@.len() ==> #[trigger] t@[j] == table_entry(board, j),
        decreases cells@.len() - i,
    {
        let cell = cells[i];
        let mut k: usize = 0;
        while k < 6
            invariant
                board == (Board { width, height, boundary }),
                board.wf(),
                width * height <= i32::MAX,
                cell == board.cell_at(i as int),
                board.in_bounds(cell),
                dirs@ == all_directions(),
                0 <= i < cells@.len(),
                cells@.len() == board.cell_count(),
                0 <= k <= 6,
                t@.len() == i * 6 + k,
                forall|j: int| 0 <= j < t@.len() ==> #[trigger] t@[j] == table_entry(board, j),
            decreases 6 - k,
        {
            let entry: i64 = match board.neighbor(cell, dirs[k]) {
                Some(n) => {
                    assert(n.row * width + n.col < width * height) by (nonlinear_arith)
                        requires
                            0 <= n.row < height,
                            0 <= n.col < width,
                    {
                        assert(n.row * width <= (height - 1) * width);
                    }
                    assert(0 <= n.row * width) by (nonlinear_arith)
                        requires
                            0 <= n.row,
                            0 < width,
                    ;
                    (n.row as i64) * (width as i64) + (n.col as i64)
                },
                None => -1,
            };
            proof {
                let j = i * 6 + k;
                assert(j / 6 == i && j % 6 == k);
            }
            t.push(entry);
            k += 1;
        }
        i += 1;
    }
    t
}

} // verus!

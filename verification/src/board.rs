//! The rectangular hex playing field with switchable boundary behavior.
use vstd::prelude::*;

use crate::coords::{
    axial_r, axial_to_offset, can_step, distance_computable, fits_i32, hex_distance, offset_row,
    offset_to_axial, step_axial, Direction, Offset,
};

verus! {

/// Behavior at the edge of the field.
#[derive(Debug, Clone, Copy, PartialEq, Eq, Structural, Hash)]
pub enum BoundaryMode {
    /// Hitting the edge ends the game.
    Walls,
    /// The field wraps around (torus): leaving on one side re-enters on the
    /// opposite side.
    Periodic,
}

/// A rectangular field of hexes, `width` columns × `height` rows in offset
/// coordinates.
#[derive(Debug, Clone, Copy, PartialEq, Eq, Structural)]
pub struct Board {
    pub width: i32,
    pub height: i32,
    pub boundary: BoundaryMode,
}

/// Euclidean remainder (always in `0..m` for positive `m`).
pub open spec fn mod_euclid(x: int, m: int) -> int {
    x % m
}

pub open spec fn min_int(a: int, b: int) -> int {
    if a <= b { a } else { b }
}

/// The offset cell reached by one step in direction `d` on the unbounded grid.
pub open spec fn step_offset(c: Offset, d: Direction) -> Offset {
    axial_to_offset(step_axial(offset_to_axial(c), d))
}

/// `b` shifted by `i` field widths and `j` field heights.
pub open spec fn shifted(board: Board, b: Offset, i: int, j: int) -> Offset {
    Offset { col: (b.col + i * board.width) as i32, row: (b.row + j * board.height) as i32 }
}

/// Hex distance between the axial images of two offset cells.
pub open spec fn offset_distance(a: Offset, b: Offset) -> int {
    hex_distance(offset_to_axial(a), offset_to_axial(b))
}

/// Distance from `a` to the copy of `b` shifted by `(i, j)` field sizes.
#[verifier::opaque]
pub open spec fn shifted_distance(board: Board, a: Offset, b: Offset, i: int, j: int) -> int {
    offset_distance(a, shifted(board, b, i, j))
}

pub open spec fn min_over_rows(board: Board, a: Offset, b: Offset, i: int) -> int {
    min_int(
        shifted_distance(board, a, b, i, -1),
        min_int(shifted_distance(board, a, b, i, 0), shifted_distance(board, a, b, i, 1)),
    )
}

/// Torus distance: the minimum over the nine wrap variants of `b`.
pub open spec fn torus_distance(board: Board, a: Offset, b: Offset) -> int {
    min_int(
        min_over_rows(board, a, b, -1),
        min_int(min_over_rows(board, a, b, 0), min_over_rows(board, a, b, 1)),
    )
}

impl Board {
    /// Positive dimensions.
    pub open spec fn wf(self) -> bool {
        self.width > 0 && self.height > 0
    }

    /// Both dimensions small enough that every distance computation between
    /// on-board cells stays within `i32`/`u32`.
    pub open spec fn distances_fit(self) -> bool {
        self.width <= 0x1000_0000 && self.height <= 0x1000_0000
    }

    pub open spec fn in_bounds(self, c: Offset) -> bool {
        0 <= c.col < self.width && 0 <= c.row < self.height
    }

    pub open spec fn cell_count(self) -> int {
        self.width * self.height
    }

    /// Row-major index of a cell.
    pub open spec fn index_of(self, c: Offset) -> int {
        c.row * self.width + c.col
    }

    /// The cell at a row-major index.
    pub open spec fn cell_at(self, i: int) -> Offset {
        Offset { col: (i % self.width as int) as i32, row: (i / self.width as int) as i32 }
    }

    /// Wrapping a cell onto the field (torus).
    pub open spec fn wrapped(self, c: Offset) -> Offset {
        Offset {
            col: mod_euclid(c.col as int, self.width as int) as i32,
            row: mod_euclid(c.row as int, self.height as int) as i32,
        }
    }

    /// The neighboring cell in direction `d`; `None` is a wall.
    pub open spec fn neighbor_of(self, c: Offset, d: Direction) -> Option<Offset> {
        let stepped = step_offset(c, d);
        match self.boundary {
            BoundaryMode::Walls => if self.in_bounds(stepped) {
                Some(stepped)
            } else {
                None
            },
            BoundaryMode::Periodic => Some(self.wrapped(stepped)),
        }
    }

    /// Whether `b` is reachable from `a` in one step.
    pub open spec fn adjacent(self, a: Offset, b: Offset) -> bool {
        exists|d: Direction| #[trigger] self.neighbor_of(a, d) == Some(b)
    }

    /// Distance as the game measures it: plain hex distance with walls,
    /// torus distance with periodic boundaries.
    pub open spec fn dist(self, a: Offset, b: Offset) -> int {
        match self.boundary {
            BoundaryMode::Walls => offset_distance(a, b),
            BoundaryMode::Periodic => torus_distance(self, a, b),
        }
    }

    /// Every computation of [`Board::distance`] for these cells stays within
    /// its machine integers.
    pub open spec fn distance_computable(self, a: Offset, b: Offset) -> bool {
        match self.boundary {
            BoundaryMode::Walls => offset_pair_computable(a, b),
            BoundaryMode::Periodic => {
                &&& fits_i32(axial_r(a))
                &&& forall|i: int, j: int|
                    -1 <= i <= 1 && -1 <= j <= 1 ==> #[trigger] shift_computable(self, a, b, i, j)
            },
        }
    }

    pub fn new(width: i32, height: i32, boundary: BoundaryMode) -> (b: Board)
        requires
            width > 0 && height > 0,
        ensures
            b == (Board { width, height, boundary }),
            b.wf(),
    {
        Board { width, height, boundary }
    }

    pub fn contains(&self, cell: Offset) -> (r: bool)
        ensures
            r == self.in_bounds(cell),
    {
        0 <= cell.col && cell.col < self.width && 0 <= cell.row && cell.row < self.height
    }

    pub fn num_cells(&self) -> (n: usize)
        requires
            self.wf(),
            self.cell_count() <= usize::MAX,
        ensures
            n as int == self.cell_count(),
    {
        (self.width as usize) * (self.height as usize)
    }

    /// All cells in deterministic row-major order.
    pub fn cells(&self) -> (cells: Vec<Offset>)
        requires
            self.wf(),
            self.cell_count() <= usize::MAX,
        ensures
            cells@.len() == self.cell_count(),
            forall|i: int| 0 <= i < cells@.len() ==> #[trigger] cells@[i] == self.cell_at(i),
            forall|i: int| 0 <= i < cells@.len() ==> self.in_bounds(#[trigger] cells@[i]),
    {
        let mut cells: Vec<Offset> = Vec::new();
        let mut row: i32 = 0;
        while row < self.height
            invariant
                self.wf(),
                0 <= row <= self.height,
                cells@.len() == row * self.width,
                forall|i: int| 0 <= i < cells@.len() ==> #[trigger] cells@[i] == self.cell_at(i),
            decreases self.height - row,
        {
            let mut col: i32 = 0;
            while col < self.width
                invariant
                    self.wf(),
                    0 <= row < self.height,
                    0 <= col <= self.width,
                    cells@.len() == row * self.width + col,
                    forall|i: int|
                        0 <= i < cells@.len() ==> #[trigger] cells@[i] == self.cell_at(i),
                decreases self.width - col,
            {
                proof {
                    lemma_cell_at_of_index(*self, row as int, col as int);
                }
                cells.push(Offset::new(col, row));
                col += 1;
            }
            proof {
                assert((row + 1) * self.width == row * self.width + self.width) by (nonlinear_arith);
            }
            row += 1;
        }
        proof {
            assert(self.height * self.width == self.width * self.height) by (nonlinear_arith);
            assert forall|i: int| 0 <= i < cells@.len() implies self.in_bounds(
                #[trigger] cells@[i],
            ) by {
                lemma_cell_at_in_bounds(*self, i);
            }
        }
        cells
    }

    /// Wrap an offset coordinate onto the field (torus).
    pub fn wrap(&self, cell: Offset) -> (w: Offset)
        requires
            self.wf(),
        ensures
            w == self.wrapped(cell),
            self.in_bounds(w),
    {
        let c = mod_floor(cell.col as i64, self.width as i64);
        let r = mod_floor(cell.row as i64, self.height as i64);
        Offset::new(c as i32, r as i32)
    }

    /// The neighboring cell in the given direction, respecting the boundary
    /// mode: `None` means "wall".
    pub fn neighbor(&self, cell: Offset, dir: Direction) -> (n: Option<Offset>)
        requires
            self.wf(),
            self.in_bounds(cell),
        ensures
            n == self.neighbor_of(cell, dir),
            n matches Some(m) ==> self.in_bounds(m),
    {
        let a = cell.to_axial();
        let stepped = a.neighbor(dir).to_offset();
        match self.boundary {
            BoundaryMode::Walls => if self.contains(stepped) {
                Some(stepped)
            } else {
                None
            },
            BoundaryMode::Periodic => Some(self.wrap(stepped)),
        }
    }

    /// Hex distance between two cells. With periodic boundaries this is the
    /// torus distance: the minimum over all wrap variants of `b`.
    pub fn distance(&self, a: Offset, b: Offset) -> (d: u32)
        requires
            self.wf(),
            self.distance_computable(a, b),
        ensures
            d as int == self.dist(a, b),
    {
        match self.boundary {
            BoundaryMode::Walls => a.to_axial().distance(b.to_axial()),
            BoundaryMode::Periodic => {
                let top = self.row_min(a, b, -1);
                let mid = self.row_min(a, b, 0);
                let bottom = self.row_min(a, b, 1);
                let lower = if mid <= bottom { mid } else { bottom };
                if top <= lower { top } else { lower }
            },
        }
    }

    /// Minimum distance from `a` over the three row shifts of `b` shifted by
    /// `i` field widths.
    fn row_min(&self, a: Offset, b: Offset, i: i32) -> (d: u32)
        requires
            self.wf(),
            self.boundary == BoundaryMode::Periodic,
            self.distance_computable(a, b),
            -1 <= i <= 1,
        ensures
            d as int == min_over_rows(*self, a, b, i as int),
    {
        let up = self.shifted_distance(a, b, i, -1);
        let same = self.shifted_distance(a, b, i, 0);
        let down = self.shifted_distance(a, b, i, 1);
        let lower = if same <= down { same } else { down };
        if up <= lower { up } else { lower }
    }

    /// Distance from `a` to `b` shifted by `i` widths and `j` heights.
    fn shifted_distance(&self, a: Offset, b: Offset, i: i32, j: i32) -> (d: u32)
        requires
            self.wf(),
            self.boundary == BoundaryMode::Periodic,
            self.distance_computable(a, b),
            -1 <= i <= 1,
            -1 <= j <= 1,
        ensures
            d as int == shifted_distance(*self, a, b, i as int, j as int),
    {
        proof {
            assert(shift_computable(*self, a, b, i as int, j as int));
            reveal(shifted_distance);
        }
        let col = (b.col as i64 + (i as i64) * (self.width as i64)) as i32;
        let row = (b.row as i64 + (j as i64) * (self.height as i64)) as i32;
        a.to_axial().distance(Offset::new(col, row).to_axial())
    }
}

/// The copy of `b` shifted by `(i, j)` field sizes fits in `i32` and its
/// distance from `a` is computable.
pub open spec fn shift_computable(board: Board, a: Offset, b: Offset, i: int, j: int) -> bool {
    &&& fits_i32(b.col + i * board.width)
    &&& fits_i32(b.row + j * board.height)
    &&& offset_pair_computable(a, shifted(board, b, i, j))
}

/// Both cells convert to axial coordinates and their distance is computable.
pub open spec fn offset_pair_computable(a: Offset, b: Offset) -> bool {
    &&& fits_i32(axial_r(a))
    &&& fits_i32(axial_r(b))
    &&& distance_computable(offset_to_axial(a), offset_to_axial(b))
}

/// Euclidean remainder on machine integers.
fn mod_floor(x: i64, m: i64) -> (r: i64)
    requires
        m > 0,
        x > i64::MIN,
    ensures
        r as int == mod_euclid(x as int, m as int),
        0 <= r < m,
{
    if x >= 0 {
        x % m
    } else {
        let t = (-x) % m;
        if t == 0 {
            proof {
                let q = (-(x as int)) / (m as int);
                vstd::arithmetic::div_mod::lemma_fundamental_div_mod(-(x as int), m as int);
                assert(x == (-q) * m + 0) by (nonlinear_arith)
                    requires
                        -x == m * q + 0,
                ;
                vstd::arithmetic::div_mod::lemma_fundamental_div_mod_converse(
                    x as int,
                    m as int,
                    -q,
                    0,
                );
            }
            0
        } else {
            proof {
                let q = (-(x as int)) / (m as int);
                vstd::arithmetic::div_mod::lemma_fundamental_div_mod(-(x as int), m as int);
                assert(x == (-q - 1) * m + (m - t)) by (nonlinear_arith)
                    requires
                        -x == m * q + t,
                ;
                vstd::arithmetic::div_mod::lemma_fundamental_div_mod_converse(
                    x as int,
                    m as int,
                    -q - 1,
                    (m - t) as int,
                );
            }
            m - t
        }
    }
}

proof fn lemma_cell_at_of_index(board: Board, row: int, col: int)
    requires
        board.wf(),
        0 <= col < board.width,
        0 <= row,
    ensures
        board.cell_at(row * board.width + col) == (Offset { col: col as i32, row: row as i32 }),
{
    vstd::arithmetic::div_mod::lemma_fundamental_div_mod_converse(
        row * board.width + col,
        board.width as int,
        row,
        col,
    );
}

pub proof fn lemma_cell_at_in_bounds(board: Board, i: int)
    requires
        board.wf(),
        0 <= i < board.cell_count(),
    ensures
        board.in_bounds(board.cell_at(i)),
        board.index_of(board.cell_at(i)) == i,
{
    let w = board.width as int;
    vstd::arithmetic::div_mod::lemma_fundamental_div_mod(i, w);
    vstd::arithmetic::div_mod::lemma_mod_pos_bound(i, w);
    let q = i / w;
    assert(q >= 0 && q < board.height && q * w == w * q) by (nonlinear_arith)
        requires
            i == w * q + i % w,
            0 <= i % w < w,
            0 <= i < w * board.height,
            w > 0,
    ;
}

/// Row-major indices of on-board cells lie in `0..cell_count`.
pub proof fn lemma_index_in_range(board: Board, c: Offset)
    requires
        board.wf(),
        board.in_bounds(c),
    ensures
        0 <= board.index_of(c) < board.cell_count(),
        board.cell_at(board.index_of(c)) == c,
{
    let w = board.width as int;
    let h = board.height as int;
    let r = c.row as int;
    let k = c.col as int;
    assert(0 <= r * w + k < w * h) by (nonlinear_arith)
        requires
            0 <= r < h,
            0 <= k < w,
    ;
    vstd::arithmetic::div_mod::lemma_fundamental_div_mod_converse(r * w + k, w, r, k);
}

/// Distinct on-board cells have distinct row-major indices.
pub proof fn lemma_index_injective(board: Board, a: Offset, b: Offset)
    requires
        board.wf(),
        board.in_bounds(a),
        board.in_bounds(b),
    ensures
        board.index_of(a) == board.index_of(b) <==> a == b,
{
    lemma_index_in_range(board, a);
    lemma_index_in_range(board, b);
}

/// Wrapping leaves on-board cells where they are.
pub proof fn lemma_wrap_in_bounds(board: Board, c: Offset)
    requires
        board.wf(),
        board.in_bounds(c),
    ensures
        board.wrapped(c) == c,
{
    vstd::arithmetic::div_mod::lemma_small_mod(c.col as nat, board.width as nat);
    vstd::arithmetic::div_mod::lemma_small_mod(c.row as nat, board.height as nat);
}

/// Multiplying by -1, 0 or 1.
pub proof fn lemma_unit_mul(k: int, x: int)
    requires
        -1 <= k <= 1,
    ensures
        k * x == if k == -1 {
            -x
        } else if k == 0 {
            0
        } else {
            x
        },
{
    if k == -1 {
        assert(k * x == -x) by (nonlinear_arith)
            requires
                k == -1,
        ;
    } else if k == 0 {
        assert(k * x == 0) by (nonlinear_arith)
            requires
                k == 0,
        ;
    } else {
        assert(k * x == x) by (nonlinear_arith)
            requires
                k == 1,
        ;
    }
}

/// Cells within one field size of the board have computable distances to
/// on-board cells.
proof fn lemma_near_pair_computable(board: Board, a: Offset, c: Offset)
    requires
        board.wf(),
        board.distances_fit(),
        board.in_bounds(a),
        -board.width <= c.col < 2 * board.width,
        -board.height <= c.row < 2 * board.height,
    ensures
        offset_pair_computable(a, c),
{
}

/// On a board of moderate size the distance between any two cells can be
/// computed without overflow.
pub proof fn lemma_distance_computable(board: Board, a: Offset, b: Offset)
    requires
        board.wf(),
        board.distances_fit(),
        board.in_bounds(a),
        board.in_bounds(b),
    ensures
        board.distance_computable(a, b),
{
    lemma_near_pair_computable(board, a, b);
    assert forall|i: int, j: int|
        -1 <= i <= 1 && -1 <= j <= 1 implies #[trigger] shift_computable(board, a, b, i, j) by {
        lemma_unit_mul(i, board.width as int);
        lemma_unit_mul(j, board.height as int);
        lemma_near_pair_computable(board, a, shifted(board, b, i, j));
    }
}

/// A neighbor of an on-board cell lies on the board.
pub proof fn lemma_neighbor_in_bounds(board: Board, c: Offset, d: Direction)
    requires
        board.wf(),
        board.in_bounds(c),
        board.neighbor_of(c, d) is Some,
    ensures
        board.in_bounds(board.neighbor_of(c, d).unwrap()),
{
    let s = step_offset(c, d);
    if board.boundary == BoundaryMode::Periodic {
        vstd::arithmetic::div_mod::lemma_mod_bound(s.col as int, board.width as int);
        vstd::arithmetic::div_mod::lemma_mod_bound(s.row as int, board.height as int);
    }
}

// ------------------------------------------------------------------------
// Laws of the board geometry.
// ------------------------------------------------------------------------

/// Offset distance is zero exactly between equal cells.
proof fn lemma_offset_distance_zero(a: Offset, b: Offset)
    requires
        fits_i32(axial_r(a)),
        fits_i32(axial_r(b)),
    ensures
        offset_distance(a, b) >= 0,
        offset_distance(a, b) == 0 <==> a == b,
{
    crate::coords::lemma_distance_zero_iff_equal(offset_to_axial(a), offset_to_axial(b));
    crate::coords::lemma_offset_axial_roundtrip(a);
    crate::coords::lemma_offset_axial_roundtrip(b);
}

/// The torus distance is one of the nine shifted distances, returned as the
/// witness, and at most each of them.
proof fn lemma_torus_min(board: Board, a: Offset, b: Offset) -> (ij: (int, int))
    ensures
        forall|i: int, j: int|
            -1 <= i <= 1 && -1 <= j <= 1 ==> torus_distance(board, a, b) <= #[trigger] shifted_distance(
                board,
                a,
                b,
                i,
                j,
            ),
        -1 <= ij.0 <= 1,
        -1 <= ij.1 <= 1,
        torus_distance(board, a, b) == shifted_distance(board, a, b, ij.0, ij.1),
{
    assert forall|i: int, j: int|
        -1 <= i <= 1 && -1 <= j <= 1 implies torus_distance(board, a, b)
        <= #[trigger] shifted_distance(board, a, b, i, j) by {
        assert(torus_distance(board, a, b) <= min_over_rows(board, a, b, i));
    }
    let t = torus_distance(board, a, b);
    let i = if t == min_over_rows(board, a, b, -1) {
        -1int
    } else if t == min_over_rows(board, a, b, 0) {
        0int
    } else {
        1int
    };
    let m = min_over_rows(board, a, b, i);
    let j = if m == shifted_distance(board, a, b, i, -1) {
        -1int
    } else if m == shifted_distance(board, a, b, i, 0) {
        0int
    } else {
        1int
    };
    (i, j)
}

/// One step moves a cell by at most one column and one row.
proof fn lemma_step_near(c: Offset, d: Direction)
    requires
        fits_i32(axial_r(c)),
        can_step(offset_to_axial(c), d),
        fits_i32(offset_row(step_axial(offset_to_axial(c), d))),
    ensures
        c.col - 1 <= step_offset(c, d).col <= c.col + 1,
        c.row - 1 <= step_offset(c, d).row <= c.row + 1,
        (d == Direction::North || d == Direction::South) ==> step_offset(c, d).row != c.row,
        !(d == Direction::North || d == Direction::South) ==> step_offset(c, d).col != c.col,
{
}

/// Wrapping a coordinate at most one period off the range `0..m`.
proof fn lemma_wrap_one(x: int, m: int) -> (k: int)
    requires
        m > 0,
        -m <= x < 2 * m,
    ensures
        -1 <= k <= 1,
        mod_euclid(x, m) == x - k * m,
        k == 0 <==> 0 <= x < m,
{
    if x < 0 {
        vstd::arithmetic::div_mod::lemma_mod_add_multiples_vanish(x, m);
        vstd::arithmetic::div_mod::lemma_small_mod((x + m) as nat, m as nat);
        lemma_unit_mul(-1, m);
        -1
    } else if x >= m {
        vstd::arithmetic::div_mod::lemma_mod_sub_multiples_vanish(x, m);
        vstd::arithmetic::div_mod::lemma_small_mod((x - m) as nat, m as nat);
        lemma_unit_mul(1, m);
        1
    } else {
        vstd::arithmetic::div_mod::lemma_small_mod(x as nat, m as nat);
        lemma_unit_mul(0, m);
        0
    }
}

/// Distinct on-board cells are at distance at least one in every wrap
/// variant.
proof fn lemma_shifted_distance_positive(board: Board, a: Offset, b: Offset)
    requires
        board.wf(),
        board.distances_fit(),
        board.in_bounds(a),
        board.in_bounds(b),
        a != b,
    ensures
        forall|i: int, j: int|
            -1 <= i <= 1 && -1 <= j <= 1 ==> #[trigger] shifted_distance(board, a, b, i, j) >= 1,
{
    reveal(shifted_distance);
    let w = board.width as int;
    let h = board.height as int;
    assert forall|i: int, j: int| -1 <= i <= 1 && -1 <= j <= 1 implies #[trigger] shifted_distance(
        board,
        a,
        b,
        i,
        j,
    ) >= 1 by {
        let sh = shifted(board, b, i, j);
        lemma_unit_mul(i, w);
        lemma_unit_mul(j, h);
        lemma_near_pair_computable(board, a, sh);
        lemma_offset_distance_zero(a, sh);
    }
}

/// On a torus at least two cells wide and high, every cell has a neighbor in
/// every direction; it lies on the board, differs from the cell and is at
/// torus distance one.
pub proof fn lemma_periodic_neighbor(board: Board, c: Offset, d: Direction)
    requires
        board.boundary == BoundaryMode::Periodic,
        board.wf(),
        board.distances_fit(),
        board.width >= 2,
        board.height >= 2,
        board.in_bounds(c),
    ensures
        board.neighbor_of(c, d) is Some,
        board.in_bounds(board.neighbor_of(c, d).unwrap()),
        board.neighbor_of(c, d).unwrap() != c,
        board.dist(c, board.neighbor_of(c, d).unwrap()) == 1,
{
    reveal(shifted_distance);
    let w = board.width as int;
    let h = board.height as int;
    let a = offset_to_axial(c);
    let s = step_offset(c, d);
    let n = board.wrapped(s);
    lemma_neighbor_in_bounds(board, c, d);
    crate::coords::lemma_neighbor_distance_one(a, d);
    crate::coords::lemma_axial_offset_roundtrip(step_axial(a, d));
    lemma_step_near(c, d);
    let i = lemma_wrap_one(s.col as int, w);
    let j = lemma_wrap_one(s.row as int, h);
    lemma_unit_mul(i, w);
    lemma_unit_mul(j, h);
    assert(shifted(board, n, i, j) == s);
    assert(shifted_distance(board, c, n, i, j) == 1);
    assert(n != c);
    lemma_torus_min(board, c, n);
    lemma_shifted_distance_positive(board, c, n);
}

/// The torus distance never exceeds the plain hex distance.
pub proof fn lemma_torus_within_direct(board: Board, a: Offset, b: Offset)
    requires
        board.wf(),
        board.distances_fit(),
        board.in_bounds(a),
        board.in_bounds(b),
    ensures
        torus_distance(board, a, b) <= offset_distance(a, b),
{
    reveal(shifted_distance);
    lemma_torus_min(board, a, b);
    assert(shifted(board, b, 0, 0) == b);
    assert(shifted_distance(board, a, b, 0, 0) == offset_distance(a, b));
}

/// Shifting a cell by whole field sizes translates its axial coordinate,
/// when the width is even.
proof fn lemma_shift_translates(board: Board, b: Offset, i: int, j: int)
    requires
        board.wf(),
        board.distances_fit(),
        board.in_bounds(b),
        board.width % 2 == 0,
        -1 <= i <= 1,
        -1 <= j <= 1,
    ensures
        offset_to_axial(shifted(board, b, i, j)).q == offset_to_axial(b).q + i * board.width,
        offset_to_axial(shifted(board, b, i, j)).r == offset_to_axial(b).r + j * board.height - i
            * board.width / 2,
        fits_i32(axial_r(shifted(board, b, i, j))),
{
    let w = board.width as int;
    let h = board.height as int;
    lemma_unit_mul(i, w);
    lemma_unit_mul(j, h);
    if i == -1 {
        assert((b.col - w) / 2 == b.col / 2 - w / 2) by {
            vstd::arithmetic::div_mod::lemma_fundamental_div_mod(b.col as int, 2);
            vstd::arithmetic::div_mod::lemma_fundamental_div_mod(w, 2);
            vstd::arithmetic::div_mod::lemma_fundamental_div_mod_converse(
                b.col - w,
                2,
                b.col / 2 - w / 2,
                b.col as int % 2,
            );
        }
    } else if i == 1 {
        assert((b.col + w) / 2 == b.col / 2 + w / 2) by {
            vstd::arithmetic::div_mod::lemma_fundamental_div_mod(b.col as int, 2);
            vstd::arithmetic::div_mod::lemma_fundamental_div_mod(w, 2);
            vstd::arithmetic::div_mod::lemma_fundamental_div_mod_converse(
                b.col + w,
                2,
                b.col / 2 + w / 2,
                b.col as int % 2,
            );
        }
    }
}

/// Shifting the second cell one way is the same as shifting the first cell
/// the other way, when the width is even.
proof fn lemma_shift_symmetric(board: Board, a: Offset, b: Offset, i: int, j: int)
    requires
        board.wf(),
        board.distances_fit(),
        board.width % 2 == 0,
        board.in_bounds(a),
        board.in_bounds(b),
        -1 <= i <= 1,
        -1 <= j <= 1,
    ensures
        shifted_distance(board, a, b, i, j) == shifted_distance(board, b, a, -i, -j),
{
    reveal(shifted_distance);
    lemma_shift_translates(board, b, i, j);
    lemma_shift_translates(board, a, -i, -j);
    lemma_unit_mul(i, board.width as int);
    lemma_unit_mul(-i, board.width as int);
    lemma_unit_mul(j, board.height as int);
    lemma_unit_mul(-j, board.height as int);
    vstd::arithmetic::div_mod::lemma_fundamental_div_mod(board.width as int, 2);
}

/// On a torus of even width the distance is symmetric.
pub proof fn lemma_torus_symmetric(board: Board, a: Offset, b: Offset)
    requires
        board.wf(),
        board.distances_fit(),
        board.width % 2 == 0,
        board.in_bounds(a),
        board.in_bounds(b),
    ensures
        torus_distance(board, a, b) == torus_distance(board, b, a),
{
    let (i1, j1) = lemma_torus_min(board, a, b);
    let (i2, j2) = lemma_torus_min(board, b, a);
    lemma_shift_symmetric(board, a, b, i1, j1);
    lemma_shift_symmetric(board, a, b, -i2, -j2);
    assert(shifted_distance(board, b, a, -i1, -j1) >= torus_distance(board, b, a));
    assert(shifted_distance(board, a, b, -i2, -j2) >= torus_distance(board, a, b));
}

} // verus!

//! Hamiltonian cycles over the playing field and the cycle-following rider.
use vstd::prelude::*;

use crate::board::{step_offset, Board, BoundaryMode};
use crate::coords::{all_directions, Direction, Offset};
use crate::game::{view_wf, GameState, GameView, Status};
use crate::strategy::planner::{vacate_time, vacate_times};
use crate::strategy::{
    cell_index, doomed_move, has_safe_move, is_safe_move, lists_safe_moves, safe_moves, Strategy,
    StrategyDebug,
};

verus! {

/// Position `i` of the serpentine cycle on a `w × h` field: `(0, 0)` first,
/// then the columns `1..w` row by row in boustrophedon order, then column 0
/// back north.
pub open spec fn serpentine_at(w: int, h: int, i: int) -> Offset {
    if i == 0 {
        Offset { col: 0, row: 0 }
    } else if i <= h * (w - 1) {
        let k = i - 1;
        let row = k / (w - 1);
        let j = k % (w - 1);
        let col = if row % 2 == 0 { 1 + j } else { w - 1 - j };
        Offset { col: col as i32, row: row as i32 }
    } else {
        let t = i - h * (w - 1) - 1;
        Offset { col: 0, row: (h - 1 - t) as i32 }
    }
}

/// Position of a cell in the serpentine cycle (inverse of [`serpentine_at`]).
pub open spec fn serpentine_pos(w: int, h: int, c: Offset) -> int {
    if c.col == 0 {
        if c.row == 0 {
            0
        } else {
            h * (w - 1) + (h - c.row)
        }
    } else {
        let j = if c.row % 2 == 0 { c.col - 1 } else { w - 1 - c.col };
        c.row * (w - 1) + j + 1
    }
}

/// Dimensions for which the serpentine construction exists.
pub open spec fn serpentine_compatible(w: int, h: int) -> bool {
    w >= 2 && h >= 2 && h % 2 == 0
}

/// `order` visits every cell of `board` exactly once, and consecutive cells
/// (including last → first) are one step apart.
pub open spec fn is_hamiltonian_cycle(board: Board, order: Seq<Offset>) -> bool {
    &&& order.len() == board.cell_count()
    &&& forall|i: int| 0 <= i < order.len() ==> board.in_bounds(#[trigger] order[i])
    &&& order.no_duplicates()
    &&& forall|i: int|
        0 <= i < order.len() ==> board.adjacent(#[trigger] order[i], order[(i + 1) % (order.len() as int)])
}

/// Build a serpentine Hamiltonian cycle over the offset rectangle, or
/// `None` if the dimensions are incompatible.
///
/// Construction: column 0 is the northbound return lane; the remaining
/// columns are traversed row by row in boustrophedon order. This works on
/// the hex grid because a constant-`row` west–east walk exists (alternating
/// SE/NE steps in "odd-q" layout) and N/S steps stay in their column.
/// Requires an even number of rows.
pub fn serpentine_cycle(width: i32, height: i32) -> (r: Option<Vec<Offset>>)
    requires
        serpentine_compatible(width as int, height as int) ==> width * height <= i32::MAX,
    ensures
        r is Some <==> serpentine_compatible(width as int, height as int),
        r matches Some(cycle) ==> cycle@.len() == width * height && forall|i: int|
            0 <= i < cycle@.len() ==> #[trigger] cycle@[i] == serpentine_at(
                width as int,
                height as int,
                i,
            ),
{
    if width < 2 || height < 2 || height % 2 != 0 {
        return None;
    }
    let ghost w = width as int;
    let ghost h = height as int;
    let mut cycle: Vec<Offset> = Vec::new();
    cycle.push(Offset::new(0, 0));
    let mut row: i32 = 0;
    while row < height
        invariant
            2 <= width,
            2 <= height,
            w == width,
            h == height,
            0 <= row <= height,
            cycle@.len() == 1 + row * (w - 1),
            forall|i: int| 0 <= i < cycle@.len() ==> #[trigger] cycle@[i] == serpentine_at(w, h, i),
        decreases height - row,
    {
        let mut step: i32 = 0;
        while step < width - 1
            invariant
                2 <= width,
                2 <= height,
                w == width,
                h == height,
                0 <= row < height,
                0 <= step <= width - 1,
                cycle@.len() == 1 + row * (w - 1) + step,
                forall|i: int|
                    0 <= i < cycle@.len() ==> #[trigger] cycle@[i] == serpentine_at(w, h, i),
            decreases width - 1 - step,
        {
            let col = if row % 2 == 0 { 1 + step } else { width - 1 - step };
            proof {
                lemma_serpentine_middle(w, h, row as int, step as int);
            }
            cycle.push(Offset::new(col, row));
            step += 1;
        }
        proof {
            assert(1 + row * (w - 1) + (w - 1) == 1 + (row + 1) * (w - 1)) by (nonlinear_arith);
        }
        row += 1;
    }
    let mut back: i32 = height - 1;
    while back >= 1
        invariant
            2 <= width,
            2 <= height,
            w == width,
            h == height,
            0 <= back <= height - 1,
            cycle@.len() == 1 + h * (w - 1) + (h - 1 - back),
            forall|i: int| 0 <= i < cycle@.len() ==> #[trigger] cycle@[i] == serpentine_at(w, h, i),
        decreases back,
    {
        proof {
            assert(h * (w - 1) >= 0) by (nonlinear_arith)
                requires
                    h >= 2,
                    w >= 2,
            ;
        }
        cycle.push(Offset::new(0, back));
        back -= 1;
    }
    proof {
        assert(1 + h * (w - 1) + (h - 1) == w * h) by (nonlinear_arith);
    }
    Some(cycle)
}

/// The middle stretch of the serpentine: step `step` of row `row`.
proof fn lemma_serpentine_middle(w: int, h: int, row: int, step: int)
    requires
        w >= 2,
        h >= 2,
        0 <= row < h,
        0 <= step < w - 1,
    ensures
        serpentine_at(w, h, 1 + row * (w - 1) + step) == (Offset {
            col: (if row % 2 == 0 { 1 + step } else { w - 1 - step }) as i32,
            row: row as i32,
        }),
        1 + row * (w - 1) + step <= h * (w - 1),
{
    vstd::arithmetic::div_mod::lemma_fundamental_div_mod_converse(
        row * (w - 1) + step,
        w - 1,
        row,
        step,
    );
    assert(row * (w - 1) + step < h * (w - 1)) by (nonlinear_arith)
        requires
            0 <= row < h,
            0 <= step < w - 1,
    ;
}

/// One step from an on-board cell in offset terms: the column moves by the
/// axial `dq`, the row by `dr` plus the parity correction of the odd-q layout.
pub proof fn lemma_step_offset_formula(c: Offset, d: Direction)
    requires
        0 <= c.col < i32::MAX,
        0 <= c.row < i32::MAX,
    ensures
        step_offset(c, d) == (Offset {
            col: (c.col + crate::coords::delta_q(d)) as i32,
            row: (c.row + crate::coords::delta_r(d) + (c.col + crate::coords::delta_q(d)) / 2 - c.col
                / 2) as i32,
        }),
{
}

/// A step that lands on the board makes the two cells adjacent, whatever the
/// boundary mode.
pub proof fn lemma_step_adjacent(board: Board, a: Offset, b: Offset, d: Direction)
    requires
        board.wf(),
        board.in_bounds(a),
        board.in_bounds(b),
        step_offset(a, d) == b,
    ensures
        board.adjacent(a, b),
{
    crate::board::lemma_wrap_in_bounds(board, b);
    assert(board.neighbor_of(a, d) == Some(b));
}

/// Every cell of the field appears in the serpentine, at [`serpentine_pos`].
pub proof fn lemma_serpentine_onto(w: int, h: int, c: Offset)
    requires
        serpentine_compatible(w, h),
        w * h <= i32::MAX,
        0 <= c.col < w,
        0 <= c.row < h,
    ensures
        0 <= serpentine_pos(w, h, c) < w * h,
        serpentine_at(w, h, serpentine_pos(w, h, c)) == c,
{
    assert(h * (w - 1) + h == w * h) by (nonlinear_arith);
    if c.col == 0 {
        if c.row != 0 {
            assert(h * (w - 1) >= 0) by (nonlinear_arith)
                requires
                    h >= 2,
                    w >= 2,
            ;
        }
    } else {
        let row = c.row as int;
        let j = if row % 2 == 0 { c.col - 1 } else { w - 1 - c.col };
        assert(0 <= j < w - 1);
        lemma_serpentine_middle(w, h, row, j);
    }
}

/// Every position of the serpentine lies on the field.
proof fn lemma_serpentine_in_bounds(w: int, h: int, i: int)
    requires
        serpentine_compatible(w, h),
        w * h <= i32::MAX,
        0 <= i < w * h,
    ensures
        0 <= serpentine_at(w, h, i).col < w,
        0 <= serpentine_at(w, h, i).row < h,
        serpentine_pos(w, h, serpentine_at(w, h, i)) == i,
{
    assert(h <= i32::MAX && w <= i32::MAX && w * h == h * (w - 1) + h) by (nonlinear_arith)
        requires
            w * h <= i32::MAX,
            w >= 2,
            h >= 2,
    ;
    if i == 0 {
    } else if i <= h * (w - 1) {
        let k = i - 1;
        vstd::arithmetic::div_mod::lemma_fundamental_div_mod(k, w - 1);
        vstd::arithmetic::div_mod::lemma_mod_pos_bound(k, w - 1);
        let row = k / (w - 1);
        let j = k % (w - 1);
        assert(0 <= row < h) by (nonlinear_arith)
            requires
                k == (w - 1) * row + j,
                0 <= j < w - 1,
                0 <= k < h * (w - 1),
                w >= 2,
        ;
        assert(row * (w - 1) == (w - 1) * row) by (nonlinear_arith);
    } else {
        assert(h * (w - 1) + h == w * h) by (nonlinear_arith);
    }
}

/// Consecutive serpentine positions (cyclically) are one step apart.
proof fn lemma_serpentine_adjacent(board: Board, i: int)
    requires
        serpentine_compatible(board.width as int, board.height as int),
        board.width * board.height <= i32::MAX,
        0 <= i < board.width * board.height,
    ensures
        board.adjacent(
            serpentine_at(board.width as int, board.height as int, i),
            serpentine_at(
                board.width as int,
                board.height as int,
                (i + 1) % (board.width * board.height),
            ),
        ),
{
    let w = board.width as int;
    let h = board.height as int;
    let n = w * h;
    let a = serpentine_at(w, h, i);
    let next = if i + 1 < n { i + 1 } else { 0 };
    if i + 1 < n {
        vstd::arithmetic::div_mod::lemma_small_mod((i + 1) as nat, n as nat);
    } else {
        vstd::arithmetic::div_mod::lemma_mod_self_0(n);
    }
    assert((i + 1) % n == next);
    lemma_serpentine_in_bounds(w, h, i);
    lemma_serpentine_in_bounds(w, h, next);
    let b = serpentine_at(w, h, next);
    lemma_step_offset_formula(a, Direction::North);
    assert(h * (w - 1) + h == n) by (nonlinear_arith)
        requires
            n == w * h,
    ;
    if i == 0 {
        lemma_serpentine_middle(w, h, 0, 0);
        lemma_step_offset_formula(a, Direction::SouthEast);
        lemma_step_adjacent(board, a, b, Direction::SouthEast);
    } else if i < h * (w - 1) {
        let k = i - 1;
        vstd::arithmetic::div_mod::lemma_fundamental_div_mod(k, w - 1);
        vstd::arithmetic::div_mod::lemma_mod_pos_bound(k, w - 1);
        let row = k / (w - 1);
        let j = k % (w - 1);
        assert(0 <= row < h) by (nonlinear_arith)
            requires
                k == (w - 1) * row + j,
                0 <= j < w - 1,
                0 <= k < h * (w - 1),
                w >= 2,
        ;
        assert(k == row * (w - 1) + j) by (nonlinear_arith)
            requires
                k == (w - 1) * row + j,
        ;
        lemma_serpentine_middle(w, h, row, j);
        if j < w - 2 {
            lemma_serpentine_middle(w, h, row, j + 1);
            let c = a.col as int;
            if row % 2 == 0 {
                if c % 2 == 0 {
                    lemma_step_offset_formula(a, Direction::SouthEast);
                    lemma_step_adjacent(board, a, b, Direction::SouthEast);
                } else {
                    lemma_step_offset_formula(a, Direction::NorthEast);
                    lemma_step_adjacent(board, a, b, Direction::NorthEast);
                }
            } else {
                if c % 2 == 0 {
                    lemma_step_offset_formula(a, Direction::SouthWest);
                    lemma_step_adjacent(board, a, b, Direction::SouthWest);
                } else {
                    lemma_step_offset_formula(a, Direction::NorthWest);
                    lemma_step_adjacent(board, a, b, Direction::NorthWest);
                }
            }
        } else {
            assert(row + 1 < h) by (nonlinear_arith)
                requires
                    k == row * (w - 1) + j,
                    j == w - 2,
                    k + 1 < h * (w - 1),
                    w >= 2,
            ;
            lemma_serpentine_middle(w, h, row + 1, 0);
            assert(1 + (row + 1) * (w - 1) + 0 == i + 1) by (nonlinear_arith)
                requires
                    i == k + 1,
                    k == row * (w - 1) + j,
                    j == w - 2,
            ;
            lemma_step_offset_formula(a, Direction::South);
            lemma_step_adjacent(board, a, b, Direction::South);
        }
    } else if i == h * (w - 1) {
        let k = i - 1;
        assert(k == (h - 1) * (w - 1) + (w - 2)) by (nonlinear_arith)
            requires
                k == h * (w - 1) - 1,
        ;
        lemma_serpentine_middle(w, h, h - 1, w - 2);
        lemma_step_offset_formula(a, Direction::NorthWest);
        lemma_step_adjacent(board, a, b, Direction::NorthWest);
    } else {
        lemma_step_adjacent(board, a, b, Direction::North);
    }
}

/// The serpentine construction is a Hamiltonian cycle of the field, for
/// either boundary mode.
pub proof fn lemma_serpentine_is_hamiltonian(board: Board)
    requires
        serpentine_compatible(board.width as int, board.height as int),
        board.width * board.height <= i32::MAX,
    ensures
        is_hamiltonian_cycle(
            board,
            Seq::new(
                (board.width * board.height) as nat,
                |i: int| serpentine_at(board.width as int, board.height as int, i),
            ),
        ),
{
    let w = board.width as int;
    let h = board.height as int;
    let order = Seq::new((w * h) as nat, |i: int| serpentine_at(w, h, i));
    assert forall|i: int| 0 <= i < order.len() implies board.in_bounds(#[trigger] order[i]) by {
        lemma_serpentine_in_bounds(w, h, i);
    }
    assert forall|i: int, j: int|
        0 <= i < order.len() && 0 <= j < order.len() && i != j implies order[i] != order[j] by {
        lemma_serpentine_in_bounds(w, h, i);
        lemma_serpentine_in_bounds(w, h, j);
    }
    assert forall|i: int| 0 <= i < order.len() implies board.adjacent(
        #[trigger] order[i],
        order[(i + 1) % (order.len() as int)],
    ) by {
        lemma_serpentine_adjacent(board, i);
        vstd::arithmetic::div_mod::lemma_mod_pos_bound(i + 1, w * h);
    }
}

/// Check that `order` is a valid Hamiltonian cycle over `board`: every
/// cell exactly once, consecutive cells (and last→first) neighbors.
pub fn assert_valid_cycle_order(board: &Board, order: &Vec<Offset>) -> (ok: bool)
    requires
        board.wf(),
        board.cell_count() <= i32::MAX,
    ensures
        ok == is_hamiltonian_cycle(*board, order@),
{
    let n = board.num_cells();
    if order.len() != n {
        return false;
    }
    let mut seen: Vec<bool> = Vec::new();
    let mut t: usize = 0;
    while t < n
        invariant
            0 <= t <= n,
            seen@.len() == t,
            forall|j: int| 0 <= j < t ==> !(#[trigger] seen@[j]),
        decreases n - t,
    {
        seen.push(false);
        t += 1;
    }
    proof {
        assert forall|c: Offset| board.in_bounds(c) implies (seen@[board.index_of(c)] <==> order@.subrange(
            0,
            0,
        ).contains(c)) by {
            crate::board::lemma_index_in_range(*board, c);
        }
    }
    let mut i: usize = 0;
    while i < order.len()
        invariant
            board.wf(),
            board.cell_count() <= i32::MAX,
            n as int == board.cell_count(),
            order@.len() == n,
            seen@.len() == n,
            0 <= i <= n,
            forall|j: int| 0 <= j < i ==> board.in_bounds(#[trigger] order@[j]),
            order@.subrange(0, i as int).no_duplicates(),
            forall|c: Offset|
                board.in_bounds(c) ==> (seen@[board.index_of(c)] <==> order@.subrange(
                    0,
                    i as int,
                ).contains(c)),
        decreases n - i,
    {
        let cell = order[i];
        if !board.contains(cell) {
            return false;
        }
        let idx = cell_index(board, cell);
        if seen[idx] {
            proof {
                let w = choose|w: int| 0 <= w < i && order@.subrange(0, i as int)[w] == cell;
                assert(order@[w] == cell);
            }
            return false;
        }
        let ghost before = seen@;
        seen.set(idx, true);
        proof {
            let pre = order@.subrange(0, i as int);
            let post = order@.subrange(0, i + 1);
            assert(post =~= pre.push(cell));
            assert forall|c: Offset| board.in_bounds(c) implies (seen@[board.index_of(c)] <==> post.contains(c)) by {
                crate::board::lemma_index_injective(*board, c, cell);
                crate::board::lemma_index_in_range(*board, c);
                if pre.contains(c) {
                    let w = choose|w: int| 0 <= w < pre.len() && pre[w] == c;
                    assert(post[w] == c);
                }
                if post.contains(c) && c != cell {
                    let w = choose|w: int| 0 <= w < post.len() && post[w] == c;
                    assert(pre[w] == c);
                }
                if c == cell {
                    assert(post[i as int] == c);
                }
            }
        }
        i += 1;
    }
    proof {
        assert(order@.subrange(0, n as int) =~= order@);
    }
    let dirs = Direction::all();
    let len = order.len();
    let mut i: usize = 0;
    while i < len
        invariant
            board.wf(),
            board.cell_count() <= i32::MAX,
            n as int == board.cell_count(),
            len == n,
            order@.len() == n,
            dirs@ == all_directions(),
            0 <= i <= len,
            forall|j: int| 0 <= j < len ==> board.in_bounds(#[trigger] order@[j]),
            forall|j: int|
                0 <= j < i ==> board.adjacent(#[trigger] order@[j], order@[(j + 1) % (len as int)]),
        decreases len - i,
    {
        let a = order[i];
        let b = order[(i + 1) % len];
        let mut found = false;
        let mut t: usize = 0;
        while t < 6
            invariant
                board.wf(),
                board.in_bounds(a),
                dirs@ == all_directions(),
                0 <= t <= 6,
                found ==> board.adjacent(a, b),
                !found ==> forall|s: int| 0 <= s < t ==> board.neighbor_of(a, #[trigger] all_directions()[s]) != Some(b),
            decreases 6 - t,
        {
            if !found && board.neighbor(a, dirs[t]) == Some(b) {
                found = true;
            }
            t += 1;
        }
        if !found {
            proof {
                assert forall|d: Direction| #[trigger] board.neighbor_of(a, d) != Some(b) by {
                    assert(all_directions()[crate::coords::dir_index(d)] == d);
                }
                assert(!board.adjacent(order@[i as int], order@[(i + 1) % (len as int)]));
            }
            return false;
        }
        i += 1;
    }
    true
}

/// How many cells of the upcoming cycle the debug overlay shows.
pub const DEBUG_PATH_LEN: usize = 24;

/// Extra ticks of clearance when checking a shortcut against the snake's
/// vacate times; absorbs growth from food eaten along the way.
pub const SHORTCUT_SAFETY_MARGIN: u32 = 2;

/// Cycle steps from position `from` to position `to` in cycle direction.
pub open spec fn cyclic_offset_spec(len: int, from: int, to: int) -> int {
    (to + len - from) % len
}

/// Cycle steps from `from` to `to` in cycle direction.
pub fn cyclic_offset(len: usize, from: usize, to: usize) -> (r: usize)
    requires
        0 < len <= i32::MAX,
        from < len,
        to < len,
    ensures
        r as int == cyclic_offset_spec(len as int, from as int, to as int),
        r < len,
{
    (to + len - from) % len
}

/// The shortcut to cycle position `target` is safe: the cell reached after
/// `k` further cycle steps (entered at tick `1 + k`) is free by then, with
/// the safety margin, for every `k` up to the snake length plus the margin.
pub open spec fn shortcut_safe_spec(
    board: Board,
    cycle: Seq<Offset>,
    target: int,
    vacate: Seq<u32>,
    snake_len: int,
) -> bool {
    forall|k: int|
        0 <= k <= snake_len + SHORTCUT_SAFETY_MARGIN ==> {
            let vacates = #[trigger] vacate[board.index_of(cycle[(target + k) % cycle.len() as int])];
            !(vacates != 0 && 1 + k < vacates + SHORTCUT_SAFETY_MARGIN)
        }
}

/// A shortcut is safe exactly when each cell of the lookahead is free now
/// or is left by the body at least the margin before the snake, following
/// the cycle, enters it; in particular a lookahead of free cells is safe.
pub proof fn lemma_shortcut_safety(board: Board, cycle: Seq<Offset>, target: int, vacate: Seq<u32>, snake_len: int)
    ensures
        shortcut_safe_spec(board, cycle, target, vacate, snake_len) <==> forall|k: int|
            0 <= k <= snake_len + SHORTCUT_SAFETY_MARGIN ==> (#[trigger] vacate[board.index_of(
                cycle[(target + k) % cycle.len() as int],
            )] == 0 || vacate[board.index_of(cycle[(target + k) % cycle.len() as int])]
                + SHORTCUT_SAFETY_MARGIN <= 1 + k),
        (forall|k: int|
            0 <= k <= snake_len + SHORTCUT_SAFETY_MARGIN ==> #[trigger] vacate[board.index_of(
                cycle[(target + k) % cycle.len() as int],
            )] == 0) ==> shortcut_safe_spec(board, cycle, target, vacate, snake_len),
{
}

/// Is jumping to cycle position `target` safe? We assume the snake then
/// follows the plain cycle: the cell reached after `k` further steps is
/// entered at tick `1 + k`, which must be at or after the tick the body
/// vacates it (plus a safety margin for growth). `cycle` is the cycle in
/// order; `vacate[cell]` is the tick a body cell frees (0 = free).
pub fn shortcut_is_safe(
    board: &Board,
    cycle: &Vec<Offset>,
    target: usize,
    vacate: &Vec<u32>,
    snake_len: usize,
) -> (r: bool)
    requires
        board.wf(),
        board.cell_count() <= i32::MAX,
        0 < cycle@.len() <= i32::MAX,
        forall|i: int| 0 <= i < cycle@.len() ==> board.in_bounds(#[trigger] cycle@[i]),
        target < cycle@.len(),
        vacate@.len() == board.cell_count(),
        snake_len + SHORTCUT_SAFETY_MARGIN <= u32::MAX,
    ensures
        r == shortcut_safe_spec(*board, cycle@, target as int, vacate@, snake_len as int),
        r <==> forall|k: int|
            0 <= k <= snake_len + SHORTCUT_SAFETY_MARGIN ==> (#[trigger] vacate@[board.index_of(
                cycle@[(target + k) % cycle@.len() as int],
            )] == 0 || vacate@[board.index_of(cycle@[(target + k) % cycle@.len() as int])]
                + SHORTCUT_SAFETY_MARGIN <= 1 + k),
        (forall|k: int|
            0 <= k <= snake_len + SHORTCUT_SAFETY_MARGIN ==> #[trigger] vacate@[board.index_of(
                cycle@[(target + k) % cycle@.len() as int],
            )] == 0) ==> r,
{
    let lookahead = snake_len as u32 + SHORTCUT_SAFETY_MARGIN;
    let len = cycle.len();
    let mut k: u32 = 0;
    while k <= lookahead
        invariant
            board.wf(),
            board.cell_count() <= i32::MAX,
            len == cycle@.len(),
            0 < len <= i32::MAX,
            forall|i: int| 0 <= i < cycle@.len() ==> board.in_bounds(#[trigger] cycle@[i]),
            target < len,
            vacate@.len() == board.cell_count(),
            lookahead == snake_len + SHORTCUT_SAFETY_MARGIN,
            0 <= k <= lookahead + 1,
            forall|j: int|
                0 <= j < k ==> {
                    let vacates = #[trigger] vacate@[board.index_of(cycle@[(target + j) % len as int])];
                    !(vacates != 0 && 1 + j < vacates + SHORTCUT_SAFETY_MARGIN)
                },
        decreases lookahead + 1 - k,
    {
        let pos = ((target as u64 + k as u64) % (len as u64)) as usize;
        let cell = cycle[pos];
        let vacates = vacate[cell_index(board, cell)];
        if vacates != 0 && 1 + (k as u64) < vacates as u64 + SHORTCUT_SAFETY_MARGIN as u64 {
            return false;
        }
        if k == lookahead {
            return true;
        }
        k += 1;
    }
    true
}

/// Cycle position of a cell according to the position table.
pub open spec fn pos_of(board: Board, position: Seq<usize>, c: Offset) -> int {
    position[board.index_of(c)] as int
}

/// Cycle steps from the head to the cell a move enters.
pub open spec fn move_offset(v: GameView, len: int, position: Seq<usize>, d: Direction) -> int {
    cyclic_offset_spec(
        len,
        pos_of(v.board, position, v.snake[0]),
        pos_of(v.board, position, v.board.neighbor_of(v.snake[0], d).unwrap()),
    )
}

/// Cycle steps from the head to the food.
pub open spec fn food_offset(v: GameView, len: int, position: Seq<usize>) -> int {
    cyclic_offset_spec(
        len,
        pos_of(v.board, position, v.snake[0]),
        pos_of(v.board, position, v.food),
    )
}

/// The vacate table of a state, indexed by cell.
pub open spec fn vacate_table(v: GameView) -> Seq<u32> {
    Seq::new(v.board.cell_count() as nat, |i: int| vacate_time(v, v.board.cell_at(i)) as u32)
}

/// A move the rider may take: safe, forward along the cycle but not beyond
/// the food, and either the plain successor or a shortcut that is allowed
/// (the board is mostly empty) and safe.
pub open spec fn rider_candidate(v: GameView, cycle: Seq<Offset>, position: Seq<usize>, d: Direction) -> bool {
    let len = cycle.len() as int;
    let off = move_offset(v, len, position, d);
    &&& is_safe_move(v, d)
    &&& 0 < off <= food_offset(v, len, position)
    &&& off > 1 ==> v.snake.len() * 2 < v.board.cell_count() && shortcut_safe_spec(
        v.board,
        cycle,
        pos_of(v.board, position, v.board.neighbor_of(v.snake[0], d).unwrap()),
        vacate_table(v),
        v.snake.len() as int,
    )
}

/// The tables of a cycle over `board`: the cycle lists on-board cells, the
/// position table has an entry below the cycle length for every cell.
pub open spec fn cycle_tables(board: Board, cycle: Seq<Offset>, position: Seq<usize>) -> bool {
    &&& cycle.len() == board.cell_count()
    &&& position.len() == board.cell_count()
    &&& forall|i: int| 0 <= i < cycle.len() ==> board.in_bounds(#[trigger] cycle[i])
    &&& forall|i: int| 0 <= i < position.len() ==> #[trigger] position[i] < cycle.len()
}

/// The rider's choice: the candidate furthest along the cycle (the first in
/// clockwise order among equals); without a candidate, the safe move onto
/// the cycle successor; then any safe move; straight ahead as a last resort.
pub open spec fn rider_choice(v: GameView, cycle: Seq<Offset>, position: Seq<usize>, d: Direction) -> bool {
    let len = cycle.len() as int;
    let succ = cycle[(pos_of(v.board, position, v.snake[0]) + 1) % len];
    if exists|e: Direction| #[trigger] rider_candidate(v, cycle, position, e) {
        &&& rider_candidate(v, cycle, position, d)
        &&& forall|e: Direction|
            #[trigger] rider_candidate(v, cycle, position, e) ==> move_offset(v, len, position, e)
                <= move_offset(v, len, position, d)
    } else if exists|e: Direction|
        #[trigger] is_safe_move(v, e) && v.board.neighbor_of(v.snake[0], e) == Some(succ) {
        is_safe_move(v, d) && v.board.neighbor_of(v.snake[0], d) == Some(succ)
    } else if has_safe_move(v) {
        is_safe_move(v, d)
    } else {
        d == v.direction
    }
}

/// The overlay after the rider's decision: the next cycle stretch from the
/// entered cell when the move follows the cycle (a candidate or the cycle
/// successor), nothing otherwise.
pub open spec fn rider_debug_path(v: GameView, cycle: Seq<Offset>, position: Seq<usize>, d: Direction) -> Seq<Offset> {
    let len = cycle.len() as int;
    let succ = cycle[(pos_of(v.board, position, v.snake[0]) + 1) % len];
    let p = pos_of(v.board, position, v.board.neighbor_of(v.snake[0], d).unwrap());
    if (exists|e: Direction| #[trigger] rider_candidate(v, cycle, position, e)) || (exists|e: Direction|
        #[trigger] is_safe_move(v, e) && v.board.neighbor_of(v.snake[0], e) == Some(succ)) {
        Seq::new(DEBUG_PATH_LEN as nat, |k: int| cycle[(p + k) % len])
    } else {
        Seq::empty()
    }
}

/// Follow the given Hamiltonian cycle from the head, taking a provably safe
/// shortcut when one exists. `cycle` is the cell sequence in cycle order;
/// `position[cell_index]` is each cell's index in that sequence. Fills
/// `debug.path` with the upcoming cycle stretch.
#[verifier::rlimit(40)]
#[verifier::spinoff_prover]
pub fn ride_cycle(
    state: &GameState,
    cycle: &Vec<Offset>,
    position: &Vec<usize>,
    debug: &mut StrategyDebug,
) -> (d: Direction)
    requires
        state.wf(),
        state@.snake.len() < u32::MAX - 2,
        cycle_tables(state@.board, cycle@, position@),
    ensures
        rider_choice(state@, cycle@, position@, d),
        final(debug).path@ == rider_debug_path(state@, cycle@, position@, d),
        final(debug).heatmap@ == old(debug).heatmap@,
{
    let ghost v = state@;
    proof {
        state.lemma_wf_view();
    }
    let board = state.board();
    let n = board.num_cells();
    let len = cycle.len();
    let head = state.head();
    let head_pos = position[cell_index(board, head)];
    let food_pos = position[cell_index(board, state.food())];
    let food_off = cyclic_offset(len, head_pos, food_pos);
    let vacate = vacate_times(state);
    proof {
        assert(vacate@ =~= vacate_table(v)) by {
            assert forall|i: int| 0 <= i < vacate@.len() implies vacate@[i] == vacate_table(v)[i] by {
                crate::board::lemma_cell_at_in_bounds(v.board, i);
            }
        }
    }
    let snake_len = state.snake_len();
    let shortcuts_allowed = (snake_len as u64) * 2 < n as u64;
    let moves = safe_moves(state);
    let mut best: Option<(Direction, usize)> = None;
    let mut i: usize = 0;
    while i < moves.len()
        invariant
            v == state@,
            view_wf(v),
            *board == v.board,
            n as int == v.board.cell_count(),
            len == cycle@.len(),
            cycle_tables(v.board, cycle@, position@),
            head == v.snake[0],
            head_pos < len,
            head_pos as int == pos_of(v.board, position@, head),
            food_off as int == food_offset(v, len as int, position@),
            vacate@ == vacate_table(v),
            snake_len == v.snake.len(),
            shortcuts_allowed == (v.snake.len() * 2 < v.board.cell_count()),
            v.snake.len() < u32::MAX - 2,
            lists_safe_moves(v, moves@),
            0 <= i <= moves@.len(),
            best matches Some(b) ==> rider_candidate(v, cycle@, position@, b.0) && b.1 as int
                == move_offset(v, len as int, position@, b.0),
            best is None ==> forall|j: int|
                0 <= j < i ==> !rider_candidate(v, cycle@, position@, #[trigger] moves@[j].0),
            best matches Some(b) ==> forall|j: int|
                0 <= j < i && rider_candidate(v, cycle@, position@, #[trigger] moves@[j].0)
                    ==> move_offset(v, len as int, position@, moves@[j].0) <= b.1,
        decreases moves@.len() - i,
    {
        let dir = moves[i].0;
        let cell = moves[i].1;
        proof {
            assert(is_safe_move(v, moves@[i as int].0));
            crate::board::lemma_neighbor_in_bounds(v.board, v.snake[0], dir);
        }
        let target = position[cell_index(board, cell)];
        let offset = cyclic_offset(len, head_pos, target);
        let candidate = if offset == 0 || offset > food_off {
            false
        } else if offset > 1 {
            shortcuts_allowed && shortcut_is_safe(board, cycle, target, &vacate, snake_len)
        } else {
            true
        };
        if candidate {
            let better = match best {
                None => true,
                Some((_, o)) => offset > o,
            };
            if better {
                best = Some((dir, offset));
            }
        }
        i += 1;
    }
    let succ = cycle[(head_pos + 1) % len];
    let chosen: Option<Direction> = match best {
        Some((dir, _)) => Some(dir),
        None => {
            let mut found: Option<Direction> = None;
            let mut j: usize = 0;
            while j < moves.len()
                invariant
                    lists_safe_moves(v, moves@),
                    0 <= j <= moves@.len(),
                    found matches Some(f) ==> is_safe_move(v, f) && v.board.neighbor_of(v.snake[0], f)
                        == Some(succ),
                    found is None ==> forall|k: int|
                        0 <= k < j ==> (#[trigger] moves@[k]).1 != succ,
                decreases moves@.len() - j,
            {
                if found.is_none() && moves[j].1 == succ {
                    found = Some(moves[j].0);
                }
                j += 1;
            }
            found
        },
    };
    // Debug: show the upcoming stretch of the cycle.
    debug.path.clear();
    match chosen {
        Some(dir) => {
            match board.neighbor(head, dir) {
                Some(cell) => {
                    proof {
                        crate::board::lemma_neighbor_in_bounds(v.board, v.snake[0], dir);
                    }
                    let p0 = position[cell_index(board, cell)];
                    let mut pos = p0;
                    proof {
                        vstd::arithmetic::div_mod::lemma_small_mod(p0 as nat, len as nat);
                    }
                    let mut k: usize = 0;
                    while k < DEBUG_PATH_LEN
                        invariant
                            len == cycle@.len(),
                            len > 1,
                            len <= i32::MAX,
                            debug.heatmap@ == old(debug).heatmap@,
                            p0 < len,
                            0 <= k <= DEBUG_PATH_LEN,
                            pos as int == (p0 + k) % (len as int),
                            debug.path@ =~= Seq::new(k as nat, |j: int| cycle@[(p0 + j) % (len as int)]),
                        decreases DEBUG_PATH_LEN - k,
                    {
                        proof {
                            vstd::arithmetic::div_mod::lemma_mod_bound(p0 + k, len as int);
                        }
                        debug.path.push(cycle[pos]);
                        proof {
                            vstd::arithmetic::div_mod::lemma_add_mod_noop(p0 + k, 1, len as int);
                            vstd::arithmetic::div_mod::lemma_small_mod(1, len as nat);
                        }
                        pos = (pos + 1) % len;
                        k += 1;
                    }
                },
                None => {},
            }
        },
        None => {},
    }
    match chosen {
        Some(dir) => {
            proof {
                if best is None {
                    assert forall|e: Direction| !rider_candidate(v, cycle@, position@, e) by {
                        if rider_candidate(v, cycle@, position@, e) {
                            let k = choose|k: int| 0 <= k < moves@.len() && moves@[k].0 == e;
                            assert(!rider_candidate(v, cycle@, position@, moves@[k].0));
                        }
                    }
                } else {
                    assert forall|e: Direction| #[trigger] rider_candidate(v, cycle@, position@, e) implies move_offset(
                        v,
                        len as int,
                        position@,
                        e,
                    ) <= move_offset(v, len as int, position@, dir) by {
                        let k = choose|k: int| 0 <= k < moves@.len() && moves@[k].0 == e;
                        assert(rider_candidate(v, cycle@, position@, moves@[k].0));
                    }
                }
            }
            dir
        },
        None => {
            proof {
                assert forall|e: Direction| !rider_candidate(v, cycle@, position@, e) by {
                    if rider_candidate(v, cycle@, position@, e) {
                        let k = choose|k: int| 0 <= k < moves@.len() && moves@[k].0 == e;
                        assert(!rider_candidate(v, cycle@, position@, moves@[k].0));
                    }
                }
                assert forall|e: Direction|
                    !(#[trigger] is_safe_move(v, e) && v.board.neighbor_of(v.snake[0], e) == Some(succ)) by {
                    if is_safe_move(v, e) && v.board.neighbor_of(v.snake[0], e) == Some(succ) {
                        let k = choose|k: int| 0 <= k < moves@.len() && moves@[k].0 == e;
                        assert(moves@[k].1 != succ);
                    }
                }
            }
            if moves.len() > 0 {
                proof {
                    assert(is_safe_move(v, moves@[0].0));
                }
                moves[0].0
            } else {
                proof {
                    assert forall|e: Direction| !is_safe_move(v, e) by {
                        if is_safe_move(v, e) {
                            let k = choose|k: int| 0 <= k < moves@.len() && moves@[k].0 == e;
                        }
                    }
                }
                doomed_move(state)
            }
        },
    }
}

/// Hamiltonian-cycle follower with shortcuts: in principle it can never
/// die; shortcuts along the cycle order keep it from taking forever.
pub struct HamiltonRider {
    cycle: Vec<Offset>,
    /// Cell index → position in the cycle.
    position: Vec<usize>,
    debug: StrategyDebug,
}

impl HamiltonRider {
    /// The cycle the rider follows.
    /// What the overlay shows of the last decision.
    pub closed spec fn debug_view(&self) -> StrategyDebug {
        self.debug
    }

    pub closed spec fn cycle_view(&self) -> Seq<Offset> {
        self.cycle@
    }

    /// Cell index → position in the cycle.
    pub closed spec fn position_view(&self) -> Seq<usize> {
        self.position@
    }

    /// Whether the serpentine construction exists for these dimensions.
    pub fn compatible(width: i32, height: i32) -> (r: bool)
        requires
            serpentine_compatible(width as int, height as int) ==> width * height <= i32::MAX,
        ensures
            r == serpentine_compatible(width as int, height as int),
    {
        serpentine_cycle(width, height).is_some()
    }

    /// `None` if the board dimensions are incompatible (odd height).
    pub fn new(board: &Board) -> (r: Option<Self>)
        requires
            board.wf(),
            board.cell_count() <= i32::MAX,
        ensures
            r is Some <==> serpentine_compatible(board.width as int, board.height as int),
            r matches Some(h) ==> {
                &&& cycle_tables(*board, h.cycle_view(), h.position_view())
                &&& is_hamiltonian_cycle(*board, h.cycle_view())
                &&& forall|i: int|
                    0 <= i < h.cycle_view().len() ==> h.position_view()[board.index_of(
                        #[trigger] h.cycle_view()[i],
                    )] == i
            },
    {
        let cycle = match serpentine_cycle(board.width, board.height) {
            Some(c) => c,
            None => {
                return None;
            },
        };
        let ghost w = board.width as int;
        let ghost h = board.height as int;
        proof {
            lemma_serpentine_is_hamiltonian(*board);
            assert(cycle@ =~= Seq::new((w * h) as nat, |i: int| serpentine_at(w, h, i)));
        }
        let n = board.num_cells();
        let mut position: Vec<usize> = Vec::new();
        let mut t: usize = 0;
        while t < n
            invariant
                0 <= t <= n,
                position@.len() == t,
                forall|j: int| 0 <= j < t ==> #[trigger] position@[j] == 0,
            decreases n - t,
        {
            position.push(0);
            t += 1;
        }
        let mut i: usize = 0;
        while i < cycle.len()
            invariant
                board.wf(),
                board.cell_count() <= i32::MAX,
                n as int == board.cell_count(),
                cycle@.len() == n,
                cycle@.no_duplicates(),
                forall|j: int| 0 <= j < cycle@.len() ==> board.in_bounds(#[trigger] cycle@[j]),
                position@.len() == n,
                0 <= i <= cycle@.len(),
                forall|j: int| 0 <= j < position@.len() ==> #[trigger] position@[j] < n,
                forall|j: int|
                    0 <= j < i ==> position@[board.index_of(#[trigger] cycle@[j])] == j,
            decreases cycle@.len() - i,
        {
            let idx = cell_index(board, cycle[i]);
            let ghost before = position@;
            position.set(idx, i);
            proof {
                assert forall|j: int| 0 <= j < i + 1 implies position@[board.index_of(
                    #[trigger] cycle@[j],
                )] == j by {
                    if j < i {
                        assert(cycle@[j] != cycle@[i as int]);
                        crate::board::lemma_index_injective(*board, cycle@[j], cycle@[i as int]);
                        crate::board::lemma_index_in_range(*board, cycle@[j]);
                        assert(board.index_of(cycle@[j]) != idx as int);
                        assert(before[board.index_of(cycle@[j])] == j);
                        assert(position@[board.index_of(cycle@[j])] == before[board.index_of(cycle@[j])]);
                    } else {
                        assert(board.index_of(cycle@[j]) == idx);
                    }
                }
            }
            i += 1;
        }
        Some(HamiltonRider { cycle, position, debug: StrategyDebug::default() })
    }
}

impl Strategy for HamiltonRider {
    open spec fn suits(&self, board: Board) -> bool {
        cycle_tables(board, self.cycle_view(), self.position_view())
    }

    fn next_move(&mut self, state: &GameState) -> (d: Direction)
        ensures
            rider_choice(state@, old(self).cycle_view(), old(self).position_view(), d),
            final(self).cycle_view() == old(self).cycle_view(),
            final(self).position_view() == old(self).position_view(),
    {
        proof {
            state.lemma_wf_view();
        }
        ride_cycle(state, &self.cycle, &self.position, &mut self.debug)
    }

    fn debug(&self) -> (r: Option<&StrategyDebug>)
        ensures
            r matches Some(x) && *x == self.debug_view(),
    {
        Some(&self.debug)
    }
}

} // verus!

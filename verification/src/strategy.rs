//! Autopilot strategies. All strategies are deterministic, work on the pure
//! [`GameState`] (no UI access) and only ever pick a move that does not kill
//! the snake this tick, as long as such a move exists.
use vstd::prelude::*;

use crate::board::Board;
use crate::coords::{all_directions, dir_index, opposite_of, Direction, Offset};
use crate::game::{tick_rel, view_wf, GameState, GameView, Status};

pub mod chaos;
pub mod cycle_surgeon;
pub mod greedy;
pub mod hamilton;
pub mod planner;
pub mod ring_order;
pub mod space;

verus! {

/// What a strategy "thought" during its last decision, for the debug
/// overlay. Strategies fill in whatever applies to them.
#[derive(Debug, Clone)]
pub struct StrategyDebug {
    /// Planned path cells in order, starting with the cell after the head.
    pub path: Vec<Offset>,
    /// Cells highlighted by the strategy (e.g. flood-fill reachable area).
    pub heatmap: Vec<Offset>,
}

impl Default for StrategyDebug {
    fn default() -> (d: Self)
        ensures
            d.path@.len() == 0,
            d.heatmap@.len() == 0,
    {
        StrategyDebug { path: Vec::new(), heatmap: Vec::new() }
    }
}

/// A move is safe when it is no 180° turn, does not run into a wall, and the
/// cell it enters is free or is the tail cell (which vacates this tick).
pub open spec fn is_safe_move(v: GameView, d: Direction) -> bool {
    match v.board.neighbor_of(v.snake[0], d) {
        Some(n) => d != opposite_of(v.direction) && (!v.occupied.contains(n) || n == v.snake.last()),
        None => false,
    }
}

pub open spec fn has_safe_move(v: GameView) -> bool {
    exists|d: Direction| #[trigger] is_safe_move(v, d)
}

/// `moves` lists exactly the safe moves of `v`, each with the cell it enters,
/// in clockwise direction order.
pub open spec fn lists_safe_moves(v: GameView, moves: Seq<(Direction, Offset)>) -> bool {
    &&& forall|i: int|
        0 <= i < moves.len() ==> is_safe_move(v, #[trigger] moves[i].0) && v.board.neighbor_of(
            v.snake[0],
            moves[i].0,
        ) == Some(moves[i].1)
    &&& forall|i: int, j: int|
        0 <= i < j < moves.len() ==> dir_index(#[trigger] moves[i].0) < dir_index(
            #[trigger] moves[j].0,
        )
    &&& forall|d: Direction|
        #[trigger] is_safe_move(v, d) ==> exists|i: int| 0 <= i < moves.len() && moves[i].0 == d
}

/// The strategy interface: one decision per tick.
pub trait Strategy {
    /// The strategy's own tables were built for this board.
    spec fn suits(&self, board: Board) -> bool;

    /// Decide the next move for the current state. Called once per tick.
    fn next_move(&mut self, state: &GameState) -> (d: Direction)
        requires
            state.wf(),
            state@.board.distances_fit(),
            state@.ticks < u64::MAX,
            state@.snake.len() < u32::MAX - 2,
            old(self).suits(state@.board),
        ensures
            final(self).suits(state@.board),
            state@.status == Status::Running && has_safe_move(state@) ==> is_safe_move(
                state@,
                d,
            ),
    ;

    /// Visualization of the last decision, if the strategy provides one.
    fn debug(&self) -> (r: Option<&StrategyDebug>)
        default_ensures
            r is None,
    {
        None
    }
}

/// Row-major index of an on-board cell.
pub fn cell_index(board: &Board, cell: Offset) -> (i: usize)
    requires
        board.wf(),
        board.cell_count() <= i32::MAX,
        board.in_bounds(cell),
    ensures
        i as int == board.index_of(cell),
        0 <= i < board.cell_count(),
{
    proof {
        crate::board::lemma_index_in_range(*board, cell);
    }
    (cell.row * board.width + cell.col) as usize
}

/// A cell the flood fill may enter: on the board and not marked occupied.
pub open spec fn free_cell(v: GameView, c: Offset) -> bool {
    v.board.in_bounds(c) && !v.occupied.contains(c)
}

/// Every free neighbor of `c` (other than `from`) is listed in `cells`.
pub open spec fn neighbors_listed(v: GameView, from: Offset, c: Offset, cells: Seq<Offset>) -> bool {
    forall|d: Direction|
        #![trigger v.board.neighbor_of(c, d)]
        v.board.neighbor_of(c, d) is Some && free_cell(v, v.board.neighbor_of(c, d).unwrap())
            && v.board.neighbor_of(c, d).unwrap() != from ==> cells.contains(
            v.board.neighbor_of(c, d).unwrap(),
        )
}

/// `cells` is exactly the set of free cells reachable from `from` over free
/// cells (`from` itself excluded): each listed cell is free, listed once and
/// next to `from` or to an earlier listed cell, and the list is closed under
/// stepping to free neighbors.
pub open spec fn fill_of(v: GameView, from: Offset, cells: Seq<Offset>) -> bool {
    &&& cells.no_duplicates()
    &&& forall|k: int|
        0 <= k < cells.len() ==> free_cell(v, #[trigger] cells[k]) && cells[k] != from
    &&& forall|k: int|
        0 <= k < cells.len() ==> (v.board.adjacent(from, #[trigger] cells[k]) || exists|j: int|
            0 <= j < k && v.board.adjacent(cells[j], cells[k]))
    &&& neighbors_listed(v, from, from, cells)
    &&& forall|k: int| 0 <= k < cells.len() ==> neighbors_listed(v, from, #[trigger] cells[k], cells)
}

/// A walk that starts anywhere and then only steps onto free cells.
pub open spec fn free_walk(v: GameView, path: Seq<Offset>) -> bool {
    &&& path.len() >= 1
    &&& forall|i: int| 1 <= i < path.len() ==> free_cell(v, #[trigger] path[i])
    &&& forall|i: int| 1 <= i < path.len() ==> v.board.adjacent(path[i - 1], #[trigger] path[i])
}

/// The cells other than `from` that a free walk from `from` reaches.
pub open spec fn reach_set(v: GameView, from: Offset) -> Set<Offset> {
    Set::new(
        |c: Offset|
            c != from && exists|path: Seq<Offset>|
                #[trigger] free_walk(v, path) && path[0] == from && path.last() == c,
    )
}

/// A free walk from `from` to the `k`-th listed cell of a flood fill.
proof fn walk_to(v: GameView, from: Offset, cells: Seq<Offset>, k: int) -> (path: Seq<Offset>)
    requires
        fill_of(v, from, cells),
        0 <= k < cells.len(),
    ensures
        free_walk(v, path),
        path[0] == from,
        path.last() == cells[k],
    decreases k,
{
    assert(free_cell(v, cells[k]));
    if v.board.adjacent(from, cells[k]) {
        seq![from, cells[k]]
    } else {
        let j = choose|j: int| 0 <= j < k && v.board.adjacent(cells[j], cells[k]);
        let p = walk_to(v, from, cells, j);
        let path = p.push(cells[k]);
        assert forall|i: int| 1 <= i < path.len() implies free_cell(v, #[trigger] path[i]) by {
            if i < p.len() {
                assert(path[i] == p[i]);
            }
        }
        assert forall|i: int| 1 <= i < path.len() implies v.board.adjacent(
            path[i - 1],
            #[trigger] path[i],
        ) by {
            if i < p.len() {
                assert(path[i] == p[i]);
                assert(path[i - 1] == p[i - 1]);
            }
        }
        path
    }
}

/// Every cell after the start of a free walk from `from` is listed by the
/// flood fill (or is `from` again).
proof fn lemma_walk_listed(v: GameView, from: Offset, cells: Seq<Offset>, path: Seq<Offset>, i: int)
    requires
        fill_of(v, from, cells),
        free_walk(v, path),
        path[0] == from,
        0 <= i < path.len(),
    ensures
        path[i] == from || cells.contains(path[i]),
    decreases i,
{
    if i > 0 && path[i] != from {
        lemma_walk_listed(v, from, cells, path, i - 1);
        let prev = path[i - 1];
        assert(v.board.adjacent(prev, path[i]));
        let d = choose|d: Direction| #[trigger] v.board.neighbor_of(prev, d) == Some(path[i]);
        assert(free_cell(v, path[i]));
        if prev == from {
            assert(neighbors_listed(v, from, from, cells));
        } else {
            let w = choose|w: int| 0 <= w < cells.len() && cells[w] == prev;
            assert(neighbors_listed(v, from, cells[w], cells));
        }
    }
}

/// A flood fill lists exactly the reachable cells, each once.
pub proof fn lemma_fill_is_reach_set(v: GameView, from: Offset, cells: Seq<Offset>)
    requires
        fill_of(v, from, cells),
    ensures
        cells.to_set() == reach_set(v, from),
        reach_set(v, from).finite(),
        reach_set(v, from).len() == cells.len(),
{
    assert forall|c: Offset| cells.to_set().contains(c) <==> reach_set(v, from).contains(c) by {
        if cells.contains(c) {
            let k = choose|k: int| 0 <= k < cells.len() && cells[k] == c;
            let path = walk_to(v, from, cells, k);
            assert(free_walk(v, path) && path[0] == from && path.last() == c);
        }
        if reach_set(v, from).contains(c) {
            let path = choose|path: Seq<Offset>|
                #[trigger] free_walk(v, path) && path[0] == from && path.last() == c;
            lemma_walk_listed(v, from, cells, path, path.len() - 1);
        }
    }
    assert(cells.to_set() =~= reach_set(v, from));
    cells.unique_seq_to_set();
}

/// The reachable area depends only on the board and its occupancy.
pub proof fn lemma_reach_set_congruent(v1: GameView, v2: GameView, from: Offset)
    requires
        v1.board == v2.board,
        v1.occupied == v2.occupied,
    ensures
        reach_set(v1, from) == reach_set(v2, from),
{
    assert forall|path: Seq<Offset>| free_walk(v1, path) == free_walk(v2, path) by {}
    assert(reach_set(v1, from) =~= reach_set(v2, from));
}

/// Number of `true` entries.
pub open spec fn count_true(s: Seq<bool>) -> nat
    decreases s.len(),
{
    if s.len() == 0 {
        0
    } else {
        count_true(s.drop_last()) + if s.last() {
            1nat
        } else {
            0nat
        }
    }
}

proof fn lemma_count_true_bound(s: Seq<bool>)
    ensures
        count_true(s) <= s.len(),
    decreases s.len(),
{
    if s.len() > 0 {
        lemma_count_true_bound(s.drop_last());
    }
}

proof fn lemma_count_true_set(s: Seq<bool>, i: int)
    requires
        0 <= i < s.len(),
        !s[i],
    ensures
        count_true(s.update(i, true)) == count_true(s) + 1,
    decreases s.len(),
{
    let t = s.update(i, true);
    if i == s.len() - 1 {
        assert(t.drop_last() =~= s.drop_last());
    } else {
        assert(t.drop_last() =~= s.drop_last().update(i, true));
        lemma_count_true_set(s.drop_last(), i);
    }
}

proof fn lemma_count_true_none(s: Seq<bool>)
    requires
        forall|i: int| 0 <= i < s.len() ==> !s[i],
    ensures
        count_true(s) == 0,
    decreases s.len(),
{
    if s.len() > 0 {
        lemma_count_true_none(s.drop_last());
    }
}

/// Listing the free neighbors of `c` survives appending to the list.
proof fn lemma_listed_extend(v: GameView, from: Offset, c: Offset, q: Seq<Offset>, r: Seq<Offset>)
    requires
        neighbors_listed(v, from, c, q),
        q.len() <= r.len(),
        r.subrange(0, q.len() as int) == q,
    ensures
        neighbors_listed(v, from, c, r),
{
    assert forall|d: Direction|
        #![trigger v.board.neighbor_of(c, d)]
        v.board.neighbor_of(c, d) is Some && free_cell(v, v.board.neighbor_of(c, d).unwrap())
            && v.board.neighbor_of(c, d).unwrap() != from implies r.contains(
            v.board.neighbor_of(c, d).unwrap(),
        ) by {
        let m = v.board.neighbor_of(c, d).unwrap();
        let w = choose|w: int| 0 <= w < q.len() && q[w] == m;
        assert(r[w] == m);
    }
}

/// The visited table marks exactly `from` and the listed cells.
pub open spec fn marks(board: Board, visited: Seq<bool>, from: Offset, out: Seq<Offset>) -> bool {
    forall|c: Offset|
        board.in_bounds(c) ==> (visited[board.index_of(c)] <==> (c == from || out.contains(c)))
}

proof fn lemma_marks_push(
    board: Board,
    visited: Seq<bool>,
    from: Offset,
    out: Seq<Offset>,
    next: Offset,
)
    requires
        board.wf(),
        board.in_bounds(next),
        visited.len() == board.cell_count(),
        marks(board, visited, from, out),
    ensures
        marks(board, visited.update(board.index_of(next), true), from, out.push(next)),
{
    let vis2 = visited.update(board.index_of(next), true);
    let out2 = out.push(next);
    crate::board::lemma_index_in_range(board, next);
    assert forall|c: Offset| board.in_bounds(c) implies (vis2[board.index_of(c)] <==> (c == from
        || out2.contains(c))) by {
        crate::board::lemma_index_injective(board, c, next);
        crate::board::lemma_index_in_range(board, c);
        if out.contains(c) {
            let w = choose|w: int| 0 <= w < out.len() && out[w] == c;
            assert(out2[w] == c);
        }
        if out2.contains(c) && c != next {
            let w = choose|w: int| 0 <= w < out2.len() && out2[w] == c;
            assert(out[w] == c);
        }
        if c == next {
            assert(out2[out.len() as int] == c);
        }
    }
}

/// Each listed cell is next to `from` or to an earlier listed cell.
pub open spec fn parented(board: Board, from: Offset, out: Seq<Offset>) -> bool {
    forall|j: int|
        0 <= j < out.len() ==> (board.adjacent(from, #[trigger] out[j]) || exists|i: int|
            0 <= i < j && board.adjacent(out[i], out[j]))
}

proof fn lemma_parented_push(board: Board, from: Offset, out: Seq<Offset>, cell: Offset, next: Offset, k: int)
    requires
        parented(board, from, out),
        board.adjacent(cell, next),
        cell == from || (0 <= k < out.len() && out[k] == cell),
    ensures
        parented(board, from, out.push(next)),
{
    let out2 = out.push(next);
    assert forall|j: int| 0 <= j < out2.len() implies (board.adjacent(from, #[trigger] out2[j])
        || exists|i: int| 0 <= i < j && board.adjacent(out2[i], out2[j])) by {
        if j == out.len() {
            if cell != from {
                assert(out2[k] == cell);
            }
        } else {
            assert(out2[j] == out[j]);
            if !board.adjacent(from, out2[j]) {
                let i = choose|i: int| 0 <= i < j && board.adjacent(out[i], out[j]);
                assert(out2[i] == out[i]);
            }
        }
    }
}

/// After all six directions of `cell` were looked at, its free neighbors are
/// listed, and the cells processed before stay so.
proof fn lemma_cell_done(v: GameView, from: Offset, cell: Offset, before: Seq<Offset>, out: Seq<Offset>, k: int)
    requires
        0 <= k,
        k == 0 ==> cell == from,
        k > 0 ==> k - 1 < before.len() && before[k - 1] == cell,
        out.len() >= before.len(),
        out.subrange(0, before.len() as int) == before,
        k > 0 ==> neighbors_listed(v, from, from, before),
        forall|j: int| 0 <= j < k - 1 ==> neighbors_listed(v, from, #[trigger] before[j], before),
        forall|s: int|
            0 <= s < 6 ==> {
                let d = #[trigger] all_directions()[s];
                v.board.neighbor_of(cell, d) is Some && free_cell(
                    v,
                    v.board.neighbor_of(cell, d).unwrap(),
                ) && v.board.neighbor_of(cell, d).unwrap() != from ==> out.contains(
                    v.board.neighbor_of(cell, d).unwrap(),
                )
            },
    ensures
        neighbors_listed(v, from, from, out),
        forall|j: int| 0 <= j < k ==> neighbors_listed(v, from, #[trigger] out[j], out),
{
    assert forall|d: Direction|
        #![trigger v.board.neighbor_of(cell, d)]
        v.board.neighbor_of(cell, d) is Some && free_cell(
            v,
            v.board.neighbor_of(cell, d).unwrap(),
        ) && v.board.neighbor_of(cell, d).unwrap() != from implies out.contains(
            v.board.neighbor_of(cell, d).unwrap(),
        ) by {
        crate::coords::lemma_dir_at_index(dir_index(d));
        assert(all_directions()[dir_index(d)] == d);
    }
    assert(neighbors_listed(v, from, cell, out));
    if k > 0 {
        lemma_listed_extend(v, from, from, before, out);
    }
    assert forall|j: int| 0 <= j < k implies neighbors_listed(v, from, #[trigger] out[j], out) by {
        assert(out[j] == before[j]);
        if j < k - 1 {
            lemma_listed_extend(v, from, before[j], before, out);
        }
    }
}

/// Collect all free cells reachable from `from` (breadth first, neighbors in
/// clockwise direction order). `from` itself may be occupied (a hypothetical
/// head) and is not listed.
#[verifier::rlimit(100)]
#[verifier::spinoff_prover]
pub fn flood_fill(state: &GameState, from: Offset, out: &mut Vec<Offset>)
    requires
        state.wf(),
        state@.board.in_bounds(from),
    ensures
        fill_of(state@, from, final(out)@),
        final(out)@.len() < state@.board.cell_count(),
{
    let ghost v = state@;
    proof {
        state.lemma_wf_view();
    }
    let board = state.board();
    out.clear();
    let n = board.num_cells();
    let mut visited: Vec<bool> = Vec::new();
    let mut t: usize = 0;
    while t < n
        invariant
            0 <= t <= n,
            visited@.len() == t,
            forall|j: int| 0 <= j < t ==> !(#[trigger] visited@[j]),
        decreases n - t,
    {
        visited.push(false);
        t += 1;
    }
    proof {
        lemma_count_true_none(visited@);
        crate::board::lemma_index_in_range(v.board, from);
        lemma_count_true_set(visited@, v.board.index_of(from));
        assert forall|c: Offset| v.board.in_bounds(c) implies (visited@.update(
            v.board.index_of(from),
            true,
        )[v.board.index_of(c)] <==> (c == from || out@.contains(c))) by {
            crate::board::lemma_index_injective(v.board, c, from);
            crate::board::lemma_index_in_range(v.board, c);
        }
    }
    let from_idx = cell_index(board, from);
    visited.set(from_idx, true);
    let dirs = Direction::all();
    // Cells are processed in the order from, out[0], out[1], ...; `k` counts
    // the processed ones.
    let mut k: usize = 0;
    while k <= out.len()
        invariant
            v == state@,
            state.wf(),
            *board == v.board,
            v.board.wf(),
            v.board.cell_count() <= i32::MAX,
            v.board.in_bounds(from),
            n as int == v.board.cell_count(),
            dirs@ == all_directions(),
            visited@.len() == n,
            count_true(visited@) == out@.len() + 1,
            0 <= k <= out@.len() + 1,
            out@.no_duplicates(),
            forall|j: int| 0 <= j < out@.len() ==> free_cell(v, #[trigger] out@[j]) && out@[j] != from,
            marks(v.board, visited@, from, out@),
            parented(v.board, from, out@),
            k > 0 ==> neighbors_listed(v, from, from, out@),
            forall|j: int| 0 <= j < k - 1 ==> neighbors_listed(v, from, #[trigger] out@[j], out@),
        decreases n + 1 - k,
    {
        let cell = if k == 0 {
            from
        } else {
            out[k - 1]
        };
        let ghost before = out@;
        let mut t: usize = 0;
        while t < 6
            invariant
                v == state@,
                state.wf(),
                *board == v.board,
                v.board.wf(),
            v.board.cell_count() <= i32::MAX,
                v.board.in_bounds(from),
                v.board.in_bounds(cell),
                k == 0 ==> cell == from,
                k > 0 ==> k - 1 < before.len() && before[k - 1] == cell,
                n as int == v.board.cell_count(),
                dirs@ == all_directions(),
                visited@.len() == n,
                count_true(visited@) == out@.len() + 1,
                0 <= t <= 6,
                out@.len() >= before.len(),
                out@.subrange(0, before.len() as int) == before,
                out@.no_duplicates(),
                forall|j: int|
                    0 <= j < out@.len() ==> free_cell(v, #[trigger] out@[j]) && out@[j] != from,
                marks(v.board, visited@, from, out@),
                parented(v.board, from, out@),
                forall|s: int|
                    0 <= s < t ==> {
                        let d = #[trigger] all_directions()[s];
                        v.board.neighbor_of(cell, d) is Some && free_cell(
                            v,
                            v.board.neighbor_of(cell, d).unwrap(),
                        ) && v.board.neighbor_of(cell, d).unwrap() != from ==> out@.contains(
                            v.board.neighbor_of(cell, d).unwrap(),
                        )
                    },
            decreases 6 - t,
        {
            let dir = dirs[t];
            let ghost out_before = out@;
            let ghost vis_before = visited@;
            match board.neighbor(cell, dir) {
                Some(next) => {
                    let idx = cell_index(board, next);
                    if !visited[idx] && !state.occupies(next) {
                        proof {
                            lemma_count_true_set(visited@, idx as int);
                            lemma_count_true_bound(visited@.update(idx as int, true));
                            assert(v.board.neighbor_of(cell, dir) == Some(next));
                            assert(v.board.adjacent(cell, next));
                            lemma_marks_push(v.board, visited@, from, out@, next);
                            lemma_parented_push(v.board, from, out@, cell, next, k - 1);
                            if k > 0 {
                                assert(out@[k - 1] == before[k - 1]);
                            }
                        }
                        visited.set(idx, true);
                        out.push(next);
                        proof {
                            assert(out@.subrange(0, before.len() as int) =~= before);
                        }
                    }
                },
                None => {},
            }
            proof {
                assert forall|s: int| 0 <= s < t + 1 implies {
                    let d = #[trigger] all_directions()[s];
                    v.board.neighbor_of(cell, d) is Some && free_cell(
                        v,
                        v.board.neighbor_of(cell, d).unwrap(),
                    ) && v.board.neighbor_of(cell, d).unwrap() != from ==> out@.contains(
                        v.board.neighbor_of(cell, d).unwrap(),
                    )
                } by {
                    let d = all_directions()[s];
                    if v.board.neighbor_of(cell, d) is Some {
                        let m = v.board.neighbor_of(cell, d).unwrap();
                        if out_before.contains(m) {
                            let w = choose|w: int| 0 <= w < out_before.len() && out_before[w] == m;
                            assert(out@[w] == m);
                        }
                        if s == t && free_cell(v, m) && m != from {
                            crate::board::lemma_index_in_range(v.board, m);
                            assert(marks(v.board, vis_before, from, out_before));
                            if !out_before.contains(m) {
                                assert(out@[out@.len() - 1] == m);
                            }
                        }
                    }
                }
            }
            t += 1;
        }
        proof {
            lemma_cell_done(v, from, cell, before, out@, k as int);
            lemma_count_true_bound(visited@);
        }
        k += 1;
    }
    proof {
        lemma_count_true_bound(visited@);
    }
}

/// Moves that do not kill the snake this tick, in clockwise direction order.
/// The 180° turn is excluded: the game would ignore it and keep going
/// straight, which is rarely what the strategy intended.
pub fn safe_moves(state: &GameState) -> (moves: Vec<(Direction, Offset)>)
    requires
        state.wf(),
    ensures
        lists_safe_moves(state@, moves@),
{
    let ghost v = state@;
    proof {
        state.lemma_wf_view();
    }
    let board = state.board();
    let head = state.head();
    let tail = state.tail();
    let back = state.direction().opposite();
    let dirs = Direction::all();
    let mut moves: Vec<(Direction, Offset)> = Vec::new();
    let mut t: usize = 0;
    while t < 6
        invariant
            v == state@,
            state.wf(),
            *board == v.board,
            view_wf(v),
            head == v.snake[0],
            tail == v.snake.last(),
            back == opposite_of(v.direction),
            dirs@ == all_directions(),
            0 <= t <= 6,
            forall|i: int|
                0 <= i < moves@.len() ==> is_safe_move(v, #[trigger] moves@[i].0)
                    && v.board.neighbor_of(v.snake[0], moves@[i].0) == Some(moves@[i].1)
                    && dir_index(moves@[i].0) < t,
            forall|i: int, j: int|
                0 <= i < j < moves@.len() ==> dir_index(#[trigger] moves@[i].0) < dir_index(
                    #[trigger] moves@[j].0,
                ),
            forall|s: int|
                0 <= s < t && is_safe_move(v, #[trigger] all_directions()[s]) ==> exists|i: int|
                    0 <= i < moves@.len() && moves@[i].0 == all_directions()[s],
        decreases 6 - t,
    {
        let dir = dirs[t];
        let ghost moves_before = moves@;
        if dir != back {
            match board.neighbor(head, dir) {
                Some(n) => {
                    if !state.occupies(n) || n == tail {
                        moves.push((dir, n));
                    }
                },
                None => {},
            }
        }
        proof {
            assert forall|s: int|
                0 <= s < t + 1 && is_safe_move(v, #[trigger] all_directions()[s]) implies exists|i: int|
                    0 <= i < moves@.len() && moves@[i].0 == all_directions()[s] by {
                if s < t {
                    let i = choose|i: int|
                        0 <= i < moves_before.len() && moves_before[i].0 == all_directions()[s];
                    assert(moves@[i] == moves_before[i]);
                } else {
                    assert(moves@[moves@.len() - 1].0 == dir);
                }
            }
        }
        t += 1;
    }
    proof {
        assert forall|d: Direction| #[trigger] is_safe_move(v, d) implies exists|i: int|
            0 <= i < moves@.len() && moves@[i].0 == d by {
            assert(all_directions()[dir_index(d)] == d);
        }
    }
    moves
}

/// Last-resort move when no safe move exists: keep going straight.
pub fn doomed_move(state: &GameState) -> (d: Direction)
    ensures
        d == state@.direction,
{
    state.direction()
}

/// The occupancy after taking move `d` (the snake grows when it enters the
/// food cell; otherwise the tail cell is cleared).
pub open spec fn occupied_after(v: GameView, d: Direction) -> Set<Offset> {
    let n = v.board.neighbor_of(v.snake[0], d).unwrap();
    if n == v.food {
        v.occupied.insert(n)
    } else {
        v.occupied.remove(v.snake.last()).insert(n)
    }
}

/// A safe move keeps the snake alive: from a running state with no buffered
/// input, the tick that takes a safe move never ends the game, and the snake
/// enters the move's cell.
pub proof fn lemma_safe_move_survives(old: GameView, d: Direction, new: GameView)
    requires
        view_wf(old),
        old.status == Status::Running,
        old.queue.len() == 0,
        is_safe_move(old, d),
        tick_rel(old, Some(d), new),
    ensures
        new.status != Status::GameOver,
        new.snake[0] == old.board.neighbor_of(old.snake[0], d).unwrap(),
        new.board == old.board,
        new.occupied == occupied_after(old, d),
{
    let q1 = crate::game::queue_after_input(old.queue, Some(d));
    assert(q1 =~= seq![d]);
    let (dir, q2) = crate::game::take_turn(q1, old.direction);
    assert(crate::game::take_turn(q1.drop_first(), old.direction) == (
        old.direction,
        q1.drop_first(),
    ));
    assert(dir == d);
}

} // verus!

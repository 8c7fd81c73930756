//! The A* path planner.
use vstd::prelude::*;

use crate::board::Board;
use crate::coords::{all_directions, dir_index, opposite_of, Direction, Offset};
use crate::game::{marked_on_snake, tick_rel, view_wf, GameState, GameView, Status};
use crate::strategy::{
    cell_index, doomed_move, flood_fill, has_safe_move, is_safe_move, lemma_fill_is_reach_set,
    lists_safe_moves, reach_set, safe_moves, Strategy, StrategyDebug,
};

verus! {

/// The vacate time of `c` after the first `k` snake cells were written:
/// a later cell overwrites an earlier one.
pub open spec fn vacate_prefix(snake: Seq<Offset>, c: Offset, k: int) -> int
    decreases k,
{
    if k <= 0 {
        0
    } else if snake[k - 1] == c {
        snake.len() - (k - 1)
    } else {
        vacate_prefix(snake, c, k - 1)
    }
}

/// Tick at which cell `c` becomes free if the snake keeps moving without
/// growing: the tail cell vacates at tick 1, the head cell last; free cells
/// have 0.
pub open spec fn vacate_time(v: GameView, c: Offset) -> int {
    vacate_prefix(v.snake, c, v.snake.len() as int)
}

/// Where a sequence of steps from `c` ends, or `None` if it runs into a wall.
pub open spec fn walk_end(board: Board, c: Offset, dirs: Seq<Direction>) -> Option<Offset>
    decreases dirs.len(),
{
    if dirs.len() == 0 {
        Some(c)
    } else {
        match board.neighbor_of(c, dirs[0]) {
            Some(n) => walk_end(board, n, dirs.drop_first()),
            None => None,
        }
    }
}

/// The cells a sequence of steps from `c` enters, up to the first wall.
pub open spec fn walk_cells(board: Board, c: Offset, dirs: Seq<Direction>) -> Seq<Offset>
    decreases dirs.len(),
{
    if dirs.len() == 0 {
        Seq::empty()
    } else {
        match board.neighbor_of(c, dirs[0]) {
            Some(n) => seq![n] + walk_cells(board, n, dirs.drop_first()),
            None => Seq::empty(),
        }
    }
}

/// The first step of a planned path: no 180° turn, no wall, and the cell it
/// enters is free by then (vacate time at most one tick) or is the goal.
pub open spec fn first_step_ok(v: GameView, goal: Offset, vacate: Seq<u32>, d: Direction) -> bool {
    &&& d != opposite_of(v.direction)
    &&& v.board.neighbor_of(v.snake[0], d) is Some
    &&& {
        let n = v.board.neighbor_of(v.snake[0], d).unwrap();
        vacate[v.board.index_of(n)] <= 1 || n == goal
    }
}

/// The head can step onto the tail cell from itself or from a free cell it
/// can reach.
pub open spec fn tail_reachable_spec(v: GameView) -> bool {
    exists|c: Offset, d: Direction|
        (c == v.snake[0] || reach_set(v, v.snake[0]).contains(c)) && #[trigger] v.board.neighbor_of(
            c,
            d,
        ) == Some(v.snake.last())
}

/// `trace` is how a simulation following `path` went: it starts at `start`,
/// every step is a game tick with the next planned input, and it stops early
/// only at a state that is no longer running.
pub open spec fn sim_trace(start: GameView, path: Seq<Direction>, trace: Seq<GameView>) -> bool {
    &&& 1 <= trace.len() <= path.len() + 1
    &&& trace[0] == start
    &&& forall|t: int|
        0 <= t < trace.len() - 1 ==> tick_rel(#[trigger] trace[t], Some(path[t]), trace[t + 1])
    &&& forall|t: int| 1 <= t < trace.len() - 1 ==> (#[trigger] trace[t]).status == Status::Running
    &&& trace.len() < path.len() + 1 ==> trace.last().status != Status::Running
}

/// A state with its input buffer emptied.
pub open spec fn cleared(v: GameView) -> GameView {
    GameView { queue: Seq::<Direction>::empty(), ..v }
}

/// A* planner: shortest safe path to the food, but only if the snake can
/// still reach its own tail afterwards (then it can never be fully trapped).
/// Otherwise it chases its tail and waits for a better chance.
pub struct PathPlanner {
    debug: StrategyDebug,
}

impl PathPlanner {
    /// The path cells shown by the overlay after the last decision.
    /// What the overlay shows of the last decision.
    pub closed spec fn debug_view(&self) -> StrategyDebug {
        self.debug
    }

    pub closed spec fn debug_path(&self) -> Seq<Offset> {
        self.debug.path@
    }

    pub fn new() -> (p: Self)
        ensures
            p.debug_path().len() == 0,
    {
        PathPlanner { debug: StrategyDebug::default() }
    }

    fn remember_path(&mut self, state: &GameState, path: &Vec<Direction>)
        requires
            state.wf(),
        ensures
            final(self).debug_path() == walk_cells(state@.board, state@.snake[0], path@),
    {
        proof {
            state.lemma_wf_view();
        }
        self.debug.path.clear();
        let board = state.board();
        let mut at = state.head();
        let mut i: usize = 0;
        proof {
            assert(path@.subrange(0, path@.len() as int) =~= path@);
            assert(self.debug.path@ + walk_cells(*board, at, path@) =~= walk_cells(*board, at, path@));
        }
        while i < path.len()
            invariant
                state.wf(),
                *board == state@.board,
                board.wf(),
                board.in_bounds(at),
                0 <= i <= path@.len(),
                self.debug.path@ + walk_cells(*board, at, path@.subrange(i as int, path@.len() as int))
                    == walk_cells(*board, state@.snake[0], path@),
            decreases path@.len() - i,
        {
            let ghost rest = path@.subrange(i as int, path@.len() as int);
            match board.neighbor(at, path[i]) {
                Some(next) => {
                    proof {
                        assert(rest.drop_first() =~= path@.subrange(i + 1, path@.len() as int));
                        assert(walk_cells(*board, at, rest) == seq![next] + walk_cells(
                            *board,
                            next,
                            rest.drop_first(),
                        ));
                    }
                    let ghost before = self.debug.path@;
                    self.debug.path.push(next);
                    proof {
                        assert(self.debug.path@ + walk_cells(*board, next, rest.drop_first()) =~= before
                            + (seq![next] + walk_cells(*board, next, rest.drop_first())));
                    }
                    at = next;
                },
                None => {
                    proof {
                        assert(walk_cells(*board, at, rest) =~= Seq::<Offset>::empty());
                        assert(self.debug.path@ =~= self.debug.path@ + walk_cells(*board, at, rest));
                    }
                    return;
                },
            }
            i += 1;
        }
        proof {
            assert(walk_cells(*board, at, path@.subrange(i as int, path@.len() as int)) =~= Seq::<
                Offset,
            >::empty());
            assert(self.debug.path@ =~= self.debug.path@ + Seq::<Offset>::empty());
        }
    }
}

impl Default for PathPlanner {
    fn default() -> (p: Self) {
        PathPlanner::new()
    }
}

/// The vacate time of a cell is zero exactly when it is no snake cell, and
/// one only for the tail cell.
proof fn lemma_vacate_small(snake: Seq<Offset>, c: Offset, k: int)
    requires
        0 <= k <= snake.len(),
    ensures
        vacate_prefix(snake, c, k) == 0 ==> forall|i: int| 0 <= i < k ==> snake[i] != c,
        vacate_prefix(snake, c, k) == 1 ==> snake[snake.len() - 1] == c,
        0 <= vacate_prefix(snake, c, k) <= snake.len(),
    decreases k,
{
    if k > 0 {
        lemma_vacate_small(snake, c, k - 1);
    }
}

/// Tick at which each cell becomes free (see [`vacate_time`]).
pub(crate) fn vacate_times(state: &GameState) -> (vacate: Vec<u32>)
    requires
        state.wf(),
        state@.snake.len() < u32::MAX,
    ensures
        vacate@.len() == state@.board.cell_count(),
        forall|c: Offset|
            state@.board.in_bounds(c) ==> vacate@[state@.board.index_of(c)] == vacate_time(
                state@,
                c,
            ),
{
    let ghost v = state@;
    proof {
        state.lemma_wf_view();
    }
    let board = state.board();
    let n = board.num_cells();
    let mut vacate: Vec<u32> = Vec::new();
    let mut t: usize = 0;
    while t < n
        invariant
            0 <= t <= n,
            vacate@.len() == t,
            forall|j: int| 0 <= j < t ==> #[trigger] vacate@[j] == 0,
        decreases n - t,
    {
        vacate.push(0);
        t += 1;
    }
    let cells = state.snake();
    let len = cells.len() as u32;
    proof {
        assert forall|c: Offset| v.board.in_bounds(c) implies vacate@[v.board.index_of(c)]
            == vacate_prefix(v.snake, c, 0) by {
            crate::board::lemma_index_in_range(v.board, c);
        }
    }
    let mut i: usize = 0;
    while i < cells.len()
        invariant
            v == state@,
            *board == v.board,
            v.board.wf(),
            v.board.cell_count() <= i32::MAX,
            n as int == v.board.cell_count(),
            cells@ == v.snake,
            len as int == v.snake.len(),
            forall|k: int| 0 <= k < v.snake.len() ==> v.board.in_bounds(#[trigger] v.snake[k]),
            vacate@.len() == n,
            0 <= i <= cells@.len(),
            forall|c: Offset|
                v.board.in_bounds(c) ==> vacate@[v.board.index_of(c)] == vacate_prefix(
                    v.snake,
                    c,
                    i as int,
                ),
        decreases cells@.len() - i,
    {
        let cell = cells[i];
        let idx = cell_index(board, cell);
        vacate.set(idx, len - i as u32);
        proof {
            assert forall|c: Offset| v.board.in_bounds(c) implies vacate@[v.board.index_of(c)]
                == vacate_prefix(v.snake, c, i + 1) by {
                crate::board::lemma_index_injective(v.board, c, cell);
                crate::board::lemma_index_in_range(v.board, c);
            }
        }
        i += 1;
    }
    vacate
}

/// Lexicographic order on frontier entries `(f, g, cell index)`.
spec fn entry_before(a: (u64, u32, usize), b: (u64, u32, usize)) -> bool {
    a.0 < b.0 || (a.0 == b.0 && a.1 < b.1) || (a.0 == b.0 && a.1 == b.1 && a.2 < b.2)
}

/// Lexicographic `<` on frontier entries `(f, g, cell index)`.
fn entry_less(a: (u64, u32, usize), b: (u64, u32, usize)) -> (r: bool)
    ensures
        r == entry_before(a, b),
{
    a.0 < b.0 || (a.0 == b.0 && (a.1 < b.1 || (a.1 == b.1 && a.2 < b.2)))
}

/// Sum of a table of costs.
spec fn cost_sum(s: Seq<u32>) -> nat
    decreases s.len(),
{
    if s.len() == 0 {
        0
    } else {
        cost_sum(s.drop_last()) + s.last() as nat
    }
}

proof fn lemma_cost_sum_update(s: Seq<u32>, i: int, x: u32)
    requires
        0 <= i < s.len(),
        x < s[i],
    ensures
        cost_sum(s.update(i, x)) < cost_sum(s),
    decreases s.len(),
{
    let t = s.update(i, x);
    if i == s.len() - 1 {
        assert(t.drop_last() =~= s.drop_last());
    } else {
        assert(t.drop_last() =~= s.drop_last().update(i, x));
        lemma_cost_sum_update(s.drop_last(), i, x);
    }
}

/// The search tables stay consistent: every recorded predecessor is a real
/// step with a smaller cost, only the start has cost zero and no
/// predecessor, and steps out of the start respect the rules of the first
/// move.
spec fn search_ok(
    v: GameView,
    goal: Offset,
    vacate: Seq<u32>,
    start: int,
    g_cost: Seq<u32>,
    came_from: Seq<Option<(usize, Direction)>>,
) -> bool {
    let board = v.board;
    &&& g_cost.len() == board.cell_count()
    &&& came_from.len() == board.cell_count()
    &&& 0 <= start < board.cell_count()
    &&& g_cost[start] == 0
    &&& came_from[start] is None
    &&& forall|i: int| 0 <= i < g_cost.len() && i != start ==> #[trigger] g_cost[i] >= 1
    &&& forall|i: int|
        0 <= i < g_cost.len() && i != start && g_cost[i] != u32::MAX ==> (
        #[trigger] came_from[i]) is Some
    &&& forall|i: int|
        0 <= i < came_from.len() && (#[trigger] came_from[i]) is Some ==> {
            let (p, d) = came_from[i].unwrap();
            &&& p < board.cell_count()
            &&& board.neighbor_of(board.cell_at(p as int), d) == Some(board.cell_at(i))
            &&& g_cost[p as int] < g_cost[i]
            &&& p == start ==> first_step_ok(v, goal, vacate, d) && board.neighbor_of(
                v.snake[0],
                d,
            ) == Some(board.cell_at(i))
        }
}

/// Relaxing an edge out of `idx` keeps the search tables consistent.
proof fn lemma_search_relax(
    v: GameView,
    goal: Offset,
    vacate: Seq<u32>,
    start: int,
    g_cost: Seq<u32>,
    came_from: Seq<Option<(usize, Direction)>>,
    idx: usize,
    dir: Direction,
    next_idx: usize,
    arrival: u32,
)
    requires
        search_ok(v, goal, vacate, start, g_cost, came_from),
        0 <= idx < g_cost.len(),
        0 <= next_idx < g_cost.len(),
        v.board.neighbor_of(v.board.cell_at(idx as int), dir) == Some(v.board.cell_at(next_idx as int)),
        g_cost[idx as int] < arrival,
        arrival < g_cost[next_idx as int],
        idx == start ==> first_step_ok(v, goal, vacate, dir) && v.board.neighbor_of(v.snake[0], dir)
            == Some(v.board.cell_at(next_idx as int)),
    ensures
        search_ok(
            v,
            goal,
            vacate,
            start,
            g_cost.update(next_idx as int, arrival),
            came_from.update(next_idx as int, Some((idx, dir))),
        ),
{
    let g2 = g_cost.update(next_idx as int, arrival);
    let c2 = came_from.update(next_idx as int, Some((idx, dir)));
    assert(next_idx != start);
    assert forall|i: int| 0 <= i < c2.len() && (#[trigger] c2[i]) is Some implies {
        let (p, d) = c2[i].unwrap();
        &&& p < v.board.cell_count()
        &&& v.board.neighbor_of(v.board.cell_at(p as int), d) == Some(v.board.cell_at(i))
        &&& g2[p as int] < g2[i]
        &&& p == start ==> first_step_ok(v, goal, vacate, d) && v.board.neighbor_of(
            v.snake[0],
            d,
        ) == Some(v.board.cell_at(i))
    } by {
        if i != next_idx {
            assert(c2[i] == came_from[i]);
            assert((came_from[i]) is Some);
        }
    }
    assert forall|i: int| 0 <= i < g2.len() && i != start implies #[trigger] g2[i] >= 1 by {
        if i != next_idx {
            assert(g2[i] == g_cost[i]);
        }
    }
    assert forall|i: int|
        0 <= i < g2.len() && i != start && g2[i] != u32::MAX implies (#[trigger] c2[i]) is Some by {
        if i != next_idx {
            assert(g2[i] == g_cost[i]);
            assert(c2[i] == came_from[i]);
        }
    }
}

/// The route as a sequence of directions.
pub open spec fn seq_of_route(r: Option<Vec<Direction>>) -> Option<Seq<Direction>> {
    match r {
        Some(p) => Some(p@),
        None => None,
    }
}

/// What the search answers for `goal` under the vacate times `vacate`: a
/// route that ends at the goal and whose first step is allowed; a route
/// whenever the goal is the head or one allowed step away; and no route
/// only when the costs it reached are closed without reaching the goal.
pub open spec fn astar_answer(v: GameView, goal: Offset, vacate: Seq<u32>, r: Option<Seq<Direction>>) -> bool {
    &&& r matches Some(p) ==> walk_end(v.board, v.snake[0], p) == Some(goal)
    &&& r matches Some(p) ==> p.len() > 0 ==> first_step_ok(v, goal, vacate, p[0])
    &&& goal_in_one(v, goal, vacate) ==> r is Some
    &&& r is None ==> exists|g: Seq<u32>|
        #[trigger] costs_closed(v, goal, vacate, v.board.index_of(v.snake[0]), g)
            && g[v.board.index_of(goal)] == u32::MAX
}

/// The vacate time of every cell, by cell index.
pub open spec fn vacate_table(v: GameView) -> Seq<u32> {
    Seq::new(v.board.cell_count() as nat, |i: int| vacate_time(v, v.board.cell_at(i)) as u32)
}

/// Following the non-empty route `p` from `v` keeps the game running to its
/// end, after which the head can still reach the tail; the tick and score
/// counters stay within their types on the way.
pub open spec fn follows_safely(v: GameView, p: Seq<Direction>) -> bool {
    &&& p.len() > 0
    &&& v.ticks + p.len() < u64::MAX
    &&& v.score + p.len() < u32::MAX
    &&& exists|trace: Seq<GameView>|
        #[trigger] sim_trace(cleared(v), p, trace) && trace.len() == p.len() + 1 && trace.last().status
            == Status::Running && tail_reachable_spec(trace.last())
}

/// `d` is the safe move that comes first in direction order.
pub open spec fn first_safe_move(v: GameView, d: Direction) -> bool {
    &&& is_safe_move(v, d)
    &&& forall|e: Direction| #[trigger] is_safe_move(v, e) ==> dir_index(d) <= dir_index(e)
}

/// With no food route to follow: the first step of the search's route to
/// the tail; else the first safe move; else straight on.
pub open spec fn fallback_choice(v: GameView, tail_route: Option<Seq<Direction>>, d: Direction) -> bool {
    if tail_route matches Some(q) && q.len() > 0 {
        d == tail_route.unwrap()[0]
    } else if has_safe_move(v) {
        first_safe_move(v, d)
    } else {
        d == v.direction
    }
}

/// The planner's move given the search's answer for the food: the first
/// step of the food route if following it is safe, otherwise the fallback
/// with the search's answer for the tail.
pub open spec fn planner_choice(v: GameView, food_route: Option<Seq<Direction>>, d: Direction) -> bool {
    let vacate = vacate_table(v);
    if food_route matches Some(p) && follows_safely(v, p) {
        d == food_route.unwrap()[0]
    } else {
        exists|tail_route: Option<Seq<Direction>>|
            #[trigger] astar_answer(v, v.snake.last(), vacate, tail_route) && fallback_choice(
                v,
                tail_route,
                d,
            )
    }
}

/// Two simulations of one route from one state, one of which runs to the
/// end, are the same simulation.
proof fn lemma_sim_trace_unique(start: GameView, p: Seq<Direction>, t1: Seq<GameView>, t2: Seq<GameView>)
    requires
        sim_trace(start, p, t1),
        sim_trace(start, p, t2),
        p.len() > 0,
        t2.len() == p.len() + 1,
        t2.last().status == Status::Running,
    ensures
        t1 == t2,
{
    // The start runs: otherwise the state after it would be frozen.
    if start.status != Status::Running {
        assert(tick_rel(t2[0], Some(p[0]), t2[1]));
        assert(t2[1].status != Status::Running);
    }
    assert forall|k: int| 0 <= k < t1.len() && k < t2.len() implies t1[k] == t2[k] by {
        lemma_sim_agree(start, p, t1, t2, k);
    }
    if t1.len() < t2.len() {
        let k = t1.len() - 1;
        assert(t1[k] == t2[k]);
        if k >= 1 {
            assert(t2[k].status == Status::Running);
        }
    }
    assert(t1 =~= t2);
}

/// Two simulations of one route agree state by state as far as both go.
proof fn lemma_sim_agree(start: GameView, p: Seq<Direction>, t1: Seq<GameView>, t2: Seq<GameView>, k: int)
    requires
        sim_trace(start, p, t1),
        sim_trace(start, p, t2),
        0 <= k < t1.len(),
        k < t2.len(),
    ensures
        t1[k] == t2[k],
    decreases k,
{
    if k > 0 {
        lemma_sim_agree(start, p, t1, t2, k - 1);
        assert(tick_rel(t1[k - 1], Some(p[k - 1]), t1[k]));
        assert(tick_rel(t2[k - 1], Some(p[k - 1]), t2[k]));
        crate::game::lemma_tick_deterministic(t1[k - 1], Some(p[k - 1]), t1[k], t2[k]);
    }
}

/// From cell `i`, reached at cost `gi`, the search may step in direction
/// `d`: no reversal out of the start, on the board, and the cell entered is
/// free on arrival or is the goal.
pub open spec fn step_open(v: GameView, goal: Offset, vacate: Seq<u32>, start: int, i: int, d: Direction, gi: int) -> bool {
    let board = v.board;
    &&& i == start ==> d != opposite_of(v.direction)
    &&& board.neighbor_of(board.cell_at(i), d) is Some
    &&& {
        let j = board.index_of(board.neighbor_of(board.cell_at(i), d).unwrap());
        gi + 1 >= vacate[j] || j == board.index_of(goal)
    }
}

/// Every open step out of cell `i` reaches a cell whose cost is at most one
/// more.
#[verifier::opaque]
pub open spec fn relaxed_at(v: GameView, goal: Offset, vacate: Seq<u32>, start: int, g: Seq<u32>, i: int) -> bool {
    forall|d: Direction|
        #![trigger v.board.neighbor_of(v.board.cell_at(i), d)]
        step_open(v, goal, vacate, start, i, d, g[i] as int) ==> g[v.board.index_of(
            v.board.neighbor_of(v.board.cell_at(i), d).unwrap(),
        )] <= g[i] + 1
}

/// A cost table in which the start costs nothing and every reached cell
/// has all its open steps relaxed: what the search leaves when it has run
/// out of cells to look at.
pub open spec fn costs_closed(v: GameView, goal: Offset, vacate: Seq<u32>, start: int, g: Seq<u32>) -> bool {
    &&& g.len() == v.board.cell_count()
    &&& g[start] == 0
    &&& forall|i: int| 0 <= i < g.len() && #[trigger] g[i] < u32::MAX ==> relaxed_at(v, goal, vacate, start, g, i)
}

/// Lowering another cell's cost keeps a cell relaxed.
proof fn lemma_relaxed_lower(
    v: GameView,
    goal: Offset,
    vacate: Seq<u32>,
    start: int,
    g: Seq<u32>,
    i: int,
    j: int,
    x: u32,
)
    requires
        relaxed_at(v, goal, vacate, start, g, i),
        v.board.wf(),
        g.len() == v.board.cell_count(),
        0 <= i < g.len(),
        0 <= j < g.len(),
        i != j,
        x <= g[j],
    ensures
        relaxed_at(v, goal, vacate, start, g.update(j, x), i),
{
    reveal(relaxed_at);
    let g2 = g.update(j, x);
    assert(g2[i] == g[i]);
    crate::board::lemma_cell_at_in_bounds(v.board, i);
    assert forall|d: Direction|
        #![trigger v.board.neighbor_of(v.board.cell_at(i), d)]
        step_open(v, goal, vacate, start, i, d, g2[i] as int) implies g2[v.board.index_of(
            v.board.neighbor_of(v.board.cell_at(i), d).unwrap(),
        )] <= g2[i] + 1 by {
        crate::board::lemma_neighbor_in_bounds(v.board, v.board.cell_at(i), d);
        crate::board::lemma_index_in_range(v.board, v.board.neighbor_of(v.board.cell_at(i), d).unwrap());
        let k = v.board.index_of(v.board.neighbor_of(v.board.cell_at(i), d).unwrap());
        assert(g[k] <= g[i] + 1);
    }
}

proof fn lemma_relaxed_intro(v: GameView, goal: Offset, vacate: Seq<u32>, start: int, g: Seq<u32>, i: int)
    requires
        forall|s: int|
            0 <= s < 6 && step_open(v, goal, vacate, start, i, #[trigger] all_directions()[s], g[i] as int)
                ==> g[v.board.index_of(
                v.board.neighbor_of(v.board.cell_at(i), all_directions()[s]).unwrap(),
            )] <= g[i] + 1,
    ensures
        relaxed_at(v, goal, vacate, start, g, i),
{
    reveal(relaxed_at);
    assert forall|d: Direction|
        #![trigger v.board.neighbor_of(v.board.cell_at(i), d)]
        step_open(v, goal, vacate, start, i, d, g[i] as int) implies g[v.board.index_of(
            v.board.neighbor_of(v.board.cell_at(i), d).unwrap(),
        )] <= g[i] + 1 by {
        assert(all_directions()[crate::coords::dir_index(d)] == d);
    }
}

/// The goal is the head, or one first step away.
pub open spec fn goal_in_one(v: GameView, goal: Offset, vacate: Seq<u32>) -> bool {
    goal == v.snake[0] || exists|d: Direction|
        first_step_ok(v, goal, vacate, d) && #[trigger] v.board.neighbor_of(v.snake[0], d) == Some(goal)
}

/// Some frontier entry has cost `g` and cell `idx`.
spec fn has_entry(f: Seq<(u64, u32, usize)>, g: u32, idx: usize) -> bool {
    exists|k: int| 0 <= k < f.len() && (#[trigger] f[k]).1 == g && f[k].2 == idx
}

proof fn lemma_has_entry_push(f: Seq<(u64, u32, usize)>, e: (u64, u32, usize), g: u32, idx: usize)
    requires
        has_entry(f, g, idx) || (e.1 == g && e.2 == idx),
    ensures
        has_entry(f.push(e), g, idx),
{
    if has_entry(f, g, idx) {
        let k = choose|k: int| 0 <= k < f.len() && (#[trigger] f[k]).1 == g && f[k].2 == idx;
        assert(f.push(e)[k] == f[k]);
    } else {
        assert(f.push(e)[f.len() as int] == e);
    }
}

proof fn lemma_has_entry_remove(f: Seq<(u64, u32, usize)>, m: int, g: u32, idx: usize)
    requires
        0 <= m < f.len(),
        has_entry(f, g, idx),
        !(f[m].1 == g && f[m].2 == idx),
    ensures
        has_entry(f.update(m, f.last()).drop_last(), g, idx),
{
    let k = choose|k: int| 0 <= k < f.len() && (#[trigger] f[k]).1 == g && f[k].2 == idx;
    let f2 = f.update(m, f.last()).drop_last();
    if k == f.len() - 1 {
        assert(f2[m] == f[k]);
    } else {
        assert(f2[k] == f[k]);
    }
}

/// Deterministic A* from the head to `goal` on the (possibly periodic)
/// board. Returns the per-tick directions of a path to the goal; the first
/// step never reverses the current direction (the game would ignore it) and
/// enters a cell that is free by then or is the goal. A goal that is the
/// head or one allowed first step away is always found.
#[verifier::rlimit(100)]
#[verifier::spinoff_prover]
fn astar(state: &GameState, goal: Offset, vacate: &Vec<u32>) -> (r: Option<Vec<Direction>>)
    requires
        state.wf(),
        state@.board.distances_fit(),
        state@.board.in_bounds(goal),
        vacate@.len() == state@.board.cell_count(),
    ensures
        r matches Some(path) ==> walk_end(state@.board, state@.snake[0], path@) == Some(goal),
        r matches Some(path) ==> path@.len() > 0 ==> first_step_ok(
            state@,
            goal,
            vacate@,
            path@[0],
        ),
        goal_in_one(state@, goal, vacate@) ==> r is Some,
        r is None ==> exists|g: Seq<u32>|
            #[trigger] costs_closed(state@, goal, vacate@, state@.board.index_of(state@.snake[0]), g)
                && g[state@.board.index_of(goal)] == u32::MAX,
{
    let ghost v = state@;
    proof {
        state.lemma_wf_view();
    }
    let board = state.board();
    let start = state.head();
    let start_idx = cell_index(board, start);
    let goal_idx = cell_index(board, goal);
    let n = board.num_cells();
    let back = state.direction().opposite();
    let mut g_cost: Vec<u32> = Vec::new();
    let mut came_from: Vec<Option<(usize, Direction)>> = Vec::new();
    let mut t: usize = 0;
    while t < n
        invariant
            0 <= t <= n,
            g_cost@.len() == t,
            came_from@.len() == t,
            forall|j: int| 0 <= j < t ==> #[trigger] g_cost@[j] == u32::MAX,
            forall|j: int| 0 <= j < t ==> (#[trigger] came_from@[j]) is None,
        decreases n - t,
    {
        g_cost.push(u32::MAX);
        came_from.push(None);
        t += 1;
    }
    g_cost.set(start_idx, 0);
    proof {
        crate::board::lemma_distance_computable(v.board, start, goal);
        crate::board::lemma_cell_at_in_bounds(v.board, start_idx as int);
    }
    let mut frontier: Vec<(u64, u32, usize)> = Vec::new();
    frontier.push((board.distance(start, goal) as u64, 0u32, start_idx));
    let dirs = Direction::all();
    let ghost easy = goal_in_one(v, goal, vacate@);
    let ghost gd: Direction = choose|d: Direction|
        first_step_ok(v, goal, vacate@, d) && #[trigger] v.board.neighbor_of(v.snake[0], d) == Some(goal);
    let ghost gi: int = crate::coords::dir_index(gd);
    let ghost mut started = false;
    proof {
        crate::board::lemma_index_injective(v.board, start, goal);
        crate::board::lemma_index_in_range(v.board, goal);
        assert(all_directions()[gi] == gd);
        assert(frontier@[0].1 == 0 && frontier@[0].2 == start_idx);
    }
    while frontier.len() > 0
        invariant
            v == state@,
            state.wf(),
            *board == v.board,
            v.board.wf(),
            v.board.cell_count() <= i32::MAX,
            v.board.distances_fit(),
            v.board.in_bounds(goal),
            v.board.in_bounds(v.snake[0]),
            start == v.snake[0],
            start_idx as int == v.board.index_of(start),
            goal_idx as int == v.board.index_of(goal),
            0 <= start_idx < n,
            0 <= goal_idx < n,
            back == opposite_of(v.direction),
            n as int == v.board.cell_count(),
            dirs@ == all_directions(),
            vacate@.len() == n,
            search_ok(v, goal, vacate@, start_idx as int, g_cost@, came_from@),
            forall|k: int|
                0 <= k < frontier@.len() ==> (#[trigger] frontier@[k]).2 < n && frontier@[k].1
                    < u32::MAX && g_cost@[frontier@[k].2 as int] <= frontier@[k].1,
            easy == goal_in_one(v, goal, vacate@),
            easy && goal_idx != start_idx ==> first_step_ok(v, goal, vacate@, gd)
                && v.board.neighbor_of(v.snake[0], gd) == Some(goal),
            0 <= gi < 6,
            dirs@[gi] == gd,
            goal_idx == start_idx <==> goal == v.snake[0],
            g_cost@[goal_idx as int] != u32::MAX ==> has_entry(frontier@, g_cost@[goal_idx as int], goal_idx),
            !started ==> frontier@.len() == 1 && frontier@[0].1 == 0 && frontier@[0].2 == start_idx,
            started && easy && goal_idx != start_idx ==> g_cost@[goal_idx as int] != u32::MAX,
            forall|i: int|
                0 <= i < n && #[trigger] g_cost@[i] < u32::MAX ==> has_entry(frontier@, g_cost@[i], i as usize)
                    || relaxed_at(v, goal, vacate@, start_idx as int, g_cost@, i),
        decreases 2 * cost_sum(g_cost@) + frontier@.len(),
    {
        // Pop the smallest entry.
        let mut m: usize = 0;
        let mut k: usize = 1;
        while k < frontier.len()
            invariant
                0 <= m < frontier@.len(),
                1 <= k <= frontier@.len(),
            decreases frontier@.len() - k,
        {
            if entry_less(frontier[k], frontier[m]) {
                m = k;
            }
            k += 1;
        }
        let ghost f0 = frontier@;
        let entry = frontier.swap_remove(m);
        let g = entry.1;
        let idx = entry.2;
        proof {
            if g_cost@[goal_idx as int] != u32::MAX && !(idx == goal_idx && g == g_cost@[goal_idx as int]) {
                lemma_has_entry_remove(f0, m as int, g_cost@[goal_idx as int], goal_idx);
            }
            if !started {
                assert(m == 0);
            }
            assert forall|i: int|
                0 <= i < n && #[trigger] g_cost@[i] < u32::MAX && !(i == idx && g == g_cost@[i]) implies has_entry(
                frontier@,
                g_cost@[i],
                i as usize,
            ) || relaxed_at(v, goal, vacate@, start_idx as int, g_cost@, i) by {
                if has_entry(f0, g_cost@[i], i as usize) {
                    lemma_has_entry_remove(f0, m as int, g_cost@[i], i as usize);
                }
            }
        }
        if g > g_cost[idx] {
            continue;
        }
        if idx == goal_idx {
            // Reconstruct the path back to the start.
            let mut rev: Vec<Direction> = Vec::new();
            let mut at = idx;
            let ghost mut first_target: int = idx as int;
            proof {
                crate::board::lemma_cell_at_in_bounds(v.board, idx as int);
                crate::board::lemma_index_in_range(v.board, goal);
            }
            loop
                invariant_except_break
                    g_cost@[at as int] != u32::MAX,
                invariant
                    v == state@,
                    v.board.wf(),
                    v.board.cell_count() <= i32::MAX,
                    n as int == v.board.cell_count(),
                    0 <= at < n,
                    search_ok(v, goal, vacate@, start_idx as int, g_cost@, came_from@),
                    v.board.in_bounds(v.board.cell_at(at as int)),
                    walk_end(v.board, v.board.cell_at(at as int), rev@.reverse()) == Some(goal),
                    rev@.len() > 0 ==> 0 <= first_target < n && came_from@[first_target] == Some(
                        (at, rev@.last()),
                    ),
                ensures
                    at == start_idx,
                decreases g_cost@[at as int],
            {
                match came_from[at] {
                    Some((prev, dir)) => {
                        proof {
                            assert((came_from@[at as int]) is Some);
                            crate::board::lemma_cell_at_in_bounds(v.board, prev as int);
                            let r2 = rev@.push(dir).reverse();
                            assert(r2 =~= seq![dir] + rev@.reverse());
                            assert(r2.drop_first() =~= rev@.reverse());
                            first_target = at as int;
                        }
                        rev.push(dir);
                        at = prev;
                    },
                    None => {
                        break;
                    },
                }
            }
            let mut path: Vec<Direction> = Vec::new();
            let mut j: usize = rev.len();
            while j > 0
                invariant
                    0 <= j <= rev@.len(),
                    path@ == rev@.subrange(j as int, rev@.len() as int).reverse(),
                decreases j,
            {
                j -= 1;
                proof {
                    assert(rev@.subrange(j as int, rev@.len() as int).reverse() =~= rev@.subrange(
                        j + 1,
                        rev@.len() as int,
                    ).reverse().push(rev@[j as int]));
                }
                path.push(rev[j]);
            }
            proof {
                assert(rev@.subrange(0, rev@.len() as int) =~= rev@);
                crate::board::lemma_index_in_range(v.board, start);
                if path@.len() > 0 {
                    assert(path@[0] == rev@.last());
                }
            }
            return Some(path);
        }
        proof {
            crate::board::lemma_cell_at_in_bounds(v.board, idx as int);
        }
        let ghost old_costs = g_cost@;
        let ghost old_len = frontier@.len();
        let ghost was_started = started;
        let w = board.width;
        let cell = Offset::new((idx as i32) % w, (idx as i32) / w);
        let mut t: usize = 0;
        while t < 6
            invariant
                v == state@,
                state.wf(),
                *board == v.board,
                v.board.wf(),
                v.board.cell_count() <= i32::MAX,
                v.board.distances_fit(),
                v.board.in_bounds(goal),
                v.board.in_bounds(cell),
                v.board.in_bounds(v.snake[0]),
                cell == v.board.cell_at(idx as int),
                0 <= idx < n,
                g == g_cost@[idx as int],
                g < u32::MAX,
                g == 0 <==> idx == start_idx,
                start_idx as int == v.board.index_of(v.snake[0]),
                goal_idx as int == v.board.index_of(goal),
                0 <= start_idx < n,
                back == opposite_of(v.direction),
                n as int == v.board.cell_count(),
                dirs@ == all_directions(),
                vacate@.len() == n,
                0 <= t <= 6,
                search_ok(v, goal, vacate@, start_idx as int, g_cost@, came_from@),
                forall|k: int|
                    0 <= k < frontier@.len() ==> (#[trigger] frontier@[k]).2 < n && frontier@[k].1
                        < u32::MAX && g_cost@[frontier@[k].2 as int] <= frontier@[k].1,
                2 * cost_sum(g_cost@) + frontier@.len() <= 2 * cost_sum(old_costs) + old_len,
                g_cost@.len() == n,
                g_cost@[goal_idx as int] <= old_costs[goal_idx as int],
                goal_idx != idx,
                0 <= goal_idx < n,
                easy && goal_idx != start_idx ==> first_step_ok(v, goal, vacate@, gd)
                    && v.board.neighbor_of(v.snake[0], gd) == Some(goal),
                0 <= gi < 6,
                dirs@[gi] == gd,
                g_cost@[goal_idx as int] != u32::MAX ==> has_entry(frontier@, g_cost@[goal_idx as int], goal_idx),
                idx == start_idx && easy && t > gi ==> g_cost@[goal_idx as int] != u32::MAX,
                g_cost@[idx as int] == g,
                forall|i: int|
                    0 <= i < n && i != idx && #[trigger] g_cost@[i] < u32::MAX ==> has_entry(frontier@, g_cost@[i], i as usize)
                        || relaxed_at(v, goal, vacate@, start_idx as int, g_cost@, i),
                forall|s: int|
                    0 <= s < t && step_open(v, goal, vacate@, start_idx as int, idx as int, #[trigger] all_directions()[s], g as int)
                        ==> g_cost@[v.board.index_of(
                        v.board.neighbor_of(v.board.cell_at(idx as int), all_directions()[s]).unwrap(),
                    )] <= g + 1,
            decreases 6 - t,
        {
            let dir = dirs[t];
            proof {
                if idx == start_idx && easy && t as int == gi {
                    crate::board::lemma_index_in_range(v.board, v.snake[0]);
                    crate::board::lemma_index_in_range(v.board, goal);
                    assert(cell == v.snake[0]);
                    assert(dir == gd);
                    assert(dir != back);
                    assert(v.board.neighbor_of(cell, dir) == Some(goal));
                }
            }
            let ghost tt = t as int;
            let ghost gprev = g_cost@;
            t += 1;
            if g == 0 && dir == back {
                proof {
                    assert forall|s: int|
                        0 <= s < t && step_open(v, goal, vacate@, start_idx as int, idx as int, #[trigger] all_directions()[s], g as int)
                            implies g_cost@[v.board.index_of(
                            v.board.neighbor_of(v.board.cell_at(idx as int), all_directions()[s]).unwrap(),
                        )] <= g + 1 by {
                        crate::board::lemma_neighbor_in_bounds(v.board, cell, all_directions()[s]);
                        crate::board::lemma_index_in_range(v.board, v.board.neighbor_of(cell, all_directions()[s]).unwrap());
                        let k = v.board.index_of(v.board.neighbor_of(cell, all_directions()[s]).unwrap());
                        if s < tt {
                            assert(gprev[k] <= g + 1);
                        } else {
                            assert(all_directions()[s] == dir);
                            assert(!step_open(v, goal, vacate@, start_idx as int, idx as int, dir, g as int));
                        }
                    }
                }
                continue;
            }
            let next = match board.neighbor(cell, dir) {
                Some(next) => next,
                None => {
                proof {
                    assert forall|s: int|
                        0 <= s < t && step_open(v, goal, vacate@, start_idx as int, idx as int, #[trigger] all_directions()[s], g as int)
                            implies g_cost@[v.board.index_of(
                            v.board.neighbor_of(v.board.cell_at(idx as int), all_directions()[s]).unwrap(),
                        )] <= g + 1 by {
                        crate::board::lemma_neighbor_in_bounds(v.board, cell, all_directions()[s]);
                        crate::board::lemma_index_in_range(v.board, v.board.neighbor_of(cell, all_directions()[s]).unwrap());
                        let k = v.board.index_of(v.board.neighbor_of(cell, all_directions()[s]).unwrap());
                        if s < tt {
                            assert(gprev[k] <= g + 1);
                        } else {
                            assert(all_directions()[s] == dir);
                            assert(!step_open(v, goal, vacate@, start_idx as int, idx as int, dir, g as int));
                        }
                    }
                }
                    continue;
                },
            };
            let next_idx = cell_index(board, next);
            let arrival = g + 1;
            if arrival < vacate[next_idx] && next_idx != goal_idx {
                proof {
                    crate::board::lemma_index_in_range(v.board, goal);
                }
                proof {
                    assert forall|s: int|
                        0 <= s < t && step_open(v, goal, vacate@, start_idx as int, idx as int, #[trigger] all_directions()[s], g as int)
                            implies g_cost@[v.board.index_of(
                            v.board.neighbor_of(v.board.cell_at(idx as int), all_directions()[s]).unwrap(),
                        )] <= g + 1 by {
                        crate::board::lemma_neighbor_in_bounds(v.board, cell, all_directions()[s]);
                        crate::board::lemma_index_in_range(v.board, v.board.neighbor_of(cell, all_directions()[s]).unwrap());
                        let k = v.board.index_of(v.board.neighbor_of(cell, all_directions()[s]).unwrap());
                        if s < tt {
                            assert(gprev[k] <= g + 1);
                        } else {
                            assert(all_directions()[s] == dir);
                            assert(!step_open(v, goal, vacate@, start_idx as int, idx as int, dir, g as int));
                        }
                    }
                }
                continue;
            }
            if arrival < g_cost[next_idx] {
                proof {
                    lemma_cost_sum_update(g_cost@, next_idx as int, arrival);
                    crate::board::lemma_distance_computable(v.board, next, goal);
                    crate::board::lemma_index_in_range(v.board, next);
                    crate::board::lemma_index_in_range(v.board, v.snake[0]);
                    crate::board::lemma_index_injective(v.board, next, goal);
                    if idx == start_idx {
                        assert(v.board.cell_at(idx as int) == v.snake[0]);
                        assert(first_step_ok(v, goal, vacate@, dir));
                    }
                    lemma_search_relax(
                        v,
                        goal,
                        vacate@,
                        start_idx as int,
                        g_cost@,
                        came_from@,
                        idx,
                        dir,
                        next_idx,
                        arrival,
                    );
                }
                let ghost fb = frontier@;
                let ghost gb = g_cost@;
                proof {
                    assert forall|i: int|
                        0 <= i < n && i != idx && i != next_idx && #[trigger] gb[i] < u32::MAX && !has_entry(fb, gb[i], i as usize)
                            implies relaxed_at(v, goal, vacate@, start_idx as int, gb.update(next_idx as int, arrival), i) by {
                        lemma_relaxed_lower(v, goal, vacate@, start_idx as int, gb, i, next_idx as int, arrival);
                    }
                }
                g_cost.set(next_idx, arrival);
                came_from.set(next_idx, Some((idx, dir)));
                let e = (arrival as u64 + board.distance(next, goal) as u64, arrival, next_idx);
                frontier.push(e);
                proof {
                    assert forall|i: int|
                        0 <= i < n && i != idx && #[trigger] g_cost@[i] < u32::MAX implies has_entry(frontier@, g_cost@[i], i as usize)
                            || relaxed_at(v, goal, vacate@, start_idx as int, g_cost@, i) by {
                        if i == next_idx {
                            lemma_has_entry_push(fb, e, g_cost@[i], i as usize);
                        } else if has_entry(fb, gb[i], i as usize) {
                            lemma_has_entry_push(fb, e, g_cost@[i], i as usize);
                        }
                    }
                    if g_cost@[goal_idx as int] != u32::MAX {
                        if next_idx == goal_idx {
                            lemma_has_entry_push(fb, e, g_cost@[goal_idx as int], goal_idx);
                        } else {
                            assert(g_cost@[goal_idx as int] == gb[goal_idx as int]);
                            lemma_has_entry_push(fb, e, g_cost@[goal_idx as int], goal_idx);
                        }
                    }
                }
            }
                proof {
                    assert forall|s: int|
                        0 <= s < t && step_open(v, goal, vacate@, start_idx as int, idx as int, #[trigger] all_directions()[s], g as int)
                            implies g_cost@[v.board.index_of(
                            v.board.neighbor_of(v.board.cell_at(idx as int), all_directions()[s]).unwrap(),
                        )] <= g + 1 by {
                        crate::board::lemma_neighbor_in_bounds(v.board, cell, all_directions()[s]);
                        crate::board::lemma_index_in_range(v.board, v.board.neighbor_of(cell, all_directions()[s]).unwrap());
                        let k = v.board.index_of(v.board.neighbor_of(cell, all_directions()[s]).unwrap());
                        if s < tt {
                            assert(gprev[k] <= g + 1);
                        } else {
                            assert(all_directions()[s] == dir);
                            assert(k == next_idx as int);
                        }
                    }
                }
        }
        proof {
            if idx == start_idx {
                started = true;
            }
            lemma_relaxed_intro(v, goal, vacate@, start_idx as int, g_cost@, idx as int);
        }
    }
    proof {
        crate::board::lemma_index_in_range(v.board, v.snake[0]);
        crate::board::lemma_index_in_range(v.board, goal);
        if g_cost@[goal_idx as int] != u32::MAX {
            assert(has_entry(frontier@, g_cost@[goal_idx as int], goal_idx));
        }
        assert(costs_closed(v, goal, vacate@, start_idx as int, g_cost@));
        if easy {
            assert(started);
            if goal_idx == start_idx {
                assert(g_cost@[goal_idx as int] == 0);
            }
            assert(has_entry(frontier@, g_cost@[goal_idx as int], goal_idx));
        }
    }
    None
}

/// Can the head still reach the tail cell over free cells?
fn tail_reachable(state: &GameState) -> (r: bool)
    requires
        state.wf(),
    ensures
        r == tail_reachable_spec(state@),
{
    let ghost v = state@;
    proof {
        state.lemma_wf_view();
    }
    let board = state.board();
    let target = state.tail();
    let head = state.head();
    let mut cells: Vec<Offset> = Vec::new();
    flood_fill(state, head, &mut cells);
    proof {
        lemma_fill_is_reach_set(v, head, cells@);
    }
    let dirs = Direction::all();
    let mut k: usize = 0;
    while k <= cells.len()
        invariant
            v == state@,
            *board == v.board,
            v.board.wf(),
            head == v.snake[0],
            v.board.in_bounds(head),
            target == v.snake.last(),
            dirs@ == all_directions(),
            cells@.to_set() == reach_set(v, head),
            cells@.len() < v.board.cell_count(),
            v.board.cell_count() <= i32::MAX,
            forall|j: int| 0 <= j < cells@.len() ==> v.board.in_bounds(#[trigger] cells@[j]),
            0 <= k <= cells@.len() + 1,
            k > 0 ==> forall|d: Direction| #[trigger] v.board.neighbor_of(head, d) != Some(target),
            forall|j: int, d: Direction|
                0 <= j < k - 1 ==> #[trigger] v.board.neighbor_of(cells@[j], d) != Some(target),
        decreases cells@.len() + 1 - k,
    {
        let cell = if k == 0 {
            head
        } else {
            cells[k - 1]
        };
        let mut t: usize = 0;
        while t < 6
            invariant
                v == state@,
                *board == v.board,
                v.board.wf(),
                v.board.in_bounds(cell),
                head == v.snake[0],
                target == v.snake.last(),
                k == 0 ==> cell == head,
                k > 0 ==> k - 1 < cells@.len() && cell == cells@[k - 1],
                cells@.to_set() == reach_set(v, head),
                dirs@ == all_directions(),
                0 <= t <= 6,
                forall|s: int|
                    0 <= s < t ==> v.board.neighbor_of(cell, #[trigger] all_directions()[s]) != Some(
                        target,
                    ),
            decreases 6 - t,
        {
            if board.neighbor(cell, dirs[t]) == Some(target) {
                proof {
                    if k > 0 {
                        assert(cells@[k - 1] == cell);
                        assert(cells@.contains(cell));
                        assert(cells@.to_set().contains(cell));
                    }
                    assert(v.board.neighbor_of(cell, all_directions()[t as int]) == Some(target));
                }
                return true;
            }
            t += 1;
        }
        proof {
            assert forall|d: Direction| #[trigger] v.board.neighbor_of(cell, d) != Some(target) by {
                assert(all_directions()[crate::coords::dir_index(d)] == d);
            }
        }
        k += 1;
    }
    proof {
        assert forall|c: Offset, d: Direction|
            (c == v.snake[0] || reach_set(v, v.snake[0]).contains(c)) implies #[trigger] v.board.neighbor_of(
            c,
            d,
        ) != Some(v.snake.last()) by {
            if c != head {
                assert(cells@.to_set().contains(c));
                let j = choose|j: int| 0 <= j < cells@.len() && cells@[j] == c;
                assert(v.board.neighbor_of(cells@[j], d) != Some(target));
            }
        }
    }
    false
}

/// Simulate following `path` on a copy of the real state (including the
/// food respawns) and check that the snake can still reach its own tail
/// afterwards. The food cells of the simulation come from the game's
/// generator; the result is stated for whatever cells it picked.
fn survives_after(state: &GameState, path: &Vec<Direction>) -> (r: bool)
    requires
        state.wf(),
        state@.ticks + path@.len() < u64::MAX,
        state@.score + path@.len() < u32::MAX,
    ensures
        exists|trace: Seq<GameView>|
            #[trigger] sim_trace(cleared(state@), path@, trace) && (r <==> trace.len() == path@.len() + 1 && (path@.len() == 0
                || trace.last().status == Status::Running) && tail_reachable_spec(trace.last())),
{
    let mut sim = state.clone();
    sim.clear_input_queue();
    let ghost start = sim@;
    let ghost mut trace: Seq<GameView> = seq![sim@];
    let mut i: usize = 0;
    while i < path.len()
        invariant
            sim.wf(),
            start == cleared(state@),
            0 <= i <= path@.len(),
            trace.len() == i + 1,
            trace[0] == start,
            trace.last() == sim@,
            sim@.status == Status::Running || i == 0,
            forall|t: int|
                0 <= t < trace.len() - 1 ==> tick_rel(#[trigger] trace[t], Some(path@[t]), trace[t + 1]),
            forall|t: int| 1 <= t < trace.len() ==> (#[trigger] trace[t]).status == Status::Running,
            sim@.ticks <= state@.ticks + i,
            sim@.score <= state@.score + i,
            state@.ticks + path@.len() < u64::MAX,
            state@.score + path@.len() < u32::MAX,
        decreases path@.len() - i,
    {
        proof {
            sim.lemma_wf_view();
        }
        let ghost before = sim@;
        sim.tick(Some(path[i]));
        proof {
            crate::game::lemma_tick_counts(before, Some(path@[i as int]), sim@);
            trace = trace.push(sim@);
            assert forall|t: int| 0 <= t < trace.len() - 1 implies tick_rel(
                #[trigger] trace[t],
                Some(path@[t]),
                trace[t + 1],
            ) by {
                if t < i {
                    assert(trace[t] == trace.drop_last()[t]);
                    assert(trace[t + 1] == trace.drop_last()[t + 1]);
                }
            }
            sim.lemma_wf_view();
        }
        if sim.status() != Status::Running {
            proof {
                assert(sim_trace(start, path@, trace));
            }
            return false;
        }
        i += 1;
    }
    let r = tail_reachable(&sim);
    proof {
        assert(sim_trace(start, path@, trace));
    }
    r
}

impl Strategy for PathPlanner {
    open spec fn suits(&self, board: Board) -> bool {
        true
    }

    /// Follow the search's route to the food if the snake survives it and
    /// can still reach its tail afterwards; otherwise the route to the tail;
    /// otherwise the first safe move; otherwise straight on.
    fn next_move(&mut self, state: &GameState) -> (d: Direction)
        ensures
            exists|food_route: Option<Seq<Direction>>|
                #[trigger] astar_answer(state@, state@.food, vacate_table(state@), food_route)
                    && planner_choice(state@, food_route, d),
    {
        let ghost v = state@;
        proof {
            state.lemma_wf_view();
            reveal(marked_on_snake);
        }
        let vacate = vacate_times(state);
        proof {
            lemma_vacate_table(v, vacate@);
        }
        let food = state.food();
        let food_plan = astar(state, food, &vacate);
        let ghost fr = seq_of_route(food_plan);
        proof {
            assert(astar_answer(v, food, vacate@, fr));
        }
        match food_plan {
            Some(path) => {
                let mut go = false;
                if path.len() > 0 && (path.len() as u64) < u64::MAX - state.ticks() && (path.len()
                    as u64) < (u32::MAX - state.score()) as u64 {
                    go = survives_after(state, &path);
                    proof {
                        let p = path@;
                        if go {
                            let t = choose|trace: Seq<GameView>|
                                #[trigger] sim_trace(cleared(v), p, trace) && (go <==> trace.len()
                                    == p.len() + 1 && (p.len() == 0 || trace.last().status
                                    == Status::Running) && tail_reachable_spec(trace.last()));
                            assert(follows_safely(v, p));
                        } else if follows_safely(v, p) {
                            let t1 = choose|trace: Seq<GameView>|
                                #[trigger] sim_trace(cleared(v), p, trace) && (go <==> trace.len()
                                    == p.len() + 1 && (p.len() == 0 || trace.last().status
                                    == Status::Running) && tail_reachable_spec(trace.last()));
                            let t2 = choose|trace: Seq<GameView>|
                                #[trigger] sim_trace(cleared(v), p, trace) && trace.len() == p.len()
                                    + 1 && trace.last().status == Status::Running
                                    && tail_reachable_spec(trace.last());
                            lemma_sim_trace_unique(cleared(v), p, t1, t2);
                        }
                    }
                }
                if go {
                    self.remember_path(state, &path);
                    proof {
                        if v.status == Status::Running {
                            lemma_first_step_safe(v, food, vacate@, path@[0]);
                        }
                        assert(planner_choice(v, fr, path@[0]));
                    }
                    return path[0];
                }
                proof {
                    assert(!follows_safely(v, path@));
                }
            },
            None => {},
        }
        proof {
            assert(!(fr matches Some(p) && follows_safely(v, p)));
        }
        let tail = state.tail();
        let tail_plan = astar(state, tail, &vacate);
        let ghost tr = seq_of_route(tail_plan);
        proof {
            assert(astar_answer(v, tail, vacate@, tr));
        }
        match tail_plan {
            Some(path) => {
                if path.len() > 0 {
                    self.remember_path(state, &path);
                    proof {
                        if v.status == Status::Running {
                            lemma_first_step_safe(v, tail, vacate@, path@[0]);
                        }
                        assert(fallback_choice(v, tr, path@[0]));
                        assert(planner_choice(v, fr, path@[0]));
                    }
                    return path[0];
                }
            },
            None => {},
        }
        proof {
            assert(!(tr matches Some(q) && q.len() > 0));
        }
        self.debug.path.clear();
        let moves = safe_moves(state);
        if moves.len() > 0 {
            proof {
                let d0 = moves@[0].0;
                assert(is_safe_move(v, d0));
                assert forall|e: Direction| #[trigger] is_safe_move(v, e) implies dir_index(d0) <= dir_index(e) by {
                    let j = choose|j: int| 0 <= j < moves@.len() && moves@[j].0 == e;
                    if j > 0 {
                        assert(dir_index(moves@[0].0) < dir_index(moves@[j].0));
                    }
                }
                assert(fallback_choice(v, tr, d0));
                assert(planner_choice(v, fr, d0));
            }
            moves[0].0
        } else {
            proof {
                assert forall|e: Direction| !is_safe_move(v, e) by {
                    if is_safe_move(v, e) {
                        let j = choose|j: int| 0 <= j < moves@.len() && moves@[j].0 == e;
                    }
                }
                assert(fallback_choice(v, tr, v.direction));
                assert(planner_choice(v, fr, v.direction));
            }
            doomed_move(state)
        }
    }

    fn debug(&self) -> (r: Option<&StrategyDebug>)
        ensures
            r matches Some(x) && *x == self.debug_view(),
    {
        Some(&self.debug)
    }
}

/// A table that gives every cell its vacate time is the vacate table.
proof fn lemma_vacate_table(v: GameView, vac: Seq<u32>)
    requires
        v.board.wf(),
        vac.len() == v.board.cell_count(),
        forall|c: Offset| v.board.in_bounds(c) ==> vac[v.board.index_of(c)] == vacate_time(v, c),
    ensures
        vac == vacate_table(v),
{
    assert forall|i: int| 0 <= i < vac.len() implies vac[i] == vacate_table(v)[i] by {
        crate::board::lemma_cell_at_in_bounds(v.board, i);
    }
    assert(vac =~= vacate_table(v));
}

/// The first step of a planned path towards the food or the tail is a safe
/// move of a running game.
proof fn lemma_first_step_safe(v: GameView, goal: Offset, vacate: Seq<u32>, d: Direction)
    requires
        view_wf(v),
        v.status == Status::Running,
        goal == v.food || goal == v.snake.last(),
        forall|c: Offset| v.board.in_bounds(c) ==> vacate[v.board.index_of(c)] == vacate_time(v, c),
        first_step_ok(v, goal, vacate, d),
    ensures
        is_safe_move(v, d),
{
    reveal(marked_on_snake);
    let n = v.board.neighbor_of(v.snake[0], d).unwrap();
    crate::board::lemma_neighbor_in_bounds(v.board, v.snake[0], d);
    lemma_vacate_small(v.snake, n, v.snake.len() as int);
    if n != goal {
        if vacate_time(v, n) == 0 {
            if v.occupied.contains(n) {
                assert(v.snake.contains(n));
            }
        }
    }
}

} // verus!

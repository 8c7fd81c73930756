//! Deterministic game state and tick logic.
use std::collections::VecDeque;

use rand::{Rng, SeedableRng};
use rand_pcg::Lcg64Xsh32;
use vstd::prelude::*;

use crate::board::{Board, BoundaryMode};
use crate::coords::{opposite_of, Direction, Offset};

verus! {

/// Maximum number of buffered direction inputs.
pub const INPUT_QUEUE_CAPACITY: usize = 3;

/// Snake length at game start.
pub const START_LENGTH: usize = 3;

#[verifier::external_type_specification]
#[verifier::external_body]
pub struct ExLcg64Xsh32(Lcg64Xsh32);

/// The generator `seed_from_u64` makes of a seed.
pub uninterp spec fn pcg_seeded(seed: u64) -> Lcg64Xsh32;

/// `SeedableRng::seed_from_u64` for the PCG32 generator (`Lcg64Xsh32`).
/// rand_core derives the generator's seed from the `u64` by a fixed PCG32
/// sequence, so the generator is a function of the seed alone: it is named
/// [`pcg_seeded`]. Its state is opaque here; nothing else is stated.
#[verifier::external_body]
pub(crate) fn pcg_from_seed(seed: u64) -> (r: Lcg64Xsh32)
    ensures
        r == pcg_seeded(seed),
{
    Lcg64Xsh32::seed_from_u64(seed)
}

/// What `random_range(0..bound)` (`u32`) draws from a PCG32 generator in a
/// given state, and the state it leaves.
pub uninterp spec fn pcg_range_u32(rng: Lcg64Xsh32, bound: u32) -> (u32, Lcg64Xsh32);

/// What `random_range(0..bound)` (`usize`) draws from a PCG32 generator in
/// a given state, and the state it leaves.
pub uninterp spec fn pcg_range_usize(rng: Lcg64Xsh32, bound: usize) -> (usize, Lcg64Xsh32);

/// `Rng::random_range(0..bound)` with `u32` bounds on the PCG32 generator.
/// The value lies in `0..bound` (rand documents the range; it panics on an
/// empty range, hence `bound > 0`). PCG32 is a deterministic function of its
/// state, so the value and the next state are named [`pcg_range_u32`] of the
/// state and the bound; which value that is, is not restated.
#[verifier::external_body]
fn pcg_below_u32(rng: &mut Lcg64Xsh32, bound: u32) -> (r: u32)
    requires
        bound > 0,
    ensures
        r < bound,
        (r, *final(rng)) == pcg_range_u32(*old(rng), bound),
{
    rng.random_range(0..bound)
}

/// `Rng::random_range(0..bound)` with `usize` bounds on the PCG32 generator.
/// The value lies in `0..bound` (rand documents the range; it panics on an
/// empty range, hence `bound > 0`). The value and the next state are named
/// [`pcg_range_usize`] of the state and the bound.
#[verifier::external_body]
pub(crate) fn pcg_below_usize(rng: &mut Lcg64Xsh32, bound: usize) -> (r: usize)
    requires
        bound > 0,
    ensures
        r < bound,
        (r, *final(rng)) == pcg_range_usize(*old(rng), bound),
{
    rng.random_range(0..bound)
}

/// `Clone::clone` of the PCG32 generator (a derived field-by-field copy).
#[verifier::external_body]
fn pcg_clone(rng: &Lcg64Xsh32) -> (r: Lcg64Xsh32)
    ensures
        r == *rng,
{
    rng.clone()
}

#[derive(Debug, Clone, Copy, PartialEq, Eq, Structural)]
pub enum Status {
    Running,
    GameOver,
    /// The snake fills the whole board — there is no cell left for food.
    Won,
}

/// Immutable game parameters.
#[derive(Debug, Clone, Copy, PartialEq, Eq, Structural)]
pub struct Config {
    pub width: i32,
    pub height: i32,
    pub boundary: BoundaryMode,
    pub seed: u64,
}

impl Default for Config {
    fn default() -> (c: Self)
        ensures
            c == (Config { width: 16, height: 12, boundary: BoundaryMode::Walls, seed: 0 }),
    {
        Config { width: 16, height: 12, boundary: BoundaryMode::Walls, seed: 0 }
    }
}

/// The mathematical content of a game state.
pub ghost struct GameView {
    pub board: Board,
    /// Snake cells, head first.
    pub snake: Seq<Offset>,
    /// Cells marked in the occupancy map: what collisions and food placement
    /// consult.
    pub occupied: Set<Offset>,
    pub direction: Direction,
    pub queue: Seq<Direction>,
    pub food: Offset,
    pub score: int,
    pub ticks: int,
    pub ticks_since_food: int,
    pub status: Status,
    /// The seeded generator that places the food.
    pub rng: Lcg64Xsh32,
}

/// Full game state. Fully deterministic: the same config and the same input
/// sequence always produce the same sequence of states.
#[derive(Debug, PartialEq)]
pub struct GameState {
    board: Board,
    /// Snake cells, head at the front, tail at the back.
    snake: VecDeque<Offset>,
    /// Flat occupancy map (row-major) for O(1) `occupies()` checks.
    occupied: Vec<bool>,
    direction: Direction,
    input_queue: VecDeque<Direction>,
    food: Offset,
    score: u32,
    ticks: u64,
    /// Ticks since the snake last ate (0 right after eating).
    ticks_since_food: u64,
    status: Status,
    rng: Lcg64Xsh32,
}

/// A board on which a game can be set up: the starting snake fits inside,
/// there is room for food, and every cell index fits in `i32`.
pub open spec fn playable(width: int, height: int) -> bool {
    &&& width > 0
    &&& height >= 5
    &&& width * height > 4
    &&& width * height <= i32::MAX
}

/// The board of a configuration.
pub open spec fn config_board(c: Config) -> Board {
    Board { width: c.width, height: c.height, boundary: c.boundary }
}

/// The starting snake: head at the center, body extending south.
pub open spec fn start_snake(width: int, height: int) -> Seq<Offset> {
    let col = (width / 2) as i32;
    let row = height / 2;
    seq![
        Offset { col, row: row as i32 },
        Offset { col, row: (row + 1) as i32 },
        Offset { col, row: (row + 2) as i32 },
    ]
}

/// The cells marked in a row-major occupancy map.
pub open spec fn occupancy(board: Board, occ: Seq<bool>) -> Set<Offset> {
    Set::new(|c: Offset| board.in_bounds(c) && occ[board.index_of(c)])
}

/// The queue after buffering `d`: duplicates of the last queued direction and
/// inputs beyond the capacity are dropped.
pub open spec fn queue_after_push(q: Seq<Direction>, d: Direction) -> Seq<Direction> {
    if q.len() > 0 && q.last() == d {
        q
    } else if q.len() < INPUT_QUEUE_CAPACITY {
        q.push(d)
    } else {
        q
    }
}

pub open spec fn queue_after_input(q: Seq<Direction>, input: Option<Direction>) -> Seq<Direction> {
    match input {
        Some(d) => queue_after_push(q, d),
        None => q,
    }
}

/// Consume queued inputs until one is a real turn (neither the current
/// direction nor its reverse): the new direction and the remaining queue.
pub open spec fn take_turn(q: Seq<Direction>, cur: Direction) -> (Direction, Seq<Direction>)
    decreases q.len(),
{
    if q.len() == 0 {
        (cur, q)
    } else if q[0] != opposite_of(cur) && q[0] != cur {
        (q[0], q.drop_first())
    } else {
        take_turn(q.drop_first(), cur)
    }
}

/// Every cell of the board is marked occupied.
pub open spec fn board_full(board: Board, occupied: Set<Offset>) -> bool {
    forall|c: Offset| board.in_bounds(c) ==> #[trigger] occupied.contains(c)
}

/// A valid food cell: on the board and not marked occupied.
pub open spec fn food_ok(board: Board, occupied: Set<Offset>, food: Offset) -> bool {
    board.in_bounds(food) && !occupied.contains(food)
}

/// Food placement after growing (or at game start): either food lands on
/// some free cell and the game runs on, or no cell is free and it is won.
pub open spec fn food_placed(board: Board, occupied: Set<Offset>, old_food: Offset, v: GameView) -> bool {
    if board_full(board, occupied) {
        v.status == Status::Won && v.food == old_food
    } else {
        v.status == Status::Running && food_ok(board, occupied, v.food)
    }
}

/// The row-major scan that places food: each free cell is counted and kept
/// with chance one in the count (reservoir sampling), drawing from the
/// generator. After the first `k` cells: the cell kept so far, the free
/// cells counted, and the generator.
pub open spec fn food_scan(board: Board, occupied: Set<Offset>, rng: Lcg64Xsh32, k: nat) -> (Option<Offset>, u32, Lcg64Xsh32)
    decreases k,
{
    if k == 0 {
        (None, 0u32, rng)
    } else {
        let prev = food_scan(board, occupied, rng, (k - 1) as nat);
        let c = board.cell_at(k - 1);
        if occupied.contains(c) {
            prev
        } else {
            let count = (prev.1 + 1) as u32;
            let drawn = pcg_range_u32(prev.2, count);
            (if drawn.0 == 0 {
                Some(c)
            } else {
                prev.0
            }, count, drawn.1)
        }
    }
}

/// The food the generator `rng` places on the board with `occupied` marked:
/// the kept cell of the full scan (or, with no free cell, the old food and a
/// won game), and the generator after the scan.
#[verifier::opaque]
pub open spec fn food_drawn(board: Board, occupied: Set<Offset>, old_food: Offset, rng: Lcg64Xsh32, v: GameView) -> bool {
    let scan = food_scan(board, occupied, rng, board.cell_count() as nat);
    &&& v.rng == scan.2
    &&& match scan.0 {
        Some(c) => v.food == c && v.status == Status::Running,
        None => v.food == old_food && v.status == Status::Won,
    }
}

/// The initial state of a configuration; the food cell is the generator's
/// pick among the free cells.
pub open spec fn initial_rel(c: Config, v: GameView) -> bool {
    &&& v.board == config_board(c)
    &&& v.snake == start_snake(c.width as int, c.height as int)
    &&& v.occupied == v.snake.to_set()
    &&& v.direction == Direction::North
    &&& v.queue == Seq::<Direction>::empty()
    &&& v.score == 0
    &&& v.ticks == 0
    &&& v.ticks_since_food == 0
    &&& v.status == Status::Running
    &&& food_ok(v.board, v.occupied, v.food)
    &&& food_drawn(v.board, v.occupied, Offset { col: 0, row: 0 }, pcg_seeded(c.seed), v)
}

/// The game-over state reached from `old` after turning towards `dir`.
pub open spec fn game_over_view(old: GameView, dir: Direction, q: Seq<Direction>) -> GameView {
    GameView { direction: dir, queue: q, status: Status::GameOver, ..old }
}

/// One tick of the game: `new` is a successor of `old` under `input`.
/// Everything is determined except the cell where new food appears.
pub open spec fn tick_rel(old: GameView, input: Option<Direction>, new: GameView) -> bool {
    let q1 = queue_after_input(old.queue, input);
    if old.status != Status::Running {
        new == GameView { queue: q1, ..old }
    } else {
        let (dir, q2) = take_turn(q1, old.direction);
        let head = old.snake[0];
        let tail = old.snake.last();
        match old.board.neighbor_of(head, dir) {
            None => new == game_over_view(old, dir, q2),
            Some(next) => {
                let grows = next == old.food;
                if old.occupied.contains(next) && (grows || next != tail) {
                    new == game_over_view(old, dir, q2)
                } else if grows {
                    let occupied = old.occupied.insert(next);
                    &&& new.board == old.board
                    &&& new.snake == seq![next] + old.snake
                    &&& new.occupied == occupied
                    &&& new.direction == dir
                    &&& new.queue == q2
                    &&& new.score == old.score + 1
                    &&& new.ticks == old.ticks + 1
                    &&& new.ticks_since_food == 0
                    &&& food_placed(old.board, occupied, old.food, new)
                    &&& food_drawn(old.board, occupied, old.food, old.rng, new)
                } else {
                    new == GameView {
                        snake: seq![next] + old.snake.drop_last(),
                        occupied: old.occupied.remove(tail).insert(next),
                        direction: dir,
                        queue: q2,
                        ticks: old.ticks + 1,
                        ticks_since_food: old.ticks_since_food + 1,
                        ..old
                    }
                }
            },
        }
    }
}

/// Each snake segment is one step away from the segment behind it.
pub open spec fn contiguous(board: Board, snake: Seq<Offset>) -> bool {
    forall|i: int|
        0 <= i < snake.len() - 1 ==> board.adjacent(#[trigger] snake[i + 1], snake[i])
}

/// The consistency that every reachable game state keeps.
pub open spec fn view_wf(v: GameView) -> bool {
    &&& view_core_wf(v)
    &&& v.status != Status::Won ==> food_ok(v.board, v.occupied, v.food)
}

/// Every cell marked occupied is a snake cell.
#[verifier::opaque]
pub open spec fn marked_on_snake(occupied: Set<Offset>, snake: Seq<Offset>) -> bool {
    forall|c: Offset| #[trigger] occupied.contains(c) ==> snake.contains(c)
}

/// Every snake cell is marked occupied.
#[verifier::opaque]
pub open spec fn snake_marked(occupied: Set<Offset>, snake: Seq<Offset>) -> bool {
    forall|i: int| 0 <= i < snake.len() ==> #[trigger] occupied.contains(snake[i])
}

/// No cell holds two snake segments.
#[verifier::opaque]
pub open spec fn cells_distinct(snake: Seq<Offset>) -> bool {
    forall|i: int, j: int| 0 <= i < j < snake.len() ==> snake[i] != snake[j]
}

/// Everything of [`view_wf`] but the food cell.
pub open spec fn view_core_wf(v: GameView) -> bool {
    &&& v.board.wf()
    &&& v.board.cell_count() > 4
    &&& v.board.cell_count() <= i32::MAX
    &&& v.snake.len() == START_LENGTH + v.score
    &&& forall|i: int| 0 <= i < v.snake.len() ==> v.board.in_bounds(#[trigger] v.snake[i])
    &&& contiguous(v.board, v.snake)
    &&& forall|c: Offset| #[trigger] v.occupied.contains(c) ==> v.board.in_bounds(c)
    &&& marked_on_snake(v.occupied, v.snake)
    &&& snake_marked(v.occupied, v.snake)
    &&& cells_distinct(v.snake)
    &&& v.queue.len() <= INPUT_QUEUE_CAPACITY
    &&& v.board.in_bounds(v.food)
    &&& 0 <= v.score <= v.ticks
    &&& 0 <= v.ticks_since_food <= v.ticks
    &&& v.ticks <= u64::MAX
}

impl View for GameState {
    type V = GameView;

    closed spec fn view(&self) -> GameView {
        GameView {
            board: self.board,
            snake: self.snake@,
            occupied: occupancy(self.board, self.occupied@),
            direction: self.direction,
            queue: self.input_queue@,
            food: self.food,
            score: self.score as int,
            ticks: self.ticks as int,
            ticks_since_food: self.ticks_since_food as int,
            status: self.status,
            rng: self.rng,
        }
    }
}

impl Clone for GameState {
    fn clone(&self) -> (r: Self)
        ensures
            r@ == self@,
            self.wf() ==> r.wf(),
    {
        let snake = self.snake.clone();
        let occupied = self.occupied.clone();
        let input_queue = self.input_queue.clone();
        proof {
            assert(snake@ =~= self.snake@);
            assert(occupied@ =~= self.occupied@);
            assert(input_queue@ =~= self.input_queue@);
        }
        GameState {
            board: self.board,
            snake,
            occupied,
            direction: self.direction,
            input_queue,
            food: self.food,
            score: self.score,
            ticks: self.ticks,
            ticks_since_food: self.ticks_since_food,
            status: self.status,
            rng: pcg_clone(&self.rng),
        }
    }
}

/// Row-major index of an on-board cell.
fn cell_index_for(board: &Board, cell: Offset) -> (i: usize)
    requires
        board.wf(),
        board.cell_count() <= i32::MAX,
        board.in_bounds(cell),
    ensures
        i as int == board.index_of(cell),
        0 <= i < board.cell_count(),
{
    proof {
        crate::board::lemma_index_in_range(*board, cell);
    }
    (cell.row * board.width + cell.col) as usize
}

/// Marking or clearing one cell of the occupancy map inserts it into or
/// removes it from the occupied set.
proof fn lemma_occupancy_update(board: Board, occ: Seq<bool>, cell: Offset, val: bool)
    requires
        board.wf(),
        board.in_bounds(cell),
        occ.len() == board.cell_count(),
    ensures
        occupancy(board, occ.update(board.index_of(cell), val)) == if val {
            occupancy(board, occ).insert(cell)
        } else {
            occupancy(board, occ).remove(cell)
        },
{
    crate::board::lemma_index_in_range(board, cell);
    let new_occ = occ.update(board.index_of(cell), val);
    let target = if val {
        occupancy(board, occ).insert(cell)
    } else {
        occupancy(board, occ).remove(cell)
    };
    assert forall|c: Offset| occupancy(board, new_occ).contains(c) <==> target.contains(c) by {
        if board.in_bounds(c) {
            crate::board::lemma_index_in_range(board, c);
            crate::board::lemma_index_injective(board, c, cell);
        }
    }
    assert(occupancy(board, new_occ) =~= target);
}

impl GameState {
    /// Internal consistency of the state.
    pub closed spec fn wf(&self) -> bool {
        &&& view_wf(self@)
        &&& self.occupied@.len() == self.board.cell_count()
    }

    /// A well-formed state satisfies the view invariant.
    pub proof fn lemma_wf_view(&self)
        requires
            self.wf(),
        ensures
            view_wf(self@),
    {
    }

    pub fn new(config: Config) -> (s: GameState)
        requires
            playable(config.width as int, config.height as int),
        ensures
            s.wf(),
            initial_rel(config, s@),
    {
        let board = Board::new(config.width, config.height, config.boundary);
        let n = board.num_cells();
        let head = Offset::new(config.width / 2, config.height / 2);
        let mut snake: VecDeque<Offset> = VecDeque::new();
        let mut i: i32 = 0;
        while i < 3
            invariant
                0 <= i <= 3,
                head == (Offset { col: (config.width / 2) as i32, row: (config.height / 2) as i32 }),
                config.height >= 5,
                snake@.len() == i,
                forall|k: int|
                    0 <= k < i ==> #[trigger] snake@[k] == (Offset {
                        col: head.col,
                        row: (head.row + k) as i32,
                    }),
            decreases 3 - i,
        {
            snake.push_back(Offset::new(head.col, head.row + i));
            i += 1;
        }
        proof {
            lemma_start_snake_cells(config, head, snake@);
        }
        let mut occupied: Vec<bool> = Vec::new();
        let mut k: usize = 0;
        while k < n
            invariant
                0 <= k <= n,
                occupied@.len() == k,
                forall|j: int| 0 <= j < k ==> !(#[trigger] occupied@[j]),
            decreases n - k,
        {
            occupied.push(false);
            k += 1;
        }
        proof {
            assert forall|c: Offset| !occupancy(board, occupied@).contains(c) by {
                if board.in_bounds(c) {
                    crate::board::lemma_index_in_range(board, c);
                }
            }
            assert(occupancy(board, occupied@) =~= Set::<Offset>::empty());
            lemma_start_snake(config, board);
        }
        let mut j: usize = 0;
        while j < 3
            invariant
                board == config_board(config),
                board.wf(),
                playable(config.width as int, config.height as int),
                n as int == board.cell_count(),
                snake@ == start_snake(config.width as int, config.height as int),
                forall|t: int| 0 <= t < 3 ==> board.in_bounds(#[trigger] snake@[t]),
                snake@.len() == 3,
                0 <= j <= 3,
                occupied@.len() == n,
                occupancy(board, occupied@) == snake@.subrange(0, j as int).to_set(),
            decreases 3 - j,
        {
            let cell = snake[j];
            let idx = cell_index_for(&board, cell);
            proof {
                lemma_occupancy_update(board, occupied@, cell, true);
                assert(snake@.subrange(0, j + 1) =~= snake@.subrange(0, j as int).push(cell));
                snake@.subrange(0, j as int).lemma_push_to_set_commute(cell);
            }
            occupied.set(idx, true);
            j += 1;
        }
        proof {
            assert(snake@.subrange(0, 3) =~= snake@);
        }
        let mut state = GameState {
            board,
            snake,
            occupied,
            direction: Direction::North,
            input_queue: VecDeque::new(),
            food: Offset::new(0, 0),
            score: 0,
            ticks: 0,
            ticks_since_food: 0,
            status: Status::Running,
            rng: pcg_from_seed(config.seed),
        };
        proof {
            lemma_start_not_full(config, board, state@.occupied);
            reveal(marked_on_snake);
            reveal(snake_marked);
            reveal(cells_distinct);
            lemma_start_contiguous(config, board);
            let st = state@.snake;
            assert(st[0].row < st[1].row && st[1].row < st[2].row);
            assert forall|i: int| 0 <= i < st.len() implies #[trigger] state@.occupied.contains(st[i]) by {
                assert(st.to_set().contains(st[i]));
            }
        }
        state.respawn_food();
        state
    }

    pub fn board(&self) -> (b: &Board)
        ensures
            *b == self@.board,
    {
        &self.board
    }

    /// Snake cells, head first.
    pub fn snake(&self) -> (cells: Vec<Offset>)
        ensures
            cells@ == self@.snake,
    {
        let mut cells: Vec<Offset> = Vec::new();
        let mut i: usize = 0;
        while i < self.snake.len()
            invariant
                0 <= i <= self.snake@.len(),
                cells@ == self.snake@.subrange(0, i as int),
            decreases self.snake@.len() - i,
        {
            cells.push(self.snake[i]);
            i += 1;
            proof {
                assert(cells@ =~= self.snake@.subrange(0, i as int));
            }
        }
        proof {
            assert(cells@ =~= self.snake@);
        }
        cells
    }

    pub fn head(&self) -> (h: Offset)
        requires
            self.wf(),
        ensures
            h == self@.snake[0],
    {
        self.snake[0]
    }

    pub fn tail(&self) -> (t: Offset)
        requires
            self.wf(),
        ensures
            t == self@.snake.last(),
    {
        self.snake[self.snake.len() - 1]
    }

    pub fn snake_len(&self) -> (n: usize)
        ensures
            n == self@.snake.len(),
    {
        self.snake.len()
    }

    pub fn direction(&self) -> (d: Direction)
        ensures
            d == self@.direction,
    {
        self.direction
    }

    pub fn food(&self) -> (f: Offset)
        ensures
            f == self@.food,
    {
        self.food
    }

    pub fn score(&self) -> (s: u32)
        ensures
            s as int == self@.score,
    {
        self.score
    }

    pub fn ticks(&self) -> (t: u64)
        ensures
            t as int == self@.ticks,
    {
        self.ticks
    }

    /// Ticks since the snake last ate (0 right after eating).
    pub fn ticks_since_food(&self) -> (t: u64)
        ensures
            t as int == self@.ticks_since_food,
    {
        self.ticks_since_food
    }

    pub fn status(&self) -> (s: Status)
        ensures
            s == self@.status,
    {
        self.status
    }

    /// Whether the occupancy map marks this cell.
    pub fn occupies(&self, cell: Offset) -> (r: bool)
        requires
            self.wf(),
            self@.board.in_bounds(cell),
        ensures
            r == self@.occupied.contains(cell),
    {
        let idx = cell_index_for(&self.board, cell);
        self.occupied[idx]
    }

    /// Buffer a direction change for the next ticks. Inputs beyond the queue
    /// capacity and duplicates of the last queued direction are dropped.
    pub fn push_input(&mut self, dir: Direction)
        requires
            old(self).wf(),
        ensures
            final(self).wf(),
            final(self)@ == (GameView { queue: queue_after_push(old(self)@.queue, dir), ..old(self)@ }),
    {
        let len = self.input_queue.len();
        if len > 0 && self.input_queue[len - 1] == dir {
            return;
        }
        if len < INPUT_QUEUE_CAPACITY {
            self.input_queue.push_back(dir);
        }
    }

    /// Drop all buffered inputs, e.g. when the autopilot takes over or
    /// before simulating a planned path.
    pub fn clear_input_queue(&mut self)
        requires
            old(self).wf(),
        ensures
            final(self).wf(),
            final(self)@ == (GameView { queue: Seq::<Direction>::empty(), ..old(self)@ }),
    {
        self.input_queue.clear();
    }

    /// Advance the game by one tick. `input` (if any) is pushed onto the
    /// input queue first, equivalent to calling [`Self::push_input`].
    ///
    /// A queued 180° turn (the opposite of the current direction) is
    /// discarded, as in classic snake.
    pub fn tick(&mut self, input: Option<Direction>)
        requires
            old(self).wf(),
            old(self)@.ticks < u64::MAX,
            old(self)@.score < u32::MAX,
        ensures
            final(self).wf(),
            tick_rel(old(self)@, input, final(self)@),
    {
        if let Some(dir) = input {
            self.push_input(dir);
        }
        if self.status != Status::Running {
            return;
        }
        let ghost q1 = self@.queue;
        let ghost cur = self.direction;
        let ghost start = self@;
        loop
            invariant_except_break
                self.direction == cur,
                take_turn(self@.queue, cur) == take_turn(q1, cur),
            invariant
                self.wf(),
                self@ == (GameView { direction: self.direction, queue: self@.queue, ..start }),
            ensures
                (self.direction, self@.queue) == take_turn(q1, cur),
            decreases self@.queue.len(),
        {
            match self.input_queue.pop_front() {
                Some(dir) => {
                    if dir != self.direction.opposite() && dir != self.direction {
                        self.direction = dir;
                        break;
                    }
                },
                None => {
                    break;
                },
            }
        }
        let ghost turned = self@;
        let head = self.head();
        let next = match self.board.neighbor(head, self.direction) {
            Some(n) => n,
            None => {
                self.status = Status::GameOver;
                return;
            },
        };
        let grows = next == self.food;
        let tail = self.tail();
        let hits_body = self.occupies(next) && (grows || next != tail);
        if hits_body {
            self.status = Status::GameOver;
            return;
        }
        let idx = cell_index_for(&self.board, next);
        proof {
            lemma_take_turn_shrinks(q1, cur);
            assert(turned.board.adjacent(turned.snake[0], next));
            reveal(snake_marked);
            reveal(cells_distinct);
            reveal(marked_on_snake);
            // The entered cell holds no segment, or only the tail.
            if turned.snake.contains(next) {
                let k = choose|k: int| 0 <= k < turned.snake.len() && turned.snake[k] == next;
                assert(turned.occupied.contains(turned.snake[k]));
            }
        }
        if grows {
            proof {
                lemma_occupancy_update(self.board, self.occupied@, next, true);
                lemma_contiguous_push(turned.board, turned.snake, next, turned.snake.len() as int);
            }
            self.occupied.set(idx, true);
            self.snake.push_front(next);
            self.score = self.score + 1;
            self.ticks_since_food = 0;
            self.ticks = self.ticks + 1;
            proof {
                assert(turned.snake.subrange(0, turned.snake.len() as int) =~= turned.snake);
                assert(self@.snake =~= seq![next] + turned.snake);
                assert(contiguous(self.board, self@.snake));
                assert(forall|i: int|
                    0 <= i < self@.snake.len() ==> self.board.in_bounds(#[trigger] self@.snake[i]));
                assert(self@.queue.len() <= INPUT_QUEUE_CAPACITY);
                lemma_grow_marks(turned, next, self@);
            }
            self.respawn_food();
        } else {
            let removed = self.snake.pop_back();
            proof {
                assert(removed == Some(tail));
            }
            match removed {
                Some(cell) => {
                    let ridx = cell_index_for(&self.board, cell);
                    proof {
                        lemma_occupancy_update(self.board, self.occupied@, cell, false);
                    }
                    self.occupied.set(ridx, false);
                },
                None => {},
            }
            proof {
                lemma_occupancy_update(self.board, self.occupied@, next, true);
                lemma_contiguous_push(
                    turned.board,
                    turned.snake,
                    next,
                    turned.snake.len() - 1,
                );
                assert(turned.snake.subrange(0, turned.snake.len() - 1) =~= turned.snake.drop_last());
            }
            self.occupied.set(idx, true);
            self.snake.push_front(next);
            self.ticks_since_food = self.ticks_since_food + 1;
            self.ticks = self.ticks + 1;
            proof {
                assert(self@.snake =~= seq![next] + turned.snake.drop_last());
                lemma_move_marks(turned, next, self@);
            }
        }
    }

    /// Place food on a uniformly random free cell, deterministically derived
    /// from the seeded generator. Sets [`Status::Won`] if the board is full.
    fn respawn_food(&mut self)
        requires
            view_core_wf(old(self)@),
            old(self).occupied@.len() == old(self).board.cell_count(),
            old(self)@.status == Status::Running,
        ensures
            final(self).wf(),
            food_placed(old(self)@.board, old(self)@.occupied, old(self)@.food, final(self)@),
            food_drawn(old(self)@.board, old(self)@.occupied, old(self)@.food, old(self)@.rng, final(self)@),
            final(self)@ == (GameView {
                food: final(self)@.food,
                status: final(self)@.status,
                rng: final(self)@.rng,
                ..old(self)@
            }),
    {
        let mut chosen: Option<Offset> = None;
        let mut count: u32 = 0;
        let mut row: i32 = 0;
        let ghost occ = self@.occupied;
        let ghost rng0 = self.rng;
        let w = self.board.width;
        let h = self.board.height;
        while row < h
            invariant
                self@ == (GameView { rng: self.rng, ..old(self)@ }),
                rng0 == old(self).rng,
                (chosen, count, self.rng) == food_scan(self.board, occ, rng0, (row * w) as nat),
                self.occupied == old(self).occupied,
                occ == self@.occupied,
                w == self.board.width,
                h == self.board.height,
                self.board.wf(),
                self.board.cell_count() <= i32::MAX,
                self.occupied@.len() == self.board.cell_count(),
                0 <= row <= h,
                count <= row * w,
                chosen is Some <==> count > 0,
                chosen matches Some(c) ==> food_ok(self.board, occ, c),
                count == 0 ==> forall|c: Offset|
                    self.board.in_bounds(c) && c.row < row ==> #[trigger] occ.contains(c),
            decreases h - row,
        {
            let mut col: i32 = 0;
            while col < w
                invariant
                    self@ == (GameView { rng: self.rng, ..old(self)@ }),
                    rng0 == old(self).rng,
                    (chosen, count, self.rng) == food_scan(self.board, occ, rng0, (row * w + col) as nat),
                    self.occupied == old(self).occupied,
                    occ == self@.occupied,
                    w == self.board.width,
                    h == self.board.height,
                    self.board.wf(),
                    self.board.cell_count() <= i32::MAX,
                    self.occupied@.len() == self.board.cell_count(),
                    0 <= row < h,
                    0 <= col <= w,
                    count <= row * w + col,
                    chosen is Some <==> count > 0,
                    chosen matches Some(c) ==> food_ok(self.board, occ, c),
                    count == 0 ==> forall|c: Offset|
                        self.board.in_bounds(c) && (c.row < row || (c.row == row && c.col
                            < col)) ==> #[trigger] occ.contains(c),
                decreases w - col,
            {
                let cell = Offset::new(col, row);
                let idx = cell_index_for(&self.board, cell);
                proof {
                    crate::board::lemma_index_in_range(self.board, cell);
                    assert(self.board.index_of(cell) == row * w + col);
                    assert(self.board.cell_at(row * w + col) == cell);
                    assert(occ.contains(cell) <==> self.occupied@[idx as int]);
                }
                if !self.occupied[idx] {
                    proof {
                        assert(row * w + col < w * h) by (nonlinear_arith)
                            requires
                                0 <= row < h,
                                0 <= col < w,
                        ;
                    }
                    count = count + 1;
                    if pcg_below_u32(&mut self.rng, count) == 0 {
                        chosen = Some(cell);
                    }
                }
                col += 1;
            }
            proof {
                assert((row + 1) * w == row * w + w) by (nonlinear_arith);
            }
            row += 1;
        }
        proof {
            assert(row * w == w * h) by (nonlinear_arith)
                requires
                    row == h,
            ;
            reveal(food_drawn);
        }
        match chosen {
            None => self.status = Status::Won,
            Some(cell) => self.food = cell,
        }
    }
}

/// Growing onto a cell that holds no segment keeps the marks equal to the
/// snake cells and the segments distinct.
proof fn lemma_grow_marks(old: GameView, next: Offset, new: GameView)
    requires
        marked_on_snake(old.occupied, old.snake),
        snake_marked(old.occupied, old.snake),
        cells_distinct(old.snake),
        !old.snake.contains(next),
        new.snake == seq![next] + old.snake,
        new.occupied == old.occupied.insert(next),
    ensures
        marked_on_snake(new.occupied, new.snake),
        snake_marked(new.occupied, new.snake),
        cells_distinct(new.snake),
{
    reveal(marked_on_snake);
    reveal(snake_marked);
    reveal(cells_distinct);
    assert forall|c: Offset| #[trigger] new.occupied.contains(c) implies new.snake.contains(c) by {
        if c == next {
            assert(new.snake[0] == next);
        } else {
            let i = choose|i: int| 0 <= i < old.snake.len() && old.snake[i] == c;
            assert(new.snake[i + 1] == c);
        }
    }
    assert forall|i: int| 0 <= i < new.snake.len() implies #[trigger] new.occupied.contains(new.snake[i]) by {
        if i > 0 {
            assert(new.snake[i] == old.snake[i - 1]);
        }
    }
    assert forall|i: int, j: int| 0 <= i < j < new.snake.len() implies new.snake[i] != new.snake[j] by {
        assert(new.snake[j] == old.snake[j - 1]);
        if i > 0 {
            assert(new.snake[i] == old.snake[i - 1]);
        } else {
            assert(old.snake.contains(old.snake[j - 1]));
        }
    }
}

/// Moving onto a cell that holds no segment or only the tail keeps the
/// marks equal to the snake cells and the segments distinct.
proof fn lemma_move_marks(old: GameView, next: Offset, new: GameView)
    requires
        old.snake.len() >= 1,
        marked_on_snake(old.occupied, old.snake),
        snake_marked(old.occupied, old.snake),
        cells_distinct(old.snake),
        !old.snake.contains(next) || next == old.snake.last(),
        new.snake == seq![next] + old.snake.drop_last(),
        new.occupied == old.occupied.remove(old.snake.last()).insert(next),
    ensures
        marked_on_snake(new.occupied, new.snake),
        snake_marked(new.occupied, new.snake),
        cells_distinct(new.snake),
{
    reveal(marked_on_snake);
    reveal(snake_marked);
    reveal(cells_distinct);
    let tail = old.snake.last();
    let last = old.snake.len() - 1;
    let body = old.snake.drop_last();
    // The tail appears only at the end of the snake.
    assert forall|k: int| 0 <= k < body.len() implies body[k] != tail && body[k] != next by {
        assert(body[k] == old.snake[k]);
        assert(old.snake[k] != old.snake[last]);
        if body[k] == next {
            assert(old.snake.contains(next));
        }
    }
    assert forall|c: Offset| #[trigger] new.occupied.contains(c) implies new.snake.contains(c) by {
        if c == next {
            assert(new.snake[0] == next);
        } else {
            assert(old.occupied.contains(c) && c != tail);
            let i = choose|i: int| 0 <= i < old.snake.len() && old.snake[i] == c;
            assert(i != last);
            assert(new.snake[i + 1] == c);
        }
    }
    assert forall|i: int| 0 <= i < new.snake.len() implies #[trigger] new.occupied.contains(new.snake[i]) by {
        if i > 0 {
            assert(new.snake[i] == body[i - 1]);
            assert(body[i - 1] == old.snake[i - 1]);
            assert(old.occupied.contains(old.snake[i - 1]));
        }
    }
    assert forall|i: int, j: int| 0 <= i < j < new.snake.len() implies new.snake[i] != new.snake[j] by {
        assert(new.snake[j] == body[j - 1]);
        if i > 0 {
            assert(new.snake[i] == body[i - 1]);
            assert(body[i - 1] == old.snake[i - 1] && body[j - 1] == old.snake[j - 1]);
        }
    }
}

/// In every reachable state the occupancy marks are exactly the snake's
/// cells, and no cell holds two segments.
pub proof fn lemma_marks_are_the_snake(v: GameView)
    requires
        view_wf(v),
    ensures
        v.occupied == v.snake.to_set(),
        v.snake.no_duplicates(),
{
    reveal(marked_on_snake);
    reveal(snake_marked);
    reveal(cells_distinct);
    assert forall|c: Offset| v.occupied.contains(c) <==> v.snake.to_set().contains(c) by {
        if v.snake.contains(c) {
            let i = choose|i: int| 0 <= i < v.snake.len() && v.snake[i] == c;
            assert(v.occupied.contains(v.snake[i]));
        }
    }
    assert(v.occupied =~= v.snake.to_set());
}

/// The snake never holds more segments than the board has cells.
pub proof fn lemma_snake_fits(v: GameView)
    requires
        view_wf(v),
    ensures
        v.snake.len() <= v.board.cell_count(),
{
    reveal(cells_distinct);
    let n = v.board.cell_count();
    let idx = Seq::new(v.snake.len(), |i: int| v.board.index_of(v.snake[i]));
    assert forall|i: int, j: int| 0 <= i < idx.len() && 0 <= j < idx.len() && i != j implies idx[i]
        != idx[j] by {
        crate::board::lemma_index_injective(v.board, v.snake[i], v.snake[j]);
        if i < j {
            assert(v.snake[i] != v.snake[j]);
        } else {
            assert(v.snake[j] != v.snake[i]);
        }
    }
    assert(idx.no_duplicates());
    idx.unique_seq_to_set();
    assert forall|x: int| idx.to_set().contains(x) implies vstd::set_lib::set_int_range(0, n).contains(x) by {
        let i = choose|i: int| 0 <= i < idx.len() && idx[i] == x;
        crate::board::lemma_index_in_range(v.board, v.snake[i]);
    }
    vstd::set_lib::lemma_int_range(0, n);
    vstd::set_lib::lemma_len_subset(idx.to_set(), vstd::set_lib::set_int_range(0, n));
}

/// Taking a turn never lengthens the queue.
proof fn lemma_take_turn_shrinks(q: Seq<Direction>, cur: Direction)
    ensures
        take_turn(q, cur).1.len() <= q.len(),
    decreases q.len(),
{
    if q.len() > 0 && !(q[0] != opposite_of(cur) && q[0] != cur) {
        lemma_take_turn_shrinks(q.drop_first(), cur);
    }
}

/// Putting a new head in front of a prefix of a contiguous snake keeps it
/// contiguous when the head is one step away from the old head.
proof fn lemma_contiguous_push(board: Board, snake: Seq<Offset>, next: Offset, k: int)
    requires
        contiguous(board, snake),
        1 <= k <= snake.len(),
        board.adjacent(snake[0], next),
    ensures
        contiguous(board, seq![next] + snake.subrange(0, k)),
{
    let s2 = seq![next] + snake.subrange(0, k);
    assert forall|i: int| 0 <= i < s2.len() - 1 implies board.adjacent(
        #[trigger] s2[i + 1],
        s2[i],
    ) by {
        if i == 0 {
            assert(s2[1] == snake[0]);
        } else {
            assert(s2[i + 1] == snake[i]);
            assert(s2[i] == snake[i - 1]);
            assert(board.adjacent(snake[(i - 1) + 1], snake[i - 1]));
        }
    }
}

/// The starting snake lies on the board and has three distinct cells.
proof fn lemma_start_snake(config: Config, board: Board)
    requires
        playable(config.width as int, config.height as int),
        board == config_board(config),
    ensures
        forall|t: int|
            0 <= t < 3 ==> board.in_bounds(
                #[trigger] start_snake(config.width as int, config.height as int)[t],
            ),
        start_snake(config.width as int, config.height as int).no_duplicates(),
{
}

/// The starting snake is contiguous: each segment is a North step from the
/// one behind it.
proof fn lemma_start_contiguous(config: Config, board: Board)
    requires
        playable(config.width as int, config.height as int),
        board == config_board(config),
    ensures
        contiguous(board, start_snake(config.width as int, config.height as int)),
{
    let s = start_snake(config.width as int, config.height as int);
    lemma_start_snake(config, board);
    crate::coords::lemma_north_decreases_row(s[1]);
    crate::coords::lemma_north_decreases_row(s[2]);
    crate::board::lemma_wrap_in_bounds(board, s[0]);
    crate::board::lemma_wrap_in_bounds(board, s[1]);
    assert(board.neighbor_of(s[1], Direction::North) == Some(s[0]));
    assert(board.neighbor_of(s[2], Direction::North) == Some(s[1]));
    assert(board.adjacent(s[1], s[0]));
    assert(board.adjacent(s[2], s[1]));
}

/// A playable board has a free cell next to the starting snake.
proof fn lemma_start_not_full(config: Config, board: Board, occupied: Set<Offset>)
    requires
        playable(config.width as int, config.height as int),
        board == config_board(config),
        occupied == start_snake(config.width as int, config.height as int).to_set(),
    ensures
        !board_full(board, occupied),
{
    let free = Offset { col: (config.width / 2) as i32, row: 0 };
    assert(board.in_bounds(free));
    assert(!occupied.contains(free));
}

/// A tick advances the tick counter and the score by at most one.
pub proof fn lemma_tick_counts(old: GameView, input: Option<Direction>, new: GameView)
    requires
        tick_rel(old, input, new),
    ensures
        old.ticks <= new.ticks <= old.ticks + 1,
        old.score <= new.score <= old.score + 1,
        new.board == old.board,
        old.status == Status::Running && new.ticks == old.ticks ==> new.status == Status::GameOver,
{
}

/// With an empty input buffer, a tick that brings one input leaves the
/// buffer empty again: the input is either taken as the turn or dropped.
pub proof fn lemma_tick_queue_empty(old: GameView, d: Direction, new: GameView)
    requires
        old.queue.len() == 0,
        tick_rel(old, Some(d), new),
    ensures
        new.queue.len() == 0 || old.status != Status::Running,
{
    let q1 = queue_after_input(old.queue, Some(d));
    assert(q1 =~= seq![d]);
    assert(q1.drop_first() =~= Seq::<Direction>::empty());
    assert(take_turn(q1.drop_first(), old.direction).1.len() == 0);
    assert(take_turn(q1, old.direction).1.len() == 0);
}

/// Three cells going south from the center are the starting snake.
proof fn lemma_start_snake_cells(config: Config, head: Offset, cells: Seq<Offset>)
    requires
        head == (Offset { col: (config.width / 2) as i32, row: (config.height / 2) as i32 }),
        config.height >= 5,
        cells.len() == 3,
        forall|k: int|
            0 <= k < 3 ==> #[trigger] cells[k] == (Offset {
                col: head.col,
                row: (head.row + k) as i32,
            }),
    ensures
        cells == start_snake(config.width as int, config.height as int),
{
    let st = start_snake(config.width as int, config.height as int);
    assert(cells[0] == st[0]);
    assert(cells[1] == st[1]);
    assert(cells[2] == st[2]);
    assert(cells =~= st);
}

/// The turn taken from the input buffer is never a reversal: it is either
/// the current direction or a real turn.
pub proof fn lemma_take_turn_not_reverse(q: Seq<Direction>, cur: Direction)
    ensures
        take_turn(q, cur).0 == cur || (take_turn(q, cur).0 != opposite_of(cur)
            && take_turn(q, cur).0 != cur),
        take_turn(q, cur).1.len() <= q.len(),
    decreases q.len(),
{
    if q.len() > 0 {
        lemma_take_turn_not_reverse(q.drop_first(), cur);
    }
}

/// A queued direction is a real turn from `cur`: neither `cur` itself nor
/// its reverse.
pub open spec fn real_turn(d: Direction, cur: Direction) -> bool {
    d != cur && d != opposite_of(cur)
}

/// Taking a turn from the queue finds the first real turn: entries before
/// it (repeats of the current direction and reversals) are dropped, the
/// turn is taken and the rest of the queue stays; without a real turn the
/// direction stays and the queue empties.
pub proof fn lemma_take_turn_first_real_turn(q: Seq<Direction>, cur: Direction)
    ensures
        forall|i: int|
            0 <= i < q.len() && real_turn(#[trigger] q[i], cur) && (forall|j: int|
                0 <= j < i ==> !real_turn(#[trigger] q[j], cur)) ==> take_turn(q, cur) == (
            q[i],
            q.subrange(i + 1, q.len() as int),
        ),
        (forall|i: int| 0 <= i < q.len() ==> !real_turn(#[trigger] q[i], cur)) ==> take_turn(q, cur)
            == (cur, Seq::<Direction>::empty()),
    decreases q.len(),
{
    if q.len() > 0 {
        let r = q.drop_first();
        lemma_take_turn_first_real_turn(r, cur);
        assert forall|i: int|
            0 <= i < q.len() && real_turn(#[trigger] q[i], cur) && (forall|j: int|
                0 <= j < i ==> !real_turn(#[trigger] q[j], cur)) implies take_turn(q, cur) == (
            q[i],
            q.subrange(i + 1, q.len() as int),
        ) by {
            if i == 0 {
                assert(q.drop_first() =~= q.subrange(1, q.len() as int));
            } else {
                assert(!real_turn(q[0], cur));
                assert(r[i - 1] == q[i]);
                assert forall|j: int| 0 <= j < i - 1 implies !real_turn(#[trigger] r[j], cur) by {
                    assert(r[j] == q[j + 1]);
                }
                assert(r.subrange(i, r.len() as int) =~= q.subrange(i + 1, q.len() as int));
            }
        }
        if forall|i: int| 0 <= i < q.len() ==> !real_turn(#[trigger] q[i], cur) {
            assert(!real_turn(q[0], cur));
            assert forall|i: int| 0 <= i < r.len() implies !real_turn(#[trigger] r[i], cur) by {
                assert(r[i] == q[i + 1]);
            }
        }
    } else {
        assert(q =~= Seq::<Direction>::empty());
    }
}

/// A running game turns, in every outcome of the tick, to the direction
/// that taking a turn from the buffered inputs (with the new input
/// appended) gives.
pub proof fn lemma_tick_direction(old: GameView, input: Option<Direction>, new: GameView)
    requires
        tick_rel(old, input, new),
        old.status == Status::Running,
    ensures
        new.direction == take_turn(queue_after_input(old.queue, input), old.direction).0,
{
}

/// A tick never turns the snake around: the new direction is never the
/// opposite of the old one.
pub proof fn lemma_tick_never_reverses(old: GameView, input: Option<Direction>, new: GameView)
    requires
        tick_rel(old, input, new),
    ensures
        new.direction != opposite_of(old.direction),
{
    crate::coords::lemma_opposite_involution(old.direction);
    lemma_take_turn_not_reverse(queue_after_input(old.queue, input), old.direction);
}

/// Between consistent states, the snake grows by exactly as much as the score
/// rises: by one when it eats, not at all otherwise.
pub proof fn lemma_tick_length_tracks_score(old: GameView, input: Option<Direction>, new: GameView)
    requires
        view_core_wf(old),
        view_core_wf(new),
        tick_rel(old, input, new),
    ensures
        new.snake.len() == old.snake.len() + (new.score - old.score),
        new.score == old.score + 1 ==> new.snake[0] == old.food && new.ticks_since_food == 0,
{
}

/// A finished game stays finished: ticks change nothing but the input buffer.
pub proof fn lemma_finished_game_frozen(old: GameView, input: Option<Direction>, new: GameView)
    requires
        tick_rel(old, input, new),
        old.status != Status::Running,
    ensures
        new.status == old.status,
        new.snake == old.snake,
        new.score == old.score,
        new.ticks == old.ticks,
        new.food == old.food,
{
}

/// On a periodic board there are no walls: a running game ends only when the
/// head moves onto an occupied cell.
pub proof fn lemma_periodic_only_bites(old: GameView, input: Option<Direction>, new: GameView)
    requires
        tick_rel(old, input, new),
        old.status == Status::Running,
        old.board.boundary == BoundaryMode::Periodic,
        new.status == Status::GameOver,
    ensures
        exists|d: Direction|
            #[trigger] old.board.neighbor_of(old.snake[0], d) matches Some(next)
                && old.occupied.contains(next),
{
    let (dir, q2) = take_turn(queue_after_input(old.queue, input), old.direction);
    let next = old.board.neighbor_of(old.snake[0], dir).unwrap();
    if !old.occupied.contains(next) {
        if next == old.food {
            assert(food_placed(old.board, old.occupied.insert(next), old.food, new));
        }
    }
}

/// A running game with an empty input buffer has an empty buffer again
/// after a tick: an input is either taken as the turn or dropped.
pub proof fn lemma_tick_keeps_queue_empty(old: GameView, input: Option<Direction>, new: GameView)
    requires
        old.queue.len() == 0,
        old.status == Status::Running,
        tick_rel(old, input, new),
    ensures
        new.queue.len() == 0,
{
    match input {
        Some(d) => lemma_tick_queue_empty(old, d, new),
        None => {
            assert(queue_after_input(old.queue, input) == old.queue);
        },
    }
}


/// The game is deterministic: one state and one input have one successor
/// (the food that appears is the seeded generator's pick).
pub proof fn lemma_tick_deterministic(old: GameView, input: Option<Direction>, a: GameView, b: GameView)
    requires
        tick_rel(old, input, a),
        tick_rel(old, input, b),
    ensures
        a == b,
{
    reveal(food_drawn);
}

/// One configuration has one initial state: the seed fixes the first food.
pub proof fn lemma_initial_deterministic(c: Config, a: GameView, b: GameView)
    requires
        initial_rel(c, a),
        initial_rel(c, b),
    ensures
        a == b,
{
    reveal(food_drawn);
}

} // verus!

//! Cycle surgeon: a dynamically repaired Hamiltonian cycle.
//!
//! The [`HamiltonRider`] rides a static serpentine cycle and may only
//! shortcut along the cycle order, so food lying "against the grain" forces
//! it around almost the whole board. The surgeon instead reshapes the cycle
//! toward the food every tick, so the head reaches it in fewer steps.
//!
//! The cycle is a doubly linked ring (`next`/`prev`) over cell indices. The
//! repair operations never touch an edge occupied by the snake body (a pair
//! of consecutive body segments), and only ever keep an operation that
//! strictly shortens the head→food distance along the ring.
//!
//! - **Relocate**: splice a free cell `x` out of its position and into edge
//!   `(a→b)` as a detour `a→x→b`.
//! - **2-opt**: remove edges `(a→b)`, `(c→d)`, add `(a→c)`, `(b→d)`,
//!   reversing the segment `b…c` (which must contain no body cell).
use vstd::prelude::*;

use crate::board::Board;
use crate::strategy::ring_order::{
    cycle_order, lemma_relocate_single, lemma_twoopt_single, single_ring,
};
use crate::coords::{all_directions, dir_at, Direction, Offset};
use crate::game::{view_wf, GameState, GameView, Status};
use crate::strategy::hamilton::{
    is_hamiltonian_cycle, lemma_serpentine_is_hamiltonian, lemma_serpentine_onto, serpentine_at,
    serpentine_compatible, serpentine_cycle, serpentine_pos, HamiltonRider,
};
use crate::strategy::{
    cell_index, doomed_move, has_safe_move, is_safe_move, lists_safe_moves, safe_moves, Strategy,
    StrategyDebug,
};

verus! {

/// Max tentative operations applied per tick (deterministic budget).
pub const OPT_BUDGET: usize = 256;

/// How many cells of the head→food cycle path a pass inspects.
pub const PATH_WINDOW: usize = 64;

/// Cost cap on a 2-opt segment reversal (segment length at most this).
pub const MAX_SEGMENT: usize = 32;

/// Cells `u` and `v` (by index) are one step apart, in either direction.
pub open spec fn linked(board: Board, u: int, v: int) -> bool {
    board.adjacent(board.cell_at(u), board.cell_at(v)) || board.adjacent(
        board.cell_at(v),
        board.cell_at(u),
    )
}

/// `next` and `prev` are mutually inverse successor tables over all cells of
/// the board, and each ring edge joins neighboring cells.
pub open spec fn ring_ok(board: Board, next: Seq<usize>, prev: Seq<usize>) -> bool {
    &&& ring_perm(board.cell_count(), next, prev)
    &&& ring_linked(board, next)
}

/// `next` and `prev` are mutually inverse tables over `0..n`.
pub open spec fn ring_perm(n: int, next: Seq<usize>, prev: Seq<usize>) -> bool {
    &&& next.len() == n
    &&& prev.len() == n
    &&& forall|i: int| 0 <= i < n ==> #[trigger] next[i] < n
    &&& forall|i: int| 0 <= i < n ==> #[trigger] prev[i] < n
    &&& forall|i: int| 0 <= i < n ==> prev[#[trigger] next[i] as int] == i
    &&& forall|i: int| 0 <= i < n ==> next[#[trigger] prev[i] as int] == i
}

/// Each ring edge joins neighboring cells.
#[verifier::opaque]
pub open spec fn ring_linked(board: Board, next: Seq<usize>) -> bool {
    forall|i: int| 0 <= i < next.len() ==> linked(board, i, #[trigger] next[i] as int)
}

/// The cell reached from `a` after `k` steps along the ring.
pub open spec fn ring_walk(next: Seq<usize>, a: int, k: nat) -> int
    decreases k,
{
    if k == 0 {
        a
    } else {
        next[ring_walk(next, a, (k - 1) as nat)] as int
    }
}

/// Walking the ring from a cell stays on the cells.
pub proof fn lemma_ring_walk_range(next: Seq<usize>, a: int, k: nat)
    requires
        forall|i: int| 0 <= i < next.len() ==> #[trigger] next[i] < next.len(),
        0 <= a < next.len(),
    ensures
        0 <= ring_walk(next, a, k) < next.len(),
    decreases k,
{
    if k > 0 {
        lemma_ring_walk_range(next, a, (k - 1) as nat);
    }
}

/// Steps along `next` from `a` to `b`: the first `k` up to the ring size
/// that reaches `b`, or `usize::MAX` if there is none.
pub open spec fn ring_dist(next: Seq<usize>, a: int, b: int) -> int {
    if exists|k: nat| k <= next.len() && #[trigger] ring_walk(next, a, k) == b {
        let k = choose|k: nat|
            k <= next.len() && #[trigger] ring_walk(next, a, k) == b && forall|j: nat|
                j < k ==> ring_walk(next, a, j) != b;
        k as int
    } else {
        usize::MAX as int
    }
}

/// `{u, v}` is an edge occupied by the snake body (consecutive segments).
pub open spec fn body_edge(body_next: Seq<Option<usize>>, u: int, v: int) -> bool {
    body_next[u] == Some(v as usize) || body_next[v] == Some(u as usize)
}

/// Hamiltonian-cycle follower that repairs the cycle toward the food each
/// tick.
pub struct CycleSurgeon {
    width: usize,
    /// Cell index → next cell in cycle order.
    next: Vec<usize>,
    /// Cell index → previous cell in cycle order.
    prev: Vec<usize>,
    /// Cell index → neighbor cell indices in clockwise direction order,
    /// computed once for the board.
    adjacency: Vec<[Option<usize>; 6]>,
    debug: StrategyDebug,
}

/// `out` lists the neighbor indices of cell `idx` in clockwise direction
/// order (`None` for a wall).
pub open spec fn neighbor_row_ok(board: Board, idx: int, out: [Option<usize>; 6]) -> bool {
    forall|i: int|
        0 <= i < 6 ==> (#[trigger] out@[i] is Some <==> board.neighbor_of(
            board.cell_at(idx),
            all_directions()[i],
        ) is Some) && (out@[i] is Some ==> out@[i].unwrap() as int == board.index_of(
            board.neighbor_of(board.cell_at(idx), all_directions()[i]).unwrap(),
        ) && out@[i].unwrap() < board.cell_count())
}

/// Is `{u, v}` an edge occupied by the snake body (consecutive segments)?
pub fn is_body_edge(body_next: &Vec<Option<usize>>, u: usize, v: usize) -> (r: bool)
    requires
        u < body_next@.len(),
        v < body_next@.len(),
    ensures
        r == body_edge(body_next@, u as int, v as int),
{
    body_next[u] == Some(v) || body_next[v] == Some(u)
}

/// Neighbor cell indices of `idx`, in clockwise direction order
/// (off-board neighbors are `None`).
fn neighbor_row(board: &Board, idx: usize) -> (out: [Option<usize>; 6])
    requires
        board.wf(),
        board.cell_count() <= i32::MAX,
        idx < board.cell_count(),
    ensures
        neighbor_row_ok(*board, idx as int, out),
{
    let w = board.width as usize;
    let cell = Offset::new((idx % w) as i32, (idx / w) as i32);
    proof {
        crate::board::lemma_cell_at_in_bounds(*board, idx as int);
    }
    let dirs = Direction::all();
    let mut out: [Option<usize>; 6] = [None; 6];
    let mut i: usize = 0;
    while i < 6
        invariant
            board.wf(),
            board.cell_count() <= i32::MAX,
            board.in_bounds(cell),
            cell == board.cell_at(idx as int),
            dirs@ == all_directions(),
            0 <= i <= 6,
            out@.len() == 6,
            forall|j: int|
                0 <= j < i ==> (#[trigger] out@[j] is Some <==> board.neighbor_of(
                    cell,
                    all_directions()[j],
                ) is Some) && (out@[j] is Some ==> out@[j].unwrap() as int == board.index_of(
                    board.neighbor_of(cell, all_directions()[j]).unwrap(),
                ) && out@[j].unwrap() < board.cell_count()),
        decreases 6 - i,
    {
        let entry = match board.neighbor(cell, dirs[i]) {
            Some(c) => Some(cell_index(board, c)),
            None => None,
        };
        out[i] = entry;
        i += 1;
    }
    out
}

impl CycleSurgeon {
    /// The successor table of the ring.
    pub closed spec fn next_view(&self) -> Seq<usize> {
        self.next@
    }

    /// The predecessor table of the ring.
    pub closed spec fn prev_view(&self) -> Seq<usize> {
        self.prev@
    }

    /// The cells shown by the overlay after the last decision.
    /// What the overlay shows of the last decision.
    pub closed spec fn debug_view(&self) -> StrategyDebug {
        self.debug
    }

    pub closed spec fn debug_path(&self) -> Seq<Offset> {
        self.debug.path@
    }

    /// The surgeon's tables belong to this board.
    pub closed spec fn tables_ok(&self, board: Board) -> bool {
        &&& board.wf()
        &&& board.cell_count() <= i32::MAX
        &&& self.width == board.width
        &&& ring_ok(board, self.next@, self.prev@)
        &&& single_ring(self.next@)
        &&& self.adjacency@.len() == board.cell_count()
        &&& forall|u: int|
            0 <= u < board.cell_count() ==> neighbor_row_ok(board, u, #[trigger] self.adjacency@[u])
    }

    /// Whether the serpentine construction (and thus the surgeon) exists for
    /// these dimensions.
    pub fn compatible(width: i32, height: i32) -> (r: bool)
        requires
            serpentine_compatible(width as int, height as int) ==> width * height <= i32::MAX,
        ensures
            r == serpentine_compatible(width as int, height as int),
    {
        HamiltonRider::compatible(width, height)
    }

    /// `None` if the board dimensions are incompatible (odd height).
    #[verifier::spinoff_prover]
    pub fn new(board: &Board) -> (r: Option<Self>)
        requires
            board.wf(),
            board.cell_count() <= i32::MAX,
        ensures
            r is Some <==> serpentine_compatible(board.width as int, board.height as int),
            r matches Some(s) ==> s.tables_ok(*board),
    {
        let cycle = match serpentine_cycle(board.width, board.height) {
            Some(c) => c,
            None => {
                return None;
            },
        };
        let ghost w = board.width as int;
        let ghost h = board.height as int;
        proof {
            lemma_serpentine_is_hamiltonian(*board);
            assert(cycle@ =~= Seq::new((w * h) as nat, |i: int| serpentine_at(w, h, i)));
            assert(w * h >= 4) by (nonlinear_arith)
                requires
                    w >= 2,
                    h >= 2,
            ;
        }
        let n = board.num_cells();
        let len = cycle.len();
        let mut next: Vec<usize> = Vec::new();
        let mut prev: Vec<usize> = Vec::new();
        let mut t: usize = 0;
        while t < n
            invariant
                0 <= t <= n,
                next@.len() == t,
                prev@.len() == t,
                forall|j: int| 0 <= j < t ==> #[trigger] next@[j] == 0 && prev@[j] == 0,
            decreases n - t,
        {
            next.push(0);
            prev.push(0);
            t += 1;
        }
        let mut i: usize = 0;
        while i < len
            invariant
                board.wf(),
                board.cell_count() <= i32::MAX,
                n as int == board.cell_count(),
                len == n,
                n > 1,
                cycle@.len() == n,
                cycle@.no_duplicates(),
                forall|j: int| 0 <= j < cycle@.len() ==> board.in_bounds(#[trigger] cycle@[j]),
                next@.len() == n,
                prev@.len() == n,
                0 <= i <= len,
                forall|j: int| 0 <= j < n ==> #[trigger] next@[j] < n && prev@[j] < n,
                forall|j: int|
                    0 <= j < i ==> next@[board.index_of(#[trigger] cycle@[j])] == board.index_of(
                        cycle@[(j + 1) % (len as int)],
                    ),
                forall|j: int|
                    0 <= j < i ==> prev@[board.index_of(cycle@[(j + 1) % (len as int)])]
                        == board.index_of(#[trigger] cycle@[j]),
            decreases len - i,
        {
            let k = (i + 1) % len;
            proof {
                if i + 1 < len {
                    vstd::arithmetic::div_mod::lemma_small_mod((i + 1) as nat, len as nat);
                } else {
                    vstd::arithmetic::div_mod::lemma_mod_self_0(len as int);
                }
                assert(board.in_bounds(cycle@[i as int]));
                assert(board.in_bounds(cycle@[k as int]));
            }
            let a = cell_index(board, cycle[i]);
            let b = cell_index(board, cycle[k]);
            let ghost next_before = next@;
            let ghost prev_before = prev@;
            proof {
                assert(forall|j: int| 0 <= j < n ==> #[trigger] next_before[j] < n && prev_before[j] < n);
            }
            next.set(a, b);
            prev.set(b, a);
            proof {
                assert forall|j: int| 0 <= j < n implies #[trigger] next@[j] < n && prev@[j] < n by {
                    assert(next_before[j] < n && prev_before[j] < n);
                    if j != a {
                        assert(next@[j] == next_before[j]);
                    }
                    if j != b {
                        assert(prev@[j] == prev_before[j]);
                    }
                }
                assert forall|j: int|
                    0 <= j < i + 1 implies next@[board.index_of(#[trigger] cycle@[j])]
                    == board.index_of(cycle@[(j + 1) % (len as int)]) by {
                    if j < i {
                        assert(cycle@[j] != cycle@[i as int]);
                        crate::board::lemma_index_injective(*board, cycle@[j], cycle@[i as int]);
                        crate::board::lemma_index_in_range(*board, cycle@[j]);
                        assert(next@[board.index_of(cycle@[j])] == next_before[board.index_of(
                            cycle@[j],
                        )]);
                    }
                }
                assert forall|j: int|
                    0 <= j < i + 1 implies prev@[board.index_of(cycle@[(j + 1) % (len as int)])]
                    == board.index_of(#[trigger] cycle@[j]) by {
                    if j < i {
                        let kj = (j + 1) % (len as int);
                        vstd::arithmetic::div_mod::lemma_small_mod((j + 1) as nat, len as nat);
                        assert(kj == j + 1);
                        assert(kj != k);
                        assert(board.in_bounds(cycle@[kj]));
                        assert(cycle@[kj] != cycle@[k as int]);
                        crate::board::lemma_index_injective(*board, cycle@[kj], cycle@[k as int]);
                        crate::board::lemma_index_in_range(*board, cycle@[kj]);
                        assert(prev@[board.index_of(cycle@[kj])] == prev_before[board.index_of(
                            cycle@[kj],
                        )]);
                    }
                }
            }
            i += 1;
        }
        proof {
            assert forall|c: Offset| board.in_bounds(c) implies exists|p: int|
                0 <= p < cycle@.len() && #[trigger] cycle@[p] == c by {
                lemma_serpentine_onto(w, h, c);
                assert(cycle@[serpentine_pos(w, h, c)] == c);
            }
            lemma_ring_from_cycle(*board, cycle@, next@, prev@);
            lemma_single_from_cycle(*board, cycle@, next@);
        }
        let mut adjacency: Vec<[Option<usize>; 6]> = Vec::new();
        let mut u: usize = 0;
        while u < n
            invariant
                board.wf(),
                board.cell_count() <= i32::MAX,
                n as int == board.cell_count(),
                0 <= u <= n,
                adjacency@.len() == u,
                forall|j: int| 0 <= j < u ==> neighbor_row_ok(*board, j, #[trigger] adjacency@[j]),
            decreases n - u,
        {
            adjacency.push(neighbor_row(board, u));
            u += 1;
        }
        Some(CycleSurgeon {
            width: board.width as usize,
            next,
            prev,
            adjacency,
            debug: StrategyDebug::default(),
        })
    }

    /// The cell with row-major index `idx`.
    fn offset_of(&self, idx: usize) -> (c: Offset)
        requires
            self.width > 0,
            idx <= i32::MAX,
            self.width <= i32::MAX,
        ensures
            c == (Offset {
                col: (idx as int % self.width as int) as i32,
                row: (idx as int / self.width as int) as i32,
            }),
    {
        Offset::new((idx % self.width) as i32, (idx / self.width) as i32)
    }

    /// Neighbor cell indices of `idx`, in clockwise direction order
    /// (off-board neighbors are `None`).
    fn neighbors(&self, board: &Board, idx: usize) -> (out: [Option<usize>; 6])
        requires
            self.tables_ok(*board),
            idx < board.cell_count(),
        ensures
            forall|i: int|
                0 <= i < 6 ==> (#[trigger] out@[i] is Some <==> board.neighbor_of(
                    board.cell_at(idx as int),
                    all_directions()[i],
                ) is Some) && (out@[i] is Some ==> out@[i].unwrap() as int == board.index_of(
                    board.neighbor_of(board.cell_at(idx as int), all_directions()[i]).unwrap(),
                ) && out@[i].unwrap() < board.cell_count()),
    {
        let out = self.adjacency[idx];
        proof {
            assert(neighbor_row_ok(*board, idx as int, self.adjacency@[idx as int]));
        }
        out
    }

    /// Are the cells with indices `u` and `v` neighbors (from `u`)?
    fn adjacent(&self, board: &Board, u: usize, v: usize) -> (r: bool)
        requires
            self.tables_ok(*board),
            u < board.cell_count(),
            v < board.cell_count(),
        ensures
            r == board.adjacent(board.cell_at(u as int), board.cell_at(v as int)),
    {
        let out = self.neighbors(board, u);
        let mut i: usize = 0;
        proof {
            crate::board::lemma_cell_at_in_bounds(*board, u as int);
            crate::board::lemma_cell_at_in_bounds(*board, v as int);
        }
        while i < 6
            invariant
                board.wf(),
                board.in_bounds(board.cell_at(u as int)),
                board.in_bounds(board.cell_at(v as int)),
                board.index_of(board.cell_at(v as int)) == v,
                0 <= i <= 6,
                forall|j: int|
                    0 <= j < 6 ==> (#[trigger] out@[j] is Some <==> board.neighbor_of(
                        board.cell_at(u as int),
                        all_directions()[j],
                    ) is Some) && (out@[j] is Some ==> out@[j].unwrap() as int == board.index_of(
                        board.neighbor_of(board.cell_at(u as int), all_directions()[j]).unwrap(),
                    )),
                forall|j: int| 0 <= j < i ==> out@[j] != Some(v),
                board.cell_count() <= i32::MAX,
            decreases 6 - i,
        {
            let hit = match out[i] {
                Some(x) => x == v,
                None => false,
            };
            if hit {
                proof {
                    let d = all_directions()[i as int];
                    assert(out@[i as int] == Some(v));
                    assert(out@[i as int].unwrap() == v);
                    crate::board::lemma_neighbor_in_bounds(*board, board.cell_at(u as int), d);
                    let c = board.neighbor_of(board.cell_at(u as int), d).unwrap();
                    crate::board::lemma_index_in_range(*board, c);
                    assert(board.index_of(c) == v as int);
                    crate::board::lemma_index_injective(*board, c, board.cell_at(v as int));
                    assert(board.neighbor_of(board.cell_at(u as int), d) == Some(
                        board.cell_at(v as int),
                    ));
                }
                return true;
            }
            i += 1;
        }
        proof {
            assert forall|d: Direction|
                #[trigger] board.neighbor_of(board.cell_at(u as int), d) != Some(
                    board.cell_at(v as int),
                ) by {
                let j = crate::coords::dir_index(d);
                assert(all_directions()[j] == d);
                if board.neighbor_of(board.cell_at(u as int), d) == Some(board.cell_at(v as int)) {
                    crate::board::lemma_index_in_range(*board, board.cell_at(v as int));
                    assert(out@[j] == Some(v));
                }
            }
        }
        false
    }

    /// Steps along `next` from `a` to `b` (cycle distance). `usize::MAX` if
    /// `b` is not reached within one round.
    fn cycle_dist(&self, a: usize, b: usize) -> (d: usize)
        requires
            forall|i: int| 0 <= i < self.next@.len() ==> #[trigger] self.next@[i] < self.next@.len(),
            a < self.next@.len(),
            self.next@.len() < usize::MAX,
        ensures
            d as int == ring_dist(self.next@, a as int, b as int),
    {
        let ghost nx = self.next@;
        let mut cur = a;
        let mut d: usize = 0;
        while cur != b
            invariant
                nx == self.next@,
                forall|i: int| 0 <= i < nx.len() ==> #[trigger] nx[i] < nx.len(),
                nx.len() < usize::MAX,
                cur < nx.len(),
                0 <= d <= nx.len(),
                cur as int == ring_walk(nx, a as int, d as nat),
                forall|j: nat| j < d ==> ring_walk(nx, a as int, j) != b,
            decreases nx.len() - d,
        {
            cur = self.next[cur];
            d += 1;
            if d > self.next.len() {
                proof {
                    assert forall|k: nat| k <= nx.len() implies #[trigger] ring_walk(nx, a as int, k)
                        != b by {
                        assert(ring_walk(nx, a as int, k) != b);
                    }
                }
                return usize::MAX;
            }
        }
        proof {
            assert(ring_walk(nx, a as int, d as nat) == b);
            let k = choose|k: nat|
                k <= nx.len() && #[trigger] ring_walk(nx, a as int, k) == b && forall|j: nat|
                    j < k ==> ring_walk(nx, a as int, j) != b;
            assert(k == d) by {
                if k < d {
                    assert(ring_walk(nx, a as int, k) != b);
                }
                if k > d {
                    assert(ring_walk(nx, a as int, d as nat) != b);
                }
            }
        }
        d
    }
}

/// The conditions under which free cell `x` may be spliced into edge
/// `(a→b)`: `x` is free and differs from `a` and `b`; with `p = prev[x]`,
/// `q = next[x]` the three cells `p`, `x`, `q` differ; `x` is next to `a`
/// and `b`, `p` next to `q`; and none of the removed or reused edges is a
/// body edge.
pub open spec fn relocate_ok_spec(
    board: Board,
    next: Seq<usize>,
    prev: Seq<usize>,
    body_next: Seq<Option<usize>>,
    is_snake: Seq<bool>,
    x: int,
    a: int,
    b: int,
) -> bool {
    let p = prev[x] as int;
    let q = next[x] as int;
    &&& x != a
    &&& x != b
    &&& !is_snake[x]
    &&& p != q
    &&& p != x
    &&& q != x
    &&& board.adjacent(board.cell_at(x), board.cell_at(a))
    &&& board.adjacent(board.cell_at(x), board.cell_at(b))
    &&& board.adjacent(board.cell_at(p), board.cell_at(q))
    &&& !body_edge(body_next, a, b)
    &&& !body_edge(body_next, p, x)
    &&& !body_edge(body_next, x, q)
}

/// Body bookkeeping of a snake over `n` cells: successor entries only
/// between snake cells.
pub open spec fn body_tables_ok(n: int, body_next: Seq<Option<usize>>, is_snake: Seq<bool>) -> bool {
    &&& body_next.len() == n
    &&& is_snake.len() == n
    &&& forall|u: int|
        0 <= u < n && (#[trigger] body_next[u]) is Some ==> body_next[u].unwrap() < n
            && is_snake[u] && is_snake[body_next[u].unwrap() as int]
}

/// Every ring edge that the body occupies is still a ring edge in `new`.
pub open spec fn body_edges_kept(body_next: Seq<Option<usize>>, old: Seq<usize>, new: Seq<usize>) -> bool {
    forall|u: int|
        0 <= u < old.len() && body_edge(body_next, u, #[trigger] old[u] as int) ==> new[u] == old[u]
}

/// The walk from `b` along the ring, `len` cells long.
pub open spec fn ring_segment(next: Seq<usize>, b: int, len: nat) -> Seq<usize> {
    Seq::new(len, |j: int| ring_walk(next, b, j as nat) as usize)
}

/// The cells of a segment may be reversed: none is a snake cell, `a` or `d`.
pub open spec fn segment_clear(is_snake: Seq<bool>, seg: Seq<usize>, a: int, d: int) -> bool {
    forall|j: int|
        0 <= j < seg.len() ==> !is_snake[#[trigger] seg[j] as int] && seg[j] != a && seg[j] != d
}

/// `u` is one of `seg[lo..hi]`.
pub open spec fn in_seg_range(seg: Seq<usize>, lo: int, hi: int, u: int) -> bool {
    exists|k: int| lo <= k < hi && #[trigger] seg[k] == u as usize
}

/// The 2-opt on `(a→b)`, `(c→d)` with segment `seg = [b, …, c]` was applied
/// to `next`/`prev`, giving `n2`/`p2`: `a→c`, `b→d`, the segment reversed,
/// everything else unchanged.
/// The ring tables after moving `x` (between its neighbors `p`, `q`) into
/// the edge `a → b`: `p → q`, `a → x → b`.
pub open spec fn relocated(next: Seq<usize>, prev: Seq<usize>, x: int, a: int, b: int) -> (Seq<usize>, Seq<usize>) {
    let p = prev[x] as int;
    let q = next[x];
    (
        next.update(p, q).update(a, x as usize).update(x, b as usize),
        prev.update(q as int, p as usize).update(x, a as usize).update(b, x as usize),
    )
}

/// Relocating `x` into the edge out of `a` is allowed and brings the
/// head→food distance below `d0`.
#[verifier::opaque]
pub open spec fn relocation_improves(
    board: Board,
    next: Seq<usize>,
    prev: Seq<usize>,
    body_next: Seq<Option<usize>>,
    is_snake: Seq<bool>,
    x: int,
    a: int,
    head: int,
    food: int,
    d0: int,
) -> bool {
    &&& relocate_ok_spec(board, next, prev, body_next, is_snake, x, a, next[a] as int)
    &&& ring_dist(relocated(next, prev, x, a, next[a] as int).0, head, food) < d0
}

/// `seg` is the segment a 2-opt on `(a→b)`, `(c→d)` reverses: the conditions
/// hold, and the walk from `b` meets `c` first at the segment's end, within
/// [`MAX_SEGMENT`] cells and over clear cells.
pub open spec fn twoopt_segment(
    board: Board,
    next: Seq<usize>,
    body_next: Seq<Option<usize>>,
    is_snake: Seq<bool>,
    a: int,
    b: int,
    c: int,
    d: int,
    seg: Seq<usize>,
) -> bool {
    &&& c != a && c != b && d != a && d != b
    &&& board.adjacent(board.cell_at(a), board.cell_at(c))
    &&& board.adjacent(board.cell_at(b), board.cell_at(d))
    &&& !body_edge(body_next, a, b)
    &&& !body_edge(body_next, c, d)
    &&& 1 <= seg.len() <= MAX_SEGMENT
    &&& seg == ring_segment(next, b, seg.len())
    &&& seg.last() == c
    &&& segment_clear(is_snake, seg, a, d)
    &&& forall|j: int| 0 <= j < seg.len() - 1 ==> #[trigger] seg[j] != c
}

/// A 2-opt on `(a→next[a])`, `(c→next[c])` is allowed and brings the
/// head→food distance below `d0`.
#[verifier::opaque]
pub open spec fn twoopt_improves(
    board: Board,
    next: Seq<usize>,
    prev: Seq<usize>,
    body_next: Seq<Option<usize>>,
    is_snake: Seq<bool>,
    a: int,
    c: int,
    head: int,
    food: int,
    d0: int,
) -> bool {
    exists|seg: Seq<usize>, n2: Seq<usize>, p2: Seq<usize>|
        twoopt_segment(board, next, body_next, is_snake, a, next[a] as int, c, next[c] as int, seg)
            && #[trigger] twoopt_applied(next, prev, n2, p2, a, c, next[c] as int, seg)
            && ring_dist(n2, head, food) < d0
}

/// Some operation `try_cell` looks at for the free cell `x` shortens the
/// head→food distance below `d0`: moving `x` into the edge out of one of its
/// neighbors, or a 2-opt on the edge into `x` and the edge out of a
/// neighbor of its predecessor.
pub open spec fn improving_move(
    board: Board,
    next: Seq<usize>,
    prev: Seq<usize>,
    body_next: Seq<Option<usize>>,
    is_snake: Seq<bool>,
    x: int,
    head: int,
    food: int,
    d0: int,
) -> bool {
    ||| exists|t: int|
        0 <= t < 6 && (#[trigger] board.neighbor_of(board.cell_at(x), all_directions()[t])) is Some
            && relocation_improves(
            board,
            next,
            prev,
            body_next,
            is_snake,
            x,
            board.index_of(board.neighbor_of(board.cell_at(x), all_directions()[t]).unwrap()),
            head,
            food,
            d0,
        )
    ||| exists|t: int|
        0 <= t < 6 && (#[trigger] board.neighbor_of(board.cell_at(prev[x] as int), all_directions()[t]))
            is Some && twoopt_improves(
            board,
            next,
            prev,
            body_next,
            is_snake,
            prev[x] as int,
            board.index_of(
                board.neighbor_of(board.cell_at(prev[x] as int), all_directions()[t]).unwrap(),
            ),
            head,
            food,
            d0,
        )
}

/// A relocation that is not allowed, or does not bring the distance below
/// `d0`, does not improve.
proof fn lemma_relocation_no_gain(
    board: Board,
    next: Seq<usize>,
    prev: Seq<usize>,
    body_next: Seq<Option<usize>>,
    is_snake: Seq<bool>,
    x: int,
    a: int,
    head: int,
    food: int,
    d0: int,
)
    requires
        !relocate_ok_spec(board, next, prev, body_next, is_snake, x, a, next[a] as int) || ring_dist(
            relocated(next, prev, x, a, next[a] as int).0,
            head,
            food,
        ) >= d0,
    ensures
        !relocation_improves(board, next, prev, body_next, is_snake, x, a, head, food, d0),
{
    reveal(relocation_improves);
}

/// A 2-opt without a segment does not improve.
proof fn lemma_twoopt_impossible(
    board: Board,
    next: Seq<usize>,
    prev: Seq<usize>,
    body_next: Seq<Option<usize>>,
    is_snake: Seq<bool>,
    a: int,
    c: int,
    head: int,
    food: int,
    d0: int,
)
    requires
        forall|seg: Seq<usize>|
            !#[trigger] twoopt_segment(board, next, body_next, is_snake, a, next[a] as int, c, next[c] as int, seg),
    ensures
        !twoopt_improves(board, next, prev, body_next, is_snake, a, c, head, food, d0),
{
    reveal(twoopt_improves);
}

/// The one possible 2-opt, once tried without bringing the distance below
/// `d0`, does not improve.
proof fn lemma_twoopt_no_gain(
    board: Board,
    next: Seq<usize>,
    prev: Seq<usize>,
    body_next: Seq<Option<usize>>,
    is_snake: Seq<bool>,
    a: int,
    c: int,
    seg: Seq<usize>,
    applied: Seq<usize>,
    applied_prev: Seq<usize>,
    head: int,
    food: int,
    d0: int,
)
    requires
        next.len() <= usize::MAX,
        twoopt_segment(board, next, body_next, is_snake, a, next[a] as int, c, next[c] as int, seg),
        twoopt_applied(next, prev, applied, applied_prev, a, c, next[c] as int, seg),
        ring_dist(applied, head, food) >= d0,
    ensures
        !twoopt_improves(board, next, prev, body_next, is_snake, a, c, head, food, d0),
{
    reveal(twoopt_improves);
    assert forall|sg: Seq<usize>, n2: Seq<usize>, p2: Seq<usize>|
        twoopt_segment(board, next, body_next, is_snake, a, next[a] as int, c, next[c] as int, sg)
            && #[trigger] twoopt_applied(next, prev, n2, p2, a, c, next[c] as int, sg) implies ring_dist(
        n2,
        head,
        food,
    ) >= d0 by {
        lemma_twoopt_segment_unique(board, next, body_next, is_snake, a, next[a] as int, c, next[c] as int, sg, seg);
        lemma_twoopt_applied_unique(next, prev, n2, p2, applied, applied_prev, a, c, next[c] as int, seg);
    }
}

/// The head→food distance is above one, and the first cell after the head
/// (not the food, not the body) has an improving move.
pub open spec fn first_cell_improvable(
    board: Board,
    next: Seq<usize>,
    prev: Seq<usize>,
    body_next: Seq<Option<usize>>,
    is_snake: Seq<bool>,
    head: int,
    food: int,
) -> bool {
    let x = next[head] as int;
    &&& ring_dist(next, head, food) > 1
    &&& x != food
    &&& !is_snake[x]
    &&& improving_move(board, next, prev, body_next, is_snake, x, head, food, ring_dist(next, head, food))
}

/// Two segments for the same 2-opt are the same.
proof fn lemma_twoopt_segment_unique(
    board: Board,
    next: Seq<usize>,
    body_next: Seq<Option<usize>>,
    is_snake: Seq<bool>,
    a: int,
    b: int,
    c: int,
    d: int,
    s1: Seq<usize>,
    s2: Seq<usize>,
)
    requires
        twoopt_segment(board, next, body_next, is_snake, a, b, c, d, s1),
        twoopt_segment(board, next, body_next, is_snake, a, b, c, d, s2),
    ensures
        s1 == s2,
{
    if s1.len() < s2.len() {
        assert(s2[s1.len() - 1] == s1[s1.len() - 1]);
    } else if s2.len() < s1.len() {
        assert(s1[s2.len() - 1] == s2[s2.len() - 1]);
    }
    assert(s1 =~= s2);
}

/// A 2-opt result is determined by the segment.
proof fn lemma_twoopt_applied_unique(
    next: Seq<usize>,
    prev: Seq<usize>,
    n2: Seq<usize>,
    p2: Seq<usize>,
    n3: Seq<usize>,
    p3: Seq<usize>,
    a: int,
    c: int,
    d: int,
    seg: Seq<usize>,
)
    requires
        seg.len() >= 1,
        next.len() <= usize::MAX,
        twoopt_applied(next, prev, n2, p2, a, c, d, seg),
        twoopt_applied(next, prev, n3, p3, a, c, d, seg),
    ensures
        n2 == n3,
{
    assert forall|u: int| 0 <= u < n2.len() implies n2[u] == n3[u] by {
        if u == a {
        } else if u == seg[0] as int {
        } else if in_seg_range(seg, 0, seg.len() as int, u) {
            let k = choose|k: int| 0 <= k < seg.len() && #[trigger] seg[k] == u as usize;
            assert(k >= 1);
            assert(n2[seg[k] as int] == seg[k - 1]);
            assert(n3[seg[k] as int] == seg[k - 1]);
        }
    }
    assert(n2 =~= n3);
}

pub open spec fn twoopt_applied(
    next: Seq<usize>,
    prev: Seq<usize>,
    n2: Seq<usize>,
    p2: Seq<usize>,
    a: int,
    c: int,
    d: int,
    seg: Seq<usize>,
) -> bool {
    &&& n2.len() == next.len()
    &&& p2.len() == prev.len()
    &&& n2[a] == c
    &&& n2[seg[0] as int] == d
    &&& forall|i: int| 1 <= i < seg.len() ==> n2[#[trigger] seg[i] as int] == seg[i - 1]
    &&& forall|u: int|
        0 <= u < next.len() && u != a && !in_seg_range(seg, 0, seg.len() as int, u) ==> #[trigger] n2[u]
            == next[u]
    &&& p2[c] == a
    &&& p2[d] == seg[0]
    &&& forall|i: int| 0 <= i < seg.len() - 1 ==> p2[#[trigger] seg[i] as int] == seg[i + 1]
    &&& forall|u: int|
        0 <= u < prev.len() && u != c && u != d && !in_seg_range(seg, 0, seg.len() - 1, u)
            ==> #[trigger] p2[u] == prev[u]
}

impl CycleSurgeon {
    /// Would relocating free cell `x` into edge `(a→b)` be valid?
    fn relocate_ok(
        &self,
        board: &Board,
        body_next: &Vec<Option<usize>>,
        is_snake: &Vec<bool>,
        x: usize,
        a: usize,
        b: usize,
    ) -> (r: bool)
        requires
            self.tables_ok(*board),
            body_tables_ok(board.cell_count(), body_next@, is_snake@),
            x < board.cell_count(),
            a < board.cell_count(),
            b < board.cell_count(),
        ensures
            r == relocate_ok_spec(
                *board,
                self.next@,
                self.prev@,
                body_next@,
                is_snake@,
                x as int,
                a as int,
                b as int,
            ),
    {
        if x == a || x == b || is_snake[x] {
            return false;
        }
        let p = self.prev[x];
        let q = self.next[x];
        if p == q || p == x || q == x {
            return false;
        }
        self.adjacent(board, x, a) && self.adjacent(board, x, b) && self.adjacent(board, p, q)
            && !is_body_edge(body_next, a, b) && !is_body_edge(body_next, p, x) && !is_body_edge(
            body_next,
            x,
            q,
        )
    }

    fn apply_relocate(&mut self, board: &Board, x: usize, a: usize, b: usize, Ghost(body_next): Ghost<Seq<Option<usize>>>, Ghost(is_snake): Ghost<Seq<bool>>)
        requires
            old(self).tables_ok(*board),
            body_tables_ok(board.cell_count(), body_next, is_snake),
            x < board.cell_count(),
            a < board.cell_count(),
            old(self).next@[a as int] == b,
            relocate_ok_spec(
                *board,
                old(self).next@,
                old(self).prev@,
                body_next,
                is_snake,
                x as int,
                a as int,
                b as int,
            ),
        ensures
            final(self).tables_ok(*board),
            body_edges_kept(body_next, old(self).next@, final(self).next@),
            final(self).next@ == relocated(old(self).next@, old(self).prev@, x as int, a as int, b as int).0,
            final(self).prev@ == relocated(old(self).next@, old(self).prev@, x as int, a as int, b as int).1,
    {
        let p = self.prev[x];
        let q = self.next[x];
        proof {
            lemma_relocate_ring(*board, self.next@, self.prev@, body_next, is_snake, x as int, a as int, b as int);
            lemma_relocate_single(self.next@, x as int, a as int, b as int, p as int, q as int);
            assert(self.next@.update(p as int, q).update(a as int, x).update(x as int, b)
                == self.next@.update(p as int, q).update(a as int, x).update(x as int, b));
        }
        self.next.set(p, q);
        self.prev.set(q, p);
        self.next.set(a, x);
        self.prev.set(x, a);
        self.next.set(x, b);
        self.prev.set(b, x);
    }

    /// The segment `b…c` (inclusive) walked along `next`, or `None` if `c`
    /// is not reached within [`MAX_SEGMENT`] cells, or the walk meets a body
    /// cell, `a` or `d` first.
    fn segment_between(
        &self,
        board: &Board,
        is_snake: &Vec<bool>,
        a: usize,
        b: usize,
        c: usize,
        d: usize,
    ) -> (r: Option<Vec<usize>>)
        requires
            self.tables_ok(*board),
            is_snake@.len() == board.cell_count(),
            b < board.cell_count(),
            self.next@[a as int] == b,
            a < board.cell_count(),
        ensures
            r matches Some(seg) ==> {
                &&& 1 <= seg@.len() <= MAX_SEGMENT
                &&& seg@ == ring_segment(self.next@, b as int, seg@.len())
                &&& seg@.last() == c
                &&& segment_clear(is_snake@, seg@, a as int, d as int)
                &&& seg@.no_duplicates()
                &&& forall|j: int| 0 <= j < seg@.len() ==> #[trigger] seg@[j] < board.cell_count()
                &&& forall|j: int| 0 <= j < seg@.len() - 1 ==> #[trigger] seg@[j] != c
            },
            r is None ==> !exists|m: nat|
                m < MAX_SEGMENT && ring_walk(self.next@, b as int, m) == c && segment_clear(
                    is_snake@,
                    #[trigger] ring_segment(self.next@, b as int, m + 1),
                    a as int,
                    d as int,
                ),
    {
        let ghost nx = self.next@;
        let mut seg: Vec<usize> = Vec::new();
        let mut cur = b;
        loop
            invariant
                self.tables_ok(*board),
                nx == self.next@,
                is_snake@.len() == board.cell_count(),
                nx[a as int] == b,
                a < board.cell_count(),
                cur < board.cell_count(),
                seg@.len() < MAX_SEGMENT,
                seg@ == ring_segment(nx, b as int, seg@.len()),
                cur as int == ring_walk(nx, b as int, seg@.len()),
                segment_clear(is_snake@, seg@, a as int, d as int),
                seg@.no_duplicates(),
                !seg@.contains(cur),
                forall|j: int| 0 <= j < seg@.len() ==> #[trigger] seg@[j] != c,
                forall|j: int| 0 <= j < seg@.len() ==> #[trigger] seg@[j] < board.cell_count(),
                seg@.len() > 0 ==> seg@.last() as int == ring_walk(nx, b as int, (seg@.len() - 1) as nat),
            decreases MAX_SEGMENT - seg@.len(),
        {
            if is_snake[cur] || cur == a || cur == d {
                proof {
                    lemma_segment_blocked(nx, is_snake@, b as int, c as int, a as int, d as int, seg@);
                }
                return None;
            }
            let ghost before = seg@;
            seg.push(cur);
            proof {
                assert(seg@ =~= ring_segment(nx, b as int, seg@.len()));
            }
            if cur == c {
                return Some(seg);
            }
            if seg.len() >= MAX_SEGMENT {
                proof {
                    lemma_segment_too_long(nx, is_snake@, b as int, c as int, a as int, d as int, seg@);
                }
                return None;
            }
            let nxt = self.next[cur];
            proof {
                lemma_segment_fresh(*board, nx, self.prev@, b as int, a as int, seg@, nxt as int);
            }
            cur = nxt;
        }
    }

    /// Would a 2-opt on edges `(a→b)`, `(c→d)` be valid? Requires `a` next
    /// to `c`, `b` next to `d`, both edges free of the body, and a clear
    /// segment `b…c` of at most [`MAX_SEGMENT`] cells.
    fn twoopt_ok(
        &self,
        board: &Board,
        body_next: &Vec<Option<usize>>,
        is_snake: &Vec<bool>,
        a: usize,
        b: usize,
        c: usize,
        d: usize,
    ) -> (r: Option<Vec<usize>>)
        requires
            self.tables_ok(*board),
            body_tables_ok(board.cell_count(), body_next@, is_snake@),
            a < board.cell_count(),
            c < board.cell_count(),
            self.next@[a as int] == b,
            self.next@[c as int] == d,
        ensures
            r is Some ==> {
                &&& c != a && c != b && d != a && d != b
                &&& board.adjacent(board.cell_at(a as int), board.cell_at(c as int))
                &&& board.adjacent(board.cell_at(b as int), board.cell_at(d as int))
                &&& !body_edge(body_next@, a as int, b as int)
                &&& !body_edge(body_next@, c as int, d as int)
            },
            r matches Some(seg) ==> {
                &&& 1 <= seg@.len() <= MAX_SEGMENT
                &&& seg@ == ring_segment(self.next@, b as int, seg@.len())
                &&& seg@.last() == c
                &&& segment_clear(is_snake@, seg@, a as int, d as int)
                &&& seg@.no_duplicates()
                &&& forall|j: int| 0 <= j < seg@.len() ==> #[trigger] seg@[j] < board.cell_count()
                &&& forall|j: int| 0 <= j < seg@.len() - 1 ==> #[trigger] seg@[j] != c
            },
            r is None ==> {
                ||| c == a || c == b || d == a || d == b
                ||| !board.adjacent(board.cell_at(a as int), board.cell_at(c as int))
                ||| !board.adjacent(board.cell_at(b as int), board.cell_at(d as int))
                ||| body_edge(body_next@, a as int, b as int)
                ||| body_edge(body_next@, c as int, d as int)
                ||| !exists|m: nat|
                    m < MAX_SEGMENT && ring_walk(self.next@, b as int, m) == c && segment_clear(
                        is_snake@,
                        #[trigger] ring_segment(self.next@, b as int, m + 1),
                        a as int,
                        d as int,
                    )
            },
            r matches Some(seg) ==> twoopt_segment(
                *board,
                self.next@,
                body_next@,
                is_snake@,
                a as int,
                b as int,
                c as int,
                d as int,
                seg@,
            ),
            r is None ==> forall|seg: Seq<usize>|
                !#[trigger] twoopt_segment(
                    *board,
                    self.next@,
                    body_next@,
                    is_snake@,
                    a as int,
                    b as int,
                    c as int,
                    d as int,
                    seg,
                ),
    {
        if c == a || c == b || d == a || d == b {
            return None;
        }
        proof {
            assert(self.next@[a as int] < board.cell_count());
            assert(self.next@[c as int] < board.cell_count());
        }
        if !self.adjacent(board, a, c) || !self.adjacent(board, b, d) {
            return None;
        }
        if is_body_edge(body_next, a, b) || is_body_edge(body_next, c, d) {
            return None;
        }
        let r = self.segment_between(board, is_snake, a, b, c, d);
        proof {
            if r is None {
                assert forall|seg: Seq<usize>|
                    !#[trigger] twoopt_segment(
                        *board,
                        self.next@,
                        body_next@,
                        is_snake@,
                        a as int,
                        b as int,
                        c as int,
                        d as int,
                        seg,
                    ) by {
                    if twoopt_segment(
                        *board,
                        self.next@,
                        body_next@,
                        is_snake@,
                        a as int,
                        b as int,
                        c as int,
                        d as int,
                        seg,
                    ) {
                        let m = (seg.len() - 1) as nat;
                        assert(ring_segment(self.next@, b as int, m + 1) == seg);
                        assert(seg[m as int] == ring_walk(self.next@, b as int, m) as usize);
                        lemma_ring_walk_range(self.next@, b as int, m);
                        assert(ring_walk(self.next@, b as int, m) == c);
                    }
                }
            }
        }
        r
    }

    /// Apply the 2-opt: `a→c`, `b→d`, and the segment `b…c` reversed.
    fn apply_twoopt(
        &mut self,
        board: &Board,
        a: usize,
        b: usize,
        c: usize,
        d: usize,
        seg: &Vec<usize>,
        Ghost(body_next): Ghost<Seq<Option<usize>>>,
        Ghost(is_snake): Ghost<Seq<bool>>,
    )
        requires
            old(self).tables_ok(*board),
            body_tables_ok(board.cell_count(), body_next, is_snake),
            a < board.cell_count(),
            c < board.cell_count(),
            old(self).next@[a as int] == b,
            old(self).next@[c as int] == d,
            c != a && c != b && d != a && d != b,
            board.adjacent(board.cell_at(a as int), board.cell_at(c as int)),
            board.adjacent(board.cell_at(b as int), board.cell_at(d as int)),
            !body_edge(body_next, a as int, b as int),
            !body_edge(body_next, c as int, d as int),
            1 <= seg@.len() <= MAX_SEGMENT,
            seg@ == ring_segment(old(self).next@, b as int, seg@.len()),
            seg@.last() == c,
            segment_clear(is_snake, seg@, a as int, d as int),
            seg@.no_duplicates(),
            forall|j: int| 0 <= j < seg@.len() ==> #[trigger] seg@[j] < board.cell_count(),
        ensures
            final(self).tables_ok(*board),
            body_edges_kept(body_next, old(self).next@, final(self).next@),
            twoopt_applied(
                old(self).next@,
                old(self).prev@,
                final(self).next@,
                final(self).prev@,
                a as int,
                c as int,
                d as int,
                seg@,
            ),
    {
        let ghost next0 = self.next@;
        let ghost prev0 = self.prev@;
        let ghost n = board.cell_count();
        proof {
            lemma_segment_facts(*board, next0, prev0, a as int, b as int, c as int, seg@);
        }
        self.next.set(a, c);
        self.prev.set(c, a);
        let len = seg.len();
        let mut i: usize = len - 1;
        while i >= 1
            invariant
                self.width == old(self).width,
                self.adjacency == old(self).adjacency,
                next0 == old(self).next@,
                prev0 == old(self).prev@,
                ring_perm(n, next0, prev0),
                n == board.cell_count(),
                len == seg@.len(),
                2 <= len <= MAX_SEGMENT,
                0 <= i < len,
                seg@[0] == b,
                seg@.last() == c,
                seg@.no_duplicates(),
                forall|j: int| 0 <= j < seg@.len() ==> #[trigger] seg@[j] < n,
                forall|j: int| 0 <= j < seg@.len() ==> #[trigger] seg@[j] != a,
                a < n,
                c < n,
                self.next@.len() == n,
                self.prev@.len() == n,
                self.next@[a as int] == c,
                self.prev@[c as int] == a,
                forall|k: int| i < k < len ==> self.next@[#[trigger] seg@[k] as int] == seg@[k - 1],
                forall|k: int| i < k < len ==> self.prev@[#[trigger] seg@[k - 1] as int] == seg@[k],
                forall|u: int|
                    0 <= u < n && u != a && !in_seg_range(seg@, i + 1, len as int, u)
                        ==> #[trigger] self.next@[u] == next0[u],
                forall|u: int|
                    0 <= u < n && u != c && !in_seg_range(seg@, i as int, len - 1, u)
                        ==> #[trigger] self.prev@[u] == prev0[u],
            decreases i,
        {
            let ghost nb = self.next@;
            let ghost pb = self.prev@;
            self.next.set(seg[i], seg[i - 1]);
            self.prev.set(seg[i - 1], seg[i]);
            proof {
                assert forall|k: int| i - 1 < k < len implies self.next@[#[trigger] seg@[k] as int]
                    == seg@[k - 1] by {
                    if k != i {
                        assert(seg@[k] != seg@[i as int]);
                    }
                }
                assert forall|k: int| i - 1 < k < len implies self.prev@[#[trigger] seg@[k - 1] as int]
                    == seg@[k] by {
                    if k != i {
                        assert(seg@[k - 1] != seg@[i - 1]);
                    }
                }
                assert forall|u: int|
                    0 <= u < n && u != a && !in_seg_range(seg@, i as int, len as int, u)
                        implies #[trigger] self.next@[u] == next0[u] by {
                    assert(seg@[i as int] != u as usize);
                    assert(!in_seg_range(seg@, i + 1, len as int, u));
                }
                assert forall|u: int|
                    0 <= u < n && u != c && !in_seg_range(seg@, i - 1, len - 1, u)
                        implies #[trigger] self.prev@[u] == prev0[u] by {
                    assert(seg@[i - 1] != u as usize);
                    assert(!in_seg_range(seg@, i as int, len - 1, u));
                }
            }
            i -= 1;
        }
        self.next.set(b, d);
        self.prev.set(d, b);
        proof {
            assert(twoopt_applied(next0, prev0, self.next@, self.prev@, a as int, c as int, d as int, seg@)) by {
                assert forall|j: int| 1 <= j < seg@.len() implies self.next@[#[trigger] seg@[j] as int] == seg@[j - 1] by {
                    assert(seg@[j] != seg@[0]);
                }
                assert forall|j: int| 0 <= j < seg@.len() - 1 implies self.prev@[#[trigger] seg@[j] as int] == seg@[j + 1] by {
                    assert(seg@[j] != d);
                }
                assert forall|u: int|
                    0 <= u < next0.len() && u != a && !in_seg_range(seg@, 0, len as int, u) implies #[trigger] self.next@[u] == next0[u] by {
                    assert(!in_seg_range(seg@, 1, len as int, u));
                    assert(seg@[0] != u as usize);
                }
                assert forall|u: int|
                    0 <= u < prev0.len() && u != c && u != d && !in_seg_range(seg@, 0, len - 1, u)
                        implies #[trigger] self.prev@[u] == prev0[u] by {}
            }
            lemma_twoopt_ring(*board, next0, prev0, self.next@, self.prev@, body_next, is_snake, a as int, b as int, c as int, d as int, seg@);
            assert forall|u: int|
                0 <= u < next0.len() && u != a && !(exists|k: int|
                    0 <= k < seg@.len() && #[trigger] seg@[k] == u as usize) implies #[trigger] self.next@[u]
                == next0[u] by {
                assert(!in_seg_range(seg@, 0, seg@.len() as int, u));
            }
            lemma_twoopt_single(next0, self.next@, a as int, b as int, c as int, d as int, seg@);
        }
    }

    /// One attempt inside the walk: relocate `x` into an edge out of one of
    /// its neighbors, or 2-opt around `(prev[x]→x)`, keeping the first
    /// operation that shortens the head→food distance below `d0` and
    /// rolling back every other one.
    #[verifier::rlimit(100)]
    #[verifier::spinoff_prover]
    fn try_cell(
        &mut self,
        board: &Board,
        head: usize,
        food: usize,
        body_next: &Vec<Option<usize>>,
        is_snake: &Vec<bool>,
        x: usize,
        d0: usize,
        budget: &mut usize,
    ) -> (r: (bool, bool))
        requires
            old(self).tables_ok(*board),
            body_tables_ok(board.cell_count(), body_next@, is_snake@),
            head < board.cell_count(),
            food < board.cell_count(),
            x < board.cell_count(),
            !is_snake@[x as int],
            d0 as int == ring_dist(old(self).next@, head as int, food as int),
        ensures
            final(self).tables_ok(*board),
            *final(budget) <= *old(budget),
            r.0 ==> *final(budget) < *old(budget),
            r.0 ==> ring_dist(final(self).next@, head as int, food as int) < d0,
            !r.0 ==> final(self).next@ == old(self).next@,
            r.1 ==> *final(budget) == 0,
            body_edges_kept(body_next@, old(self).next@, final(self).next@),
            *old(budget) >= 12 ==> !r.1,
            !r.0 && !r.1 ==> !improving_move(
                *board,
                old(self).next@,
                old(self).prev@,
                body_next@,
                is_snake@,
                x as int,
                head as int,
                food as int,
                d0 as int,
            ),
    {
        let ghost start_next = self.next@;
        let ghost start_prev = self.prev@;
        let ghost start_budget = *budget;
        let mut improved = false;
        let mut stop = false;
        let nbrs = self.neighbors(board, x);
        let mut t: usize = 0;
        while t < 6 && !improved && !stop
            invariant
                self.tables_ok(*board),
                body_tables_ok(board.cell_count(), body_next@, is_snake@),
                head < board.cell_count(),
                food < board.cell_count(),
                x < board.cell_count(),
                0 <= t <= 6,
                forall|j: int| 0 <= j < 6 && (#[trigger] nbrs@[j]) is Some ==> nbrs@[j].unwrap() < board.cell_count(),
                *budget <= start_budget,
                improved ==> *budget < start_budget,
                improved ==> ring_dist(self.next@, head as int, food as int) < d0,
                !improved ==> self.next@ == start_next,
                stop ==> *budget == 0,
                body_edges_kept(body_next@, start_next, self.next@),
                d0 as int == ring_dist(start_next, head as int, food as int),
                start_next == old(self).next@,
                start_prev == old(self).prev@,
                !improved ==> self.prev@ == start_prev,
                start_budget == *old(budget),
                *budget + t >= start_budget,
                start_budget >= 12 ==> !stop,
                forall|j: int|
                    0 <= j < 6 ==> ((#[trigger] nbrs@[j]) is Some <==> board.neighbor_of(
                        board.cell_at(x as int),
                        all_directions()[j],
                    ) is Some) && (nbrs@[j] is Some ==> nbrs@[j].unwrap() as int == board.index_of(
                        board.neighbor_of(board.cell_at(x as int), all_directions()[j]).unwrap(),
                    )),
                !improved && !stop ==> forall|s: int|
                    0 <= s < t && (#[trigger] board.neighbor_of(board.cell_at(x as int), all_directions()[s]))
                        is Some ==> !relocation_improves(
                        *board,
                        start_next,
                        start_prev,
                        body_next@,
                        is_snake@,
                        x as int,
                        board.index_of(board.neighbor_of(board.cell_at(x as int), all_directions()[s]).unwrap()),
                        head as int,
                        food as int,
                        d0 as int,
                    ),
            decreases 6 - t,
        {
            match nbrs[t] {
                Some(a) => {
                    if *budget == 0 {
                        stop = true;
                    } else {
                        let b = self.next[a];
                        if self.relocate_ok(board, body_next, is_snake, x, a, b) {
                            *budget = *budget - 1;
                            let sn = self.next.clone();
                            let sp = self.prev.clone();
                            proof {
                                assert(sn@ =~= self.next@);
                                assert(sp@ =~= self.prev@);
                            }
                            self.apply_relocate(board, x, a, b, Ghost(body_next@), Ghost(is_snake@));
                            let dist = self.cycle_dist(head, food);
                            if dist < d0 {
                                improved = true;
                            } else {
                                self.next = sn;
                                self.prev = sp;
                            }
                            proof {
                                if !improved {
                                    lemma_relocation_no_gain(
                                        *board,
                                        start_next,
                                        start_prev,
                                        body_next@,
                                        is_snake@,
                                        x as int,
                                        a as int,
                                        head as int,
                                        food as int,
                                        d0 as int,
                                    );
                                }
                            }
                        } else {
                            proof {
                                lemma_relocation_no_gain(
                                    *board,
                                    start_next,
                                    start_prev,
                                    body_next@,
                                    is_snake@,
                                    x as int,
                                    a as int,
                                    head as int,
                                    food as int,
                                    d0 as int,
                                );
                            }
                        }
                    }
                },
                None => {},
            }
            proof {
                if !improved && !stop {
                    assert(nbrs@[t as int] is Some ==> nbrs@[t as int].unwrap() as int == board.index_of(
                        board.neighbor_of(board.cell_at(x as int), all_directions()[t as int]).unwrap(),
                    ));
                }
            }
            t += 1;
        }
        if !improved && !stop {
            let a = self.prev[x];
            let b = x;
            let nbrs2 = self.neighbors(board, a);
            let mut t: usize = 0;
            while t < 6 && !improved && !stop
                invariant
                    self.tables_ok(*board),
                    body_tables_ok(board.cell_count(), body_next@, is_snake@),
                    head < board.cell_count(),
                    food < board.cell_count(),
                    x < board.cell_count(),
                    a < board.cell_count(),
                    b == x,
                    !improved ==> self.next@[a as int] == b,
                    start_next == old(self).next@,
                    start_prev == old(self).prev@,
                    !improved ==> self.prev@ == start_prev,
                    start_budget == *old(budget),
                    *budget + 6 + t >= start_budget,
                    start_budget >= 12 ==> !stop,
                    a == start_prev[x as int],
                    forall|j: int|
                        0 <= j < 6 ==> ((#[trigger] nbrs2@[j]) is Some <==> board.neighbor_of(
                            board.cell_at(a as int),
                            all_directions()[j],
                        ) is Some) && (nbrs2@[j] is Some ==> nbrs2@[j].unwrap() as int == board.index_of(
                            board.neighbor_of(board.cell_at(a as int), all_directions()[j]).unwrap(),
                        )),
                    !improved && !stop ==> forall|s: int|
                        0 <= s < t && (#[trigger] board.neighbor_of(board.cell_at(a as int), all_directions()[s]))
                            is Some ==> !twoopt_improves(
                            *board,
                            start_next,
                            start_prev,
                            body_next@,
                            is_snake@,
                            a as int,
                            board.index_of(board.neighbor_of(board.cell_at(a as int), all_directions()[s]).unwrap()),
                            head as int,
                            food as int,
                            d0 as int,
                        ),
                    !improved && !stop ==> forall|s: int|
                        0 <= s < 6 && (#[trigger] board.neighbor_of(board.cell_at(x as int), all_directions()[s]))
                            is Some ==> !relocation_improves(
                            *board,
                            start_next,
                            start_prev,
                            body_next@,
                            is_snake@,
                            x as int,
                            board.index_of(board.neighbor_of(board.cell_at(x as int), all_directions()[s]).unwrap()),
                            head as int,
                            food as int,
                            d0 as int,
                        ),
                    0 <= t <= 6,
                    forall|j: int| 0 <= j < 6 && (#[trigger] nbrs2@[j]) is Some ==> nbrs2@[j].unwrap() < board.cell_count(),
                    *budget <= start_budget,
                    improved ==> *budget < start_budget,
                    improved ==> ring_dist(self.next@, head as int, food as int) < d0,
                    !improved ==> self.next@ == start_next,
                    stop ==> *budget == 0,
                    body_edges_kept(body_next@, start_next, self.next@),
                    d0 as int == ring_dist(start_next, head as int, food as int),
                decreases 6 - t,
            {
                match nbrs2[t] {
                    Some(c) => {
                        if *budget == 0 {
                            stop = true;
                        } else {
                            let d = self.next[c];
                            match self.twoopt_ok(board, body_next, is_snake, a, b, c, d) {
                                Some(seg) => {
                                    *budget = *budget - 1;
                                    let sn = self.next.clone();
                                    let sp = self.prev.clone();
                                    proof {
                                        assert(sn@ =~= self.next@);
                                        assert(sp@ =~= self.prev@);
                                    }
                                    self.apply_twoopt(
                                        board,
                                        a,
                                        b,
                                        c,
                                        d,
                                        &seg,
                                        Ghost(body_next@),
                                        Ghost(is_snake@),
                                    );
                                    let ghost applied = self.next@;
                                    let ghost applied_prev = self.prev@;
                                    let dist = self.cycle_dist(head, food);
                                    if dist < d0 {
                                        improved = true;
                                    } else {
                                        self.next = sn;
                                        self.prev = sp;
                                    }
                                    proof {
                                        if !improved {
                                            lemma_twoopt_no_gain(
                                                *board,
                                                start_next,
                                                start_prev,
                                                body_next@,
                                                is_snake@,
                                                a as int,
                                                c as int,
                                                seg@,
                                                applied,
                                                applied_prev,
                                                head as int,
                                                food as int,
                                                d0 as int,
                                            );
                                        }
                                    }
                                },
                                None => {
                                    proof {
                                        lemma_twoopt_impossible(
                                            *board,
                                            start_next,
                                            start_prev,
                                            body_next@,
                                            is_snake@,
                                            a as int,
                                            c as int,
                                            head as int,
                                            food as int,
                                            d0 as int,
                                        );
                                    }
                                },
                            }
                        }
                    },
                    None => {},
                }
                t += 1;
            }
        }
        (improved, stop)
    }

    /// Reshape the cycle to shorten the head→food distance. Deterministic
    /// and budget-bounded; only ever keeps an operation that strictly
    /// reduces the distance. The lever is pulling free cells out of the
    /// head→food arc (relocations), with 2-opt reversals for the cases
    /// relocation cannot handle.
    fn optimize(
        &mut self,
        board: &Board,
        head: usize,
        food: usize,
        body_next: &Vec<Option<usize>>,
        is_snake: &Vec<bool>,
    )
        requires
            old(self).tables_ok(*board),
            body_tables_ok(board.cell_count(), body_next@, is_snake@),
            head < board.cell_count(),
            food < board.cell_count(),
        ensures
            final(self).tables_ok(*board),
            body_edges_kept(body_next@, old(self).next@, final(self).next@),
            ring_dist(final(self).next@, head as int, food as int) <= ring_dist(
                old(self).next@,
                head as int,
                food as int,
            ),
            first_cell_improvable(*board, old(self).next@, old(self).prev@, body_next@, is_snake@, head as int, food as int)
                ==> ring_dist(final(self).next@, head as int, food as int) < ring_dist(
                old(self).next@,
                head as int,
                food as int,
            ),
    {
        let ghost orig = self.next@;
        let ghost orig_prev = self.prev@;
        let ghost easy = first_cell_improvable(*board, orig, orig_prev, body_next@, is_snake@, head as int, food as int);
        let ghost mut first = true;
        let mut budget: usize = OPT_BUDGET;
        while budget > 0
            invariant
                self.tables_ok(*board),
                body_tables_ok(board.cell_count(), body_next@, is_snake@),
                head < board.cell_count(),
                food < board.cell_count(),
                body_edges_kept(body_next@, orig, self.next@),
                orig.len() == board.cell_count(),
                ring_dist(self.next@, head as int, food as int) <= ring_dist(orig, head as int, food as int),
                first ==> budget == OPT_BUDGET && self.next@ == orig && self.prev@ == orig_prev,
                easy == first_cell_improvable(*board, orig, orig_prev, body_next@, is_snake@, head as int, food as int),
                !first && easy ==> ring_dist(self.next@, head as int, food as int) < ring_dist(orig, head as int, food as int),
            ensures
                self.tables_ok(*board),
                body_edges_kept(body_next@, orig, self.next@),
                ring_dist(self.next@, head as int, food as int) <= ring_dist(orig, head as int, food as int),
                easy ==> ring_dist(self.next@, head as int, food as int) < ring_dist(orig, head as int, food as int),
            decreases budget,
        {
            let d0 = self.cycle_dist(head, food);
            if d0 <= 1 {
                proof {
                    assert(!(first && easy));
                }
                break;
            }
            let ghost start_budget = budget;
            let ghost start_next = self.next@;
            let mut improved = false;
            let mut stop = false;
            let mut x = self.next[head];
            let mut steps: usize = 0;
            while !improved && !stop && x != food && steps < PATH_WINDOW
                invariant
                    self.tables_ok(*board),
                    body_tables_ok(board.cell_count(), body_next@, is_snake@),
                    head < board.cell_count(),
                    food < board.cell_count(),
                    x < board.cell_count(),
                    0 <= steps <= PATH_WINDOW,
                    budget <= start_budget,
                    improved ==> budget < start_budget,
                    improved ==> ring_dist(self.next@, head as int, food as int) < d0,
                    !improved ==> self.next@ == start_next,
                    d0 as int == ring_dist(start_next, head as int, food as int),
                    body_edges_kept(body_next@, start_next, self.next@),
                    first ==> start_budget == OPT_BUDGET && start_next == orig && self.prev@ == orig_prev
                        || improved,
                    first && steps == 0 ==> x == orig[head as int] && budget == OPT_BUDGET && !improved,
                    steps == 0 ==> !stop,
                    first && easy && steps > 0 ==> improved,
                    easy == first_cell_improvable(*board, orig, orig_prev, body_next@, is_snake@, head as int, food as int),
                decreases PATH_WINDOW - steps,
            {
                let next_x = self.next[x];
                if !is_snake[x] {
                    let r = self.try_cell(board, head, food, body_next, is_snake, x, d0, &mut budget);
                    improved = r.0;
                    stop = r.1;
                }
                x = next_x;
                steps += 1;
            }
            proof {
                lemma_kept_trans(body_next@, orig, start_next, self.next@);
                if first && easy {
                    assert(steps > 0);
                    assert(improved);
                    assert(ring_dist(self.next@, head as int, food as int) < ring_dist(orig, head as int, food as int));
                }
                first = false;
            }
            if !improved {
                break;
            }
        }
    }

}

/// The cells of a segment follow each other on the ring.
proof fn lemma_segment_facts(
    board: Board,
    next: Seq<usize>,
    prev: Seq<usize>,
    a: int,
    b: int,
    c: int,
    seg: Seq<usize>,
)
    requires
        ring_perm(board.cell_count(), next, prev),
        board.cell_count() <= i32::MAX,
        0 <= a < board.cell_count(),
        next[a] == b,
        1 <= seg.len(),
        seg == ring_segment(next, b, seg.len()),
        seg.last() == c,
        c != b,
    ensures
        seg.len() >= 2,
        seg[0] == b,
        forall|i: int| 0 <= i < seg.len() - 1 ==> next[#[trigger] seg[i] as int] == seg[i + 1],
        forall|i: int| 1 <= i < seg.len() ==> prev[#[trigger] seg[i] as int] == seg[i - 1],
        prev[b] == a,
{
    let n = board.cell_count();
    assert(seg[0] == ring_walk(next, b, 0) as usize);
    assert forall|i: int| 0 <= i < seg.len() - 1 implies next[#[trigger] seg[i] as int] == seg[i + 1] by {
        lemma_ring_walk_range(next, b, i as nat);
        lemma_ring_walk_range(next, b, (i + 1) as nat);
        assert(seg[i] == ring_walk(next, b, i as nat) as usize);
        assert(seg[i + 1] == ring_walk(next, b, (i + 1) as nat) as usize);
    }
    assert forall|i: int| 1 <= i < seg.len() implies prev[#[trigger] seg[i] as int] == seg[i - 1] by {
        assert(next[seg[i - 1] as int] == seg[i]);
        lemma_ring_walk_range(next, b, (i - 1) as nat);
        assert(seg[i - 1] == ring_walk(next, b, (i - 1) as nat) as usize);
    }
}

/// The 2-opt keeps the ring and the body edges.
#[verifier::rlimit(100)]
#[verifier::spinoff_prover]
proof fn lemma_twoopt_ring(
    board: Board,
    next: Seq<usize>,
    prev: Seq<usize>,
    n2: Seq<usize>,
    p2: Seq<usize>,
    body_next: Seq<Option<usize>>,
    is_snake: Seq<bool>,
    a: int,
    b: int,
    c: int,
    d: int,
    seg: Seq<usize>,
)
    requires
        ring_ok(board, next, prev),
        board.cell_count() <= i32::MAX,
        body_tables_ok(board.cell_count(), body_next, is_snake),
        0 <= a < board.cell_count(),
        0 <= c < board.cell_count(),
        next[a] == b,
        next[c] == d,
        c != a && c != b && d != a && d != b,
        board.adjacent(board.cell_at(a), board.cell_at(c)),
        board.adjacent(board.cell_at(b), board.cell_at(d)),
        !body_edge(body_next, a, b),
        !body_edge(body_next, c, d),
        1 <= seg.len(),
        seg == ring_segment(next, b, seg.len()),
        seg.last() == c,
        segment_clear(is_snake, seg, a, d),
        seg.no_duplicates(),
        forall|j: int| 0 <= j < seg.len() ==> #[trigger] seg[j] < board.cell_count(),
        twoopt_applied(next, prev, n2, p2, a, c, d, seg),
    ensures
        ring_ok(board, n2, p2),
        body_edges_kept(body_next, next, n2),
{
    let n = board.cell_count();
    let len = seg.len() as int;
    lemma_segment_facts(board, next, prev, a, b, c, seg);
    assert(prev[d] == c);
    assert(seg[len - 1] == c);
    assert forall|u: int| 0 <= u < n implies #[trigger] n2[u] < n by {
        if u != a && u != b && in_seg_range(seg, 0, len, u) {
            let i = choose|i: int| 0 <= i < len && #[trigger] seg[i] == u as usize;
        }
    }
    assert forall|u: int| 0 <= u < n implies #[trigger] p2[u] < n by {
        if u != c && u != d && in_seg_range(seg, 0, len - 1, u) {
            let i = choose|i: int| 0 <= i < len - 1 && #[trigger] seg[i] == u as usize;
        }
    }
    assert forall|u: int| 0 <= u < n implies p2[#[trigger] n2[u] as int] == u by {
        if u == a {
        } else if u == b {
        } else if in_seg_range(seg, 0, len, u) {
            let i = choose|i: int| 0 <= i < len && #[trigger] seg[i] == u as usize;
            assert(i >= 1);
            assert(n2[seg[i] as int] == seg[i - 1]);
            assert(p2[seg[i - 1] as int] == seg[i]);
        } else {
            let y = next[u] as int;
            assert(n2[u] == next[u]);
            assert(prev[y] == u);
            assert(y != c);
            assert(y != d);
            if in_seg_range(seg, 0, len - 1, y) {
                let k = choose|k: int| 0 <= k < len - 1 && #[trigger] seg[k] == y as usize;
                if k == 0 {
                    assert(prev[b] == a);
                } else {
                    assert(prev[seg[k] as int] == seg[k - 1]);
                    assert(in_seg_range(seg, 0, len, u));
                }
            }
            assert(p2[y] == prev[y]);
        }
    }
    assert forall|u: int| 0 <= u < n implies n2[#[trigger] p2[u] as int] == u by {
        if u == c {
        } else if u == d {
        } else if in_seg_range(seg, 0, len - 1, u) {
            let i = choose|i: int| 0 <= i < len - 1 && #[trigger] seg[i] == u as usize;
            assert(p2[seg[i] as int] == seg[i + 1]);
            assert(n2[seg[i + 1] as int] == seg[i]);
        } else {
            let y = prev[u] as int;
            assert(p2[u] == prev[u]);
            assert(next[y] == u);
            assert(y != a);
            if in_seg_range(seg, 0, len, y) {
                let k = choose|k: int| 0 <= k < len && #[trigger] seg[k] == y as usize;
                if k < len - 1 {
                    assert(next[seg[k] as int] == seg[k + 1]);
                    if k + 1 < len - 1 {
                        assert(in_seg_range(seg, 0, len - 1, u));
                    }
                } else {
                    assert(next[c] == d);
                }
            }
            assert(n2[y] == next[y]);
        }
    }
    assert(ring_linked(board, n2)) by {
        reveal(ring_linked);
        assert forall|u: int| 0 <= u < n2.len() implies linked(board, u, #[trigger] n2[u] as int) by {
            if u == a {
            } else if u == b {
            } else if in_seg_range(seg, 0, len, u) {
                let i = choose|i: int| 0 <= i < len && #[trigger] seg[i] == u as usize;
                assert(n2[seg[i] as int] == seg[i - 1]);
                assert(next[seg[i - 1] as int] == seg[i]);
                assert(linked(board, seg[i - 1] as int, next[seg[i - 1] as int] as int));
            } else {
                assert(n2[u] == next[u]);
                assert(linked(board, u, next[u] as int));
            }
        }
    }
    assert forall|u: int|
        0 <= u < next.len() && body_edge(body_next, u, #[trigger] next[u] as int) implies n2[u]
        == next[u] by {
        if u == a {
        } else if in_seg_range(seg, 0, len, u) {
            let i = choose|i: int| 0 <= i < len && #[trigger] seg[i] == u as usize;
            assert(!is_snake[seg[i] as int]);
            if i < len - 1 {
                assert(next[seg[i] as int] == seg[i + 1]);
                assert(!is_snake[seg[i + 1] as int]);
            } else {
                assert(u == c);
            }
        }
    }

}

/// The body successor entry of cell index `u` after the first `k` snake
/// cells were entered: each cell records the next cell towards the tail, a
/// later entry overwriting an earlier one.
pub open spec fn body_prefix(board: Board, snake: Seq<Offset>, u: int, k: int) -> Option<usize>
    decreases k,
{
    if k <= 1 {
        None
    } else if board.index_of(snake[k - 2]) == u {
        Some(board.index_of(snake[k - 1]) as usize)
    } else {
        body_prefix(board, snake, u, k - 1)
    }
}

/// The body successor table of a state.
pub open spec fn body_table(v: GameView) -> Seq<Option<usize>> {
    Seq::new(
        v.board.cell_count() as nat,
        |u: int| body_prefix(v.board, v.snake, u, v.snake.len() as int),
    )
}

/// The surgeon's move: the safe move onto the ring successor of the head
/// if there is one, else the first safe move, else straight ahead.
pub open spec fn surgeon_choice(v: GameView, next: Seq<usize>, d: Direction) -> bool {
    let succ = v.board.cell_at(next[v.board.index_of(v.snake[0])] as int);
    if exists|e: Direction| #[trigger] is_safe_move(v, e) && v.board.neighbor_of(v.snake[0], e) == Some(succ) {
        is_safe_move(v, d) && v.board.neighbor_of(v.snake[0], d) == Some(succ)
    } else if has_safe_move(v) {
        is_safe_move(v, d) && forall|e: Direction|
            #[trigger] is_safe_move(v, e) ==> crate::coords::dir_index(d) <= crate::coords::dir_index(e)
    } else {
        d == v.direction
    }
}

impl Strategy for CycleSurgeon {
    open spec fn suits(&self, board: Board) -> bool {
        self.tables_ok(board)
    }

    #[verifier::rlimit(40)]
    #[verifier::spinoff_prover]
    fn next_move(&mut self, state: &GameState) -> (d: Direction)
        ensures
            surgeon_choice(state@, final(self).next_view(), d),
            body_edges_kept(body_table(state@), old(self).next_view(), final(self).next_view()),
            ring_dist(
                final(self).next_view(),
                state@.board.index_of(state@.snake[0]),
                state@.board.index_of(state@.food),
            ) <= ring_dist(
                old(self).next_view(),
                state@.board.index_of(state@.snake[0]),
                state@.board.index_of(state@.food),
            ),
            final(self).debug_path() == Seq::new(
                state@.board.cell_count() as nat,
                |k: int|
                    state@.board.cell_at(
                        ring_walk(
                            final(self).next_view(),
                            state@.board.index_of(state@.snake[0]),
                            k as nat,
                        ),
                    ),
            ),
    {
        let ghost v = state@;
        proof {
            state.lemma_wf_view();
        }
        let board = state.board();
        let n = board.num_cells();
        let head = cell_index(board, state.head());
        let food = cell_index(board, state.food());
        let mut body_next: Vec<Option<usize>> = Vec::new();
        let mut is_snake: Vec<bool> = Vec::new();
        let mut t: usize = 0;
        while t < n
            invariant
                0 <= t <= n,
                body_next@.len() == t,
                is_snake@.len() == t,
                forall|j: int| 0 <= j < t ==> (#[trigger] body_next@[j]) is None,
                forall|j: int| 0 <= j < t ==> !(#[trigger] is_snake@[j]),
            decreases n - t,
        {
            body_next.push(None);
            is_snake.push(false);
            t += 1;
        }
        let cells = state.snake();
        let mut prev_cell: Option<usize> = None;
        let mut i: usize = 0;
        while i < cells.len()
            invariant
                v == state@,
                *board == v.board,
                v.board.wf(),
                v.board.cell_count() <= i32::MAX,
                n as int == v.board.cell_count(),
                cells@ == v.snake,
                forall|k: int| 0 <= k < v.snake.len() ==> v.board.in_bounds(#[trigger] v.snake[k]),
                0 <= i <= cells@.len(),
                body_next@.len() == n,
                is_snake@.len() == n,
                i == 0 <==> prev_cell is None,
                prev_cell matches Some(pc) ==> pc as int == v.board.index_of(v.snake[i - 1]),
                forall|u: int| 0 <= u < n ==> #[trigger] body_next@[u] == body_prefix(v.board, v.snake, u, i as int),
                forall|u: int|
                    0 <= u < n ==> (#[trigger] is_snake@[u] <==> exists|k: int|
                        0 <= k < i && v.board.index_of(v.snake[k]) == u),
                body_tables_ok(n as int, body_next@, is_snake@),
            decreases cells@.len() - i,
        {
            let idx = cell_index(board, cells[i]);
            let ghost bn = body_next@;
            let ghost sn = is_snake@;
            is_snake.set(idx, true);
            match prev_cell {
                Some(p) => {
                    proof {
                        crate::board::lemma_index_in_range(v.board, v.snake[i - 1]);
                    }
                    body_next.set(p, Some(idx));
                },
                None => {},
            }
            proof {
                assert forall|u: int| 0 <= u < n implies #[trigger] body_next@[u] == body_prefix(v.board, v.snake, u, i + 1) by {}
                assert forall|u: int| 0 <= u < n implies (#[trigger] is_snake@[u] <==> exists|k: int|
                    0 <= k < i + 1 && v.board.index_of(v.snake[k]) == u) by {
                    if u != idx {
                        if exists|k: int| 0 <= k < i + 1 && v.board.index_of(v.snake[k]) == u {
                            let k = choose|k: int| 0 <= k < i + 1 && v.board.index_of(v.snake[k]) == u;
                            assert(k != i);
                        }
                    } else {
                        assert(v.board.index_of(v.snake[i as int]) == u);
                    }
                }
                assert forall|u: int|
                    0 <= u < n && (#[trigger] body_next@[u]) is Some implies body_next@[u].unwrap() < n
                        && is_snake@[u] && is_snake@[body_next@[u].unwrap() as int] by {
                    if i > 0 && u == v.board.index_of(v.snake[i - 1]) {
                        assert(is_snake@[idx as int]);
                        assert(sn[u] || u == idx);
                        if u != idx {
                            assert(exists|k: int| 0 <= k < i && v.board.index_of(v.snake[k]) == u);
                        }
                    } else {
                        assert(body_next@[u] == bn[u]);
                    }
                }
            }
            prev_cell = Some(idx);
            i += 1;
        }
        proof {
            assert(body_next@ =~= body_table(v));
        }
        self.optimize(board, head, food, &body_next, &is_snake);
        let succ_idx = self.next[head];
        let moves = safe_moves(state);
        let mut found: Option<Direction> = None;
        let mut j: usize = 0;
        while j < moves.len()
            invariant
                v == state@,
                *board == v.board,
                v.board.wf(),
                v.board.cell_count() <= i32::MAX,
                lists_safe_moves(v, moves@),
                v.board.in_bounds(v.snake[0]),
                succ_idx < v.board.cell_count(),
                0 <= j <= moves@.len(),
                found matches Some(f) ==> is_safe_move(v, f) && v.board.neighbor_of(v.snake[0], f)
                    == Some(v.board.cell_at(succ_idx as int)),
                found is None ==> forall|k: int|
                    0 <= k < j ==> (#[trigger] moves@[k]).1 != v.board.cell_at(succ_idx as int),
            decreases moves@.len() - j,
        {
            if found.is_none() {
                proof {
                    assert(is_safe_move(v, moves@[j as int].0));
                    crate::board::lemma_neighbor_in_bounds(v.board, v.snake[0], moves@[j as int].0);
                    crate::board::lemma_cell_at_in_bounds(v.board, succ_idx as int);
                    crate::board::lemma_index_injective(v.board, moves@[j as int].1, v.board.cell_at(succ_idx as int));
                }
                if cell_index(board, moves[j].1) == succ_idx {
                    found = Some(moves[j].0);
                }
            }
            j += 1;
        }
        // Overlay: the whole current cycle from the head.
        let ghost next_after = self.next@;
        self.debug.path.clear();
        let mut cur = head;
        let mut k: usize = 0;
        while k < n
            invariant
                self.next@ == next_after,
                self.tables_ok(*board),
                v.board == *board,
                n as int == board.cell_count(),
                head as int == v.board.index_of(v.snake[0]),
                cur < n,
                0 <= k <= n,
                cur as int == ring_walk(next_after, head as int, k as nat),
                self.debug.path@ =~= Seq::new(
                    k as nat,
                    |j: int| v.board.cell_at(ring_walk(next_after, head as int, j as nat)),
                ),
            decreases n - k,
        {
            let cell = self.offset_of(cur);
            self.debug.path.push(cell);
            cur = self.next[cur];
            k += 1;
        }
        match found {
            Some(dir) => dir,
            None => {
                proof {
                    assert forall|e: Direction|
                        !(#[trigger] is_safe_move(v, e) && v.board.neighbor_of(v.snake[0], e) == Some(
                            v.board.cell_at(succ_idx as int),
                        )) by {
                        if is_safe_move(v, e) && v.board.neighbor_of(v.snake[0], e) == Some(
                            v.board.cell_at(succ_idx as int),
                        ) {
                            let k = choose|k: int| 0 <= k < moves@.len() && moves@[k].0 == e;
                            assert(moves@[k].1 != v.board.cell_at(succ_idx as int));
                        }
                    }
                }
                if moves.len() > 0 {
                    proof {
                        assert(is_safe_move(v, moves@[0].0));
                        assert forall|e: Direction| #[trigger] is_safe_move(v, e) implies crate::coords::dir_index(
                            moves@[0].0,
                        ) <= crate::coords::dir_index(e) by {
                            let k = choose|k: int| 0 <= k < moves@.len() && moves@[k].0 == e;
                            if k > 0 {
                                assert(crate::coords::dir_index(moves@[0].0) < crate::coords::dir_index(moves@[k].0));
                            }
                        }
                    }
                    moves[0].0
                } else {
                    proof {
                        assert forall|e: Direction| !is_safe_move(v, e) by {
                            if is_safe_move(v, e) {
                                let k = choose|k: int| 0 <= k < moves@.len() && moves@[k].0 == e;
                            }
                        }
                    }
                    doomed_move(state)
                }
            },
        }
    }

    fn debug(&self) -> (r: Option<&StrategyDebug>)
        ensures
            r matches Some(x) && *x == self.debug_view(),
    {
        Some(&self.debug)
    }
}

/// Keeping the body edges is transitive.
proof fn lemma_kept_trans(body_next: Seq<Option<usize>>, s1: Seq<usize>, s2: Seq<usize>, s3: Seq<usize>)
    requires
        s1.len() == s2.len(),
        body_edges_kept(body_next, s1, s2),
        body_edges_kept(body_next, s2, s3),
    ensures
        body_edges_kept(body_next, s1, s3),
{
    assert forall|u: int|
        0 <= u < s1.len() && body_edge(body_next, u, #[trigger] s1[u] as int) implies s3[u] == s1[u] by {
        assert(s2[u] == s1[u]);
        assert(body_edge(body_next, u, s2[u] as int));
    }
}

/// The walk from `b` meets a blocked cell before reaching `c`: no clear
/// segment from `b` to `c` exists.
proof fn lemma_segment_blocked(
    next: Seq<usize>,
    is_snake: Seq<bool>,
    b: int,
    c: int,
    a: int,
    d: int,
    seg: Seq<usize>,
)
    requires
        next.len() <= i32::MAX,
        forall|i: int| 0 <= i < next.len() ==> #[trigger] next[i] < next.len(),
        0 <= b < next.len(),
        seg == ring_segment(next, b, seg.len()),
        forall|j: int| 0 <= j < seg.len() ==> #[trigger] seg[j] != c,
        ({
            let cur = ring_walk(next, b, seg.len());
            is_snake[cur] || cur == a || cur == d
        }),
    ensures
        !exists|k: nat|
            k < MAX_SEGMENT && ring_walk(next, b, k) == c && segment_clear(
                is_snake,
                #[trigger] ring_segment(next, b, k + 1),
                a,
                d,
            ),
{
    let m = seg.len();
    lemma_ring_walk_range(next, b, m);
    assert forall|k: nat|
        k < MAX_SEGMENT && ring_walk(next, b, k) == c implies !segment_clear(
        is_snake,
        #[trigger] ring_segment(next, b, k + 1),
        a,
        d,
    ) by {
        lemma_ring_walk_range(next, b, k);
        if k < m {
            assert(seg[k as int] == ring_walk(next, b, k) as usize);
            assert(seg[k as int] != c);
        } else {
            let s2 = ring_segment(next, b, k + 1);
            assert(s2[m as int] == ring_walk(next, b, m) as usize);
            assert(!(!is_snake[s2[m as int] as int] && s2[m as int] != a && s2[m as int] != d));
        }
    }
}

/// The walk from `b` does not reach `c` within the segment cap.
proof fn lemma_segment_too_long(
    next: Seq<usize>,
    is_snake: Seq<bool>,
    b: int,
    c: int,
    a: int,
    d: int,
    seg: Seq<usize>,
)
    requires
        next.len() <= i32::MAX,
        forall|i: int| 0 <= i < next.len() ==> #[trigger] next[i] < next.len(),
        0 <= b < next.len(),
        seg.len() == MAX_SEGMENT,
        seg == ring_segment(next, b, seg.len()),
        forall|j: int| 0 <= j < seg.len() ==> #[trigger] seg[j] != c,
    ensures
        !exists|k: nat|
            k < MAX_SEGMENT && ring_walk(next, b, k) == c && segment_clear(
                is_snake,
                #[trigger] ring_segment(next, b, k + 1),
                a,
                d,
            ),
{
    assert forall|k: nat| k < MAX_SEGMENT implies ring_walk(next, b, k) != c by {
        lemma_ring_walk_range(next, b, k);
        assert(seg[k as int] == ring_walk(next, b, k) as usize);
        assert(seg[k as int] != c);
    }
}

/// A walk from `b = next[a]` that avoids `a` does not come back to itself
/// within one more step.
proof fn lemma_segment_fresh(
    board: Board,
    next: Seq<usize>,
    prev: Seq<usize>,
    b: int,
    a: int,
    seg: Seq<usize>,
    nxt: int,
)
    requires
        ring_ok(board, next, prev),
        0 <= a < next.len(),
        next[a] == b,
        seg.len() >= 1,
        seg == ring_segment(next, b, seg.len()),
        seg.no_duplicates(),
        forall|j: int| 0 <= j < seg.len() ==> #[trigger] seg[j] != a,
        forall|j: int| 0 <= j < seg.len() ==> #[trigger] seg[j] < next.len(),
        nxt == next[seg.last() as int],
    ensures
        !seg.contains(nxt as usize),
{
    if seg.contains(nxt as usize) {
        let i = choose|i: int| 0 <= i < seg.len() && seg[i] == nxt as usize;
        let last = seg.last() as int;
        assert(prev[next[last] as int] == last);
        if i == 0 {
            assert(seg[0] == ring_walk(next, b, 0) as usize);
            assert(prev[next[a] as int] == a);
        } else {
            assert(seg[i] == ring_walk(next, b, i as nat) as usize);
            assert(seg[i - 1] == ring_walk(next, b, (i - 1) as nat) as usize);
            assert(ring_walk(next, b, i as nat) == next[ring_walk(next, b, (i - 1) as nat)] as int);
            assert(prev[next[seg[i - 1] as int] as int] == seg[i - 1] as int);
            assert(seg[i - 1] == seg[seg.len() - 1]);
        }
    }
}

/// Splicing `x` into edge `(a→b)` keeps the ring and the body edges.
#[verifier::rlimit(100)]
#[verifier::spinoff_prover]
proof fn lemma_relocate_ring(
    board: Board,
    next: Seq<usize>,
    prev: Seq<usize>,
    body_next: Seq<Option<usize>>,
    is_snake: Seq<bool>,
    x: int,
    a: int,
    b: int,
)
    requires
        ring_ok(board, next, prev),
        body_tables_ok(board.cell_count(), body_next, is_snake),
        0 <= x < board.cell_count(),
        0 <= a < board.cell_count(),
        next[a] == b,
        relocate_ok_spec(board, next, prev, body_next, is_snake, x, a, b),
    ensures
        ({
            let p = prev[x] as int;
            let q = next[x] as int;
            let n2 = next.update(p, q as usize).update(a, x as usize).update(x, b as usize);
            let p2 = prev.update(q, p as usize).update(x, a as usize).update(b, x as usize);
            ring_ok(board, n2, p2) && body_edges_kept(body_next, next, n2)
        }),
{
    let n = board.cell_count();
    let p = prev[x] as int;
    let q = next[x] as int;
    let n2 = next.update(p, q as usize).update(a, x as usize).update(x, b as usize);
    let p2 = prev.update(q, p as usize).update(x, a as usize).update(b, x as usize);
    assert(ring_perm(n, next, prev));
    assert(next[p] == x);
    assert(prev[q] == x);
    assert(prev[b] == a);
    assert(a != p);
    assert(b != q);
    assert forall|i: int| 0 <= i < n implies #[trigger] n2[i] < n by {}
    assert forall|i: int| 0 <= i < n implies #[trigger] p2[i] < n by {}
    assert forall|i: int| 0 <= i < n implies p2[#[trigger] n2[i] as int] == i by {
        if i != x && i != a && i != p {
            assert(n2[i] == next[i]);
            assert(prev[next[i] as int] == i);
            assert(next[i] != q);
            assert(next[i] != x);
            assert(next[i] != b);
        }
    }
    assert forall|i: int| 0 <= i < n implies n2[#[trigger] p2[i] as int] == i by {
        if i == q {
            assert(p2[q] == p);
            assert(n2[p] == q);
        } else if i == x {
            assert(p2[x] == a);
            assert(n2[a] == x);
        } else if i == b {
            assert(p2[b] == x);
            assert(n2[x] == b);
        } else {
            let j = prev[i] as int;
            assert(p2[i] == prev[i]);
            assert(0 <= j < n);
            assert(next[j] == i);
            assert(j != p) by {
                if j == p {
                    assert(next[p] == x);
                }
            }
            assert(j != a) by {
                if j == a {
                    assert(next[a] == b);
                }
            }
            assert(j != x) by {
                if j == x {
                    assert(next[x] == q);
                }
            }
            assert(n2[j] == next[j]);
        }
    }
    assert(ring_linked(board, n2)) by {
        reveal(ring_linked);
        assert forall|i: int| 0 <= i < n2.len() implies linked(board, i, #[trigger] n2[i] as int) by {
            if i != x && i != a && i != p {
                assert(n2[i] == next[i]);
            }
        }
    }
    assert forall|u: int|
        0 <= u < next.len() && body_edge(body_next, u, #[trigger] next[u] as int) implies n2[u]
        == next[u] by {
        if u == p {
            assert(next[p] == x);
        }
    }
}

impl CycleSurgeon {
    /// The ring as an ordered cell sequence starting from cell 0, and the
    /// position of each cell in it (later visits overwrite earlier ones;
    /// unvisited cells keep position 0).
    pub fn rebuild_order(&self, board: &Board) -> (r: (Vec<Offset>, Vec<usize>))
        requires
            self.tables_ok(*board),
        ensures
            r.0@ == Seq::new(
                board.cell_count() as nat,
                |i: int| board.cell_at(ring_walk(self.next_view(), 0, i as nat)),
            ),
            r.1@.len() == board.cell_count(),
            forall|i: int|
                0 <= i < board.cell_count() && (forall|j: int|
                    i < j < board.cell_count() ==> #[trigger] ring_walk(self.next_view(), 0, j as nat) != ring_walk(
                        self.next_view(),
                        0,
                        i as nat,
                    )) ==> #[trigger] r.1@[ring_walk(self.next_view(), 0, i as nat)] == i,
    {
        let n = self.next.len();
        let mut order: Vec<Offset> = Vec::new();
        let mut position: Vec<usize> = Vec::new();
        let mut t: usize = 0;
        while t < n
            invariant
                0 <= t <= n,
                position@.len() == t,
            decreases n - t,
        {
            position.push(0);
            t += 1;
        }
        let mut cur: usize = 0;
        let mut i: usize = 0;
        while i < n
            invariant
                self.tables_ok(*board),
                n as int == board.cell_count(),
                position@.len() == n,
                0 <= i <= n,
                i < n ==> cur < n,
                cur as int == ring_walk(self.next@, 0, i as nat),
                order@ =~= Seq::new(i as nat, |k: int| board.cell_at(ring_walk(self.next@, 0, k as nat))),
                forall|k: int|
                    0 <= k < i && (forall|j: int|
                        k < j < i ==> #[trigger] ring_walk(self.next@, 0, j as nat) != ring_walk(self.next@, 0, k as nat))
                        ==> #[trigger] position@[ring_walk(self.next@, 0, k as nat)] == k,
            decreases n - i,
        {
            order.push(self.offset_of(cur));
            let ghost before = position@;
            position.set(cur, i);
            proof {
                assert forall|k: int|
                    0 <= k < i + 1 && (forall|j: int|
                        k < j < i + 1 ==> #[trigger] ring_walk(self.next@, 0, j as nat) != ring_walk(self.next@, 0, k as nat))
                        implies #[trigger] position@[ring_walk(self.next@, 0, k as nat)] == k by {
                    if k < i {
                        let jj: int = i as int;
                        assert(k < jj < i + 1);
                        assert(ring_walk(self.next@, 0, jj as nat) != ring_walk(self.next@, 0, k as nat));
                        lemma_ring_walk_range(self.next@, 0, k as nat);
                    }
                }
            }
            cur = self.next[cur];
            i += 1;
        }
        (order, position)
    }
}


/// The successor table of a Hamiltonian cycle order is a single cycle.
proof fn lemma_single_from_cycle(board: Board, cycle: Seq<Offset>, next: Seq<usize>)
    requires
        board.wf(),
        board.cell_count() <= i32::MAX,
        forall|c: Offset|
            board.in_bounds(c) ==> exists|p: int| 0 <= p < cycle.len() && #[trigger] cycle[p] == c,
        forall|i: int| 0 <= i < cycle.len() ==> board.in_bounds(#[trigger] cycle[i]),
        cycle.no_duplicates(),
        cycle.len() == board.cell_count(),
        cycle.len() > 1,
        next.len() == board.cell_count(),
        forall|j: int|
            #![trigger next[board.index_of(cycle[j])]]
            0 <= j < cycle.len() ==> next[board.index_of(cycle[j])] == board.index_of(
                cycle[(j + 1) % (cycle.len() as int)],
            ),
    ensures
        single_ring(next),
{
    let n = board.cell_count();
    let ord = Seq::new(cycle.len(), |j: int| board.index_of(cycle[j]));
    assert forall|j: int| 0 <= j < n implies 0 <= #[trigger] ord[j] < next.len() && next[ord[j]]
        == ord[(j + 1) % n] by {
        crate::board::lemma_index_in_range(board, cycle[j]);
        assert(next[board.index_of(cycle[j])] == board.index_of(cycle[(j + 1) % n]));
        vstd::arithmetic::div_mod::lemma_mod_bound(j + 1, n);
    }
    assert forall|i: int, j: int| 0 <= i < j < n implies ord[i] != ord[j] by {
        crate::board::lemma_index_injective(board, cycle[i], cycle[j]);
    }
    assert forall|u: int| 0 <= u < next.len() implies #[trigger] ord.contains(u) by {
        crate::board::lemma_cell_at_in_bounds(board, u);
        let c = board.cell_at(u);
        let p = choose|p: int| 0 <= p < cycle.len() && #[trigger] cycle[p] == c;
        assert(ord[p] == u);
    }
    assert(cycle_order(next, ord));
}

/// Successor/predecessor tables built from a Hamiltonian cycle form a ring.
#[verifier::rlimit(80)]
#[verifier::spinoff_prover]
proof fn lemma_ring_from_cycle(board: Board, cycle: Seq<Offset>, next: Seq<usize>, prev: Seq<usize>)
    requires
        board.wf(),
        board.cell_count() <= i32::MAX,
        forall|c: Offset|
            board.in_bounds(c) ==> exists|p: int| 0 <= p < cycle.len() && #[trigger] cycle[p] == c,
        forall|i: int|
            #![trigger board.adjacent(cycle[i], cycle[(i + 1) % (cycle.len() as int)])]
            0 <= i < cycle.len() ==> board.adjacent(cycle[i], cycle[(i + 1) % (cycle.len() as int)]),
        forall|i: int| 0 <= i < cycle.len() ==> board.in_bounds(#[trigger] cycle[i]),
        cycle.len() == board.cell_count(),
        cycle.len() > 1,
        next.len() == board.cell_count(),
        prev.len() == board.cell_count(),
        forall|j: int| 0 <= j < board.cell_count() ==> #[trigger] next[j] < board.cell_count() && prev[j]
            < board.cell_count(),
        forall|j: int|
            #![trigger next[board.index_of(cycle[j])]]
            0 <= j < cycle.len() ==> next[board.index_of(cycle[j])] == board.index_of(
                cycle[(j + 1) % (cycle.len() as int)],
            ),
        forall|j: int|
            #![trigger prev[board.index_of(cycle[(j + 1) % (cycle.len() as int)])]]
            0 <= j < cycle.len() ==> prev[board.index_of(cycle[(j + 1) % (cycle.len() as int)])]
                == board.index_of(cycle[j]),
    ensures
        ring_ok(board, next, prev),
{
    let n = board.cell_count();
    let len = cycle.len() as int;
    assert forall|x: int| 0 <= x < n implies {
        &&& prev[next[x] as int] == x
        &&& next[prev[x] as int] == x
        &&& linked(board, x, next[x] as int)
    } by {
        crate::board::lemma_cell_at_in_bounds(board, x);
        let c = board.cell_at(x);
        let p = choose|p: int| 0 <= p < cycle.len() && #[trigger] cycle[p] == c;
        let q = (p + 1) % len;
        assert(next[board.index_of(cycle[p])] == board.index_of(cycle[q]));
        assert(0 <= q < len);
        assert(board.in_bounds(cycle[q]));
        crate::board::lemma_index_in_range(board, cycle[q]);
        assert(board.adjacent(cycle[p], cycle[q]));
        assert(prev[board.index_of(cycle[(p + 1) % len])] == board.index_of(cycle[p]));
        let r = if p == 0 { len - 1 } else { p - 1 };
        assert((r + 1) % len == p) by {
            if p == 0 {
                vstd::arithmetic::div_mod::lemma_mod_self_0(len);
            } else {
                vstd::arithmetic::div_mod::lemma_small_mod(p as nat, len as nat);
            }
        }
        assert(prev[board.index_of(cycle[(r + 1) % len])] == board.index_of(cycle[r]));
        assert(board.in_bounds(cycle[r]));
        crate::board::lemma_index_in_range(board, cycle[r]);
        assert(next[board.index_of(cycle[r])] == board.index_of(cycle[(r + 1) % len]));
    }
    assert forall|i: int| 0 <= i < n implies prev[#[trigger] next[i] as int] == i by {}
    assert forall|i: int| 0 <= i < n implies next[#[trigger] prev[i] as int] == i by {}
    reveal(ring_linked);
    assert forall|i: int| 0 <= i < next.len() implies linked(board, i, #[trigger] next[i] as int) by {}
}

} // verus!

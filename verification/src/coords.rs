//! Hex coordinates for flat-top hexagons.
//!
//! Axial coordinates `(q, r)` carry the neighborhood and distance math;
//! offset coordinates `(col, row)` ("odd-q" vertical layout) describe the
//! rectangular playing field, where periodic boundaries are a plain modulo.
use vstd::prelude::*;

verus! {

/// Axial hex coordinate (flat-top). `q` grows to the east, `r` to the south.
#[derive(Debug, Clone, Copy, PartialEq, Eq, Structural, Hash)]
pub struct Axial {
    pub q: i32,
    pub r: i32,
}

/// Offset coordinate on the rectangular field ("odd-q" vertical layout).
#[derive(Debug, Clone, Copy, PartialEq, Eq, Structural, Hash)]
pub struct Offset {
    pub col: i32,
    pub row: i32,
}

/// The six movement directions on a flat-top hex grid,
/// mapped to the keys W, E, D, S, A, Q.
#[derive(Debug, Clone, Copy, PartialEq, Eq, Structural, Hash)]
pub enum Direction {
    North,
    NorthEast,
    SouthEast,
    South,
    SouthWest,
    NorthWest,
}

/// `floor(x / 2)`: spec division by a positive constant rounds down.
pub open spec fn floor_half(x: int) -> int {
    x / 2
}

pub open spec fn abs(x: int) -> int {
    if x < 0 { -x } else { x }
}

pub open spec fn fits_i32(x: int) -> bool {
    i32::MIN <= x <= i32::MAX
}

/// Row of an axial coordinate in the odd-q offset layout (mathematical value).
pub open spec fn offset_row(a: Axial) -> int {
    a.r + floor_half(a.q as int)
}

/// The offset coordinate of an axial coordinate whose row fits in `i32`.
pub open spec fn axial_to_offset(a: Axial) -> Offset {
    Offset { col: a.q, row: offset_row(a) as i32 }
}

/// The `r` component of an offset coordinate (mathematical value).
pub open spec fn axial_r(o: Offset) -> int {
    o.row - floor_half(o.col as int)
}

pub open spec fn offset_to_axial(o: Offset) -> Axial {
    Axial { q: o.col, r: axial_r(o) as i32 }
}

/// Axial step `(dq, dr)` of a direction.
pub open spec fn delta_q(d: Direction) -> int {
    match d {
        Direction::North => 0,
        Direction::NorthEast => 1,
        Direction::SouthEast => 1,
        Direction::South => 0,
        Direction::SouthWest => -1,
        Direction::NorthWest => -1,
    }
}

pub open spec fn delta_r(d: Direction) -> int {
    match d {
        Direction::North => -1,
        Direction::NorthEast => -1,
        Direction::SouthEast => 0,
        Direction::South => 1,
        Direction::SouthWest => 1,
        Direction::NorthWest => 0,
    }
}

/// The opposite direction (180° turn).
pub open spec fn opposite_of(d: Direction) -> Direction {
    match d {
        Direction::North => Direction::South,
        Direction::NorthEast => Direction::SouthWest,
        Direction::SouthEast => Direction::NorthWest,
        Direction::South => Direction::North,
        Direction::SouthWest => Direction::NorthEast,
        Direction::NorthWest => Direction::SouthEast,
    }
}

/// Position of a direction in the clockwise order starting at North.
pub open spec fn dir_index(d: Direction) -> int {
    match d {
        Direction::North => 0,
        Direction::NorthEast => 1,
        Direction::SouthEast => 2,
        Direction::South => 3,
        Direction::SouthWest => 4,
        Direction::NorthWest => 5,
    }
}

/// The direction at a position of the clockwise order (taken modulo 6).
pub open spec fn dir_at(i: int) -> Direction {
    let k = i % 6;
    if k == 0 {
        Direction::North
    } else if k == 1 {
        Direction::NorthEast
    } else if k == 2 {
        Direction::SouthEast
    } else if k == 3 {
        Direction::South
    } else if k == 4 {
        Direction::SouthWest
    } else {
        Direction::NorthWest
    }
}

/// The six directions in clockwise order starting at North.
pub open spec fn all_directions() -> Seq<Direction> {
    seq![
        Direction::North,
        Direction::NorthEast,
        Direction::SouthEast,
        Direction::South,
        Direction::SouthWest,
        Direction::NorthWest,
    ]
}

/// Whether stepping from `a` in direction `d` stays inside `i32`.
pub open spec fn can_step(a: Axial, d: Direction) -> bool {
    fits_i32(a.q + delta_q(d)) && fits_i32(a.r + delta_r(d))
}

pub open spec fn step_axial(a: Axial, d: Direction) -> Axial {
    Axial { q: (a.q + delta_q(d)) as i32, r: (a.r + delta_r(d)) as i32 }
}

/// Hex distance on the unbounded grid (mathematical value).
pub open spec fn hex_distance(a: Axial, b: Axial) -> int {
    let dq = a.q - b.q;
    let dr = a.r - b.r;
    (abs(dq) + abs(dr) + abs(dq + dr)) / 2
}

/// The distance computation of [`Axial::distance`] stays within its integer types.
pub open spec fn distance_computable(a: Axial, b: Axial) -> bool {
    let dq = a.q - b.q;
    let dr = a.r - b.r;
    &&& fits_i32(dq)
    &&& fits_i32(dr)
    &&& fits_i32(dq + dr)
    &&& abs(dq) + abs(dr) + abs(dq + dr) <= u32::MAX
}

/// `floor(x / 2)` on machine integers, without overflow for any input.
fn half_floor(x: i32) -> (r: i32)
    ensures
        r as int == floor_half(x as int),
{
    if x >= 0 {
        x / 2
    } else {
        let m = -(x + 1);
        -1 - m / 2
    }
}

impl Axial {
    pub fn new(q: i32, r: i32) -> (a: Axial)
        ensures
            a == (Axial { q, r }),
    {
        Axial { q, r }
    }

    /// Convert to offset coordinates (odd-q vertical layout).
    pub fn to_offset(self) -> (o: Offset)
        requires
            fits_i32(offset_row(self)),
        ensures
            o == axial_to_offset(self),
            o.col as int == self.q as int,
            o.row as int == offset_row(self),
    {
        let col = self.q;
        let row = self.r + half_floor(self.q);
        Offset { col, row }
    }

    /// The neighboring hex in the given direction (unbounded grid).
    pub fn neighbor(self, dir: Direction) -> (n: Axial)
        requires
            can_step(self, dir),
        ensures
            n == step_axial(self, dir),
            n.q as int == self.q + delta_q(dir),
            n.r as int == self.r + delta_r(dir),
    {
        let (dq, dr) = dir.axial_delta();
        Axial::new(self.q + dq, self.r + dr)
    }

    /// Hex distance on the unbounded grid.
    pub fn distance(self, other: Axial) -> (d: u32)
        requires
            distance_computable(self, other),
        ensures
            d as int == hex_distance(self, other),
    {
        let dq = self.q - other.q;
        let dr = self.r - other.r;
        let s = dq + dr;
        let adq: u32 = if dq < 0 { (-(dq as i64)) as u32 } else { dq as u32 };
        let adr: u32 = if dr < 0 { (-(dr as i64)) as u32 } else { dr as u32 };
        let ads: u32 = if s < 0 { (-(s as i64)) as u32 } else { s as u32 };
        (adq + adr + ads) / 2
    }
}

impl Offset {
    pub fn new(col: i32, row: i32) -> (o: Offset)
        ensures
            o == (Offset { col, row }),
    {
        Offset { col, row }
    }

    /// Convert to axial coordinates (odd-q vertical layout).
    pub fn to_axial(self) -> (a: Axial)
        requires
            fits_i32(axial_r(self)),
        ensures
            a == offset_to_axial(self),
            a.q as int == self.col as int,
            a.r as int == axial_r(self),
    {
        let q = self.col;
        let r = self.row - half_floor(self.col);
        Axial { q, r }
    }
}

impl Direction {
    /// The six directions in clockwise order starting at North.
    pub fn all() -> (dirs: [Direction; 6])
        ensures
            dirs@ == all_directions(),
    {
        let dirs = [
            Direction::North,
            Direction::NorthEast,
            Direction::SouthEast,
            Direction::South,
            Direction::SouthWest,
            Direction::NorthWest,
        ];
        assert(dirs@ =~= all_directions());
        dirs
    }

    /// The opposite direction (180° turn, forbidden while moving).
    pub fn opposite(self) -> (o: Direction)
        ensures
            o == opposite_of(self),
    {
        match self {
            Direction::North => Direction::South,
            Direction::NorthEast => Direction::SouthWest,
            Direction::SouthEast => Direction::NorthWest,
            Direction::South => Direction::North,
            Direction::SouthWest => Direction::NorthEast,
            Direction::NorthWest => Direction::SouthEast,
        }
    }

    /// Axial coordinate delta `(dq, dr)` for one step in this direction.
    /// Flat-top layout: `q` grows east, `r` grows south.
    pub fn axial_delta(self) -> (d: (i32, i32))
        ensures
            d.0 as int == delta_q(self),
            d.1 as int == delta_r(self),
    {
        match self {
            Direction::North => (0, -1),
            Direction::NorthEast => (1, -1),
            Direction::SouthEast => (1, 0),
            Direction::South => (0, 1),
            Direction::SouthWest => (-1, 1),
            Direction::NorthWest => (-1, 0),
        }
    }

    /// Position of this direction in the clockwise order (North = 0).
    pub fn index(self) -> (i: usize)
        ensures
            i as int == dir_index(self),
    {
        match self {
            Direction::North => 0,
            Direction::NorthEast => 1,
            Direction::SouthEast => 2,
            Direction::South => 3,
            Direction::SouthWest => 4,
            Direction::NorthWest => 5,
        }
    }

    /// This direction rotated clockwise by `steps` × 60°.
    pub fn rotated_cw(self, steps: u8) -> (d: Direction)
        ensures
            d == dir_at(dir_index(self) + steps),
            dir_index(d) == (dir_index(self) + steps) % 6,
    {
        let all = Direction::all();
        let idx = self.index();
        let k = (idx + steps as usize) % 6;
        let d = all[k];
        proof {
            lemma_dir_at_index(dir_index(self) + steps);
        }
        d
    }
}

/// `dir_at` picks the entry of the clockwise order at the reduced position.
pub proof fn lemma_dir_at_index(i: int)
    requires
        i >= 0,
    ensures
        dir_at(i) == all_directions()[i % 6],
        dir_index(dir_at(i)) == i % 6,
{
}

// ------------------------------------------------------------------------
// Laws of the coordinate system.
// ------------------------------------------------------------------------

/// Converting axial → offset → axial gives the original coordinate back.
pub proof fn lemma_axial_offset_roundtrip(a: Axial)
    requires
        fits_i32(offset_row(a)),
    ensures
        fits_i32(axial_r(axial_to_offset(a))),
        offset_to_axial(axial_to_offset(a)) == a,
{
}

/// Converting offset → axial → offset gives the original coordinate back.
pub proof fn lemma_offset_axial_roundtrip(o: Offset)
    requires
        fits_i32(axial_r(o)),
    ensures
        fits_i32(offset_row(offset_to_axial(o))),
        axial_to_offset(offset_to_axial(o)) == o,
{
}

/// Stepping in a direction and then in the opposite one returns to the start.
pub proof fn lemma_neighbor_opposite_cancel(a: Axial, d: Direction)
    requires
        can_step(a, d),
    ensures
        can_step(step_axial(a, d), opposite_of(d)),
        step_axial(step_axial(a, d), opposite_of(d)) == a,
{
}

/// Every neighbor lies at hex distance one; a cell lies at distance zero from itself.
pub proof fn lemma_neighbor_distance_one(a: Axial, d: Direction)
    requires
        can_step(a, d),
    ensures
        hex_distance(a, step_axial(a, d)) == 1,
        hex_distance(a, a) == 0,
{
}

/// Hex distance is zero exactly between equal coordinates.
pub proof fn lemma_distance_zero_iff_equal(a: Axial, b: Axial)
    ensures
        hex_distance(a, b) == 0 <==> a == b,
        hex_distance(a, b) >= 0,
{
}

/// The opposite of a direction differs from it, and taking it twice is the identity.
pub proof fn lemma_opposite_involution(d: Direction)
    ensures
        opposite_of(d) != d,
        opposite_of(opposite_of(d)) == d,
        dir_index(opposite_of(d)) == (dir_index(d) + 3) % 6,
{
}

/// Hex distance is symmetric.
pub proof fn lemma_distance_symmetric(a: Axial, b: Axial)
    ensures
        hex_distance(a, b) == hex_distance(b, a),
{
}

/// In offset coordinates a North step decreases the row by exactly one,
/// regardless of column parity.
pub proof fn lemma_north_decreases_row(o: Offset)
    requires
        fits_i32(axial_r(o)),
        can_step(offset_to_axial(o), Direction::North),
        o.row > i32::MIN,
    ensures
        fits_i32(offset_row(step_axial(offset_to_axial(o), Direction::North))),
        axial_to_offset(step_axial(offset_to_axial(o), Direction::North)) == (Offset {
            col: o.col,
            row: (o.row - 1) as i32,
        }),
{
}

/// Rotating six times is a full turn; rotating three times gives the opposite direction.
pub proof fn lemma_rotation_cycles(d: Direction)
    ensures
        dir_at(dir_index(d) + 6) == d,
        dir_at(dir_index(d) + 3) == opposite_of(d),
        dir_at(dir_index(d) + 0) == d,
{
}

} // verus!

//! Grid coordinates and the clamped unit move.

use vstd::prelude::*;
use crate::moves::Move;

verus! {

/// Side length of every grid.
pub const SIZE: i32 = 5;

/// A coordinate pair. Cells of a grid have both coordinates in `0..SIZE`.
#[derive(Debug, Clone, Copy, PartialEq, Eq, Hash, Structural)]
pub struct Pos {
    pub x: i32,
    pub y: i32,
}

/// `v` restricted to the valid coordinate range `0..=SIZE - 1`.
pub open spec fn clamp(v: int) -> int {
    if v < 0 {
        0
    } else if v > SIZE - 1 {
        SIZE - 1
    } else {
        v
    }
}

impl Pos {
    /// Both coordinates lie on the grid.
    pub open spec fn in_bounds(self) -> bool {
        0 <= self.x < SIZE && 0 <= self.y < SIZE
    }

    /// The cell one step from `self` in the direction of `m`, with each
    /// coordinate clamped to the grid: an edge is a soft stop.
    pub open spec fn moved(self, m: Move) -> Pos {
        Pos { x: clamp(self.x + m.dir().0) as i32, y: clamp(self.y + m.dir().1) as i32 }
    }

    /// Returns the clamped neighbour of `self` in the direction of `m`.
    /// The result lies on the grid whatever `self` is.
    pub fn move_(&self, m: Move) -> (r: Pos)
        ensures
            r == self.moved(m),
            r.in_bounds(),
    {
        let (dx, dy) = m.to_dir();
        Pos { x: clamp_sum(self.x, dx), y: clamp_sum(self.y, dy) }
    }

    /// Returns the coordinates as an `(x, y)` pair.
    pub fn to_tuple(self) -> (t: (i32, i32))
        ensures
            t == (self.x, self.y),
    {
        (self.x, self.y)
    }
}

/// Tells whether both coordinates of `p` lie on the grid.
pub fn on_grid(p: Pos) -> (b: bool)
    ensures
        b == p.in_bounds(),
{
    0 <= p.x && p.x < SIZE && 0 <= p.y && p.y < SIZE
}

/// Returns `v + d` clamped to the grid, computed without overflow.
fn clamp_sum(v: i32, d: i32) -> (r: i32)
    requires
        -1 <= d <= 1,
    ensures
        r == clamp(v + d),
        0 <= r < SIZE,
{
    let sum: i64 = v as i64 + d as i64;
    if sum < 0 {
        0
    } else if sum > (SIZE - 1) as i64 {
        SIZE - 1
    } else {
        sum as i32
    }
}

} // verus!

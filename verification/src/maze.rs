//! One walled grid with the start and target of its token, and the rule by
//! which the token reacts to a command.

use vstd::prelude::*;
use crate::error::SolveError;
use crate::grid::Grid;
use crate::moves::Move;
use crate::pos::{on_grid, Pos, SIZE};

verus! {

/// A `SIZE` by `SIZE` wall mask together with the start and the target cell
/// of the token that lives on it.
#[derive(Debug)]
pub struct Maze {
    grid: Grid<bool>,
    start: Pos,
    end: Pos,
}

impl Maze {
    /// The wall mask has the fixed dimensions and both marked cells lie on it.
    pub closed spec fn wf(&self) -> bool {
        &&& self.grid.wf()
        &&& self.grid.width() == SIZE
        &&& self.grid.height() == SIZE
        &&& self.start.in_bounds()
        &&& self.end.in_bounds()
    }

    /// The cell on which the token begins.
    pub closed spec fn spec_start(&self) -> Pos {
        self.start
    }

    /// The cell the token has to reach.
    pub closed spec fn spec_end(&self) -> Pos {
        self.end
    }

    /// `at` is a cell of the grid and holds a wall.
    pub closed spec fn wall(&self, at: Pos) -> bool {
        at.in_bounds() && self.grid.at((at.x, at.y))
    }

    /// Where the token stands after command `m` when it stood on `pos`: on
    /// the clamped neighbour, unless that cell is a wall, in which case the
    /// token does not move at all.
    pub open spec fn stepped(&self, pos: Pos, m: Move) -> Pos {
        if self.wall(pos.moved(m)) {
            pos
        } else {
            pos.moved(m)
        }
    }

    /// Start and target of a well-formed maze lie on the grid.
    pub proof fn lemma_wf_marks(self)
        requires
            self.wf(),
        ensures
            self.start().in_bounds(),
            self.end().in_bounds(),
    {
    }

    /// Builds a maze with walls exactly on the cells listed in `walls`.
    /// The puzzle is rejected when any coordinate lies outside the grid.
    pub fn new(start: Pos, end: Pos, walls: &[Pos]) -> (r: Result<Maze, SolveError>)
        ensures
            r is Ok <==> start.in_bounds() && end.in_bounds() && forall|i: int|
                0 <= i < walls@.len() ==> (#[trigger] walls@[i]).in_bounds(),
            match r {
                Ok(maze) => {
                    &&& maze.wf()
                    &&& maze.start() == start
                    &&& maze.end() == end
                    &&& forall|p: Pos| maze.wall(p) <==> walls@.contains(p)
                },
                Err(e) => e == SolveError::InvalidInput,
            },
    {
        if !on_grid(start) || !on_grid(end) {
            return Err(SolveError::InvalidInput);
        }
        let mut grid: Grid<bool> = Grid::new(SIZE as usize, SIZE as usize, false);
        let mut i: usize = 0;
        while i < walls.len()
            invariant
                i <= walls@.len(),
                grid.wf(),
                grid.width() == SIZE,
                grid.height() == SIZE,
                forall|j: int| 0 <= j < i ==> (#[trigger] walls@[j]).in_bounds(),
                forall|p: Pos|
                    p.in_bounds() ==> (#[trigger] grid.at((p.x, p.y)) <==> exists|j: int|
                        0 <= j < i && walls@[j] == p),
            decreases walls@.len() - i,
        {
            let w = walls[i];
            if !on_grid(w) {
                return Err(SolveError::InvalidInput);
            }
            grid.set(w.to_tuple(), true);
            i += 1;
        }
        let maze = Maze { grid, start, end };
        Ok(maze)
    }

    /// Returns the cell on which the token begins.
    #[verifier::when_used_as_spec(spec_start)]
    pub fn start(&self) -> (p: Pos)
        ensures
            p == self.start(),
    {
        self.start
    }

    /// Returns the cell the token has to reach.
    #[verifier::when_used_as_spec(spec_end)]
    pub fn end(&self) -> (p: Pos)
        ensures
            p == self.end(),
    {
        self.end
    }

    /// Tells whether the cell `at` holds a wall; cells off the grid hold none.
    pub fn is_wall(&self, at: Pos) -> (b: bool)
        requires
            self.wf(),
        ensures
            b == self.wall(at),
    {
        on_grid(at) && self.grid.get(at.to_tuple())
    }

    /// Moves the token one command further: returns where a token on `pos`
    /// stands after `m`. The result lies on the grid whenever `pos` does, and
    /// also whenever the token moves at all.
    pub fn step(&self, pos: Pos, m: Move) -> (r: Pos)
        requires
            self.wf(),
        ensures
            r == self.stepped(pos, m),
            r.in_bounds() <==> pos.in_bounds() || !self.wall(pos.moved(m)),
    {
        let candidate = pos.move_(m);
        if self.grid.get(candidate.to_tuple()) {
            pos
        } else {
            candidate
        }
    }
}

} // verus!

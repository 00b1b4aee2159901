//! A configuration together with the commands that led to it.

use vstd::prelude::*;
use crate::maze::Maze;
use crate::moves::Move;
use crate::pos::Pos;
use crate::rules::{all_wf, is_win, joint_step, starts};

verus! {

/// The tokens' positions, one per maze and in the order of the mazes, and
/// the commands applied so far to get there.
#[derive(Debug, PartialEq, Eq)]
pub struct State {
    pub positions: Vec<Pos>,
    pub moves: Vec<Move>,
}

/// What a [`State`] holds, as mathematical sequences.
pub struct StateView {
    pub positions: Seq<Pos>,
    pub moves: Seq<Move>,
}

impl View for State {
    type V = StateView;

    open spec fn view(&self) -> StateView {
        StateView { positions: self.positions@, moves: self.moves@ }
    }
}

/// Returns a vector with the same elements as `v`.
pub fn copied<T: Copy>(v: &Vec<T>) -> (r: Vec<T>)
    ensures
        r@ == v@,
{
    let mut r: Vec<T> = Vec::new();
    let mut i: usize = 0;
    while i < v.len()
        invariant
            i <= v.len(),
            r@ == v@.take(i as int),
        decreases v.len() - i,
    {
        r.push(v[i]);
        i += 1;
    }
    r
}

/// Tells whether two configurations hold the same positions in the same
/// order.
pub fn same_positions(a: &Vec<Pos>, b: &Vec<Pos>) -> (same: bool)
    ensures
        same == (a@ == b@),
{
    if a.len() != b.len() {
        return false;
    }
    let mut i: usize = 0;
    while i < a.len()
        invariant
            i <= a.len(),
            a.len() == b.len(),
            forall|j: int| 0 <= j < i ==> a@[j] == b@[j],
        decreases a.len() - i,
    {
        if a[i] != b[i] {
            return false;
        }
        i += 1;
    }
    proof {
        assert(a@ =~= b@);
    }
    true
}

impl Clone for State {
    /// Returns a state with the same positions and the same history.
    fn clone(&self) -> (s: State)
        ensures
            s@ == self@,
    {
        State { positions: copied(&self.positions), moves: copied(&self.moves) }
    }
}

impl State {
    /// The state before any command: every token on its start cell.
    pub fn initial(mazes: &[Maze]) -> (s: State)
        ensures
            s@.positions == starts(mazes@),
            s@.moves == Seq::<Move>::empty(),
    {
        let mut positions: Vec<Pos> = Vec::new();
        let mut i: usize = 0;
        while i < mazes.len()
            invariant
                i <= mazes@.len(),
                positions@.len() == i,
                forall|j: int| 0 <= j < i ==> positions@[j] == (#[trigger] mazes@[j]).start(),
            decreases mazes@.len() - i,
        {
            positions.push(mazes[i].start());
            i += 1;
        }
        State { positions, moves: Vec::new() }
    }

    /// The state after command `m`: every token has taken the command on its
    /// own maze, and `m` is appended to the history.
    pub fn apply(&self, mazes: &[Maze], m: Move) -> (next: State)
        requires
            all_wf(mazes@),
            self@.positions.len() == mazes@.len(),
        ensures
            next@.positions == joint_step(mazes@, self@.positions, m),
            next@.moves == self@.moves.push(m),
    {
        let mut positions: Vec<Pos> = Vec::new();
        let mut i: usize = 0;
        while i < self.positions.len()
            invariant
                all_wf(mazes@),
                self.positions@.len() == mazes@.len(),
                i <= self.positions@.len(),
                positions@.len() == i,
                forall|j: int|
                    0 <= j < i ==> positions@[j] == (#[trigger] mazes@[j]).stepped(
                        self.positions@[j],
                        m,
                    ),
            decreases self.positions@.len() - i,
        {
            positions.push(mazes[i].step(self.positions[i], m));
            i += 1;
        }
        let mut moves = copied(&self.moves);
        moves.push(m);
        State { positions, moves }
    }

    /// Tells whether `other` is the same configuration: the positions are
    /// compared, the histories are not.
    pub fn same_config(&self, other: &State) -> (same: bool)
        ensures
            same == (self@.positions == other@.positions),
    {
        same_positions(&self.positions, &other.positions)
    }

    /// Tells whether every token stands on the target of its maze.
    pub fn is_win(&self, mazes: &[Maze]) -> (won: bool)
        ensures
            won == is_win(mazes@, self@.positions),
    {
        if self.positions.len() != mazes.len() {
            return false;
        }
        let mut i: usize = 0;
        while i < mazes.len()
            invariant
                i <= mazes@.len(),
                self.positions@.len() == mazes@.len(),
                forall|j: int| 0 <= j < i ==> self.positions@[j] == (#[trigger] mazes@[j]).end(),
            decreases mazes@.len() - i,
        {
            if self.positions[i] != mazes[i].end() {
                return false;
            }
            i += 1;
        }
        true
    }
}

} // verus!

//! The solver: the shortest command sequence that wins a puzzle.

use vstd::prelude::*;
use crate::error::SolveError;
use crate::maze::Maze;
use crate::moves::Move;
use crate::order::comes_before;
use crate::rules::{all_wf, is_answer, solves, unsolvable};
use crate::search::{Progress, Search};
use crate::space::state_space;
use crate::state::State;

verus! {

/// The empty command sequence is the answer to a puzzle whose start
/// configuration already wins.
pub proof fn lemma_empty_answer(mazes: Seq<Maze>)
    requires
        solves(mazes, Seq::<Move>::empty()),
    ensures
        is_answer(mazes, Seq::<Move>::empty()),
{
    let none = Seq::<Move>::empty();
    assert forall|other: Seq<Move>| #[trigger] solves(mazes, other) && other != none implies
        comes_before(none, other) by {
        if other.len() == 0 {
            assert(other =~= none);
        }
    }
}

/// Finds the answer to the puzzle: the shortest command sequence that puts
/// every token on its target at the same time and, among the shortest, the
/// one that comes first in the order of the commands. A puzzle that no
/// command sequence solves is reported as unsatisfiable.
///
/// A puzzle without mazes, and one whose tokens all start on their targets,
/// is solved by the empty sequence.
pub fn solve(mazes: &[Maze]) -> (r: Result<Vec<Move>, SolveError>)
    requires
        all_wf(mazes@),
    ensures
        r is Err <==> unsolvable(mazes@),
        match r {
            Ok(cmds) => is_answer(mazes@, cmds@),
            Err(e) => e == SolveError::Unsatisfiable,
        },
{
    if mazes.len() == 0 {
        proof {
            lemma_empty_answer(mazes@);
        }
        return Ok(Vec::new());
    }
    let initial = State::initial(mazes);
    if initial.is_win(mazes) {
        proof {
            lemma_empty_answer(mazes@);
        }
        return Ok(initial.moves);
    }
    let mut search = Search::new(mazes);
    loop
        invariant
            search.wf(),
            search.mazes() == mazes@,
        decreases state_space(mazes@.len()) - search.expanded(),
    {
        proof {
            search.lemma_within_space();
        }
        match search.expand() {
            Progress::Found(cmds) => {
                return Ok(cmds);
            },
            Progress::Exhausted => {
                return Err(SolveError::Unsatisfiable);
            },
            Progress::Expanded => {},
        }
    }
}

} // verus!

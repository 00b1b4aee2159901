//! The joint behaviour of several mazes under one stream of commands.
//!
//! A configuration is the list of the tokens' positions, one per maze, in the
//! order of the mazes. Everything here is ghost code: it says what a
//! command sequence does and when it counts as a solution.

use vstd::prelude::*;
use crate::maze::Maze;
use crate::moves::Move;
use crate::order::comes_before;
use crate::pos::Pos;

verus! {

/// Every maze of the puzzle is well formed.
pub open spec fn all_wf(mazes: Seq<Maze>) -> bool {
    forall|i: int| 0 <= i < mazes.len() ==> (#[trigger] mazes[i]).wf()
}

/// The configuration in which every token stands on its start cell.
pub open spec fn starts(mazes: Seq<Maze>) -> Seq<Pos> {
    Seq::new(mazes.len(), |i: int| mazes[i].start())
}

/// The configuration in which every token stands on its target cell.
pub open spec fn targets(mazes: Seq<Maze>) -> Seq<Pos> {
    Seq::new(mazes.len(), |i: int| mazes[i].end())
}

/// Every position of the configuration lies on the grid, and there is one
/// position per maze.
pub open spec fn on_board(mazes: Seq<Maze>, config: Seq<Pos>) -> bool {
    &&& config.len() == mazes.len()
    &&& forall|i: int| 0 <= i < config.len() ==> (#[trigger] config[i]).in_bounds()
}

/// The configuration after command `m`: every token reacts to the same
/// command on its own maze, unaware of the others.
pub open spec fn joint_step(mazes: Seq<Maze>, config: Seq<Pos>, m: Move) -> Seq<Pos> {
    Seq::new(config.len(), |i: int| mazes[i].stepped(config[i], m))
}

/// The configuration reached from `from` by the commands `cmds`, applied in
/// order.
pub open spec fn replay(mazes: Seq<Maze>, from: Seq<Pos>, cmds: Seq<Move>) -> Seq<Pos>
    decreases cmds.len(),
{
    if cmds.len() == 0 {
        from
    } else {
        joint_step(mazes, replay(mazes, from, cmds.drop_last()), cmds.last())
    }
}

/// Every token stands on the target of its maze.
pub open spec fn is_win(mazes: Seq<Maze>, config: Seq<Pos>) -> bool {
    &&& config.len() == mazes.len()
    &&& forall|i: int| 0 <= i < mazes.len() ==> config[i] == (#[trigger] mazes[i]).end()
}

/// The commands `cmds`, applied from the start configuration, leave every
/// token on its target at the same time.
pub open spec fn solves(mazes: Seq<Maze>, cmds: Seq<Move>) -> bool {
    is_win(mazes, replay(mazes, starts(mazes), cmds))
}

/// `cmds` is the answer to the puzzle: it solves it, and it is preferred to
/// every other command sequence that solves it. So it is a shortest
/// solution, and among the shortest the first in the order of the commands.
pub open spec fn is_answer(mazes: Seq<Maze>, cmds: Seq<Move>) -> bool {
    &&& solves(mazes, cmds)
    &&& forall|other: Seq<Move>| #[trigger]
        solves(mazes, other) && other != cmds ==> comes_before(cmds, other)
}

/// No command sequence at all solves the puzzle.
pub open spec fn unsolvable(mazes: Seq<Maze>) -> bool {
    forall|cmds: Seq<Move>| !#[trigger] solves(mazes, cmds)
}

/// A step from a configuration on the grid ends on the grid.
pub proof fn lemma_joint_step_on_board(mazes: Seq<Maze>, config: Seq<Pos>, m: Move)
    requires
        on_board(mazes, config),
    ensures
        on_board(mazes, joint_step(mazes, config, m)),
{
}

/// Replaying one more command is one more joint step.
pub proof fn lemma_replay_push(mazes: Seq<Maze>, from: Seq<Pos>, cmds: Seq<Move>, m: Move)
    ensures
        replay(mazes, from, cmds.push(m)) == joint_step(mazes, replay(mazes, from, cmds), m),
{
    assert(cmds.push(m).drop_last() =~= cmds);
}

/// Replaying from a configuration on the grid ends on the grid.
pub proof fn lemma_replay_on_board(mazes: Seq<Maze>, from: Seq<Pos>, cmds: Seq<Move>)
    requires
        on_board(mazes, from),
    ensures
        on_board(mazes, replay(mazes, from, cmds)),
    decreases cmds.len(),
{
    if cmds.len() > 0 {
        lemma_replay_on_board(mazes, from, cmds.drop_last());
        lemma_joint_step_on_board(mazes, replay(mazes, from, cmds.drop_last()), cmds.last());
    }
}

/// The start configuration of well-formed mazes lies on the grid.
pub proof fn lemma_starts_on_board(mazes: Seq<Maze>)
    requires
        all_wf(mazes),
    ensures
        on_board(mazes, starts(mazes)),
{
    assert forall|i: int| 0 <= i < starts(mazes).len() implies (#[trigger] starts(
        mazes,
    )[i]).in_bounds() by {
        mazes[i].lemma_wf_marks();
    }
}

/// Replaying `first` and then `rest` is replaying their concatenation.
pub proof fn lemma_replay_concat(
    mazes: Seq<Maze>,
    from: Seq<Pos>,
    first: Seq<Move>,
    rest: Seq<Move>,
)
    ensures
        replay(mazes, from, first + rest) == replay(mazes, replay(mazes, from, first), rest),
    decreases rest.len(),
{
    if rest.len() > 0 {
        lemma_replay_concat(mazes, from, first, rest.drop_last());
        assert((first + rest).drop_last() =~= first + rest.drop_last());
    }
}

} // verus!

//! What holds of every answer.

use vstd::prelude::*;
use crate::maze::Maze;
use crate::moves::Move;
use crate::order::{lemma_order_total, lex_less};
use crate::pos::Pos;
use crate::rules::{
    all_wf,
    is_answer,
    is_win,
    lemma_replay_concat,
    lemma_replay_on_board,
    lemma_starts_on_board,
    on_board,
    replay,
    solves,
    starts,
    unsolvable,
};

verus! {

/// The number of unit steps between two cells when walls are ignored.
pub open spec fn manhattan(a: Pos, b: Pos) -> int {
    (if a.x <= b.x {
        b.x - a.x
    } else {
        a.x - b.x
    }) + (if a.y <= b.y {
        b.y - a.y
    } else {
        a.y - b.y
    })
}

/// The maze has no wall at all.
pub open spec fn open_maze(maze: Maze) -> bool {
    forall|p: Pos| !#[trigger] maze.wall(p)
}

/// A command that brings a token on `p` closer to `t` on an open grid.
pub open spec fn towards(p: Pos, t: Pos) -> Move {
    if p.x < t.x {
        Move::Right
    } else if p.x > t.x {
        Move::Left
    } else if p.y < t.y {
        Move::Down
    } else {
        Move::Up
    }
}

/// A token that takes a command on its own lands on the grid, wherever it
/// stood before.
pub proof fn lemma_moved_in_bounds(p: Pos, m: Move)
    ensures
        p.moved(m).in_bounds(),
{
}

/// A token that takes a command in a maze stands on the grid afterwards,
/// unless it stood off the grid and a wall kept it there.
pub proof fn lemma_stepped_in_bounds(maze: Maze, p: Pos, m: Move)
    ensures
        maze.stepped(p, m).in_bounds() <==> p.in_bounds() || !maze.wall(p.moved(m)),
{
}

/// No command takes a token onto a wall: the token moves to a cell without
/// a wall or does not move at all.
pub proof fn lemma_never_onto_wall(maze: Maze, p: Pos, m: Move)
    ensures
        maze.stepped(p, m) == p || !maze.wall(maze.stepped(p, m)),
{
}

/// A puzzle has at most one answer: whoever solves the same puzzle again
/// gets the same commands, not merely equally many.
pub proof fn lemma_answer_unique(mazes: Seq<Maze>, a: Seq<Move>, b: Seq<Move>)
    requires
        is_answer(mazes, a),
        is_answer(mazes, b),
    ensures
        a == b,
{
    // Each of two different answers would be preferred to the other.
    lemma_order_total(a, b);
}

/// No solution is shorter than the answer.
pub proof fn lemma_answer_shortest(mazes: Seq<Maze>, answer: Seq<Move>, other: Seq<Move>)
    requires
        is_answer(mazes, answer),
        solves(mazes, other),
    ensures
        answer.len() <= other.len(),
{
}

/// Among the solutions as long as the answer, the answer has the earlier
/// command at the first place where two of them differ.
pub proof fn lemma_answer_first(mazes: Seq<Maze>, answer: Seq<Move>, other: Seq<Move>)
    requires
        is_answer(mazes, answer),
        solves(mazes, other),
        other.len() == answer.len(),
        other != answer,
    ensures
        lex_less(answer, other),
{
}

/// Replaying the answer from the start configuration wins at the last
/// command and at no command before it.
pub proof fn lemma_answer_replay(mazes: Seq<Maze>, answer: Seq<Move>, k: int)
    requires
        is_answer(mazes, answer),
        0 <= k <= answer.len(),
    ensures
        is_win(mazes, replay(mazes, starts(mazes), answer.take(k))) <==> k == answer.len(),
{
    if k == answer.len() {
        assert(answer.take(k) =~= answer);
    } else {
        // A part of the answer that won would be a shorter solution.
        assert(!solves(mazes, answer.take(k)));
    }
}

/// One command changes the distance of a token on the grid to any cell by
/// at most one.
pub proof fn lemma_step_distance(maze: Maze, p: Pos, t: Pos, m: Move)
    requires
        p.in_bounds(),
    ensures
        manhattan(maze.stepped(p, m), t) >= manhattan(p, t) - 1,
        manhattan(maze.stepped(p, m), t) <= manhattan(p, t) + 1,
{
}

/// Commands bring a token closer to a cell by at most one step each.
pub proof fn lemma_replay_distance(
    mazes: Seq<Maze>,
    from: Seq<Pos>,
    cmds: Seq<Move>,
    i: int,
    t: Pos,
)
    requires
        on_board(mazes, from),
        0 <= i < mazes.len(),
    ensures
        manhattan(replay(mazes, from, cmds)[i], t) >= manhattan(from[i], t) - cmds.len(),
    decreases cmds.len(),
{
    if cmds.len() > 0 {
        let front = cmds.drop_last();
        lemma_replay_distance(mazes, from, front, i, t);
        lemma_replay_on_board(mazes, from, front);
        lemma_step_distance(mazes[i], replay(mazes, from, front)[i], t, cmds.last());
    }
}

/// Every solution has at least as many commands as any of the tokens is
/// steps away from its target.
pub proof fn lemma_solution_length(mazes: Seq<Maze>, cmds: Seq<Move>, i: int)
    requires
        all_wf(mazes),
        solves(mazes, cmds),
        0 <= i < mazes.len(),
    ensures
        cmds.len() >= manhattan(mazes[i].start(), mazes[i].end()),
{
    lemma_starts_on_board(mazes);
    lemma_replay_distance(mazes, starts(mazes), cmds, i, mazes[i].end());
}

/// On an open grid the command towards a cell brings the token one step
/// closer to it.
pub proof fn lemma_open_step(maze: Maze, p: Pos, t: Pos)
    requires
        open_maze(maze),
        p.in_bounds(),
        t.in_bounds(),
        p != t,
    ensures
        maze.stepped(p, towards(p, t)).in_bounds(),
        manhattan(maze.stepped(p, towards(p, t)), t) == manhattan(p, t) - 1,
{
}

/// On an open grid there is a way from any cell to any other that takes as
/// many commands as the cells are steps apart.
pub proof fn lemma_open_path(maze: Maze, p: Pos, t: Pos) -> (cmds: Seq<Move>)
    requires
        open_maze(maze),
        p.in_bounds(),
        t.in_bounds(),
    ensures
        cmds.len() == manhattan(p, t),
        replay(seq![maze], seq![p], cmds) == seq![t],
    decreases manhattan(p, t),
{
    if p == t {
        Seq::empty()
    } else {
        let m = towards(p, t);
        let q = maze.stepped(p, m);
        lemma_open_step(maze, p, t);
        let rest = lemma_open_path(maze, q, t);
        let first = seq![m];
        assert(replay(seq![maze], seq![p], first) == seq![q]) by {
            assert(replay(seq![maze], seq![p], first.drop_last()) == seq![p]);
        }
        lemma_replay_concat(seq![maze], seq![p], first, rest);
        first + rest
    }
}

/// A puzzle of one open maze can be solved.
pub proof fn lemma_open_maze_solvable(maze: Maze)
    requires
        maze.wf(),
        open_maze(maze),
    ensures
        !unsolvable(seq![maze]),
{
    maze.lemma_wf_marks();
    let cmds = lemma_open_path(maze, maze.start(), maze.end());
    assert(starts(seq![maze]) =~= seq![maze.start()]);
    assert(solves(seq![maze], cmds));
}

/// The answer to a puzzle of one open maze has exactly as many commands as
/// the start is steps away from the target.
pub proof fn lemma_open_maze_answer(maze: Maze, answer: Seq<Move>)
    requires
        maze.wf(),
        open_maze(maze),
        is_answer(seq![maze], answer),
    ensures
        answer.len() == manhattan(maze.start(), maze.end()),
{
    let mazes = seq![maze];
    maze.lemma_wf_marks();
    lemma_solution_length(mazes, answer, 0);
    let cmds = lemma_open_path(maze, maze.start(), maze.end());
    assert(starts(mazes) =~= seq![maze.start()]);
    lemma_answer_shortest(mazes, answer, cmds);
}

} // verus!

//! The trail of a breadth-first search: every state it has put on its
//! frontier, in the order in which they were found.
//!
//! The search expands the states of the trail from the front. While it
//! expands state `h` and has tried the first `k` commands on it, the trail
//! obeys the invariant [`sound`]. From that invariant follow the two facts
//! that make the search correct: a winning child is the answer to the
//! puzzle, and a trail with nothing left to expand has met every
//! configuration that can be reached.

use vstd::prelude::*;
use crate::maze::Maze;
use crate::moves::Move;
use crate::order::{comes_before, lemma_order_push, lemma_order_total, lemma_order_transitive, not_after};
use crate::pos::Pos;
use crate::rules::{
    all_wf,
    is_answer,
    is_win,
    joint_step,
    lemma_replay_on_board,
    lemma_replay_push,
    lemma_starts_on_board,
    on_board,
    replay,
    solves,
    starts,
    unsolvable,
};
use crate::space::{lemma_distinct_configs, state_space};
use crate::state::StateView;

verus! {

/// The state before any command.
pub open spec fn root(mazes: Seq<Maze>) -> StateView {
    StateView { positions: starts(mazes), moves: Seq::empty() }
}

/// The state that command `m` makes of `parent`.
pub open spec fn child(mazes: Seq<Maze>, parent: StateView, m: Move) -> StateView {
    StateView {
        positions: joint_step(mazes, parent.positions, m),
        moves: parent.moves.push(m),
    }
}

/// Some state of the trail has the configuration `config`.
pub open spec fn knows(trail: Seq<StateView>, config: Seq<Pos>) -> bool {
    exists|i: int| 0 <= i < trail.len() && (#[trigger] trail[i]).positions == config
}

/// The trail after command `m` was tried on `parent`: the child is appended
/// unless its configuration has been met before.
pub open spec fn discover(
    mazes: Seq<Maze>,
    trail: Seq<StateView>,
    parent: StateView,
    m: Move,
) -> Seq<StateView> {
    if knows(trail, child(mazes, parent, m).positions) {
        trail
    } else {
        trail.push(child(mazes, parent, m))
    }
}

/// The trail after the first `k` commands, in enumeration order, were tried
/// on `parent`.
pub open spec fn grown(
    mazes: Seq<Maze>,
    trail: Seq<StateView>,
    parent: StateView,
    k: int,
) -> Seq<StateView>
    decreases k,
{
    if k <= 0 {
        trail
    } else {
        discover(mazes, grown(mazes, trail, parent, k - 1), parent, Move::of_rank(k - 1))
    }
}

/// Trying commands only appends to the trail: what was on it stays where it
/// was, and each command appends at most one state.
pub proof fn lemma_grown_prefix(
    mazes: Seq<Maze>,
    trail: Seq<StateView>,
    parent: StateView,
    k: int,
)
    requires
        0 <= k,
    ensures
        trail.len() <= grown(mazes, trail, parent, k).len() <= trail.len() + k,
        forall|i: int|
            0 <= i < trail.len() ==> (#[trigger] grown(mazes, trail, parent, k)[i]) == trail[i],
    decreases k,
{
    if k > 0 {
        lemma_grown_prefix(mazes, trail, parent, k - 1);
    }
}

/// Command `m` has already been tried on state `p` when the search stands
/// at state `h` with `k` commands tried.
pub open spec fn tried(h: int, k: int, p: int, m: Move) -> bool {
    p < h || (p == h && m.rank() < k)
}

/// Some state of the trail has the configuration of `target` and a history
/// that is not less preferred than that of `target`.
pub open spec fn reached(trail: Seq<StateView>, target: StateView) -> bool {
    exists|j: int|
        0 <= j < trail.len() && (#[trigger] trail[j]).positions == target.positions && not_after(
            trail[j].moves,
            target.moves,
        )
}

/// State `i` of the trail is the child of an earlier state by a command
/// that has been tried.
pub open spec fn made(trail: Seq<StateView>, h: int, k: int, i: int) -> bool {
    exists|p: int, m: Move|
        0 <= p < trail.len() && #[trigger] tried(h, k, p, m) && trail[i].moves
            == trail[p].moves.push(m)
}

/// Every history leads to the configuration it is stored with.
pub open spec fn faithful(mazes: Seq<Maze>, trail: Seq<StateView>) -> bool {
    forall|i: int|
        0 <= i < trail.len() ==> replay(mazes, starts(mazes), (#[trigger] trail[i]).moves)
            == trail[i].positions
}

/// Later states have less preferred histories.
pub open spec fn ascending(trail: Seq<StateView>) -> bool {
    forall|i: int, j: int|
        0 <= i < j < trail.len() ==> comes_before(
            (#[trigger] trail[i]).moves,
            (#[trigger] trail[j]).moves,
        )
}

/// No state of the trail is a win.
pub open spec fn none_wins(mazes: Seq<Maze>, trail: Seq<StateView>) -> bool {
    forall|i: int| 0 <= i < trail.len() ==> !is_win(mazes, (#[trigger] trail[i]).positions)
}

/// No two states of the trail have the same configuration.
pub open spec fn distinct(trail: Seq<StateView>) -> bool {
    forall|i: int, j: int|
        0 <= i < j < trail.len() ==> (#[trigger] trail[i]).positions != (
        #[trigger] trail[j]).positions
}

/// The child of every tried command is on the trail, with a history that is
/// not less preferred than the child's own.
pub open spec fn closed_under(mazes: Seq<Maze>, trail: Seq<StateView>, h: int, k: int) -> bool {
    forall|p: int, m: Move|
        0 <= p < trail.len() && tried(h, k, p, m) ==> reached(
            trail,
            #[trigger] child(mazes, trail[p], m),
        )
}

/// Every state but the first was made by a tried command.
pub open spec fn derived(trail: Seq<StateView>, h: int, k: int) -> bool {
    forall|i: int| 1 <= i < trail.len() ==> #[trigger] made(trail, h, k, i)
}

/// The invariant of a search that stands at state `h` of the trail and has
/// tried the first `k` commands on it.
pub open spec fn sound(mazes: Seq<Maze>, trail: Seq<StateView>, h: int, k: int) -> bool {
    &&& all_wf(mazes)
    &&& trail.len() >= 1
    &&& trail[0] == root(mazes)
    &&& 0 <= h <= trail.len()
    &&& 0 <= k <= 4
    &&& h == trail.len() ==> k == 0
    &&& faithful(mazes, trail)
    &&& ascending(trail)
    &&& none_wins(mazes, trail)
    &&& distinct(trail)
    &&& closed_under(mazes, trail, h, k)
    &&& derived(trail, h, k)
}

/// A search may begin with the root alone, unless the root is a win.
pub proof fn lemma_sound_initial(mazes: Seq<Maze>)
    requires
        all_wf(mazes),
        !is_win(mazes, starts(mazes)),
    ensures
        sound(mazes, seq![root(mazes)], 0, 0),
{
}

/// Every history on the trail is preferred to the history of the child
/// that the search is about to make.
pub proof fn lemma_ceiling(mazes: Seq<Maze>, trail: Seq<StateView>, h: int, k: int, i: int)
    requires
        sound(mazes, trail, h, k),
        h < trail.len(),
        k < 4,
        0 <= i < trail.len(),
    ensures
        comes_before(trail[i].moves, child(mazes, trail[h], Move::of_rank(k)).moves),
{
    // The root has no commands at all. Every other state is the child of a
    // state at or before `h`, by a command that was tried before `k`.
    if i > 0 {
        assert(made(trail, h, k, i));
        let (p, m) = choose|p: int, m: Move|
            0 <= p < trail.len() && #[trigger] tried(h, k, p, m) && trail[i].moves
                == trail[p].moves.push(m);
        lemma_order_push(trail[p].moves, trail[h].moves, m, Move::of_rank(k));
    }
}

/// Every command sequence that is preferred to the history of the child the
/// search is about to make leads to a configuration on the trail, stored
/// with a history that is not less preferred.
pub proof fn lemma_covered(mazes: Seq<Maze>, trail: Seq<StateView>, h: int, k: int, w: Seq<Move>)
    requires
        sound(mazes, trail, h, k),
        h < trail.len(),
        k < 4,
        comes_before(w, child(mazes, trail[h], Move::of_rank(k)).moves),
    ensures
        reached(trail, StateView { positions: replay(mazes, starts(mazes), w), moves: w }),
    decreases w.len(),
{
    if w.len() == 0 {
        assert(w =~= trail[0].moves);
    } else {
        // `w` is `u` and one more command `m`. By induction some state `j`
        // stands where `u` leads, with commands not after `u`. Command `m`
        // has been tried on `j`, because `j` and `m` come before `h` and the
        // command at hand; so the child of `j` by `m` is on the trail, as
        // some state `t`, with commands not after those of `j` and `m`,
        // which in turn are not after `w`.
        let u = w.drop_last();
        let m = w.last();
        assert(w =~= u.push(m));
        lemma_covered(mazes, trail, h, k, u);
        let j = choose|j: int|
            0 <= j < trail.len() && (#[trigger] trail[j]).positions == replay(
                mazes,
                starts(mazes),
                u,
            ) && not_after(trail[j].moves, u);
        let via = child(mazes, trail[j], m);
        lemma_order_push(trail[j].moves, u, m, m);
        let t = choose|t: int|
            0 <= t < trail.len() && (#[trigger] trail[t]).positions == via.positions
                && not_after(trail[t].moves, via.moves);
        lemma_order_transitive(trail[t].moves, via.moves, w);
    }
}

/// A child that wins is the answer to the puzzle.
pub proof fn lemma_found(mazes: Seq<Maze>, trail: Seq<StateView>, h: int, k: int)
    requires
        sound(mazes, trail, h, k),
        h < trail.len(),
        k < 4,
        is_win(mazes, child(mazes, trail[h], Move::of_rank(k)).positions),
    ensures
        is_answer(mazes, child(mazes, trail[h], Move::of_rank(k)).moves),
{
    let found = child(mazes, trail[h], Move::of_rank(k));
    lemma_replay_push(mazes, starts(mazes), trail[h].moves, Move::of_rank(k));
    assert forall|other: Seq<Move>| #[trigger]
        solves(mazes, other) && other != found.moves implies comes_before(found.moves, other) by {
        lemma_order_total(found.moves, other);
        if comes_before(other, found.moves) {
            lemma_covered(mazes, trail, h, k, other);
        }
    }
}

/// After a child whose configuration was met before, the search may go on
/// to the next command.
pub proof fn lemma_sound_known(mazes: Seq<Maze>, trail: Seq<StateView>, h: int, k: int)
    requires
        sound(mazes, trail, h, k),
        h < trail.len(),
        k < 4,
        knows(trail, child(mazes, trail[h], Move::of_rank(k)).positions),
    ensures
        sound(mazes, trail, h, k + 1),
{
    let born = child(mazes, trail[h], Move::of_rank(k));
    assert(closed_under(mazes, trail, h, k + 1)) by {
        assert forall|p: int, m: Move| 0 <= p < trail.len() && tried(h, k + 1, p, m) implies reached(
            trail,
            #[trigger] child(mazes, trail[p], m),
        ) by {
            if !tried(h, k, p, m) {
                // The command at hand: its child was met before, and every
                // history on the trail comes before the child's.
                let j = choose|j: int|
                    0 <= j < trail.len() && (#[trigger] trail[j]).positions == born.positions;
                lemma_ceiling(mazes, trail, h, k, j);
            }
        }
    }
    assert(derived(trail, h, k + 1)) by {
        assert forall|i: int| 1 <= i < trail.len() implies #[trigger] made(trail, h, k + 1, i) by {
            assert(made(trail, h, k, i));
            let (p, m) = choose|p: int, m: Move|
                0 <= p < trail.len() && #[trigger] tried(h, k, p, m) && trail[i].moves
                    == trail[p].moves.push(m);
            assert(tried(h, k + 1, p, m));
        }
    }
}

/// After a child whose configuration is new and does not win, the search
/// may append the child and go on to the next command.
pub proof fn lemma_sound_fresh(mazes: Seq<Maze>, trail: Seq<StateView>, h: int, k: int)
    requires
        sound(mazes, trail, h, k),
        h < trail.len(),
        k < 4,
        !knows(trail, child(mazes, trail[h], Move::of_rank(k)).positions),
        !is_win(mazes, child(mazes, trail[h], Move::of_rank(k)).positions),
    ensures
        sound(mazes, trail.push(child(mazes, trail[h], Move::of_rank(k))), h, k + 1),
{
    let next = Move::of_rank(k);
    let born = child(mazes, trail[h], next);
    let longer = trail.push(born);
    let last = trail.len() as int;
    assert forall|i: int| 0 <= i < trail.len() implies longer[i] == trail[i] by {
    }
    assert(longer[last] == born);
    assert(faithful(mazes, longer)) by {
        lemma_replay_push(mazes, starts(mazes), trail[h].moves, next);
    }
    assert(ascending(longer)) by {
        assert forall|i: int, j: int| 0 <= i < j < longer.len() implies comes_before(
            (#[trigger] longer[i]).moves,
            (#[trigger] longer[j]).moves,
        ) by {
            if j == last {
                lemma_ceiling(mazes, trail, h, k, i);
            }
        }
    }
    assert(derived(longer, h, k + 1)) by {
        assert forall|i: int| 1 <= i < longer.len() implies #[trigger] made(longer, h, k + 1, i) by {
            if i == last {
                assert(tried(h, k + 1, h, next));
            } else {
                assert(made(trail, h, k, i));
                let (p, m) = choose|p: int, m: Move|
                    0 <= p < trail.len() && #[trigger] tried(h, k, p, m) && trail[i].moves
                        == trail[p].moves.push(m);
                assert(tried(h, k + 1, p, m));
            }
        }
    }
}

/// When all four commands have been tried on a state, the search may go on
/// to the next state.
pub proof fn lemma_sound_next(mazes: Seq<Maze>, trail: Seq<StateView>, h: int)
    requires
        sound(mazes, trail, h, 4),
    ensures
        sound(mazes, trail, h + 1, 0),
{
    assert(derived(trail, h + 1, 0)) by {
        assert forall|i: int| 1 <= i < trail.len() implies #[trigger] made(trail, h + 1, 0, i) by {
            assert(made(trail, h, 4, i));
            let (p, m) = choose|p: int, m: Move|
                0 <= p < trail.len() && #[trigger] tried(h, 4, p, m) && trail[i].moves
                    == trail[p].moves.push(m);
            assert(tried(h + 1, 0, p, m));
        }
    }
}

/// When nothing is left to expand, every command sequence leads to a
/// configuration on the trail.
pub proof fn lemma_all_known(mazes: Seq<Maze>, trail: Seq<StateView>, w: Seq<Move>)
    requires
        sound(mazes, trail, trail.len() as int, 0),
    ensures
        knows(trail, replay(mazes, starts(mazes), w)),
    decreases w.len(),
{
    if w.len() > 0 {
        // Some state stands where all of `w` but its last command leads;
        // that command has been tried on it, so its child is on the trail.
        let u = w.drop_last();
        lemma_all_known(mazes, trail, u);
        let j = choose|j: int|
            0 <= j < trail.len() && (#[trigger] trail[j]).positions == replay(
                mazes,
                starts(mazes),
                u,
            );
        assert(reached(trail, child(mazes, trail[j], w.last())));
    }
}

/// When nothing is left to expand, the puzzle has no solution.
pub proof fn lemma_exhausted(mazes: Seq<Maze>, trail: Seq<StateView>)
    requires
        sound(mazes, trail, trail.len() as int, 0),
    ensures
        unsolvable(mazes),
{
    assert forall|cmds: Seq<Move>| !#[trigger] solves(mazes, cmds) by {
        lemma_all_known(mazes, trail, cmds);
    }
}

/// Every configuration on the trail lies on the grid.
pub proof fn lemma_trail_on_board(mazes: Seq<Maze>, trail: Seq<StateView>, h: int, k: int, i: int)
    requires
        sound(mazes, trail, h, k),
        0 <= i < trail.len(),
    ensures
        on_board(mazes, trail[i].positions),
{
    lemma_starts_on_board(mazes);
    lemma_replay_on_board(mazes, starts(mazes), trail[i].moves);
}

/// The trail is no longer than the space of configurations is large.
pub proof fn lemma_trail_bound(mazes: Seq<Maze>, trail: Seq<StateView>, h: int, k: int)
    requires
        sound(mazes, trail, h, k),
    ensures
        trail.len() <= state_space(mazes.len()),
{
    let configs = Seq::new(trail.len(), |i: int| trail[i].positions);
    assert forall|i: int| 0 <= i < configs.len() implies on_board(mazes, #[trigger] configs[i]) by {
        lemma_trail_on_board(mazes, trail, h, k, i);
    }
    lemma_distinct_configs(mazes, configs);
}

} // verus!

//! The breadth-first search engine.
//!
//! A [`Search`] owns a first-in-first-out frontier of states and the set of
//! configurations met so far. Each call of [`Search::expand`] takes the
//! oldest state off the frontier and tries the four commands on it in their
//! fixed order.

use std::collections::VecDeque;
use vstd::prelude::*;
use crate::maze::Maze;
use crate::moves::Move;
use crate::order::comes_before;
use crate::pos::Pos;
use crate::rules::{
    all_wf,
    is_answer,
    is_win,
    joint_step,
    on_board,
    replay,
    starts,
    unsolvable,
};
use crate::space::state_space;
use crate::state::{copied, State, StateView};
use crate::trail::{
    child,
    grown,
    knows,
    lemma_exhausted,
    lemma_found,
    lemma_sound_fresh,
    lemma_sound_initial,
    lemma_sound_known,
    lemma_sound_next,
    lemma_trail_bound,
    lemma_trail_on_board,
    root,
    sound,
};
use crate::visited::Visited;

verus! {

/// A breadth-first search over the configurations of a puzzle.
pub struct Search<'a> {
    mazes: &'a [Maze],
    frontier: VecDeque<State>,
    visited: Visited,
    trail: Ghost<Seq<StateView>>,
    done: Ghost<int>,
}

/// What one expansion brought.
#[derive(Debug)]
pub enum Progress {
    /// A child won; these are its commands, the answer to the puzzle.
    Found(Vec<Move>),
    /// The frontier was empty: the puzzle has no solution.
    Exhausted,
    /// The oldest state was expanded and no child won.
    Expanded,
}

/// Command `m` takes the configuration to a win.
pub open spec fn wins_with(mazes: Seq<Maze>, config: Seq<Pos>, m: Move) -> bool {
    is_win(mazes, joint_step(mazes, config, m))
}

/// `m` is the first command, in enumeration order, that takes the
/// configuration to a win.
pub open spec fn first_winner(mazes: Seq<Maze>, config: Seq<Pos>, m: Move) -> bool {
    &&& wins_with(mazes, config, m)
    &&& forall|earlier: Move| earlier.rank() < m.rank() ==> !wins_with(mazes, config, earlier)
}

impl<'a> Search<'a> {
    /// The mazes of the puzzle.
    pub closed spec fn mazes(&self) -> Seq<Maze> {
        self.mazes@
    }

    /// Every state that was ever put on the frontier, in the order in which
    /// the states were found.
    pub closed spec fn trail(&self) -> Seq<StateView> {
        self.trail@
    }

    /// The number of states that were taken off the frontier and expanded;
    /// they are the first states of the trail.
    pub closed spec fn expanded(&self) -> int {
        self.done@
    }

    /// The states on the frontier, oldest first.
    pub open spec fn pending(&self) -> Seq<StateView> {
        self.trail().skip(self.expanded())
    }

    /// The search stands at state `h` of the trail with `k` commands tried,
    /// `popped` states have left the frontier, and the frontier and the
    /// visited set agree with the trail.
    spec fn in_step(&self, h: int, k: int, popped: int) -> bool {
        &&& sound(self.mazes@, self.trail@, h, k)
        &&& self.done@ == h
        &&& self.visited.wf()
        &&& forall|c: Seq<Pos>| self.visited@.contains(c) <==> knows(self.trail@, c)
        &&& 0 <= popped <= self.trail@.len()
        &&& self.frontier@.len() == self.trail@.len() - popped
        &&& forall|i: int|
            0 <= i < self.frontier@.len() ==> (#[trigger] self.frontier@[i])@ == self.trail@[popped
                + i]
    }

    /// The search is between two expansions and its parts agree.
    pub closed spec fn wf(&self) -> bool {
        self.in_step(self.done@, 0, self.done@)
    }

    /// No configuration is expanded more than once: the states of the
    /// trail, and so the expanded ones among them, have pairwise different
    /// configurations.
    pub proof fn lemma_expanded_once(self, i: int, j: int)
        requires
            self.wf(),
            0 <= i < j < self.trail().len(),
        ensures
            self.trail()[i].positions != self.trail()[j].positions,
    {
    }

    /// The expanded states are a part of the trail, and the trail is no
    /// longer than the space of configurations is large.
    pub proof fn lemma_within_space(self)
        requires
            self.wf(),
        ensures
            0 <= self.expanded() <= self.trail().len() <= state_space(self.mazes().len()),
    {
        lemma_trail_bound(self.mazes@, self.trail@, self.done@, 0);
    }

    /// Every state of the trail was reached by its own commands, lies on the
    /// grid and is no win.
    pub proof fn lemma_trail_states(self, i: int)
        requires
            self.wf(),
            0 <= i < self.trail().len(),
        ensures
            self.trail()[i].positions == replay(
                self.mazes(),
                starts(self.mazes()),
                self.trail()[i].moves,
            ),
            on_board(self.mazes(), self.trail()[i].positions),
            !is_win(self.mazes(), self.trail()[i].positions),
    {
        lemma_trail_on_board(self.mazes@, self.trail@, self.done@, 0, i);
    }

    /// States are found in the order of preference of their commands: a
    /// state found later has at least as many commands as one found before.
    pub proof fn lemma_trail_ascending(self, i: int, j: int)
        requires
            self.wf(),
            0 <= i < j < self.trail().len(),
        ensures
            comes_before(self.trail()[i].moves, self.trail()[j].moves),
            self.trail()[i].moves.len() <= self.trail()[j].moves.len(),
    {
    }

    /// Begins a search with the start configuration alone on the frontier.
    /// A puzzle whose start configuration already wins needs no search.
    pub fn new(mazes: &'a [Maze]) -> (s: Search<'a>)
        requires
            all_wf(mazes@),
            !is_win(mazes@, starts(mazes@)),
        ensures
            s.wf(),
            s.mazes() == mazes@,
            s.trail() == seq![root(mazes@)],
            s.expanded() == 0,
    {
        let initial = State::initial(mazes);
        let mut visited = Visited::new();
        visited.insert(copied(&initial.positions));
        let mut frontier: VecDeque<State> = VecDeque::new();
        let ghost first = initial@;
        frontier.push_back(initial);
        let ghost trail = seq![first];
        let s = Search { mazes, frontier, visited, trail: Ghost(trail), done: Ghost(0) };
        proof {
            lemma_sound_initial(mazes@);
        }
        s
    }

    /// Takes the oldest state off the frontier and tries the four commands
    /// on it in enumeration order. The first child that wins ends the
    /// search; every other child goes to the back of the frontier unless its
    /// configuration was met before.
    pub fn expand(&mut self) -> (r: Progress)
        requires
            old(self).wf(),
        ensures
            final(self).mazes() == old(self).mazes(),
            old(self).pending().len() == 0 ==> {
                &&& r is Exhausted
                &&& unsolvable(old(self).mazes())
                &&& final(self).wf()
                &&& final(self).trail() == old(self).trail()
                &&& final(self).expanded() == old(self).expanded()
            },
            old(self).pending().len() > 0 ==> match r {
                Progress::Found(moves) => {
                    &&& exists|m: Move| #[trigger]
                        first_winner(old(self).mazes(), old(self).pending()[0].positions, m)
                            && moves@ == old(self).pending()[0].moves.push(m)
                    &&& is_answer(old(self).mazes(), moves@)
                },
                Progress::Expanded => {
                    &&& forall|m: Move| !#[trigger]
                        wins_with(old(self).mazes(), old(self).pending()[0].positions, m)
                    &&& final(self).wf()
                    &&& final(self).trail() == grown(
                        old(self).mazes(),
                        old(self).trail(),
                        old(self).pending()[0],
                        4,
                    )
                    &&& final(self).expanded() == old(self).expanded() + 1
                },
                Progress::Exhausted => false,
            },
    {
        let ghost mazes = self.mazes@;
        let ghost trail0 = self.trail@;
        let ghost h = self.done@;
        let state = match self.frontier.pop_front() {
            None => {
                proof {
                    lemma_exhausted(mazes, trail0);
                }
                return Progress::Exhausted;
            },
            Some(state) => state,
        };
        let ghost parent = trail0[h];
        proof {
            lemma_trail_on_board(mazes, trail0, h, 0, h);
        }
        let commands = Move::all();
        let mut k: usize = 0;
        while k < 4
            invariant
                k <= 4,
                old(self).mazes@ == mazes,
                old(self).trail@ == trail0,
                old(self).done@ == h,
                0 <= h < trail0.len(),
                trail0[h] == parent,
                self.mazes@ == mazes,
                self.in_step(h, k as int, h + 1),
                h < self.trail@.len(),
                self.trail@[h] == parent,
                state@ == parent,
                parent.positions.len() == mazes.len(),
                self.trail@ == grown(mazes, trail0, parent, k as int),
                forall|m: Move| m.rank() < k ==> !wins_with(mazes, parent.positions, m),
                commands@ == Move::sequence(),
            decreases 4 - k,
        {
            let m = commands[k];
            let ghost before = self.trail@;
            let next = state.apply(self.mazes, m);
            if next.is_win(self.mazes) {
                proof {
                    assert(old(self).pending()[0] == parent);
                    lemma_found(mazes, before, h, k as int);
                    assert(first_winner(mazes, parent.positions, m));
                }
                return Progress::Found(next.moves);
            }
            let fresh = self.visited.insert(copied(&next.positions));
            if fresh {
                proof {
                    lemma_sound_fresh(mazes, before, h, k as int);
                }
                let ghost born = next@;
                self.trail = Ghost(before.push(born));
                self.frontier.push_back(next);
                proof {
                    let longer = self.trail@;
                    assert forall|c: Seq<Pos>| self.visited@.contains(c) <==> knows(longer, c) by {
                        if knows(before, c) {
                            let i = choose|i: int|
                                0 <= i < before.len() && (#[trigger] before[i]).positions == c;
                            assert(longer[i].positions == c);
                        }
                        if c == born.positions {
                            assert(longer[before.len() as int].positions == c);
                        }
                    }
                }
            } else {
                proof {
                    lemma_sound_known(mazes, before, h, k as int);
                }
            }
            k += 1;
        }
        proof {
            lemma_sound_next(mazes, self.trail@, h);
        }
        self.done = Ghost(h + 1);
        Progress::Expanded
    }
}

} // verus!

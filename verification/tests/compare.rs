use std::collections::{HashSet, VecDeque};

use lockstep_mazes::{solve, Maze, Move, Pos, SolveError};

struct Plan {
    start: Pos,
    end: Pos,
    walls: Vec<Pos>,
}

fn build(plans: &[Plan]) -> Vec<Maze> {
    plans.iter().map(|p| Maze::new(p.start, p.end, &p.walls).unwrap()).collect()
}

/// A plain breadth-first search over whole histories, kept as simple as
/// possible, to hold the solver against.
fn naive(plans: &[Plan]) -> Result<Vec<Move>, SolveError> {
    let walled = |p: &Plan, at: Pos| p.walls.contains(&at);
    let starts: Vec<Pos> = plans.iter().map(|p| p.start).collect();
    if plans.iter().zip(&starts).all(|(p, s)| p.end == *s) {
        return Ok(vec![]);
    }
    let mut queue = VecDeque::new();
    let mut seen = HashSet::new();
    seen.insert(starts.clone());
    queue.push_back((starts, Vec::new()));
    while let Some((positions, moves)) = queue.pop_front() {
        for m in [Move::Up, Move::Down, Move::Left, Move::Right] {
            let (dx, dy) = m.to_dir();
            let next: Vec<Pos> = plans
                .iter()
                .zip(&positions)
                .map(|(p, at)| {
                    let to = Pos { x: (at.x + dx).clamp(0, 4), y: (at.y + dy).clamp(0, 4) };
                    if walled(p, to) {
                        *at
                    } else {
                        to
                    }
                })
                .collect();
            let mut history = moves.clone();
            history.push(m);
            if plans.iter().zip(&next).all(|(p, at)| p.end == *at) {
                return Ok(history);
            }
            if seen.insert(next.clone()) {
                queue.push_back((next, history));
            }
        }
    }
    Err(SolveError::Unsatisfiable)
}

struct Dice(u64);

impl Dice {
    fn roll(&mut self, sides: u64) -> u64 {
        self.0 = self.0.wrapping_mul(6364136223846793005).wrapping_add(1442695040888963407);
        (self.0 >> 33) % sides
    }

    fn cell(&mut self) -> Pos {
        Pos { x: self.roll(5) as i32, y: self.roll(5) as i32 }
    }

    fn plan(&mut self, most_walls: u64) -> Plan {
        let start = self.cell();
        let end = self.cell();
        let count = self.roll(most_walls + 1);
        let walls = (0..count).map(|_| self.cell()).filter(|w| *w != start).collect();
        Plan { start, end, walls }
    }
}

#[test]
fn agrees_with_a_naive_search_on_one_board() {
    let mut dice = Dice(1);
    for _ in 0..200 {
        let plans = vec![dice.plan(10)];
        assert_eq!(solve(&build(&plans)), naive(&plans));
    }
}

#[test]
fn agrees_with_a_naive_search_on_two_boards() {
    let mut dice = Dice(2);
    let mut solved = 0;
    for _ in 0..60 {
        let plans = vec![dice.plan(8), dice.plan(8)];
        let got = solve(&build(&plans));
        assert_eq!(got, naive(&plans));
        if got.is_ok() {
            solved += 1;
        }
    }
    assert!(solved > 0);
}

#[test]
fn agrees_with_a_naive_search_on_three_boards() {
    let mut dice = Dice(3);
    for _ in 0..6 {
        let plans = vec![dice.plan(6), dice.plan(6), dice.plan(6)];
        assert_eq!(solve(&build(&plans)), naive(&plans));
    }
}

#[test]
fn many_boards_in_step() {
    // Twenty copies of one board: the tokens always stand alike, so the
    // answer is that of the single board.
    let one = || Plan { start: Pos { x: 0, y: 0 }, end: Pos { x: 2, y: 0 }, walls: vec![Pos { x: 1, y: 0 }] };
    let plans: Vec<Plan> = (0..20).map(|_| one()).collect();
    assert_eq!(
        solve(&build(&plans)),
        Ok(vec![Move::Down, Move::Right, Move::Right, Move::Up])
    );
}

#[test]
fn many_boards_that_cannot_agree() {
    let mut plans: Vec<Plan> = (0..15)
        .map(|_| Plan { start: Pos { x: 0, y: 0 }, end: Pos { x: 3, y: 3 }, walls: vec![] })
        .collect();
    plans.push(Plan { start: Pos { x: 0, y: 0 }, end: Pos { x: 3, y: 2 }, walls: vec![] });
    assert_eq!(solve(&build(&plans)), Err(SolveError::Unsatisfiable));
}

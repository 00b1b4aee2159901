use lockstep_mazes::{solve, Maze, Move, Pos, SolveError, SIZE};

fn at(x: i32, y: i32) -> Pos {
    Pos { x, y }
}

fn maze(start: Pos, end: Pos, walls: &[Pos]) -> Maze {
    match Maze::new(start, end, walls) {
        Ok(m) => m,
        Err(e) => panic!("maze rejected: {:?}", e),
    }
}

fn replay_one(m: &Maze, cmds: &[Move]) -> Pos {
    let mut p = m.start();
    for c in cmds {
        p = m.step(p, *c);
    }
    p
}

#[test]
fn open_board_corner_to_corner() {
    let mazes = vec![maze(at(0, 0), at(4, 4), &[])];
    let cmds = solve(&mazes).unwrap();
    assert_eq!(cmds.len(), 8);
    assert_eq!(cmds.iter().filter(|m| **m == Move::Right).count(), 4);
    assert_eq!(cmds.iter().filter(|m| **m == Move::Down).count(), 4);
    assert!(!cmds.contains(&Move::Up));
    assert!(!cmds.contains(&Move::Left));
}

#[test]
fn open_board_corner_to_corner_prefers_earlier_commands() {
    let mazes = vec![maze(at(0, 0), at(4, 4), &[])];
    let cmds = solve(&mazes).unwrap();
    let expected = vec![
        Move::Down,
        Move::Down,
        Move::Down,
        Move::Down,
        Move::Right,
        Move::Right,
        Move::Right,
        Move::Right,
    ];
    assert_eq!(cmds, expected);
}

#[test]
fn start_on_target_needs_no_command() {
    let mazes = vec![maze(at(2, 3), at(2, 3), &[])];
    assert_eq!(solve(&mazes), Ok(vec![]));
}

#[test]
fn no_mazes_needs_no_command() {
    let mazes: Vec<Maze> = Vec::new();
    assert_eq!(solve(&mazes), Ok(vec![]));
}

#[test]
fn two_open_boards_move_alike_and_cannot_part() {
    // Both tokens start on (0,0) of an open grid, so they always stand on
    // the same cell; their targets differ, so no command sequence wins.
    let mazes = vec![maze(at(0, 0), at(1, 0), &[]), maze(at(0, 0), at(0, 0), &[])];
    assert_eq!(solve(&mazes), Err(SolveError::Unsatisfiable));
}

#[test]
fn second_token_held_by_a_wall_stays_on_its_target() {
    let mazes = vec![maze(at(0, 0), at(1, 0), &[]), maze(at(0, 0), at(0, 0), &[at(1, 0)])];
    assert_eq!(solve(&mazes), Ok(vec![Move::Right]));
}

#[test]
fn wall_forces_a_detour() {
    let mazes = vec![maze(at(0, 0), at(2, 0), &[at(1, 0)])];
    let cmds = solve(&mazes).unwrap();
    assert_eq!(cmds.len(), 4);
    assert_eq!(cmds, vec![Move::Down, Move::Right, Move::Right, Move::Up]);
    assert_eq!(replay_one(&mazes[0], &cmds), at(2, 0));
}

#[test]
fn walled_in_token_is_unsatisfiable() {
    let mazes = vec![maze(at(0, 0), at(4, 4), &[at(1, 0), at(0, 1)])];
    assert_eq!(solve(&mazes), Err(SolveError::Unsatisfiable));
}

#[test]
fn target_behind_walls_is_unsatisfiable() {
    let mazes = vec![maze(at(0, 0), at(4, 4), &[at(3, 4), at(4, 3)])];
    assert_eq!(solve(&mazes), Err(SolveError::Unsatisfiable));
}

#[test]
fn open_board_length_is_manhattan_distance() {
    for (x0, y0, x1, y1) in [(0, 0, 0, 0), (1, 2, 3, 0), (4, 4, 0, 0), (2, 0, 2, 4), (3, 1, 0, 1)] {
        let mazes = vec![maze(at(x0, y0), at(x1, y1), &[])];
        let cmds = solve(&mazes).unwrap();
        let expected = ((x1 - x0) as i32).abs() + ((y1 - y0) as i32).abs();
        assert_eq!(cmds.len() as i32, expected);
    }
}

#[test]
fn solving_twice_gives_the_same_commands() {
    let mazes = vec![
        maze(at(0, 0), at(3, 2), &[at(1, 1), at(2, 2)]),
        maze(at(4, 4), at(1, 2), &[at(0, 3)]),
    ];
    let first = solve(&mazes);
    let second = solve(&mazes);
    assert!(first.is_ok());
    assert_eq!(first, second);
}

#[test]
fn answer_wins_at_the_last_step_and_not_before() {
    let mazes = vec![
        maze(at(0, 0), at(3, 2), &[at(1, 1), at(2, 2)]),
        maze(at(4, 4), at(1, 2), &[at(0, 3)]),
    ];
    let cmds = solve(&mazes).unwrap();
    assert!(!cmds.is_empty());
    for k in 0..=cmds.len() {
        let won = mazes.iter().all(|m| replay_one(m, &cmds[..k]) == m.end());
        assert_eq!(won, k == cmds.len());
    }
}

#[test]
fn edges_are_soft_stops_for_the_other_token() {
    // The first token is already in the right column and is stopped by the
    // edge while the second walks to the right.
    let mazes = vec![maze(at(4, 0), at(4, 0), &[]), maze(at(2, 0), at(4, 0), &[])];
    assert_eq!(solve(&mazes), Ok(vec![Move::Right, Move::Right]));
}

#[test]
fn size_is_five() {
    assert_eq!(SIZE, 5);
}

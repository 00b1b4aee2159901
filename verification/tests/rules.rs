use lockstep_mazes::{render, Grid, Maze, Move, Pos, SolveError, State, Visited};

fn at(x: i32, y: i32) -> Pos {
    Pos { x, y }
}

#[test]
fn commands_come_in_fixed_order() {
    assert_eq!(Move::all(), [Move::Up, Move::Down, Move::Left, Move::Right]);
}

#[test]
fn command_letters() {
    assert_eq!(Move::Up.to_char(), 'U');
    assert_eq!(Move::Down.to_char(), 'D');
    assert_eq!(Move::Left.to_char(), 'L');
    assert_eq!(Move::Right.to_char(), 'R');
}

#[test]
fn commands_render_as_their_letters_in_order() {
    assert_eq!(render(&[Move::Up, Move::Down, Move::Left, Move::Right]), "UDLR");
    assert_eq!(render(&[Move::Right, Move::Right, Move::Up]), "RRU");
}

#[test]
fn no_commands_render_as_the_empty_string() {
    assert_eq!(render(&[]), "");
}

#[test]
fn command_directions() {
    assert_eq!(Move::Up.to_dir(), (0, -1));
    assert_eq!(Move::Down.to_dir(), (0, 1));
    assert_eq!(Move::Left.to_dir(), (-1, 0));
    assert_eq!(Move::Right.to_dir(), (1, 0));
}

#[test]
fn move_inside_the_grid() {
    assert_eq!(at(2, 2).move_(Move::Up), at(2, 1));
    assert_eq!(at(2, 2).move_(Move::Down), at(2, 3));
    assert_eq!(at(2, 2).move_(Move::Left), at(1, 2));
    assert_eq!(at(2, 2).move_(Move::Right), at(3, 2));
}

#[test]
fn move_is_clamped_at_the_edges() {
    assert_eq!(at(0, 0).move_(Move::Up), at(0, 0));
    assert_eq!(at(0, 0).move_(Move::Left), at(0, 0));
    assert_eq!(at(4, 4).move_(Move::Down), at(4, 4));
    assert_eq!(at(4, 4).move_(Move::Right), at(4, 4));
}

#[test]
fn move_from_off_the_grid_lands_on_it() {
    for m in Move::all() {
        for p in [at(-7, 9), at(100, -100), at(i32::MAX, i32::MIN), at(i32::MIN, i32::MAX)] {
            let r = p.move_(m);
            assert!(0 <= r.x && r.x <= 4 && 0 <= r.y && r.y <= 4);
        }
    }
    assert_eq!(at(i32::MAX, 2).move_(Move::Right), at(4, 2));
    assert_eq!(at(2, i32::MIN).move_(Move::Up), at(2, 0));
    assert_eq!(at(-7, 9).move_(Move::Right), at(0, 4));
}

#[test]
fn to_tuple_gives_x_then_y() {
    assert_eq!(at(3, 1).to_tuple(), (3, 1));
}

#[test]
fn grid_keeps_what_is_set() {
    let mut g: Grid<bool> = Grid::new(5, 5, false);
    for y in 0..5 {
        for x in 0..5 {
            assert!(!g.get((x, y)));
        }
    }
    g.set((3, 1), true);
    for y in 0..5 {
        for x in 0..5 {
            assert_eq!(g.get((x, y)), (x, y) == (3, 1));
        }
    }
}

#[test]
fn maze_rejects_coordinates_off_the_grid() {
    assert_eq!(Maze::new(at(5, 0), at(0, 0), &[]).err(), Some(SolveError::InvalidInput));
    assert_eq!(Maze::new(at(0, 0), at(0, -1), &[]).err(), Some(SolveError::InvalidInput));
    assert_eq!(Maze::new(at(0, 0), at(1, 1), &[at(2, 2), at(2, 5)]).err(), Some(SolveError::InvalidInput));
    assert!(Maze::new(at(0, 0), at(4, 4), &[at(2, 2), at(4, 0)]).is_ok());
}

#[test]
fn maze_holds_its_walls() {
    let m = Maze::new(at(0, 0), at(4, 4), &[at(2, 2), at(4, 0)]).unwrap();
    assert_eq!(m.start(), at(0, 0));
    assert_eq!(m.end(), at(4, 4));
    for y in 0..5 {
        for x in 0..5 {
            assert_eq!(m.is_wall(at(x, y)), (x, y) == (2, 2) || (x, y) == (4, 0));
        }
    }
    assert!(!m.is_wall(at(7, 7)));
}

#[test]
fn token_stays_in_front_of_a_wall() {
    let m = Maze::new(at(0, 0), at(2, 0), &[at(1, 0)]).unwrap();
    assert_eq!(m.step(at(0, 0), Move::Right), at(0, 0));
    assert_eq!(m.step(at(0, 0), Move::Down), at(0, 1));
    assert_eq!(m.step(at(2, 0), Move::Left), at(2, 0));
    assert_eq!(m.step(at(1, 1), Move::Up), at(1, 1));
}

#[test]
fn token_off_the_grid_stays_there_in_front_of_a_wall() {
    let m = Maze::new(at(0, 0), at(2, 0), &[at(4, 4)]).unwrap();
    assert_eq!(m.step(at(100, 100), Move::Up), at(100, 100));
    assert_eq!(m.step(at(100, 0), Move::Up), at(4, 0));
}

#[test]
fn joint_step_moves_every_token_by_its_own_maze() {
    let mazes = vec![
        Maze::new(at(0, 0), at(4, 4), &[at(1, 0)]).unwrap(),
        Maze::new(at(0, 0), at(4, 4), &[]).unwrap(),
        Maze::new(at(4, 2), at(0, 0), &[]).unwrap(),
    ];
    let s0 = State::initial(&mazes);
    assert_eq!(s0.positions, vec![at(0, 0), at(0, 0), at(4, 2)]);
    assert!(s0.moves.is_empty());
    let s1 = s0.apply(&mazes, Move::Right);
    assert_eq!(s1.positions, vec![at(0, 0), at(1, 0), at(4, 2)]);
    assert_eq!(s1.moves, vec![Move::Right]);
    let s2 = s1.apply(&mazes, Move::Down);
    assert_eq!(s2.positions, vec![at(0, 1), at(1, 1), at(4, 3)]);
    assert_eq!(s2.moves, vec![Move::Right, Move::Down]);
    assert_eq!(s0.positions, vec![at(0, 0), at(0, 0), at(4, 2)]);
}

#[test]
fn win_needs_every_token_on_its_target() {
    let mazes = vec![
        Maze::new(at(0, 0), at(1, 0), &[]).unwrap(),
        Maze::new(at(0, 0), at(0, 0), &[at(1, 0)]).unwrap(),
    ];
    let s0 = State::initial(&mazes);
    assert!(!s0.is_win(&mazes));
    assert!(s0.apply(&mazes, Move::Right).is_win(&mazes));
    assert!(!s0.apply(&mazes, Move::Down).is_win(&mazes));
    let short = State { positions: vec![at(1, 0)], moves: vec![] };
    assert!(!short.is_win(&mazes));
}

#[test]
fn same_configuration_whatever_the_history() {
    let a = State { positions: vec![at(1, 2), at(3, 4)], moves: vec![Move::Up] };
    let b = State { positions: vec![at(1, 2), at(3, 4)], moves: vec![Move::Down, Move::Left] };
    let c = State { positions: vec![at(3, 4), at(1, 2)], moves: vec![Move::Up] };
    assert!(a.same_config(&b));
    assert!(!a.same_config(&c));
    assert_ne!(a, b);
    assert_eq!(a.clone(), a);
}

#[test]
fn visited_tells_new_from_known() {
    let mut v = Visited::new();
    assert!(!v.contains(&vec![at(0, 0), at(1, 1)]));
    assert!(v.insert(vec![at(0, 0), at(1, 1)]));
    assert!(v.contains(&vec![at(0, 0), at(1, 1)]));
    assert!(!v.insert(vec![at(0, 0), at(1, 1)]));
    assert!(v.insert(vec![at(1, 1), at(0, 0)]));
    assert!(v.insert(vec![at(0, 0)]));
    assert!(v.insert(vec![]));
    assert!(!v.insert(vec![]));
    assert!(!v.insert(vec![at(1, 1), at(0, 0)]));
    assert!(!v.contains(&vec![at(1, 1)]));
}

#[test]
fn visited_keeps_apart_configurations_with_one_key() {
    // Positions off the grid share one cell code, so these collide.
    let mut v = Visited::new();
    assert!(v.insert(vec![at(9, 9)]));
    assert!(v.insert(vec![at(-1, 3)]));
    assert!(!v.insert(vec![at(9, 9)]));
    assert!(v.contains(&vec![at(-1, 3)]));
    assert!(!v.contains(&vec![at(3, -1)]));
}

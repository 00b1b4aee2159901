use lockstep_mazes::{Maze, Move, Pos, Progress, Search};

fn at(x: i32, y: i32) -> Pos {
    Pos { x, y }
}

#[test]
fn expansion_finds_the_first_winning_command() {
    let mazes = vec![Maze::new(at(1, 1), at(1, 2), &[]).unwrap()];
    let mut search = Search::new(&mazes);
    match search.expand() {
        Progress::Found(cmds) => assert_eq!(cmds, vec![Move::Down]),
        other => panic!("expected a win, got {:?}", other),
    }
}

#[test]
fn expansion_goes_on_until_the_frontier_is_empty() {
    // A token walled into its corner: the start is the only configuration.
    let mazes = vec![Maze::new(at(0, 0), at(4, 4), &[at(1, 0), at(0, 1)]).unwrap()];
    let mut search = Search::new(&mazes);
    assert!(matches!(search.expand(), Progress::Expanded));
    assert!(matches!(search.expand(), Progress::Exhausted));
    assert!(matches!(search.expand(), Progress::Exhausted));
}

#[test]
fn expansions_are_bounded_by_the_number_of_cells() {
    // The target is walled off; the 22 other open cells are all expanded once.
    let mazes = vec![Maze::new(at(0, 0), at(4, 4), &[at(3, 4), at(4, 3)]).unwrap()];
    let mut search = Search::new(&mazes);
    let mut expansions = 0;
    loop {
        match search.expand() {
            Progress::Expanded => expansions += 1,
            Progress::Exhausted => break,
            Progress::Found(cmds) => panic!("unexpected win by {:?}", cmds),
        }
        assert!(expansions <= 25);
    }
    assert_eq!(expansions, 22);
}

//! The four cardinal commands.

use vstd::prelude::*;

verus! {

/// A command broadcast to every maze. The declaration order is the order in
/// which commands are tried during a search.
#[derive(Debug, Clone, Copy, PartialEq, Eq, Hash, Structural)]
pub enum Move {
    Up,
    Down,
    Left,
    Right,
}

impl Move {
    /// Position of the command in the enumeration order: `Up` is 0, `Right` is 3.
    pub open spec fn rank(self) -> int {
        match self {
            Move::Up => 0,
            Move::Down => 1,
            Move::Left => 2,
            Move::Right => 3,
        }
    }

    /// The command with the given rank; ranks outside `0..4` give `Right`.
    pub open spec fn of_rank(rank: int) -> Move {
        if rank <= 0 {
            Move::Up
        } else if rank == 1 {
            Move::Down
        } else if rank == 2 {
            Move::Left
        } else {
            Move::Right
        }
    }

    /// Unit displacement `(dx, dy)` of the command; `y` grows downwards.
    pub open spec fn dir(self) -> (int, int) {
        match self {
            Move::Up => (0, -1),
            Move::Down => (0, 1),
            Move::Left => (-1, 0),
            Move::Right => (1, 0),
        }
    }

    /// The letter that stands for the command in printed output.
    pub open spec fn letter(self) -> char {
        match self {
            Move::Up => 'U',
            Move::Down => 'D',
            Move::Left => 'L',
            Move::Right => 'R',
        }
    }

    /// All commands in enumeration order.
    pub open spec fn sequence() -> Seq<Move> {
        seq![Move::Up, Move::Down, Move::Left, Move::Right]
    }

    /// Returns the four commands in enumeration order.
    pub fn all() -> (r: [Move; 4])
        ensures
            r@ == Move::sequence(),
            forall|k: int| 0 <= k < 4 ==> r@[k] == Move::of_rank(k),
    {
        [Move::Up, Move::Down, Move::Left, Move::Right]
    }

    /// Returns the letter of the command.
    pub fn to_char(self) -> (c: char)
        ensures
            c == self.letter(),
    {
        match self {
            Move::Up => 'U',
            Move::Down => 'D',
            Move::Left => 'L',
            Move::Right => 'R',
        }
    }

    /// Returns the unit displacement `(dx, dy)` of the command.
    pub fn to_dir(self) -> (d: (i32, i32))
        ensures
            d.0 == self.dir().0,
            d.1 == self.dir().1,
    {
        match self {
            Move::Up => (0, -1),
            Move::Down => (0, 1),
            Move::Left => (-1, 0),
            Move::Right => (1, 0),
        }
    }
}

/// What `cmds` looks like in print: the letters of the commands, in order.
pub open spec fn letters(cmds: Seq<Move>) -> Seq<char> {
    Seq::new(cmds.len(), |i: int| cmds[i].letter())
}

/// `String::push` of the standard library: the string afterwards is the
/// string before with `ch` appended at its end. Taken on trust from the
/// documentation of the standard library.
pub assume_specification[ String::push ](s: &mut String, ch: char)
    ensures
        final(s)@ == old(s)@.push(ch),
;

/// Renders a command sequence as text: one letter per command, in order,
/// and nothing else. The empty sequence gives the empty string.
pub fn render(cmds: &[Move]) -> (text: String)
    ensures
        text@ == letters(cmds@),
{
    let mut text = String::new();
    let mut i: usize = 0;
    while i < cmds.len()
        invariant
            i <= cmds@.len(),
            text@ == letters(cmds@.take(i as int)),
        decreases cmds@.len() - i,
    {
        text.push(cmds[i].to_char());
        i += 1;
    }
    text
}

} // verus!

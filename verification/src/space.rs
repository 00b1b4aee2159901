//! The size of the space of configurations.
//!
//! With `n` mazes there are `(SIZE * SIZE)^n` configurations on the grid.
//! This bounds the number of distinct configurations a search can meet.

use vstd::prelude::*;
use vstd::set_lib::{lemma_int_range, lemma_len_subset, set_int_range};
use crate::maze::Maze;
use crate::pos::{Pos, SIZE};
use crate::rules::on_board;

verus! {

/// The number of configurations of `boards` tokens: `(SIZE * SIZE)^boards`.
pub open spec fn state_space(boards: nat) -> nat
    decreases boards,
{
    if boards == 0 {
        1
    } else {
        (SIZE * SIZE) as nat * state_space((boards - 1) as nat)
    }
}

/// The number of a cell when the cells are counted row by row.
pub open spec fn cell_number(p: Pos) -> int {
    p.y * SIZE + p.x
}

/// The number of a configuration when its positions are read as the digits
/// of a number in base `SIZE * SIZE`.
pub open spec fn config_number(config: Seq<Pos>) -> int
    decreases config.len(),
{
    if config.len() == 0 {
        0
    } else {
        config_number(config.drop_last()) * (SIZE * SIZE) + cell_number(config.last())
    }
}

/// Every position of the configuration lies on the grid.
pub open spec fn all_in_bounds(config: Seq<Pos>) -> bool {
    forall|i: int| 0 <= i < config.len() ==> (#[trigger] config[i]).in_bounds()
}

/// The number of a configuration on the grid is below the size of the
/// space.
pub proof fn lemma_config_number_bound(config: Seq<Pos>)
    requires
        all_in_bounds(config),
    ensures
        0 <= config_number(config) < state_space(config.len()),
    decreases config.len(),
{
    if config.len() > 0 {
        let front = config.drop_last();
        lemma_config_number_bound(front);
    }
}

/// Different configurations on the grid, of the same length, have
/// different numbers.
pub proof fn lemma_config_number_injective(a: Seq<Pos>, b: Seq<Pos>)
    requires
        all_in_bounds(a),
        all_in_bounds(b),
        a.len() == b.len(),
        config_number(a) == config_number(b),
    ensures
        a == b,
    decreases a.len(),
{
    if a.len() > 0 {
        let a0 = a.drop_last();
        let b0 = b.drop_last();
        // The last positions are the last digits of the two numbers, and
        // what comes before them are the numbers of the fronts.
        assert(a.last().in_bounds() && b.last().in_bounds());
        assert(config_number(a) == config_number(a0) * 25 + cell_number(a.last()));
        assert(config_number(b) == config_number(b0) * 25 + cell_number(b.last()));
        assert(0 <= cell_number(a.last()) < 25 && 0 <= cell_number(b.last()) < 25);
        assert(config_number(a0) == config_number(b0));
        lemma_config_number_injective(a0, b0);
        assert(a.last() == b.last());
        assert(a =~= a0.push(a.last()));
        assert(b =~= b0.push(b.last()));
    }
}

/// A list of distinct numbers below `bound` has at most `bound` entries.
pub proof fn lemma_distinct_numbers(numbers: Seq<int>, bound: int)
    requires
        0 <= bound,
        numbers.no_duplicates(),
        forall|i: int| 0 <= i < numbers.len() ==> 0 <= #[trigger] numbers[i] < bound,
    ensures
        numbers.len() <= bound,
{
    if numbers.len() > 0 {
        lemma_int_range(0, bound);
        lemma_len_subset(numbers.to_set(), set_int_range(0, bound));
        numbers.unique_seq_to_set();
    }
}

/// A list of distinct configurations on the grid, one position per maze, is
/// no longer than the space of configurations is large.
pub proof fn lemma_distinct_configs(mazes: Seq<Maze>, configs: Seq<Seq<Pos>>)
    requires
        forall|i: int| 0 <= i < configs.len() ==> on_board(mazes, #[trigger] configs[i]),
        forall|i: int, j: int|
            0 <= i < j < configs.len() ==> #[trigger] configs[i] != #[trigger] configs[j],
    ensures
        configs.len() <= state_space(mazes.len()),
{
    let numbers = Seq::new(configs.len(), |i: int| config_number(configs[i]));
    assert forall|i: int| 0 <= i < numbers.len() implies 0 <= #[trigger] numbers[i] < state_space(
        mazes.len(),
    ) by {
        lemma_config_number_bound(configs[i]);
    }
    assert(numbers.no_duplicates()) by {
        assert forall|i: int, j: int|
            0 <= i < numbers.len() && 0 <= j < numbers.len() && i != j implies numbers[i]
            != numbers[j] by {
            if numbers[i] == numbers[j] {
                lemma_config_number_injective(configs[i], configs[j]);
            }
        }
    }
    lemma_distinct_numbers(numbers, state_space(mazes.len()) as int);
}

} // verus!

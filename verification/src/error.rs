//! Ways in which a puzzle can be turned down.

use vstd::prelude::*;

verus! {

/// Why no command sequence was returned.
#[derive(Debug, Clone, Copy, PartialEq, Eq, Hash, Structural)]
pub enum SolveError {
    /// A start, target or wall coordinate lies outside the grid.
    InvalidInput,
    /// No command sequence puts every token on its target at the same time.
    Unsatisfiable,
}

} // verus!

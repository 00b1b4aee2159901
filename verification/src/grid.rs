//! A fixed-size rectangular grid of cells, stored row by row.

use vstd::prelude::*;

verus! {

/// A `width` by `height` grid with one value per cell. The dimensions are
/// fixed at construction; cells are addressed by `(x, y)`.
#[derive(Debug)]
pub struct Grid<T> {
    width: usize,
    height: usize,
    cells: Vec<T>,
}

/// The row-major index of a cell stays inside the storage.
proof fn lemma_cell_index(x: int, y: int, width: int, height: int)
    requires
        0 <= x < width,
        0 <= y < height,
    ensures
        0 <= y * width + x < width * height,
        0 <= y * width,
{
    assert(y * width + width <= height * width) by (nonlinear_arith)
        requires
            0 <= y < height,
            0 <= width,
    ;
}

/// Two cells with the same row-major index are the same cell.
proof fn lemma_cell_index_injective(x1: int, y1: int, x2: int, y2: int, width: int)
    requires
        0 <= x1 < width,
        0 <= x2 < width,
        y1 * width + x1 == y2 * width + x2,
    ensures
        x1 == x2,
        y1 == y2,
{
    if y1 < y2 {
        assert(y1 * width + width <= y2 * width) by (nonlinear_arith)
            requires
                y1 < y2,
                0 <= width,
        ;
    } else if y2 < y1 {
        assert(y2 * width + width <= y1 * width) by (nonlinear_arith)
            requires
                y2 < y1,
                0 <= width,
        ;
    }
}

impl<T: Copy> Grid<T> {
    /// The storage holds exactly one value per cell.
    pub closed spec fn wf(&self) -> bool {
        self.cells.len() == self.width * self.height
    }

    /// Number of columns.
    pub closed spec fn width(&self) -> nat {
        self.width as nat
    }

    /// Number of rows.
    pub closed spec fn height(&self) -> nat {
        self.height as nat
    }

    /// `(x, y)` names a cell of the grid.
    pub open spec fn contains(&self, at: (i32, i32)) -> bool {
        0 <= at.0 < self.width() && 0 <= at.1 < self.height()
    }

    /// The value stored in cell `(x, y)`.
    pub closed spec fn at(&self, at: (i32, i32)) -> T {
        self.cells[at.1 * self.width + at.0]
    }

    /// Creates a grid in which every cell holds `fill`.
    pub fn new(width: usize, height: usize, fill: T) -> (g: Self)
        requires
            width * height <= usize::MAX,
        ensures
            g.wf(),
            g.width() == width,
            g.height() == height,
            forall|at: (i32, i32)| g.contains(at) ==> g.at(at) == fill,
    {
        let total: usize = width * height;
        let mut cells: Vec<T> = Vec::new();
        let mut i: usize = 0;
        while i < total
            invariant
                i <= total,
                cells.len() == i,
                forall|j: int| 0 <= j < i ==> cells[j] == fill,
            decreases total - i,
        {
            cells.push(fill);
            i += 1;
        }
        let g = Grid { width, height, cells };
        proof {
            assert forall|at: (i32, i32)| g.contains(at) implies g.at(at) == fill by {
                lemma_cell_index(at.0 as int, at.1 as int, width as int, height as int);
            }
        }
        g
    }

    /// Returns the value stored in cell `(x, y)`.
    pub fn get(&self, at: (i32, i32)) -> (v: T)
        requires
            self.wf(),
            self.contains(at),
        ensures
            v == self.at(at),
    {
        proof {
            lemma_cell_index(at.0 as int, at.1 as int, self.width as int, self.height as int);
        }
        self.cells[at.1 as usize * self.width + at.0 as usize]
    }

    /// Stores `value` in cell `(x, y)` and leaves every other cell as it was.
    pub fn set(&mut self, at: (i32, i32), value: T)
        requires
            old(self).wf(),
            old(self).contains(at),
        ensures
            final(self).wf(),
            final(self).width() == old(self).width(),
            final(self).height() == old(self).height(),
            final(self).at(at) == value,
            forall|other: (i32, i32)|
                old(self).contains(other) && other != at ==> final(self).at(other) == old(self).at(
                    other,
                ),
    {
        proof {
            lemma_cell_index(at.0 as int, at.1 as int, self.width as int, self.height as int);
        }
        let i: usize = at.1 as usize * self.width + at.0 as usize;
        self.cells.set(i, value);
        proof {
            assert forall|other: (i32, i32)| old(self).contains(other) && other != at implies self.at(
                other,
            ) == old(self).at(other) by {
                lemma_cell_index(
                    other.0 as int,
                    other.1 as int,
                    self.width as int,
                    self.height as int,
                );
                if other.1 * self.width + other.0 == at.1 * self.width + at.0 {
                    lemma_cell_index_injective(
                        other.0 as int,
                        other.1 as int,
                        at.0 as int,
                        at.1 as int,
                        self.width as int,
                    );
                }
            }
        }
    }
}

} // verus!

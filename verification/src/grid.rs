//! Storage of the board's cells in an `ndarray` array.
//!
//! Nothing in this file is proved: each function states what the `ndarray`
//! call in its body does, and the rest of the crate is verified against
//! those statements.

use ndarray::Array2;
use vstd::prelude::*;

verus! {

/// The cells of a board, one small number in each, held in an
/// `ndarray::Array2<i8>`.
///
/// The verifier does not look inside; what a grid holds is `grid_rows`.
#[verifier::external_body]
pub struct Grid {
    cells: Array2<i8>,
}

/// The numbers that a grid holds, one sequence for each row, top row first.
pub uninterp spec fn grid_rows(g: Grid) -> Seq<Seq<i8>>;

impl Grid {
    /// `Array2::from_elem((n, n), v)`: an `n` by `n` array in which every
    /// cell holds `v`. The call panics when `n * n` exceeds `isize::MAX`,
    /// which the precondition rules out.
    #[verifier::external_body]
    pub(crate) fn filled(n: usize, v: i8) -> (g: Grid)
        requires
            n * n <= isize::MAX,
        ensures
            grid_rows(g) == Seq::new(n as nat, |r: int| Seq::new(n as nat, |c: int| v)),
    {
        Grid { cells: Array2::from_elem((n, n), v) }
    }

    /// `Array2::zeros((n, n))`: an `n` by `n` array in which every cell
    /// holds zero. The call panics when `n * n` exceeds `isize::MAX`, which
    /// the precondition rules out.
    #[verifier::external_body]
    pub(crate) fn zeros(n: usize) -> (g: Grid)
        requires
            n * n <= isize::MAX,
        ensures
            grid_rows(g) == Seq::new(n as nat, |r: int| Seq::new(n as nat, |c: int| 0i8)),
    {
        Grid { cells: Array2::zeros((n, n)) }
    }

    /// Indexing with `[[r, c]]` (`Index::index` of `ndarray::ArrayBase`): the
    /// element in row `r`, column `c`. The call panics when the index is
    /// outside the array, which the precondition rules out.
    #[verifier::external_body]
    pub(crate) fn at(&self, r: usize, c: usize) -> (v: i8)
        requires
            r < grid_rows(*self).len(),
            c < grid_rows(*self)[r as int].len(),
        ensures
            v == grid_rows(*self)[r as int][c as int],
    {
        self.cells[[r, c]]
    }

    /// Assignment through `[[r, c]]` (`IndexMut::index_mut` of
    /// `ndarray::ArrayBase`): row `r`, column `c` now holds `v` and every
    /// other cell is as before. The call panics when the index is outside
    /// the array, which the precondition rules out.
    #[verifier::external_body]
    pub(crate) fn put(&mut self, r: usize, c: usize, v: i8)
        requires
            r < grid_rows(*old(self)).len(),
            c < grid_rows(*old(self))[r as int].len(),
        ensures
            grid_rows(*final(self)) == grid_rows(*old(self)).update(
                r as int,
                grid_rows(*old(self))[r as int].update(c as int, v),
            ),
    {
        self.cells[[r, c]] = v;
    }

    /// `ArrayBase::dim`: the number of rows and the number of cells in each
    /// row.
    #[verifier::external_body]
    pub(crate) fn shape(&self) -> (s: (usize, usize))
        ensures
            s.0 == grid_rows(*self).len(),
            forall|r: int| 0 <= r < s.0 ==> (#[trigger] grid_rows(*self)[r]).len() == s.1,
    {
        self.cells.dim()
    }

    /// `Clone::clone` of `ndarray::ArrayBase`: a new array of the same shape
    /// with the same elements.
    #[verifier::external_body]
    pub(crate) fn copy(&self) -> (g: Grid)
        ensures
            grid_rows(g) == grid_rows(*self),
    {
        Grid { cells: self.cells.clone() }
    }
}

} // verus!

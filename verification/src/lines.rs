//! Rows of stones: finding a line of equal stones of a given length.

use crate::board::{legal, Board, Piece};
use crate::capture::{after_move, lemma_captures_only_remove, lemma_placed_stone_stays, ray};
use crate::cells::{lemma_put_vacancies, on_board, put, square};
use vstd::prelude::*;

verus! {

/// The four orientations of a line, each given by the direction in which it
/// is followed: to the right, downwards, down to the right, down to the left.
pub open spec fn line(i: int) -> (int, int) {
    if i == 0 {
        (0, 1)
    } else if i == 1 {
        (1, 0)
    } else if i == 2 {
        (1, 1)
    } else {
        (1, -1)
    }
}

/// The cell `(r, c)` holds a stone, and the `len` cells that start there and
/// follow direction `d` are all on the board and hold stones of that side.
pub open spec fn run_from(cells: Seq<Seq<Piece>>, r: int, c: int, d: (int, int), len: int) -> bool {
    &&& on_board(cells, r, c)
    &&& cells[r][c] != Piece::Empty
    &&& forall|s: int|
        0 <= s < len ==> {
            let q = #[trigger] ray(r, c, d, s);
            on_board(cells, q.0, q.1) && cells[q.0][q.1] == cells[r][c]
        }
}

/// A run of `len` stones of one side starts at `(r, c)` in one of the four
/// orientations.
pub open spec fn run_starts_at(cells: Seq<Seq<Piece>>, r: int, c: int, len: int) -> bool {
    ||| run_from(cells, r, c, line(0), len)
    ||| run_from(cells, r, c, line(1), len)
    ||| run_from(cells, r, c, line(2), len)
    ||| run_from(cells, r, c, line(3), len)
}

/// Somewhere on the board there is a run of `len` stones of one side.
pub open spec fn has_run(cells: Seq<Seq<Piece>>, len: int) -> bool {
    exists|r: int, c: int| #[trigger] run_starts_at(cells, r, c, len)
}

/// `(i, j)` comes before `(r, c)` when the board is read row by row.
pub open spec fn precedes(i: int, j: int, r: int, c: int) -> bool {
    i < r || (i == r && j < c)
}

/// `(r, c)` is the first cell, reading row by row, at which a run of `len`
/// stones starts.
pub open spec fn first_run_at(cells: Seq<Seq<Piece>>, r: int, c: int, len: int) -> bool {
    &&& run_starts_at(cells, r, c, len)
    &&& forall|i: int, j: int| precedes(i, j, r, c) ==> !#[trigger] run_starts_at(cells, i, j, len)
}

/// There is at most one first run.
pub proof fn lemma_first_run_unique(cells: Seq<Seq<Piece>>, len: int, r: int, c: int, i: int, j: int)
    requires
        first_run_at(cells, r, c, len),
        first_run_at(cells, i, j, len),
    ensures
        r == i,
        c == j,
{
    if precedes(i, j, r, c) {
        assert(!run_starts_at(cells, i, j, len));
    }
    if precedes(r, c, i, j) {
        assert(!run_starts_at(cells, r, c, len));
    }
}

/// The cell `(r, c)` is one of the `len` cells that start at `(i, j)` and
/// follow direction `d`.
pub open spec fn run_covers(i: int, j: int, d: (int, int), len: int, r: int, c: int) -> bool {
    exists|s: int| 0 <= s < len && (#[trigger] ray(i, j, d, s)) == (r, c)
}

/// A move can only make a run through the cell that is played: on a board
/// without a run of `len` stones, every run of `len` stones that exists after
/// `side` has played at `(r, c)` and the captures are made is a run of
/// `side` and includes `(r, c)`. So looking along the four lines through the
/// last move finds a run whenever reading the whole board does.
pub proof fn lemma_new_run_passes_through_move(
    cells: Seq<Seq<Piece>>,
    r: int,
    c: int,
    side: Piece,
    i: int,
    j: int,
    k: int,
    len: int,
)
    requires
        square(cells),
        legal(cells, r, c),
        1 <= len,
        !has_run(cells, len),
        run_from(after_move(cells, r, c, side), i, j, line(k), len),
    ensures
        run_covers(i, j, line(k), len, r, c),
        after_move(cells, r, c, side)[i][j] == side,
{
    let placed = put(cells, r, c, side);
    let after = after_move(cells, r, c, side);
    let d = line(k);
    lemma_put_vacancies(cells, r, c, side, Piece::Empty);
    lemma_captures_only_remove(placed, r, c, side);
    lemma_placed_stone_stays(cells, r, c, side);
    assert(ray(i, j, d, 0) == (i, j));
    if !run_covers(i, j, d, len, r, c) {
        assert forall|s: int| 0 <= s < len implies {
            let q = #[trigger] ray(i, j, d, s);
            on_board(cells, q.0, q.1) && cells[q.0][q.1] == after[i][j]
        } by {
            let q = ray(i, j, d, s);
            assert(q != (r, c));
            assert(after[q.0][q.1] == after[i][j]);
            assert(after[q.0][q.1] == placed[q.0][q.1]);
        }
        assert(cells[i][j] == after[i][j]);
        assert(run_from(cells, i, j, d, len));
        assert(run_starts_at(cells, i, j, len));
    }
    let s = choose|s: int| 0 <= s < len && (#[trigger] ray(i, j, d, s)) == (r, c);
    assert(after[ray(i, j, d, s).0][ray(i, j, d, s).1] == after[i][j]);
}

/// The components of line orientation number `i`.
pub fn line_at(i: usize) -> (d: (i8, i8))
    requires
        i < 4,
    ensures
        (d.0 as int, d.1 as int) == line(i as int),
{
    if i == 0 {
        (0, 1)
    } else if i == 1 {
        (1, 0)
    } else if i == 2 {
        (1, 1)
    } else {
        (1, -1)
    }
}

impl Board {
    /// Whether the `len` cells that start at the stone at `(r, c)` and follow
    /// direction `d` all hold stones of that stone's side.
    pub fn run_in_direction(&self, r: usize, c: usize, d: (i8, i8), len: usize) -> (b: bool)
        requires
            self.wf(),
            on_board(self@, r as int, c as int),
            self@[r as int][c as int] != Piece::Empty,
        ensures
            b == run_from(self@, r as int, c as int, (d.0 as int, d.1 as int), len as int),
    {
        let stone = self.get(r, c);
        let ghost di = (d.0 as int, d.1 as int);
        let mut s: usize = 0;
        while s < len
            invariant
                self.wf(),
                s <= len,
                on_board(self@, r as int, c as int),
                stone == self@[r as int][c as int],
                stone != Piece::Empty,
                di == (d.0 as int, d.1 as int),
                forall|t: int|
                    0 <= t < s ==> {
                        let q = #[trigger] ray(r as int, c as int, di, t);
                        on_board(self@, q.0, q.1) && self@[q.0][q.1] == stone
                    },
            decreases len - s,
        {
            match self.ray_cell(r, c, d, s) {
                Some(q) => {
                    if self.get(q.0, q.1) != stone {
                        proof {
                            let q = ray(r as int, c as int, di, s as int);
                            assert(!(on_board(self@, q.0, q.1) && self@[q.0][q.1] == stone));
                        }
                        return false;
                    }
                },
                None => {
                    proof {
                        let q = ray(r as int, c as int, di, s as int);
                        assert(!on_board(self@, q.0, q.1));
                    }
                    return false;
                },
            }
            s += 1;
        }
        true
    }

    /// Whether a run of `len` stones of one side starts at `(r, c)`.
    pub fn run_starts(&self, r: usize, c: usize, len: usize) -> (b: bool)
        requires
            self.wf(),
        ensures
            b == run_starts_at(self@, r as int, c as int, len as int),
    {
        if r >= self.size || c >= self.size {
            return false;
        }
        if self.get(r, c) == Piece::Empty {
            return false;
        }
        self.run_in_direction(r, c, line_at(0), len) || self.run_in_direction(r, c, line_at(1), len)
            || self.run_in_direction(r, c, line_at(2), len) || self.run_in_direction(
            r,
            c,
            line_at(3),
            len,
        )
    }

    /// The first cell, reading row by row, at which a run of `len` stones of
    /// one side starts, if there is such a run.
    pub fn find_run(&self, len: usize) -> (found: Option<(usize, usize)>)
        requires
            self.wf(),
        ensures
            match found {
                Some(p) => first_run_at(self@, p.0 as int, p.1 as int, len as int),
                None => !has_run(self@, len as int),
            },
    {
        let mut row: usize = 0;
        while row < self.size
            invariant
                self.wf(),
                row <= self.size,
                forall|i: int, j: int|
                    i < row ==> !#[trigger] run_starts_at(self@, i, j, len as int),
            decreases self.size - row,
        {
            let mut col: usize = 0;
            while col < self.size
                invariant
                    self.wf(),
                    row < self.size,
                    col <= self.size,
                    forall|i: int, j: int|
                        precedes(i, j, row as int, col as int) ==> !#[trigger] run_starts_at(
                            self@,
                            i,
                            j,
                            len as int,
                        ),
                decreases self.size - col,
            {
                if self.run_starts(row, col, len) {
                    return Some((row, col));
                }
                col += 1;
            }
            row += 1;
        }
        None
    }
}

} // verus!

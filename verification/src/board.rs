//! The board: a square grid of cells, each empty or holding one side's stone.

use crate::cells::{
    lemma_put_vacancies, lemma_vacancies, on_board, put, row_vacancies, square, vacancies,
    vacancies_upto, vacancy_delta, vacant,
};
use crate::grid::{grid_rows, Grid};
use vstd::prelude::*;

verus! {

/// What a cell holds: nothing, or a stone of one of up to four sides.
#[derive(Clone, Copy, PartialEq, Eq, Debug, Structural)]
pub enum Piece {
    Empty,
    Black,
    White,
    Red,
    Green,
}

/// Why a move was refused.
#[derive(Clone, Copy, PartialEq, Eq, Debug, Structural)]
pub enum MoveError {
    /// The coordinate lies outside the board.
    OutOfBounds,
    /// The target cell already holds a stone.
    CellOccupied,
    /// The game has already ended.
    GameAlreadyOver,
}

impl MoveError {
    /// The text that describes the refusal.
    pub open spec fn text(self) -> Seq<char> {
        match self {
            MoveError::OutOfBounds => "Position out of bounds"@,
            MoveError::CellOccupied => "Position already occupied"@,
            MoveError::GameAlreadyOver => "Game is already over"@,
        }
    }

    /// A sentence that describes the refusal.
    pub fn message(&self) -> (s: String)
        ensures
            s@ == self.text(),
    {
        match self {
            MoveError::OutOfBounds => "Position out of bounds".to_string(),
            MoveError::CellOccupied => "Position already occupied".to_string(),
            MoveError::GameAlreadyOver => "Game is already over".to_string(),
        }
    }
}

/// Why a stone may not be placed at `(r, c)`, if it may not.
pub open spec fn refusal(cells: Seq<Seq<Piece>>, r: int, c: int) -> Option<MoveError> {
    if !on_board(cells, r, c) {
        Some(MoveError::OutOfBounds)
    } else if cells[r][c] != Piece::Empty {
        Some(MoveError::CellOccupied)
    } else {
        None
    }
}

/// The number that stands for a piece in the grid.
pub open spec fn code_of(p: Piece) -> i8 {
    match p {
        Piece::Empty => 0,
        Piece::Black => 1,
        Piece::White => 2,
        Piece::Red => 3,
        Piece::Green => 4,
    }
}

/// The piece that a number in the grid stands for. A number that stands for
/// no colour is read as an empty cell.
pub open spec fn piece_for(code: i8) -> Piece {
    if code == 1 {
        Piece::Black
    } else if code == 2 {
        Piece::White
    } else if code == 3 {
        Piece::Red
    } else if code == 4 {
        Piece::Green
    } else {
        Piece::Empty
    }
}

/// The pieces that the numbers in a grid stand for.
pub open spec fn pieces(rows: Seq<Seq<i8>>) -> Seq<Seq<Piece>> {
    Seq::new(rows.len(), |r: int| Seq::new(rows[r].len(), |c: int| piece_for(rows[r][c])))
}

/// The number that stands for `p` in the grid.
fn encode(p: Piece) -> (code: i8)
    ensures
        code == code_of(p),
        piece_for(code) == p,
{
    match p {
        Piece::Empty => 0,
        Piece::Black => 1,
        Piece::White => 2,
        Piece::Red => 3,
        Piece::Green => 4,
    }
}

/// The piece that `code` stands for.
fn decode(code: i8) -> (p: Piece)
    ensures
        p == piece_for(code),
{
    if code == 1 {
        Piece::Black
    } else if code == 2 {
        Piece::White
    } else if code == 3 {
        Piece::Red
    } else if code == 4 {
        Piece::Green
    } else {
        Piece::Empty
    }
}

/// Replacing a number in the grid replaces the piece that it stands for.
proof fn lemma_pieces_put(rows: Seq<Seq<i8>>, r: int, c: int, p: Piece)
    requires
        0 <= r < rows.len(),
        0 <= c < rows[r].len(),
    ensures
        pieces(put(rows, r, c, code_of(p))) == put(pieces(rows), r, c, p),
{
    let got = pieces(put(rows, r, c, code_of(p)));
    let want = put(pieces(rows), r, c, p);
    assert(got.len() == want.len());
    assert forall|i: int| 0 <= i < got.len() implies #[trigger] got[i] == want[i] by {
        assert(got[i] =~= want[i]);
    }
    assert(got =~= want);
}

/// A stone may be placed at `(r, c)`: the cell exists and is empty.
pub open spec fn legal(cells: Seq<Seq<Piece>>, r: int, c: int) -> bool {
    vacant(cells, r, c, Piece::Empty)
}

/// A grid of `n` by `n` cells that are all empty.
pub open spec fn empty_grid(n: nat) -> Seq<Seq<Piece>> {
    Seq::new(n, |r: int| Seq::new(n, |c: int| Piece::Empty))
}

/// No cell of `cells` is empty.
pub open spec fn full(cells: Seq<Seq<Piece>>) -> bool {
    forall|r: int, c: int| on_board(cells, r, c) ==> (#[trigger] cells[r][c]) != Piece::Empty
}

/// Every cell where a stone may be placed, in row-major order.
pub open spec fn legal_moves(cells: Seq<Seq<Piece>>) -> Seq<(usize, usize)> {
    vacancies(cells, Piece::Empty)
}

/// How many cells of `cells` are empty.
pub open spec fn empty_count(cells: Seq<Seq<Piece>>) -> nat {
    legal_moves(cells).len()
}

/// What placing `p` on a cell that held `was` adds to the number of empty cells.
pub open spec fn empty_delta(was: Piece, p: Piece) -> int {
    vacancy_delta(was, p, Piece::Empty)
}

/// A square grid of cells with its side length. The grid holds a small
/// number for each piece.
pub struct Board {
    pub size: usize,
    pub grid: Grid,
}

impl View for Board {
    type V = Seq<Seq<Piece>>;

    open spec fn view(&self) -> Seq<Seq<Piece>> {
        pieces(grid_rows(self.grid))
    }
}

/// The side length of a board when none is asked for.
pub const DEFAULT_SIZE: usize = 19;

impl Default for Board {
    /// An empty board of the usual size, 19 by 19 cells.
    fn default() -> (b: Board)
        ensures
            b.wf(),
            b.size == DEFAULT_SIZE,
            b@ == empty_grid(DEFAULT_SIZE as nat),
    {
        Board::new(DEFAULT_SIZE)
    }
}

impl Clone for Board {
    /// An independent copy of the board.
    fn clone(&self) -> (b: Board)
        ensures
            b.size == self.size,
            b@ == self@,
    {
        Board { size: self.size, grid: self.grid.copy() }
    }
}

impl Board {
    /// The grid has `size` rows of `size` cells.
    pub open spec fn wf(&self) -> bool {
        self@.len() == self.size && square(self@)
    }

    /// Whether the board is well formed: whether the grid has `size` rows of
    /// `size` cells.
    pub fn is_valid(&self) -> (b: bool)
        ensures
            b == self.wf(),
    {
        let shape = self.grid.shape();
        proof {
            if shape.0 > 0 {
                assert(self@[0].len() == grid_rows(self.grid)[0].len());
            }
        }
        shape.0 == self.size && (shape.0 == 0 || shape.1 == self.size)
    }

    /// An empty board of `size` by `size` cells.
    pub fn new(size: usize) -> (b: Board)
        requires
            size * size <= isize::MAX,
        ensures
            b.wf(),
            b.size == size,
            b@ == empty_grid(size as nat),
    {
        let board = Board { size, grid: Grid::filled(size, 0) };
        proof {
            assert forall|r: int| 0 <= r < size implies #[trigger] board@[r] == empty_grid(
                size as nat,
            )[r] by {
                assert(board@[r] =~= empty_grid(size as nat)[r]);
            }
            assert(board@ =~= empty_grid(size as nat));
        }
        board
    }

    /// The piece at `(r, c)`.
    pub fn get(&self, r: usize, c: usize) -> (p: Piece)
        requires
            self.wf(),
            on_board(self@, r as int, c as int),
        ensures
            p == self@[r as int][c as int],
    {
        decode(self.grid.at(r, c))
    }

    /// Overwrites the cell at `(r, c)` with `p`, whatever it held. Meant for
    /// setting up positions: no rule of the game is consulted.
    pub fn set(&mut self, r: usize, c: usize, p: Piece)
        requires
            old(self).wf(),
            on_board(old(self)@, r as int, c as int),
        ensures
            final(self).wf(),
            final(self).size == old(self).size,
            final(self)@ == put(old(self)@, r as int, c as int, p),
    {
        proof {
            lemma_pieces_put(grid_rows(self.grid), r as int, c as int, p);
        }
        self.grid.put(r, c, encode(p));
    }

    /// Whether `(r, c)` names a cell of the board.
    pub fn is_on_board(&self, r: usize, c: usize) -> (b: bool)
        requires
            self.wf(),
        ensures
            b == on_board(self@, r as int, c as int),
    {
        r < self.size && c < self.size
    }

    /// Whether a stone may be placed at `(r, c)`.
    pub fn is_legal(&self, r: usize, c: usize) -> (b: bool)
        requires
            self.wf(),
        ensures
            b == legal(self@, r as int, c as int),
    {
        r < self.size && c < self.size && self.get(r, c) == Piece::Empty
    }

    /// Places a stone of `side` at `(r, c)` if that is legal, and changes
    /// nothing otherwise.
    pub fn place(&mut self, r: usize, c: usize, side: Piece) -> (res: Result<(), MoveError>)
        requires
            old(self).wf(),
        ensures
            final(self).wf(),
            final(self).size == old(self).size,
            match res {
                Ok(_) => legal(old(self)@, r as int, c as int) && final(self)@ == put(
                    old(self)@,
                    r as int,
                    c as int,
                    side,
                ),
                Err(e) => refusal(old(self)@, r as int, c as int) == Some(e) && *final(self)
                    == *old(self),
            },
    {
        if r >= self.size || c >= self.size {
            return Err(MoveError::OutOfBounds);
        }
        if self.get(r, c) != Piece::Empty {
            return Err(MoveError::CellOccupied);
        }
        self.set(r, c, side);
        Ok(())
    }

    /// Whether no cell is empty.
    pub fn is_full(&self) -> (b: bool)
        requires
            self.wf(),
        ensures
            b == full(self@),
    {
        let mut row: usize = 0;
        while row < self.size
            invariant
                self.wf(),
                row <= self.size,
                forall|r: int, c: int|
                    0 <= r < row && 0 <= c < self.size ==> (#[trigger] self@[r][c]) != Piece::Empty,
            decreases self.size - row,
        {
            let mut col: usize = 0;
            while col < self.size
                invariant
                    self.wf(),
                    row < self.size,
                    col <= self.size,
                    forall|r: int, c: int|
                        0 <= r < row && 0 <= c < self.size ==> (#[trigger] self@[r][c])
                            != Piece::Empty,
                    forall|c: int| 0 <= c < col ==> (#[trigger] self@[row as int][c]) != Piece::Empty,
                decreases self.size - col,
            {
                if self.get(row, col) == Piece::Empty {
                    return false;
                }
                col += 1;
            }
            row += 1;
        }
        true
    }

    /// A copy of the cells, row by row, top row first.
    pub fn snapshot(&self) -> (rows: Vec<Vec<Piece>>)
        requires
            self.wf(),
        ensures
            rows.len() == self.size,
            forall|r: int| 0 <= r < self.size ==> (#[trigger] rows@[r])@ == self@[r],
    {
        let mut rows: Vec<Vec<Piece>> = Vec::new();
        let mut row: usize = 0;
        while row < self.size
            invariant
                self.wf(),
                row <= self.size,
                rows.len() == row,
                forall|r: int| 0 <= r < row ==> (#[trigger] rows@[r])@ == self@[r],
            decreases self.size - row,
        {
            let mut cells: Vec<Piece> = Vec::new();
            let mut col: usize = 0;
            while col < self.size
                invariant
                    self.wf(),
                    row < self.size,
                    col <= self.size,
                    cells@ == self@[row as int].take(col as int),
                decreases self.size - col,
            {
                cells.push(self.get(row, col));
                proof {
                    assert(cells@ =~= self@[row as int].take(col + 1));
                }
                col += 1;
            }
            proof {
                assert(self@[row as int].take(self.size as int) =~= self@[row as int]);
            }
            rows.push(cells);
            row += 1;
        }
        rows
    }

    /// Every cell where a stone may be placed, in row-major order.
    pub fn get_moves(&self) -> (moves: Vec<(usize, usize)>)
        requires
            self.wf(),
        ensures
            moves@ == legal_moves(self@),
    {
        let mut moves: Vec<(usize, usize)> = Vec::new();
        let mut row: usize = 0;
        while row < self.size
            invariant
                self.wf(),
                row <= self.size,
                moves@ == vacancies_upto(self@, row as int, Piece::Empty),
            decreases self.size - row,
        {
            let mut col: usize = 0;
            while col < self.size
                invariant
                    self.wf(),
                    row < self.size,
                    col <= self.size,
                    moves@ == vacancies_upto(self@, row as int, Piece::Empty) + row_vacancies(
                        self@[row as int],
                        row as int,
                        col as int,
                        Piece::Empty,
                    ),
                decreases self.size - col,
            {
                if self.get(row, col) == Piece::Empty {
                    moves.push((row, col));
                }
                col += 1;
            }
            row += 1;
        }
        moves
    }
}

/// The enumeration of moves lists exactly the legal placements: every entry
/// is legal, and every legal placement is an entry.
pub proof fn lemma_legal_moves(cells: Seq<Seq<Piece>>)
    requires
        square(cells),
        cells.len() <= usize::MAX,
    ensures
        forall|i: int|
            0 <= i < legal_moves(cells).len() ==> legal(
                cells,
                (#[trigger] legal_moves(cells)[i]).0 as int,
                legal_moves(cells)[i].1 as int,
            ),
        forall|r: int, c: int|
            legal(cells, r, c) ==> legal_moves(cells).contains((r as usize, c as usize)),
        full(cells) <==> empty_count(cells) == 0,
{
    lemma_vacancies(cells, Piece::Empty);
    assert forall|r: int, c: int| legal(cells, r, c) implies legal_moves(cells).contains(
        (r as usize, c as usize),
    ) by {
        assert(vacant(cells, r, c, Piece::Empty));
    }
    if empty_count(cells) > 0 {
        let m = legal_moves(cells)[0];
        assert(legal(cells, m.0 as int, m.1 as int));
    }
    if !full(cells) {
        let (r, c) = choose|r: int, c: int| on_board(cells, r, c) && cells[r][c] == Piece::Empty;
        assert(legal(cells, r, c));
        assert(legal_moves(cells).contains((r as usize, c as usize)));
    }
}

/// Replacing the piece in one cell changes the number of empty cells by
/// `empty_delta` and keeps the grid square.
pub proof fn lemma_put_empty_count(cells: Seq<Seq<Piece>>, r: int, c: int, p: Piece)
    requires
        square(cells),
        on_board(cells, r, c),
    ensures
        square(put(cells, r, c, p)),
        put(cells, r, c, p).len() == cells.len(),
        empty_count(put(cells, r, c, p)) == empty_count(cells) + empty_delta(cells[r][c], p),
{
    lemma_put_vacancies(cells, r, c, p, Piece::Empty);
}

} // verus!

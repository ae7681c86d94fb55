//! The game for two sides on a board of 19 by 19 cells, with the cells held
//! as numbers: zero for an empty cell, `1` and `-1` for the stones of the two
//! sides.

use crate::board::MoveError;
use crate::capture::{
    cell_along, direction, direction_at, lemma_ray_steps_apart, lemma_rays_apart, ray,
};
use crate::cells::{
    lemma_put_vacancies, lemma_vacancies, on_board, put, row_vacancies, square, vacancies,
    vacancies_upto, vacant,
};
use crate::grid::{grid_rows, Grid};
use crate::lines::{line, line_at};
use crate::rng::random_below;
use rand::rngs::StdRng;
use vstd::prelude::*;

verus! {

/// The side length of the board.
pub const BOARD_SIZE: u8 = 19;

/// The pairs taken that win the game, and the stones in a row that do.
pub const TO_WIN: u8 = 5;

/// Seen from `(r, c)` in direction `d`, the next two cells hold stones of the
/// opponent of `player` and the cell behind them holds a stone of `player`.
/// All three cells must lie on the board.
pub open spec fn stones_flanked(cells: Seq<Seq<i8>>, r: int, c: int, d: (int, int), player: i8) -> bool {
    let a = ray(r, c, d, 1);
    let b = ray(r, c, d, 2);
    let t = ray(r, c, d, 3);
    &&& on_board(cells, a.0, a.1)
    &&& on_board(cells, b.0, b.1)
    &&& on_board(cells, t.0, t.1)
    &&& cells[t.0][t.1] == player
    &&& cells[a.0][a.1] == -player
    &&& cells[b.0][b.1] == -player
}

/// The cell `(i, j)` is one of the two flanked cells in direction number `k`.
pub open spec fn stone_hit(cells: Seq<Seq<i8>>, r: int, c: int, player: i8, k: int, i: int, j: int) -> bool {
    &&& stones_flanked(cells, r, c, direction(k), player)
    &&& (i, j) == ray(r, c, direction(k), 1) || (i, j) == ray(r, c, direction(k), 2)
}

/// The stone at `(i, j)` is taken when `player` has just played at `(r, c)`,
/// looking only at the first `upto` directions.
pub open spec fn stone_taken_within(
    cells: Seq<Seq<i8>>,
    r: int,
    c: int,
    player: i8,
    upto: int,
    i: int,
    j: int,
) -> bool {
    exists|k: int| 0 <= k < upto && #[trigger] stone_hit(cells, r, c, player, k, i, j)
}

/// In how many of the first `upto` directions a pair is flanked.
pub open spec fn stones_flank_count(cells: Seq<Seq<i8>>, r: int, c: int, player: i8, upto: int) -> nat
    decreases upto,
{
    if upto <= 0 {
        0
    } else {
        stones_flank_count(cells, r, c, player, upto - 1) + if stones_flanked(
            cells,
            r,
            c,
            direction(upto - 1),
            player,
        ) {
            1nat
        } else {
            0nat
        }
    }
}

/// The number of flanked pairs is at most the number of directions looked at.
pub proof fn lemma_stones_flank_count_bound(
    cells: Seq<Seq<i8>>,
    r: int,
    c: int,
    player: i8,
    upto: int,
)
    requires
        0 <= upto,
    ensures
        stones_flank_count(cells, r, c, player, upto) <= upto,
    decreases upto,
{
    if upto > 0 {
        lemma_stones_flank_count_bound(cells, r, c, player, upto - 1);
    }
}

/// The board once the pairs that `player` takes by having just played at
/// `(r, c)` are removed: taken cells hold zero, every other cell is as it was.
pub open spec fn after_stone_captures(cells: Seq<Seq<i8>>, r: int, c: int, player: i8) -> Seq<
    Seq<i8>,
> {
    Seq::new(
        cells.len(),
        |i: int|
            Seq::new(
                cells[i].len(),
                |j: int|
                    if stone_taken_within(cells, r, c, player, 8, i, j) {
                        0i8
                    } else {
                        cells[i][j]
                    },
            ),
    )
}

/// The board after `player` plays at `(r, c)` and the captures are made.
pub open spec fn after_stone_move(cells: Seq<Seq<i8>>, r: int, c: int, player: i8) -> Seq<Seq<i8>> {
    after_stone_captures(put(cells, r, c, player), r, c, player)
}

/// How many pairs `player` takes by playing at `(r, c)`.
pub open spec fn stones_taken(cells: Seq<Seq<i8>>, r: int, c: int, player: i8) -> nat {
    stones_flank_count(put(cells, r, c, player), r, c, player, 8)
}

/// Only stones of the opponent are taken: every cell either holds what it
/// held before the captures, or held a stone of the opponent of `player` and
/// is empty now. A stone of `player` itself is never removed.
pub proof fn lemma_stone_captures_take_opponents_only(
    cells: Seq<Seq<i8>>,
    r: int,
    c: int,
    player: i8,
)
    requires
        square(cells),
    ensures
        forall|i: int, j: int|
            on_board(cells, i, j) ==> {
                let now = #[trigger] after_stone_captures(cells, r, c, player)[i][j];
                now == cells[i][j] || (cells[i][j] == -player && now == 0)
            },
        forall|i: int, j: int|
            on_board(cells, i, j) && cells[i][j] == player ==> (#[trigger] after_stone_captures(
                cells,
                r,
                c,
                player,
            )[i][j]) == player,
{
    assert forall|i: int, j: int| on_board(cells, i, j) implies {
        let now = #[trigger] after_stone_captures(cells, r, c, player)[i][j];
        now == cells[i][j] || (cells[i][j] == -player && now == 0)
    } by {
        if stone_taken_within(cells, r, c, player, 8, i, j) {
            let k = choose|k: int| 0 <= k < 8 && #[trigger] stone_hit(cells, r, c, player, k, i, j);
            assert(stone_hit(cells, r, c, player, k, i, j));
        }
    }
}

/// Where only direction number `k` can be flanked among the first `upto`,
/// the count is one or zero according to that direction alone.
pub proof fn lemma_stones_flank_count_single(
    cells: Seq<Seq<i8>>,
    r: int,
    c: int,
    player: i8,
    k: int,
    upto: int,
)
    requires
        0 <= upto <= 8,
        forall|o: int|
            0 <= o < 8 && o != k ==> !stones_flanked(cells, r, c, #[trigger] direction(o), player),
    ensures
        stones_flank_count(cells, r, c, player, upto) == (if 0 <= k < upto && stones_flanked(
            cells,
            r,
            c,
            direction(k),
            player,
        ) {
            1nat
        } else {
            0nat
        }),
    decreases upto,
{
    if upto > 0 {
        lemma_stones_flank_count_single(cells, r, c, player, k, upto - 1);
        if upto - 1 != k {
            assert(!stones_flanked(cells, r, c, direction(upto - 1), player));
        }
    }
}

/// Capture of exactly one pair: when `player` has played at `(r, c)` and two
/// stones of the opponent followed by a stone of `player` are found in
/// direction number `k` and in no other, precisely the two flanked stones
/// leave the board and precisely one pair is counted.
pub proof fn lemma_single_stone_pair_capture(
    cells: Seq<Seq<i8>>,
    r: int,
    c: int,
    player: i8,
    k: int,
)
    requires
        square(cells),
        0 <= k < 8,
        stones_flanked(cells, r, c, direction(k), player),
        forall|o: int|
            0 <= o < 8 && o != k ==> !stones_flanked(cells, r, c, #[trigger] direction(o), player),
    ensures
        stones_flank_count(cells, r, c, player, 8) == 1,
        ({
            let a = ray(r, c, direction(k), 1);
            let b = ray(r, c, direction(k), 2);
            after_stone_captures(cells, r, c, player) == put(
                put(cells, a.0, a.1, 0i8),
                b.0,
                b.1,
                0i8,
            )
        }),
{
    lemma_stones_flank_count_single(cells, r, c, player, k, 8);
    let a = ray(r, c, direction(k), 1);
    let b = ray(r, c, direction(k), 2);
    let got = after_stone_captures(cells, r, c, player);
    let want = put(put(cells, a.0, a.1, 0i8), b.0, b.1, 0i8);
    assert(stone_hit(cells, r, c, player, k, a.0, a.1));
    assert(stone_hit(cells, r, c, player, k, b.0, b.1));
    assert(got.len() == want.len());
    assert forall|i: int| 0 <= i < got.len() implies #[trigger] got[i] == want[i] by {
        assert(got[i].len() == want[i].len());
        assert forall|j: int| 0 <= j < got[i].len() implies got[i][j] == want[i][j] by {
            if stone_taken_within(cells, r, c, player, 8, i, j) {
                let kk = choose|kk: int|
                    0 <= kk < 8 && #[trigger] stone_hit(cells, r, c, player, kk, i, j);
                assert(stone_hit(cells, r, c, player, kk, i, j));
                if kk != k {
                    assert(!stones_flanked(cells, r, c, direction(kk), player));
                }
            }
        }
        assert(got[i] =~= want[i]);
    }
    assert(got =~= want);
}

/// No cell holds zero.
pub open spec fn no_zero(cells: Seq<Seq<i8>>) -> bool {
    forall|r: int, c: int| on_board(cells, r, c) ==> (#[trigger] cells[r][c]) != 0
}

/// The five cells that start at `(r, c)` and follow direction `d` are on the
/// board and hold stones of `player`.
pub open spec fn five_from(cells: Seq<Seq<i8>>, r: int, c: int, d: (int, int), player: i8) -> bool {
    forall|t: int|
        0 <= t < TO_WIN ==> {
            let q = #[trigger] ray(r, c, d, t);
            on_board(cells, q.0, q.1) && cells[q.0][q.1] == player
        }
}

/// The direction opposite to `d`.
pub open spec fn reverse(d: (int, int)) -> (int, int) {
    (-d.0, -d.1)
}

/// Five stones of `player` in a row lie on the line through `(r, c)` with
/// direction `d`, and `(r, c)` is one of the five cells: the row starts at
/// most four cells behind `(r, c)`.
pub open spec fn five_through(cells: Seq<Seq<i8>>, r: int, c: int, d: (int, int), player: i8) -> bool {
    exists|back: int|
        0 <= back < TO_WIN && {
            let start = #[trigger] ray(r, c, reverse(d), back);
            five_from(cells, start.0, start.1, d, player)
        }
}

/// Five stones of `player` in a row pass through `(r, c)` in one of the four
/// orientations.
pub open spec fn five_at(cells: Seq<Seq<i8>>, r: int, c: int, player: i8) -> bool {
    ||| five_through(cells, r, c, line(0), player)
    ||| five_through(cells, r, c, line(1), player)
    ||| five_through(cells, r, c, line(2), player)
    ||| five_through(cells, r, c, line(3), player)
}

/// How a game has ended.
#[derive(Clone, Copy, PartialEq, Eq, Debug, Structural)]
pub enum Ending {
    /// Side `-1` has taken five pairs.
    FirstSideByPairs,
    /// Side `1` has taken five pairs.
    SecondSideByPairs,
    /// The board is full.
    Draw,
    /// The side that moved last has five stones in a row.
    Row,
}

/// How the game has ended once `player` has played at `(r, c)`, if it has,
/// with `first` and `second` the pairs taken by side `-1` and by side `1`.
/// The conditions in their order: side `-1` has taken five pairs; side `1`
/// has; the board is full; five stones of `player` in a row pass through
/// `(r, c)`.
pub open spec fn ending_of(
    cells: Seq<Seq<i8>>,
    first: u8,
    second: u8,
    r: int,
    c: int,
    player: i8,
) -> Option<Ending> {
    if first >= TO_WIN {
        Some(Ending::FirstSideByPairs)
    } else if second >= TO_WIN {
        Some(Ending::SecondSideByPairs)
    } else if no_zero(cells) {
        Some(Ending::Draw)
    } else if five_at(cells, r, c, player) {
        Some(Ending::Row)
    } else {
        None
    }
}

/// Whether the game is over once `player` has played at `(r, c)`.
pub open spec fn game_done(
    cells: Seq<Seq<i8>>,
    first: u8,
    second: u8,
    r: int,
    c: int,
    player: i8,
) -> bool {
    ending_of(cells, first, second, r, c, player) is Some
}

/// Why a stone may not be placed at `(r, c)`, if it may not.
pub open spec fn stone_refusal(cells: Seq<Seq<i8>>, r: int, c: int) -> Option<MoveError> {
    if !on_board(cells, r, c) {
        Some(MoveError::OutOfBounds)
    } else if cells[r][c] != 0 {
        Some(MoveError::CellOccupied)
    } else {
        None
    }
}

/// Whether a pair is flanked in a direction does not depend on what the
/// cell that is played holds, so a stone takes as many pairs as are flanked
/// around its cell before it is placed.
pub proof fn lemma_stones_taken_before_placing(
    cells: Seq<Seq<i8>>,
    r: int,
    c: int,
    player: i8,
    v: i8,
    upto: int,
)
    requires
        square(cells),
        on_board(cells, r, c),
        0 <= upto <= 8,
    ensures
        stones_flank_count(put(cells, r, c, v), r, c, player, upto) == stones_flank_count(
            cells,
            r,
            c,
            player,
            upto,
        ),
    decreases upto,
{
    if upto > 0 {
        lemma_stones_taken_before_placing(cells, r, c, player, v, upto - 1);
    }
}

/// How many pairs a side with `pairs` pairs still lacks to be one short of
/// winning by captures.
pub open spec fn pairs_short(pairs: u8) -> int {
    if pairs < TO_WIN {
        TO_WIN - 1 - pairs
    } else {
        0
    }
}

/// The game for two sides: the board, its side length, the side to move
/// (`1` or `-1`) and the pairs taken by either side.
pub struct Pente {
    pub board: Grid,
    pub size: u8,
    pub current_player: i8,
    pub player_1_pairs: u8,
    pub player_2_pairs: u8,
}

impl View for Pente {
    type V = Seq<Seq<i8>>;

    open spec fn view(&self) -> Seq<Seq<i8>> {
        grid_rows(self.board)
    }
}

impl Clone for Pente {
    /// An independent copy of the game.
    fn clone(&self) -> (g: Pente)
        ensures
            g@ == self@,
            g.size == self.size,
            g.current_player == self.current_player,
            g.player_1_pairs == self.player_1_pairs,
            g.player_2_pairs == self.player_2_pairs,
    {
        Pente {
            board: self.board.copy(),
            size: self.size,
            current_player: self.current_player,
            player_1_pairs: self.player_1_pairs,
            player_2_pairs: self.player_2_pairs,
        }
    }
}

impl Pente {
    /// The grid has `size` rows of `size` cells.
    pub open spec fn grid_ok(&self) -> bool {
        self@.len() == self.size && square(self@)
    }

    /// The grid has `size` rows of `size` cells and the side to move is `1`
    /// or `-1`.
    pub open spec fn wf(&self) -> bool {
        self.grid_ok() && (self.current_player == 1 || self.current_player == -1)
    }

    /// `other` is the same position: the same board, side to move and pairs.
    pub open spec fn same_as(&self, other: Pente) -> bool {
        &&& self@ == other@
        &&& self.size == other.size
        &&& self.current_player == other.current_player
        &&& self.player_1_pairs == other.player_1_pairs
        &&& self.player_2_pairs == other.player_2_pairs
    }

    /// A fresh game: an empty board, side `1` to move, no pair taken.
    pub open spec fn fresh(&self) -> bool {
        &&& self.size == BOARD_SIZE
        &&& self.current_player == 1
        &&& self.player_1_pairs == 0
        &&& self.player_2_pairs == 0
    }

    /// Whether the game is over once the side to move has played at `(r, c)`.
    pub open spec fn done_at(&self, r: int, c: int) -> bool {
        game_done(self@, self.player_1_pairs, self.player_2_pairs, r, c, self.current_player)
    }

    /// The pairs taken so far by the side to move: the first tally for side
    /// `-1`, the second for side `1`.
    pub open spec fn tally_of_mover(&self) -> u8 {
        if self.current_player == -1 {
            self.player_1_pairs
        } else {
            self.player_2_pairs
        }
    }

    /// `after` is this game one move later, the move being a stone of the
    /// side to move at `(r, c)`, and `done` tells whether the game is over
    /// then: the cell was empty, the stone is placed and the pairs it takes
    /// are removed and counted for the mover, and the turn has passed to the
    /// other side unless the game is over.
    pub open spec fn step_to(self, r: int, c: int, after: Pente, done: bool) -> bool {
        let p = self.current_player;
        &&& vacant(self@, r, c, 0i8)
        &&& after@ == after_stone_move(self@, r, c, p)
        &&& after.size == self.size
        &&& after.player_1_pairs == self.player_1_pairs + (if p == -1 {
            stones_taken(self@, r, c, p)
        } else {
            0
        })
        &&& after.player_2_pairs == self.player_2_pairs + (if p == 1 {
            stones_taken(self@, r, c, p)
        } else {
            0
        })
        &&& done == game_done(after@, after.player_1_pairs, after.player_2_pairs, r, c, p)
        &&& after.current_player == (if done {
            p as int
        } else {
            -p
        })
    }

    /// `after` is this game one legal move later.
    pub open spec fn one_step_to(self, after: Pente, done: bool) -> bool {
        exists|r: int, c: int| #[trigger] self.step_to(r, c, after, done)
    }

    /// Whatever empty cell the side to move plays, its tally can take the
    /// pairs that the stone captures.
    pub open spec fn any_move_fits(self) -> bool {
        forall|r: int, c: int|
            vacant(self@, r, c, 0i8) ==> self.tally_of_mover() + #[trigger] stones_taken(
                self@,
                r,
                c,
                self.current_player,
            ) <= u8::MAX
    }

    /// A bound on the moves that the game can still take.
    pub open spec fn moves_bound(&self) -> int {
        vacancies(self@, 0i8).len() + 2 * (pairs_short(self.player_1_pairs) + pairs_short(
            self.player_2_pairs,
        ))
    }

    /// Whether the grid has `size` rows of `size` cells.
    pub fn grid_is_valid(&self) -> (b: bool)
        ensures
            b == self.grid_ok(),
    {
        let shape = self.board.shape();
        let n: usize = self.size as usize;
        proof {
            if shape.0 > 0 {
                assert(self@[0].len() == shape.1);
            }
        }
        shape.0 == n && (shape.0 == 0 || shape.1 == n)
    }

    /// Whether the game is well formed.
    pub fn is_valid(&self) -> (b: bool)
        ensures
            b == self.wf(),
    {
        self.grid_is_valid() && (self.current_player == 1 || self.current_player == -1)
    }

    /// A new game on an empty board of 19 by 19 cells, side `1` to move.
    pub fn new() -> (g: Pente)
        ensures
            g.wf(),
            g.fresh(),
            g@ == Seq::new(BOARD_SIZE as nat, |r: int| Seq::new(BOARD_SIZE as nat, |c: int| 0i8)),
    {
        Pente {
            board: Grid::zeros(19),
            size: BOARD_SIZE,
            current_player: 1,
            player_1_pairs: 0,
            player_2_pairs: 0,
        }
    }

    /// A new game; the game on which this is called is left as it is.
    pub fn reset(&mut self) -> (g: Pente)
        ensures
            *final(self) == *old(self),
            g.wf(),
            g.fresh(),
            g@ == Seq::new(BOARD_SIZE as nat, |r: int| Seq::new(BOARD_SIZE as nat, |c: int| 0i8)),
    {
        Pente::new()
    }

    /// A new game on the position in `board`, of which the first 19 rows and
    /// the first 19 cells of each are taken. The game on which this is
    /// called is left as it is.
    pub fn new_from_board(&mut self, board: Vec<Vec<i8>>) -> (g: Pente)
        requires
            board.len() >= BOARD_SIZE,
            forall|r: int| 0 <= r < BOARD_SIZE ==> (#[trigger] board@[r]).len() >= BOARD_SIZE,
        ensures
            *final(self) == *old(self),
            g.wf(),
            g.fresh(),
            forall|r: int, c: int|
                0 <= r < BOARD_SIZE && 0 <= c < BOARD_SIZE ==> (#[trigger] g@[r][c])
                    == board@[r]@[c],
    {
        let mut grid = Grid::zeros(19);
        let mut row: usize = 0;
        while row < 19
            invariant
                row <= 19,
                grid_rows(grid).len() == 19,
                square(grid_rows(grid)),
                board.len() >= BOARD_SIZE,
                forall|r: int| 0 <= r < BOARD_SIZE ==> (#[trigger] board@[r]).len() >= BOARD_SIZE,
                forall|r: int, c: int|
                    0 <= r < row && 0 <= c < 19 ==> (#[trigger] grid_rows(grid)[r][c])
                        == board@[r]@[c],
            decreases 19 - row,
        {
            let mut col: usize = 0;
            while col < 19
                invariant
                    row < 19,
                    col <= 19,
                    grid_rows(grid).len() == 19,
                    square(grid_rows(grid)),
                    board.len() >= BOARD_SIZE,
                    forall|r: int|
                        0 <= r < BOARD_SIZE ==> (#[trigger] board@[r]).len() >= BOARD_SIZE,
                    forall|r: int, c: int|
                        0 <= r < row && 0 <= c < 19 ==> (#[trigger] grid_rows(grid)[r][c])
                            == board@[r]@[c],
                    forall|c: int|
                        0 <= c < col ==> (#[trigger] grid_rows(grid)[row as int][c])
                            == board@[row as int]@[c],
                decreases 19 - col,
            {
                assert(board@[row as int].len() >= BOARD_SIZE);
                let v = board[row][col];
                proof {
                    lemma_put_vacancies(grid_rows(grid), row as int, col as int, v, 0i8);
                }
                grid.put(row, col, v);
                col += 1;
            }
            row += 1;
        }
        Pente {
            board: grid,
            size: BOARD_SIZE,
            current_player: 1,
            player_1_pairs: 0,
            player_2_pairs: 0,
        }
    }

    /// What the cell at `(row, col)` holds.
    pub fn get(&self, row: usize, col: usize) -> (v: i8)
        requires
            self.grid_ok(),
            on_board(self@, row as int, col as int),
        ensures
            v == self@[row as int][col as int],
    {
        self.board.at(row, col)
    }

    /// Overwrites the cell at `(row, col)` with `val`, whatever it held.
    /// Meant for setting up positions: no rule of the game is consulted.
    pub fn set(&mut self, row: usize, col: usize, val: i8)
        requires
            old(self).grid_ok(),
            on_board(old(self)@, row as int, col as int),
        ensures
            final(self).grid_ok(),
            final(self)@ == put(old(self)@, row as int, col as int, val),
            final(self).size == old(self).size,
            final(self).current_player == old(self).current_player,
            final(self).player_1_pairs == old(self).player_1_pairs,
            final(self).player_2_pairs == old(self).player_2_pairs,
    {
        self.board.put(row, col, val);
    }

    /// The side length of the board.
    pub fn size(&self) -> (n: u8)
        ensures
            n == self.size,
    {
        self.size
    }

    /// Whether no cell is empty.
    pub fn is_full(&self) -> (b: bool)
        requires
            self.grid_ok(),
        ensures
            b == no_zero(self@),
    {
        let n: usize = self.size as usize;
        let mut row: usize = 0;
        while row < n
            invariant
                self.grid_ok(),
                n == self.size,
                row <= n,
                forall|r: int, c: int| 0 <= r < row && 0 <= c < n ==> (#[trigger] self@[r][c]) != 0,
            decreases n - row,
        {
            let mut col: usize = 0;
            while col < n
                invariant
                    self.grid_ok(),
                    n == self.size,
                    row < n,
                    col <= n,
                    forall|r: int, c: int|
                        0 <= r < row && 0 <= c < n ==> (#[trigger] self@[r][c]) != 0,
                    forall|c: int| 0 <= c < col ==> (#[trigger] self@[row as int][c]) != 0,
                decreases n - col,
            {
                if self.board.at(row, col) == 0 {
                    return false;
                }
                col += 1;
            }
            row += 1;
        }
        true
    }

    /// Whether `(row, col)` names a cell of the board.
    pub fn is_on_board(&self, row: isize, col: isize) -> (b: bool)
        requires
            self.grid_ok(),
        ensures
            b == on_board(self@, row as int, col as int),
    {
        row < self.size as isize && col < self.size as isize && row >= 0 && col >= 0
    }

    /// Whether a stone may be placed at `(row, col)`: the cell exists and
    /// is empty.
    pub fn is_valid_action(&self, row: isize, col: isize) -> (b: bool)
        requires
            self.grid_ok(),
        ensures
            b == vacant(self@, row as int, col as int, 0i8),
    {
        self.is_on_board(row, col) && self.board.at(row as usize, col as usize) == 0
    }

    /// The pairs counted for `player`: the first tally for `-1`, the second
    /// for any other number.
    pub fn get_pair_count(&self, player: i8) -> (n: u8)
        ensures
            n == (if player == -1 {
                self.player_1_pairs
            } else {
                self.player_2_pairs
            }),
    {
        if player == -1 {
            self.player_1_pairs
        } else {
            self.player_2_pairs
        }
    }

    /// Removes every pair that the side to move takes by having just played
    /// at `(row, col)`, and adds their number to that side's tally: the first
    /// tally for side `-1`, the second for side `1`.
    pub fn capture(&mut self, row: usize, col: usize)
        requires
            old(self).wf(),
            old(self).tally_of_mover() + stones_flank_count(
                old(self)@,
                row as int,
                col as int,
                old(self).current_player,
                8,
            ) <= u8::MAX,
        ensures
            final(self).wf(),
            final(self).size == old(self).size,
            final(self).current_player == old(self).current_player,
            final(self)@ == after_stone_captures(
                old(self)@,
                row as int,
                col as int,
                old(self).current_player,
            ),
            final(self).player_1_pairs == old(self).player_1_pairs + (if old(self).current_player
                == -1 {
                stones_flank_count(old(self)@, row as int, col as int, old(self).current_player, 8)
            } else {
                0
            }),
            final(self).player_2_pairs == old(self).player_2_pairs + (if old(self).current_player
                == 1 {
                stones_flank_count(old(self)@, row as int, col as int, old(self).current_player, 8)
            } else {
                0
            }),
            stones_flank_count(old(self)@, row as int, col as int, old(self).current_player, 8)
                <= 8,
            vacancies(final(self)@, 0i8).len() == vacancies(old(self)@, 0i8).len() + 2
                * stones_flank_count(
                old(self)@,
                row as int,
                col as int,
                old(self).current_player,
                8,
            ),
    {
        let player = self.current_player;
        let opponent: i8 = -player;
        let n: usize = self.size as usize;
        let ghost start = self@;
        let ghost (ri, ci) = (row as int, col as int);
        let mut count: u8 = 0;
        let mut k: usize = 0;
        while k < 8
            invariant
                k <= 8,
                count <= k,
                self.wf(),
                n == self.size,
                self.size == old(self).size,
                self.current_player == player,
                player == old(self).current_player,
                opponent == -player,
                self.player_1_pairs == old(self).player_1_pairs,
                self.player_2_pairs == old(self).player_2_pairs,
                start == old(self)@,
                start.len() == self.size,
                square(start),
                ri == row,
                ci == col,
                count == stones_flank_count(start, ri, ci, player, k as int),
                vacancies(self@, 0i8).len() == vacancies(start, 0i8).len() + 2 * count,
                forall|i: int, j: int|
                    on_board(start, i, j) ==> (#[trigger] self@[i][j]) == (if stone_taken_within(
                        start,
                        ri,
                        ci,
                        player,
                        k as int,
                        i,
                        j,
                    ) {
                        0i8
                    } else {
                        start[i][j]
                    }),
            decreases 8 - k,
        {
            let d = direction_at(k);
            let ghost before = self@;
            let ghost dk = direction(k as int);
            proof {
                assert forall|s: int, i: int, j: int|
                    1 <= s <= 3 && (i, j) == ray(ri, ci, dk, s) implies !stone_taken_within(
                    start,
                    ri,
                    ci,
                    player,
                    k as int,
                    i,
                    j,
                ) by {
                    assert forall|kk: int| 0 <= kk < k implies !#[trigger] stone_hit(
                        start,
                        ri,
                        ci,
                        player,
                        kk,
                        i,
                        j,
                    ) by {
                        lemma_rays_apart(ri, ci, kk, k as int, 1, s);
                        lemma_rays_apart(ri, ci, kk, k as int, 2, s);
                    }
                }
            }
            let ghost mut took = false;
            match (
                cell_along(row, col, d, 1, n),
                cell_along(row, col, d, 2, n),
                cell_along(row, col, d, 3, n),
            ) {
                (Some(a), Some(b), Some(t)) => {
                    let first = self.board.at(a.0, a.1);
                    let second = self.board.at(b.0, b.1);
                    let third = self.board.at(t.0, t.1);
                    if third == player && first == opponent && second == opponent {
                        proof {
                            lemma_ray_steps_apart(ri, ci, k as int, 1, 2);
                            lemma_put_vacancies(before, a.0 as int, a.1 as int, 0i8, 0i8);
                            let mid = put(before, a.0 as int, a.1 as int, 0i8);
                            assert(mid[b.0 as int][b.1 as int] == second);
                            lemma_put_vacancies(mid, b.0 as int, b.1 as int, 0i8, 0i8);
                        }
                        self.board.put(a.0, a.1, 0);
                        self.board.put(b.0, b.1, 0);
                        count += 1;
                        proof {
                            took = true;
                        }
                    }
                },
                _ => {},
            }
            proof {
                assert(took == stones_flanked(start, ri, ci, dk, player));
                assert forall|i: int, j: int| on_board(start, i, j) implies (
                #[trigger] self@[i][j]) == (if stone_taken_within(
                    start,
                    ri,
                    ci,
                    player,
                    k as int + 1,
                    i,
                    j,
                ) {
                    0i8
                } else {
                    start[i][j]
                }) by {
                    if stone_taken_within(start, ri, ci, player, k as int, i, j) {
                        let kk = choose|kk: int|
                            0 <= kk < k && #[trigger] stone_hit(start, ri, ci, player, kk, i, j);
                        assert(stone_hit(start, ri, ci, player, kk, i, j));
                    }
                    if stone_hit(start, ri, ci, player, k as int, i, j) {
                        assert(self@[i][j] == 0);
                    } else {
                        assert(self@[i][j] == before[i][j]);
                    }
                }
            }
            k += 1;
        }
        proof {
            let want = after_stone_captures(start, ri, ci, player);
            assert(self@.len() == want.len());
            assert forall|i: int| 0 <= i < self@.len() implies #[trigger] self@[i] == want[i] by {
                assert(self@[i].len() == want[i].len());
                assert forall|j: int| 0 <= j < self@[i].len() implies self@[i][j] == want[i][j] by {
                    assert(on_board(start, i, j));
                }
                assert(self@[i] =~= want[i]);
            }
            assert(self@ =~= want);
        }
        if player == -1 {
            self.player_1_pairs = self.player_1_pairs + count;
        } else {
            self.player_2_pairs = self.player_2_pairs + count;
        }
    }

    /// Places a stone of the side to move at `(row, col)` if that is an
    /// empty cell of the board, and changes nothing otherwise.
    pub fn place(&mut self, row: usize, col: usize) -> (res: Result<(), MoveError>)
        requires
            old(self).grid_ok(),
        ensures
            final(self).grid_ok(),
            final(self).size == old(self).size,
            final(self).current_player == old(self).current_player,
            final(self).player_1_pairs == old(self).player_1_pairs,
            final(self).player_2_pairs == old(self).player_2_pairs,
            match res {
                Ok(_) => vacant(old(self)@, row as int, col as int, 0i8) && final(self)@ == put(
                    old(self)@,
                    row as int,
                    col as int,
                    old(self).current_player,
                ),
                Err(e) => stone_refusal(old(self)@, row as int, col as int) == Some(e)
                    && *final(self) == *old(self),
            },
    {
        let n: usize = self.size as usize;
        if row >= n || col >= n {
            return Err(MoveError::OutOfBounds);
        }
        if self.board.at(row, col) != 0 {
            return Err(MoveError::CellOccupied);
        }
        proof {
            lemma_put_vacancies(self@, row as int, col as int, self.current_player, 0i8);
        }
        self.board.put(row, col, self.current_player);
        Ok(())
    }

    /// How many pairs are flanked around `(row, col)` for the side to move:
    /// the pairs that a stone of that side at `(row, col)` takes.
    pub fn pairs_at(&self, row: usize, col: usize) -> (n: u8)
        requires
            self.grid_ok(),
        ensures
            n == stones_flank_count(self@, row as int, col as int, self.current_player, 8),
            n <= 8,
            on_board(self@, row as int, col as int) ==> n == stones_taken(
                self@,
                row as int,
                col as int,
                self.current_player,
            ),
    {
        let player = self.current_player;
        let n: usize = self.size as usize;
        let mut count: u8 = 0;
        let mut k: usize = 0;
        while k < 8
            invariant
                k <= 8,
                count <= k,
                self.grid_ok(),
                n == self.size,
                player == self.current_player,
                count == stones_flank_count(self@, row as int, col as int, player, k as int),
            decreases 8 - k,
        {
            let d = direction_at(k);
            match (
                cell_along(row, col, d, 1, n),
                cell_along(row, col, d, 2, n),
                cell_along(row, col, d, 3, n),
            ) {
                (Some(a), Some(b), Some(t)) => {
                    let first = self.board.at(a.0, a.1);
                    let second = self.board.at(b.0, b.1);
                    let third = self.board.at(t.0, t.1);
                    if third == player && player != i8::MIN && first == -player && second
                        == -player {
                        count += 1;
                    }
                },
                _ => {},
            }
            k += 1;
        }
        proof {
            if on_board(self@, row as int, col as int) {
                lemma_stones_taken_before_placing(
                    self@,
                    row as int,
                    col as int,
                    player,
                    player,
                    8,
                );
            }
        }
        count
    }

    /// Whether the tally of the side to move can take the pairs of whatever
    /// stone that side plays next.
    pub fn any_move_fits_now(&self) -> (b: bool)
        requires
            self.grid_ok(),
        ensures
            b == self.any_move_fits(),
    {
        let tally = self.get_pair_count(self.current_player);
        let moves = self.get_valid_actions();
        proof {
            lemma_vacancies(self@, 0i8);
        }
        let mut i: usize = 0;
        while i < moves.len()
            invariant
                i <= moves.len(),
                self.grid_ok(),
                tally == self.tally_of_mover(),
                moves@ == vacancies(self@, 0i8),
                forall|k: int|
                    0 <= k < moves.len() ==> vacant(
                        self@,
                        (#[trigger] moves@[k]).0 as int,
                        moves@[k].1 as int,
                        0i8,
                    ),
                forall|k: int|
                    0 <= k < i ==> tally + stones_taken(
                        self@,
                        (#[trigger] moves@[k]).0 as int,
                        moves@[k].1 as int,
                        self.current_player,
                    ) <= u8::MAX,
            decreases moves.len() - i,
        {
            let m = moves[i];
            let n = self.pairs_at(m.0, m.1);
            if n > u8::MAX - tally {
                proof {
                    assert(vacant(self@, m.0 as int, m.1 as int, 0i8));
                }
                return false;
            }
            i += 1;
        }
        proof {
            assert forall|r: int, c: int| vacant(self@, r, c, 0i8) implies tally
                + #[trigger] stones_taken(self@, r, c, self.current_player) <= u8::MAX by {
                assert(moves@.contains((r as usize, c as usize)));
                let k = choose|k: int|
                    0 <= k < moves@.len() && moves@[k] == (r as usize, c as usize);
                assert(moves@[k].0 as int == r && moves@[k].1 as int == c);
            }
        }
        true
    }

    /// Whether the five cells that start `back` cells behind `(row, col)`
    /// and follow direction `d` all hold stones of the side to move.
    fn five_starting(&self, row: usize, col: usize, d: (i8, i8), back: usize) -> (b: bool)
        requires
            self.grid_ok(),
            -1 <= d.0 <= 1,
            -1 <= d.1 <= 1,
        ensures
            b == ({
                let di = (d.0 as int, d.1 as int);
                let start = ray(row as int, col as int, reverse(di), back as int);
                five_from(self@, start.0, start.1, di, self.current_player)
            }),
    {
        let n: usize = self.size as usize;
        let behind: (i8, i8) = (-d.0, -d.1);
        let ghost di = (d.0 as int, d.1 as int);
        let ghost origin = ray(row as int, col as int, reverse(di), back as int);
        match cell_along(row, col, behind, back, n) {
            None => {
                proof {
                    let q = ray(origin.0, origin.1, di, 0);
                    assert(q == origin);
                    assert(!on_board(self@, q.0, q.1));
                }
                false
            },
            Some(start) => {
                let mut t: usize = 0;
                while t < 5
                    invariant
                        t <= 5,
                        self.grid_ok(),
                        n == self.size,
                        di == (d.0 as int, d.1 as int),
                        origin == (start.0 as int, start.1 as int),
                        origin == ray(row as int, col as int, reverse(di), back as int),
                        forall|s: int|
                            0 <= s < t ==> {
                                let q = #[trigger] ray(origin.0, origin.1, di, s);
                                on_board(self@, q.0, q.1) && self@[q.0][q.1] == self.current_player
                            },
                    decreases 5 - t,
                {
                    match cell_along(start.0, start.1, d, t, n) {
                        Some(q) => {
                            if self.board.at(q.0, q.1) != self.current_player {
                                proof {
                                    let q = ray(origin.0, origin.1, di, t as int);
                                    assert(!(on_board(self@, q.0, q.1) && self@[q.0][q.1]
                                        == self.current_player));
                                }
                                return false;
                            }
                        },
                        None => {
                            proof {
                                let q = ray(origin.0, origin.1, di, t as int);
                                assert(!on_board(self@, q.0, q.1));
                            }
                            return false;
                        },
                    }
                    t += 1;
                }
                true
            },
        }
    }

    /// Whether five stones of the side to move in a row lie on the line
    /// through `(row, col)` with direction `d` and include that cell.
    fn five_on_line(&self, row: usize, col: usize, d: (i8, i8)) -> (b: bool)
        requires
            self.grid_ok(),
            -1 <= d.0 <= 1,
            -1 <= d.1 <= 1,
        ensures
            b == five_through(
                self@,
                row as int,
                col as int,
                (d.0 as int, d.1 as int),
                self.current_player,
            ),
    {
        let ghost di = (d.0 as int, d.1 as int);
        let mut back: usize = 0;
        while back < 5
            invariant
                back <= 5,
                self.grid_ok(),
                -1 <= d.0 <= 1,
                -1 <= d.1 <= 1,
                di == (d.0 as int, d.1 as int),
                forall|s: int|
                    0 <= s < back ==> {
                        let start = #[trigger] ray(row as int, col as int, reverse(di), s);
                        !five_from(self@, start.0, start.1, di, self.current_player)
                    },
            decreases 5 - back,
        {
            if self.five_starting(row, col, d, back) {
                proof {
                    let start = ray(row as int, col as int, reverse(di), back as int);
                    assert(five_from(self@, start.0, start.1, di, self.current_player));
                }
                return true;
            }
            back += 1;
        }
        false
    }

    /// How the game has ended once the side to move has played at
    /// `(row, col)`, if it has ended.
    pub fn ending(&self, row: usize, col: usize) -> (e: Option<Ending>)
        requires
            self.grid_ok(),
        ensures
            e == ending_of(
                self@,
                self.player_1_pairs,
                self.player_2_pairs,
                row as int,
                col as int,
                self.current_player,
            ),
    {
        if self.player_1_pairs >= TO_WIN {
            return Some(Ending::FirstSideByPairs);
        }
        if self.player_2_pairs >= TO_WIN {
            return Some(Ending::SecondSideByPairs);
        }
        if self.is_full() {
            return Some(Ending::Draw);
        }
        if self.five_on_line(row, col, line_at(0)) || self.five_on_line(row, col, line_at(1))
            || self.five_on_line(row, col, line_at(2)) || self.five_on_line(row, col, line_at(3)) {
            Some(Ending::Row)
        } else {
            None
        }
    }

    /// Whether the game is over once the side to move has played at
    /// `(row, col)`: whether it has an ending.
    pub fn is_done(&self, row: usize, col: usize) -> (b: bool)
        requires
            self.grid_ok(),
        ensures
            b == self.done_at(row as int, col as int),
            b == (ending_of(
                self@,
                self.player_1_pairs,
                self.player_2_pairs,
                row as int,
                col as int,
                self.current_player,
            ) is Some),
    {
        match self.ending(row, col) {
            Some(_) => true,
            None => false,
        }
    }

    /// Every cell where a stone may be placed, in row-major order.
    pub fn get_valid_actions(&self) -> (moves: Vec<(usize, usize)>)
        requires
            self.grid_ok(),
        ensures
            moves@ == vacancies(self@, 0i8),
    {
        let n: usize = self.size as usize;
        let mut moves: Vec<(usize, usize)> = Vec::new();
        let mut row: usize = 0;
        while row < n
            invariant
                self.grid_ok(),
                n == self.size,
                row <= n,
                moves@ == vacancies_upto(self@, row as int, 0i8),
            decreases n - row,
        {
            let mut col: usize = 0;
            while col < n
                invariant
                    self.grid_ok(),
                    n == self.size,
                    row < n,
                    col <= n,
                    moves@ == vacancies_upto(self@, row as int, 0i8) + row_vacancies(
                        self@[row as int],
                        row as int,
                        col as int,
                        0i8,
                    ),
                decreases n - col,
            {
                if self.board.at(row, col) == 0 {
                    moves.push((row, col));
                }
                col += 1;
            }
            row += 1;
        }
        moves
    }

    /// Makes the move `(row, col)` for the side to move: places the stone,
    /// removes the pairs it takes, and judges the position. While the game
    /// goes on, the turn passes to the other side. Returns a copy of the
    /// position reached, the side that made the last move of the game (zero
    /// while the game goes on), and whether the game is over. A move to a
    /// cell that is off the board or occupied is refused and changes nothing.
    pub fn step(&mut self, row: usize, col: usize) -> (res: Result<(Pente, i8, bool), MoveError>)
        requires
            old(self).wf(),
            vacant(old(self)@, row as int, col as int, 0i8) ==> old(self).tally_of_mover()
                + stones_taken(old(self)@, row as int, col as int, old(self).current_player)
                <= u8::MAX,
        ensures
            final(self).wf(),
            final(self).size == old(self).size,
            match res {
                Ok(s) => {
                    &&& old(self).step_to(row as int, col as int, *final(self), s.2)
                    &&& s.0.same_as(*final(self))
                    &&& s.1 == (if s.2 {
                        old(self).current_player
                    } else {
                        0
                    })
                    &&& !s.2 ==> final(self).moves_bound() == old(self).moves_bound() - 1
                    &&& final(self).moves_bound() >= 0
                },
                Err(e) => stone_refusal(old(self)@, row as int, col as int) == Some(e)
                    && *final(self) == *old(self),
            },
    {
        match self.place(row, col) {
            Err(e) => Err(e),
            Ok(_) => {
                proof {
                    lemma_put_vacancies(
                        old(self)@,
                        row as int,
                        col as int,
                        old(self).current_player,
                        0i8,
                    );
                }
                self.capture(row, col);
                if self.is_done(row, col) {
                    Ok((self.clone(), self.current_player, true))
                } else {
                    self.current_player = -self.current_player;
                    Ok((self.clone(), 0, false))
                }
            },
        }
    }

    /// Plays the game to its end with moves drawn at random from the legal
    /// ones, and returns what `step` returned for each move, in order. At
    /// least one move is made, so the board must have an empty cell.
    pub fn play_random_game(&mut self, rng: &mut StdRng) -> (states: Vec<(Pente, i8, bool)>)
        requires
            old(self).wf(),
            !no_zero(old(self)@),
            old(self).any_move_fits(),
        ensures
            final(self).wf(),
            final(self).size == old(self).size,
            states.len() >= 1,
            old(self).one_step_to(states@[0].0, states@[0].2),
            forall|i: int|
                #![trigger states@[i]]
                0 <= i < states.len() - 1 ==> states@[i].0.one_step_to(
                    states@[i + 1].0,
                    states@[i + 1].2,
                ),
            forall|i: int|
                0 <= i < states.len() - 1 ==> !(#[trigger] states@[i]).2 && states@[i].1 == 0,
            states@[states.len() - 1].2,
            states@[states.len() - 1].0.same_as(*final(self)),
            states@[states.len() - 1].1 == final(self).current_player,
            exists|r: int, c: int| #[trigger] final(self).done_at(r, c),
    {
        let mut states: Vec<(Pente, i8, bool)> = Vec::new();
        let mut done = false;
        let ghost mut last_move: (int, int) = (0, 0);
        while !done
            invariant
                self.wf(),
                self.size == old(self).size,
                !done ==> !no_zero(self@),
                !done ==> self.any_move_fits(),
                self.moves_bound() >= 0 || states.len() == 0,
                done ==> states.len() >= 1,
                states.len() == 0 ==> self.same_as(*old(self)),
                states.len() >= 1 ==> old(self).one_step_to(states@[0].0, states@[0].2),
                forall|i: int|
                    #![trigger states@[i]]
                    0 <= i < states.len() - 1 ==> states@[i].0.one_step_to(
                        states@[i + 1].0,
                        states@[i + 1].2,
                    ),
                forall|i: int|
                    0 <= i < states.len() - 1 ==> !(#[trigger] states@[i]).2 && states@[i].1 == 0,
                states.len() >= 1 ==> states@[states.len() - 1].2 == done,
                states.len() >= 1 && !done ==> states@[states.len() - 1].1 == 0,
                states.len() >= 1 ==> states@[states.len() - 1].0.same_as(*self),
                done ==> states@[states.len() - 1].1 == self.current_player,
                done ==> self.done_at(last_move.0, last_move.1),
            decreases (if done { 0 } else { self.moves_bound() + 1 }),
        {
            let valid_actions = self.get_valid_actions();
            proof {
                lemma_vacancies(self@, 0i8);
                if valid_actions.len() == 0 {
                    assert forall|r: int, c: int| on_board(self@, r, c) implies (
                    #[trigger] self@[r][c]) != 0 by {
                        if self@[r][c] == 0 {
                            assert(vacant(self@, r, c, 0i8));
                            assert(vacancies(self@, 0i8).contains((r as usize, c as usize)));
                        }
                    }
                }
            }
            let pick = random_below(rng, valid_actions.len());
            let action = valid_actions[pick];
            let ghost before = *self;
            let ghost count = states.len();
            proof {
                assert(vacant(self@, action.0 as int, action.1 as int, 0i8));
            }
            let stepped = self.step(action.0, action.1);
            assert(stepped is Ok);
            if let Ok(res) = stepped {
                done = res.2;
                proof {
                    last_move = (action.0 as int, action.1 as int);
                    assert(before.step_to(last_move.0, last_move.1, res.0, res.2));
                    if count == 0 {
                        assert(old(self).step_to(last_move.0, last_move.1, res.0, res.2));
                    } else {
                        assert(states@[count - 1].0.step_to(
                            last_move.0,
                            last_move.1,
                            res.0,
                            res.2,
                        ));
                    }
                    if !done {
                        assert forall|r: int, c: int| vacant(self@, r, c, 0i8) implies
                            self.tally_of_mover() + #[trigger] stones_taken(
                            self@,
                            r,
                            c,
                            self.current_player,
                        ) <= u8::MAX by {
                            lemma_stones_flank_count_bound(
                                put(self@, r, c, self.current_player),
                                r,
                                c,
                                self.current_player,
                                8,
                            );
                        }
                    }
                }
                states.push(res);
            }
        }
        states
    }

    /// The board as rows of cells, top row first.
    pub fn get_board(&self) -> (board: Vec<Vec<i8>>)
        requires
            self.grid_ok(),
        ensures
            board.len() == self.size,
            forall|r: int| 0 <= r < self.size ==> (#[trigger] board@[r])@ == self@[r],
    {
        let n: usize = self.size as usize;
        let mut board: Vec<Vec<i8>> = Vec::new();
        let mut row: usize = 0;
        while row < n
            invariant
                self.grid_ok(),
                n == self.size,
                row <= n,
                board.len() == row,
                forall|r: int| 0 <= r < row ==> (#[trigger] board@[r])@ == self@[r],
            decreases n - row,
        {
            let mut board_row: Vec<i8> = Vec::new();
            let mut col: usize = 0;
            while col < n
                invariant
                    self.grid_ok(),
                    n == self.size,
                    row < n,
                    col <= n,
                    board_row@ == self@[row as int].take(col as int),
                decreases n - col,
            {
                board_row.push(self.board.at(row, col));
                proof {
                    assert(board_row@ =~= self@[row as int].take(col + 1));
                }
                col += 1;
            }
            proof {
                assert(self@[row as int].take(n as int) =~= self@[row as int]);
            }
            board.push(board_row);
            row += 1;
        }
        board
    }
}

} // verus!

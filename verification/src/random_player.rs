//! A player that moves at random, and the numbering of the sides.

use crate::board::{full, legal, lemma_legal_moves, refusal, Board, Piece};
use crate::capture::{after_captures, after_move, capture_count, pairs_taken};
use crate::cells::on_board;
use crate::game::Game;
use crate::rng::random_below;
use rand::rngs::StdRng;
use vstd::prelude::*;

verus! {

/// The stone colour of side number `id`: the four colours in turn.
pub open spec fn piece_of(id: int) -> Piece {
    if id % 4 == 0 {
        Piece::Black
    } else if id % 4 == 1 {
        Piece::White
    } else if id % 4 == 2 {
        Piece::Red
    } else {
        Piece::Green
    }
}

/// The number of the side that plays stones of colour `piece`.
pub open spec fn side_of(piece: Piece) -> int {
    match piece {
        Piece::Black => 0,
        Piece::White => 1,
        Piece::Red => 2,
        Piece::Green => 3,
        Piece::Empty => 0,
    }
}

/// The stone colour of side number `id`.
pub fn get_piece_by_id(id: usize) -> (piece: Piece)
    ensures
        piece == piece_of(id as int),
        piece != Piece::Empty,
{
    let k: usize = id % 4;
    if k == 0 {
        Piece::Black
    } else if k == 1 {
        Piece::White
    } else if k == 2 {
        Piece::Red
    } else {
        Piece::Green
    }
}

/// The number of the side that plays stones of colour `piece`. An empty cell
/// belongs to no side.
pub fn get_piece_id(piece: &Piece) -> (id: usize)
    requires
        *piece != Piece::Empty,
    ensures
        id == side_of(*piece),
        id < 4,
        piece_of(id as int) == *piece,
{
    match piece {
        Piece::Black => 0,
        Piece::White => 1,
        Piece::Red => 2,
        _ => 3,
    }
}

/// A player that chooses its moves at random.
#[derive(Clone, Copy, PartialEq, Eq, Debug)]
pub struct RandomPlayer {
    pub id: usize,
    pub piece_type: Piece,
    pub captured_pairs: usize,
}

impl RandomPlayer {
    /// A player with the given number and colour that has taken no pair yet.
    pub fn new(id: usize, piece_type: Piece) -> (p: RandomPlayer)
        ensures
            p.id == id,
            p.piece_type == piece_type,
            p.captured_pairs == 0,
    {
        RandomPlayer { id, piece_type, captured_pairs: 0 }
    }

    /// Plays a stone of this player at `(x, y)` and adds the pairs it takes
    /// to the player's tally. An illegal placement is refused with a message
    /// and changes neither the board nor the player.
    pub fn act(&mut self, board: &mut Board, x: usize, y: usize) -> (res: Result<(), String>)
        requires
            old(board).wf(),
            legal(old(board)@, x as int, y as int) ==> old(self).captured_pairs + pairs_taken(
                old(board)@,
                x as int,
                y as int,
                old(self).piece_type,
            ) <= usize::MAX,
        ensures
            final(board).wf(),
            final(board).size == old(board).size,
            final(self).id == old(self).id,
            final(self).piece_type == old(self).piece_type,
            match res {
                Ok(_) => {
                    &&& legal(old(board)@, x as int, y as int)
                    &&& final(board)@ == after_move(
                        old(board)@,
                        x as int,
                        y as int,
                        old(self).piece_type,
                    )
                    &&& final(self).captured_pairs == old(self).captured_pairs + pairs_taken(
                        old(board)@,
                        x as int,
                        y as int,
                        old(self).piece_type,
                    )
                },
                Err(msg) => {
                    &&& refusal(old(board)@, x as int, y as int) is Some
                    &&& msg@ == refusal(old(board)@, x as int, y as int).unwrap().text()
                    &&& *final(board) == *old(board)
                    &&& *final(self) == *old(self)
                },
            },
    {
        match board.play(x, y, self.piece_type) {
            Ok(n) => {
                self.captured_pairs = self.captured_pairs + n;
                Ok(())
            },
            Err(e) => Err(e.message()),
        }
    }

    /// Whether the cell at `(x, y)` holds a stone of this player.
    pub fn owns_piece(&self, board: &Board, x: usize, y: usize) -> (b: bool)
        requires
            board.wf(),
            on_board(board@, x as int, y as int),
        ensures
            b == (board@[x as int][y as int] == self.piece_type),
    {
        board.get(x, y) == self.piece_type
    }

    /// Removes the pairs that this player takes by having just played at
    /// `(x, y)` and adds their number to the player's tally.
    pub fn capture(&mut self, board: &mut Board, x: usize, y: usize)
        requires
            old(board).wf(),
            old(self).captured_pairs + capture_count(
                old(board)@,
                x as int,
                y as int,
                old(self).piece_type,
            ) <= usize::MAX,
        ensures
            final(board).wf(),
            final(board).size == old(board).size,
            final(self).id == old(self).id,
            final(self).piece_type == old(self).piece_type,
            final(board)@ == after_captures(old(board)@, x as int, y as int, old(self).piece_type),
            final(self).captured_pairs == old(self).captured_pairs + capture_count(
                old(board)@,
                x as int,
                y as int,
                old(self).piece_type,
            ),
    {
        let n = board.apply_captures(x, y, self.piece_type);
        self.captured_pairs = self.captured_pairs + n;
    }

    /// Chooses a move in `game`: one of the legal moves, drawn at random.
    pub fn think(&self, game: Game, rng: &mut StdRng) -> (choice: (usize, usize))
        requires
            game.board.wf(),
            !full(game.board@),
        ensures
            legal(game.board@, choice.0 as int, choice.1 as int),
    {
        let moves = game.board.get_moves();
        proof {
            lemma_legal_moves(game.board@);
        }
        let pick = random_below(rng, moves.len());
        moves[pick]
    }
}

} // verus!

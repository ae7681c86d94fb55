//! What every player can do, whatever way it chooses its moves.

use crate::alphabetaplayer::AlphaBetaPlayer;
use crate::board::{legal, refusal, Board, Piece};
use crate::capture::{after_move, pairs_taken};
use crate::game::{lemma_ongoing, Game, CAPTURE_THRESHOLD, WIN_LENGTH};
use crate::mcts_player::MCTSPlayer;
use crate::random_player::RandomPlayer;
use rand::rngs::StdRng;
use vstd::prelude::*;

verus! {

/// A player: it has a number, a colour and a tally of pairs taken, it can
/// play a stone, and it can choose a move.
pub trait PlayerBehavior {
    /// The player's number.
    spec fn ident(&self) -> usize;

    /// The colour of the player's stones.
    spec fn colour(&self) -> Piece;

    /// The pairs that the player has taken.
    spec fn pairs(&self) -> usize;

    /// Plays a stone of this player at `(x, y)` and adds the pairs it takes
    /// to the player's tally. An illegal placement is refused with a message
    /// and changes neither the board nor the player.
    fn act(&mut self, board: &mut Board, x: usize, y: usize) -> (res: Result<(), String>)
        requires
            old(board).wf(),
            legal(old(board)@, x as int, y as int) ==> old(self).pairs() + pairs_taken(
                old(board)@,
                x as int,
                y as int,
                old(self).colour(),
            ) <= usize::MAX,
        ensures
            final(board).wf(),
            final(board).size == old(board).size,
            final(self).ident() == old(self).ident(),
            final(self).colour() == old(self).colour(),
            match res {
                Ok(_) => {
                    &&& legal(old(board)@, x as int, y as int)
                    &&& final(board)@ == after_move(
                        old(board)@,
                        x as int,
                        y as int,
                        old(self).colour(),
                    )
                    &&& final(self).pairs() == old(self).pairs() + pairs_taken(
                        old(board)@,
                        x as int,
                        y as int,
                        old(self).colour(),
                    )
                },
                Err(msg) => {
                    &&& refusal(old(board)@, x as int, y as int) is Some
                    &&& msg@ == refusal(old(board)@, x as int, y as int).unwrap().text()
                    &&& *final(board) == *old(board)
                    &&& final(self).pairs() == old(self).pairs()
                },
            },
    ;

    /// Chooses a legal move in a game that is not over.
    fn think(&self, game: &Game, rng: &mut StdRng) -> (choice: (usize, usize))
        requires
            game.wf(),
            !game.outcome().is_game_over,
        ensures
            legal(game.board@, choice.0 as int, choice.1 as int),
    ;

    /// The player's number.
    fn get_id(&self) -> (id: usize)
        ensures
            id == self.ident(),
    ;

    /// Gives the player another number.
    fn set_id(&mut self, id: usize)
        ensures
            final(self).ident() == id,
            final(self).colour() == old(self).colour(),
            final(self).pairs() == old(self).pairs(),
    ;

    /// The pairs that the player has taken.
    fn get_capture_count(&self) -> (count: usize)
        ensures
            count == self.pairs(),
    ;

    /// Sets the player's tally of pairs taken.
    fn set_capture_count(&mut self, count: usize)
        ensures
            final(self).pairs() == count,
            final(self).ident() == old(self).ident(),
            final(self).colour() == old(self).colour(),
    ;
}

impl PlayerBehavior for RandomPlayer {
    open spec fn ident(&self) -> usize {
        self.id
    }

    open spec fn colour(&self) -> Piece {
        self.piece_type
    }

    open spec fn pairs(&self) -> usize {
        self.captured_pairs
    }

    fn act(&mut self, board: &mut Board, x: usize, y: usize) -> (res: Result<(), String>) {
        RandomPlayer::act(self, board, x, y)
    }

    fn think(&self, game: &Game, rng: &mut StdRng) -> (choice: (usize, usize)) {
        proof {
            lemma_ongoing(
                game.players@,
                game.board@,
                WIN_LENGTH as int,
                CAPTURE_THRESHOLD as int,
            );
        }
        RandomPlayer::think(self, game.clone(), rng)
    }

    fn get_id(&self) -> (id: usize) {
        self.id
    }

    fn set_id(&mut self, id: usize) {
        self.id = id;
    }

    fn get_capture_count(&self) -> (count: usize) {
        self.captured_pairs
    }

    fn set_capture_count(&mut self, count: usize) {
        self.captured_pairs = count;
    }
}

impl PlayerBehavior for MCTSPlayer {
    open spec fn ident(&self) -> usize {
        self.id
    }

    open spec fn colour(&self) -> Piece {
        self.piece_type
    }

    open spec fn pairs(&self) -> usize {
        self.captured_pairs
    }

    fn act(&mut self, board: &mut Board, x: usize, y: usize) -> (res: Result<(), String>) {
        MCTSPlayer::act(self, board, x, y)
    }

    fn think(&self, game: &Game, rng: &mut StdRng) -> (choice: (usize, usize)) {
        MCTSPlayer::think(self, game.clone(), rng)
    }

    fn get_id(&self) -> (id: usize) {
        self.id
    }

    fn set_id(&mut self, id: usize) {
        self.id = id;
    }

    fn get_capture_count(&self) -> (count: usize) {
        self.captured_pairs
    }

    fn set_capture_count(&mut self, count: usize) {
        self.captured_pairs = count;
    }
}

impl PlayerBehavior for AlphaBetaPlayer {
    open spec fn ident(&self) -> usize {
        self.id
    }

    open spec fn colour(&self) -> Piece {
        self.piece_type
    }

    open spec fn pairs(&self) -> usize {
        self.captured_pairs
    }

    fn act(&mut self, board: &mut Board, x: usize, y: usize) -> (res: Result<(), String>) {
        AlphaBetaPlayer::act(self, board, x, y)
    }

    fn think(&self, game: &Game, rng: &mut StdRng) -> (choice: (usize, usize)) {
        proof {
            lemma_ongoing(
                game.players@,
                game.board@,
                WIN_LENGTH as int,
                CAPTURE_THRESHOLD as int,
            );
        }
        AlphaBetaPlayer::think(self, &game.board, rng)
    }

    fn get_id(&self) -> (id: usize) {
        self.id
    }

    fn set_id(&mut self, id: usize) {
        self.id = id;
    }

    fn get_capture_count(&self) -> (count: usize) {
        self.captured_pairs
    }

    fn set_capture_count(&mut self, count: usize) {
        self.captured_pairs = count;
    }
}

} // verus!

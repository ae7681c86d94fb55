//! A player that chooses its move by playing random games to the end.

use crate::board::{legal, legal_moves, lemma_legal_moves, refusal, Board, Piece};
use crate::capture::{after_captures, after_move, capture_count, pairs_taken};
use crate::cells::on_board;
use crate::game::{
    count_wins, counts_for, lemma_tally_uniform, moved, playouts, standing, wins_for, Game,
    GameOutcome, Position,
};
use rand::rngs::StdRng;
use vstd::prelude::*;

verus! {

/// `i` is the first position of the highest score in `scores`.
pub open spec fn first_best(scores: Seq<usize>, i: int) -> bool {
    &&& 0 <= i < scores.len()
    &&& forall|j: int| 0 <= j < scores.len() ==> scores[j] <= scores[i]
    &&& forall|j: int| 0 <= j < i ==> scores[j] < scores[i]
}

/// The candidate with the highest score; among candidates with the same
/// score, the one that comes first.
pub fn best_move(moves: &Vec<(usize, usize)>, scores: &Vec<usize>) -> (best: (usize, usize))
    requires
        moves.len() == scores.len(),
        moves.len() > 0,
    ensures
        exists|i: int| first_best(scores@, i) && best == moves@[i],
{
    let mut best_at: usize = 0;
    let mut i: usize = 1;
    while i < scores.len()
        invariant
            1 <= i <= scores.len(),
            moves.len() == scores.len(),
            best_at < i,
            forall|j: int| 0 <= j < i ==> scores@[j] <= scores@[best_at as int],
            forall|j: int| 0 <= j < best_at ==> scores@[j] < scores@[best_at as int],
        decreases scores.len() - i,
    {
        if scores[i] > scores[best_at] {
            best_at = i;
        }
        i += 1;
    }
    proof {
        assert(first_best(scores@, best_at as int));
    }
    moves[best_at]
}

/// What `n` playouts are worth to the player with number `id` when every one
/// of them ends in `o`: all `n` if `o` is a win of that player, nothing
/// otherwise.
pub open spec fn decided_score(id: usize, o: GameOutcome, n: usize) -> int {
    if counts_for(o, id as int) {
        n as int
    } else {
        0
    }
}

/// `score` can be the number of games won by the player with number `id`
/// among `n` games played on from `start` to their ends.
pub open spec fn scored_by_playouts(start: Position, id: usize, n: usize, score: usize) -> bool {
    exists|outcomes: Seq<GameOutcome>|
        #[trigger] playouts(start, outcomes, n as int) && score == wins_for(outcomes, id as int)
}

/// `scores` can be the scores of the legal moves of `game`, in row-major
/// order, for the player with number `id` who makes `n` playouts for each
/// move: each score is the number of that player's wins among `n` games
/// played on from the position after the move. So no score is above `n`,
/// and a move that ends the game has the score that the outcome decides.
pub open spec fn scores_fit(game: Game, id: usize, n: usize, scores: Seq<usize>) -> bool {
    &&& scores.len() == legal_moves(game.board@).len()
    &&& forall|k: int|
        0 <= k < scores.len() ==> {
            let m = legal_moves(game.board@)[k];
            let after = moved(game.position(), m.0 as int, m.1 as int);
            &&& (#[trigger] scores[k]) <= n
            &&& scored_by_playouts(after, id, n, scores[k])
            &&& standing(after).is_game_over ==> scores[k] == decided_score(
                id,
                standing(after),
                n,
            )
        }
}

/// A player that scores each candidate move by random playouts.
#[derive(Clone, Copy, PartialEq, Eq, Debug)]
pub struct MCTSPlayer {
    pub piece_type: Piece,
    pub id: usize,
    pub num_rollouts: usize,
    pub captured_pairs: usize,
}

impl MCTSPlayer {
    /// A player with the given number, colour, number of playouts for each
    /// candidate move, and tally of pairs taken.
    pub fn new(id: usize, piece_type: Piece, num_rollouts: usize, captured_pairs: usize) -> (p:
        MCTSPlayer)
        ensures
            p.id == id,
            p.piece_type == piece_type,
            p.num_rollouts == num_rollouts,
            p.captured_pairs == captured_pairs,
    {
        MCTSPlayer { id, piece_type, num_rollouts, captured_pairs }
    }

    /// Plays a stone of this player at `(x, y)` and adds the pairs it takes
    /// to the player's tally. An illegal placement is refused with a message
    /// and changes neither the board nor the player.
    pub fn act(&mut self, board: &mut Board, x: usize, y: usize) -> (res: Result<(), String>)
        requires
            old(board).wf(),
            legal(old(board)@, x as int, y as int) ==> old(self).captured_pairs + pairs_taken(
                old(board)@,
                x as int,
                y as int,
                old(self).piece_type,
            ) <= usize::MAX,
        ensures
            final(board).wf(),
            final(board).size == old(board).size,
            final(self).id == old(self).id,
            final(self).piece_type == old(self).piece_type,
            final(self).num_rollouts == old(self).num_rollouts,
            match res {
                Ok(_) => {
                    &&& legal(old(board)@, x as int, y as int)
                    &&& final(board)@ == after_move(
                        old(board)@,
                        x as int,
                        y as int,
                        old(self).piece_type,
                    )
                    &&& final(self).captured_pairs == old(self).captured_pairs + pairs_taken(
                        old(board)@,
                        x as int,
                        y as int,
                        old(self).piece_type,
                    )
                },
                Err(msg) => {
                    &&& refusal(old(board)@, x as int, y as int) is Some
                    &&& msg@ == refusal(old(board)@, x as int, y as int).unwrap().text()
                    &&& *final(board) == *old(board)
                    &&& *final(self) == *old(self)
                },
            },
    {
        match board.play(x, y, self.piece_type) {
            Ok(n) => {
                self.captured_pairs = self.captured_pairs + n;
                Ok(())
            },
            Err(e) => Err(e.message()),
        }
    }

    /// Whether the cell at `(x, y)` holds a stone of this player.
    pub fn owns_piece(&self, board: &Board, x: usize, y: usize) -> (b: bool)
        requires
            board.wf(),
            on_board(board@, x as int, y as int),
        ensures
            b == (board@[x as int][y as int] == self.piece_type),
    {
        board.get(x, y) == self.piece_type
    }

    /// Removes the pairs that this player takes by having just played at
    /// `(x, y)` and adds their number to the player's tally.
    pub fn capture(&mut self, board: &mut Board, x: usize, y: usize)
        requires
            old(board).wf(),
            old(self).captured_pairs + capture_count(
                old(board)@,
                x as int,
                y as int,
                old(self).piece_type,
            ) <= usize::MAX,
        ensures
            final(board).wf(),
            final(board).size == old(board).size,
            final(self).id == old(self).id,
            final(self).piece_type == old(self).piece_type,
            final(self).num_rollouts == old(self).num_rollouts,
            final(board)@ == after_captures(old(board)@, x as int, y as int, old(self).piece_type),
            final(self).captured_pairs == old(self).captured_pairs + capture_count(
                old(board)@,
                x as int,
                y as int,
                old(self).piece_type,
            ),
    {
        let n = board.apply_captures(x, y, self.piece_type);
        self.captured_pairs = self.captured_pairs + n;
    }

    /// How many of the playouts that ended in `outcomes` this player has won.
    pub fn score(&self, outcomes: &Vec<GameOutcome>) -> (s: usize)
        ensures
            s == wins_for(outcomes@, self.id as int),
            s <= outcomes.len(),
    {
        count_wins(outcomes, self.id)
    }

    /// Chooses a move for the player whose turn it is in `game`: for every
    /// legal move, the move is made on a copy of the game and
    /// `num_rollouts` random playouts from there are tallied; the move with
    /// the most playouts won by this player is chosen, the first such move
    /// in row-major order where several are level.
    pub fn think(&self, game: Game, rng: &mut StdRng) -> (best: (usize, usize))
        requires
            game.wf(),
            !game.outcome().is_game_over,
        ensures
            legal(game.board@, best.0 as int, best.1 as int),
            exists|scores: Seq<usize>, i: int|
                scores_fit(game, self.id, self.num_rollouts, scores) && first_best(scores, i)
                    && best == legal_moves(game.board@)[i],
    {
        let moves = game.board.get_moves();
        proof {
            lemma_legal_moves(game.board@);
        }
        let mut scores: Vec<usize> = Vec::new();
        let mut i: usize = 0;
        while i < moves.len()
            invariant
                i <= moves.len(),
                scores.len() == i,
                game.wf(),
                !game.outcome().is_game_over,
                moves@ == legal_moves(game.board@),
                forall|k: int|
                    0 <= k < moves.len() ==> legal(
                        game.board@,
                        (#[trigger] moves@[k]).0 as int,
                        moves@[k].1 as int,
                    ),
                forall|k: int|
                    0 <= k < i ==> {
                        let m = moves@[k];
                        let after = moved(game.position(), m.0 as int, m.1 as int);
                        &&& (#[trigger] scores@[k]) <= self.num_rollouts
                        &&& scored_by_playouts(after, self.id, self.num_rollouts, scores@[k])
                        &&& standing(after).is_game_over ==> scores@[k] == decided_score(
                            self.id,
                            standing(after),
                            self.num_rollouts,
                        )
                    },
            decreases moves.len() - i,
        {
            let mut after = game.clone();
            let action = moves[i];
            assert(after.position() == game.position());
            let res = after.step(action);
            assert(res is Ok);
            let outcomes = after.rollout_outcomes(self.num_rollouts, rng);
            proof {
                if after.outcome().is_game_over {
                    lemma_tally_uniform(outcomes@, after.outcome(), self.id as int);
                }
                assert(playouts(after.position(), outcomes@, self.num_rollouts as int));
            }
            scores.push(self.score(&outcomes));
            i += 1;
        }
        let best = best_move(&moves, &scores);
        proof {
            let at = choose|at: int| first_best(scores@, at) && best == moves@[at];
            assert(scores_fit(game, self.id, self.num_rollouts, scores@));
            assert(first_best(scores@, at) && best == legal_moves(game.board@)[at]);
        }
        best
    }
}

} // verus!

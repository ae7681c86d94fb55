//! A player that chooses its move by a depth-limited minimax search with
//! alpha-beta pruning.

use crate::board::{
    empty_count, empty_delta, full, legal, legal_moves, lemma_legal_moves, lemma_put_empty_count,
    refusal, Board, Piece,
};
use crate::capture::{after_captures, after_move, capture_count, pairs_taken};
use crate::cells::on_board;
pub use crate::random_player::{get_piece_by_id, get_piece_id};
use crate::rng::shuffle_moves;
use rand::rngs::StdRng;
use vstd::prelude::*;

verus! {

/// How many plies the search looks ahead from each candidate move.
pub const SEARCH_DEPTH: isize = 3;

/// The score that the search gives to a position with `empties` empty cells
/// when it looks `depth` plies ahead; `fills` says whether the stones that
/// the search places occupy cells, which they do unless the searching
/// player's colour is `Empty`.
///
/// The search scores every position at its horizon with zero, and a
/// position without a legal move with the lowest score when the maximizing
/// side is to move there and the highest when the minimizing side is. So the
/// score is zero when the horizon comes before the board is full. Otherwise
/// the board fills up after `empties` plies, and the score is the one of the
/// side to move then.
pub open spec fn minimax_value(empties: nat, depth: int, maximizing: bool, fills: bool) -> int {
    if depth <= 0 {
        0
    } else if (fills && empties >= depth) || (!fills && empties > 0) {
        0
    } else if (empties % 2 == 0) == maximizing {
        isize::MIN as int
    } else {
        isize::MAX as int
    }
}

/// One ply down: a position with a legal move has the score of the positions
/// that follow it, one ply nearer to the horizon and with the other side to
/// move.
pub proof fn lemma_minimax_step(empties: nat, depth: int, maximizing: bool, fills: bool)
    requires
        depth > 0,
        empties > 0,
    ensures
        minimax_value(empties, depth, maximizing, fills) == minimax_value(
            if fills {
                (empties - 1) as nat
            } else {
                empties
            },
            depth - 1,
            !maximizing,
            fills,
        ),
{
}

/// Looking further ahead does not change the score of a position that is
/// already played out within the horizon: once the board fills up in fewer
/// plies than the search looks ahead, every greater depth gives the same
/// score. Where the stones placed fill nothing, every depth of one ply or
/// more gives the same score.
pub proof fn lemma_depth_beyond_resolution(
    empties: nat,
    depth: int,
    deeper: int,
    maximizing: bool,
    fills: bool,
)
    requires
        1 <= depth <= deeper,
        fills ==> empties < depth,
    ensures
        minimax_value(empties, deeper, maximizing, fills) == minimax_value(
            empties,
            depth,
            maximizing,
            fills,
        ),
{
}

/// A reordering of a list of moves has as many entries, and each of them is
/// one of the list.
pub proof fn lemma_reordered(before: Seq<(usize, usize)>, after: Seq<(usize, usize)>)
    requires
        after.to_multiset() == before.to_multiset(),
    ensures
        after.len() == before.len(),
        forall|i: int| 0 <= i < after.len() ==> before.contains(#[trigger] after[i]),
{
    vstd::seq_lib::to_multiset_len(before);
    vstd::seq_lib::to_multiset_len(after);
    assert forall|i: int| 0 <= i < after.len() implies before.contains(#[trigger] after[i]) by {
        assert(after.contains(after[i]));
        vstd::seq_lib::to_multiset_contains(after, after[i]);
        vstd::seq_lib::to_multiset_contains(before, after[i]);
    }
}

/// A player that searches a few plies ahead.
#[derive(Clone, Copy, PartialEq, Eq, Debug)]
pub struct AlphaBetaPlayer {
    pub id: usize,
    pub piece_type: Piece,
    pub captured_pairs: usize,
}

impl AlphaBetaPlayer {
    /// A player with the given number and colour that has taken no pair yet.
    pub fn new(id: usize, piece_type: Piece) -> (p: AlphaBetaPlayer)
        ensures
            p.id == id,
            p.piece_type == piece_type,
            p.captured_pairs == 0,
    {
        AlphaBetaPlayer { id, piece_type, captured_pairs: 0 }
    }

    /// Plays a stone of this player at `(x, y)` and adds the pairs it takes
    /// to the player's tally. An illegal placement is refused with a message
    /// and changes neither the board nor the player.
    pub fn act(&mut self, board: &mut Board, x: usize, y: usize) -> (res: Result<(), String>)
        requires
            old(board).wf(),
            legal(old(board)@, x as int, y as int) ==> old(self).captured_pairs + pairs_taken(
                old(board)@,
                x as int,
                y as int,
                old(self).piece_type,
            ) <= usize::MAX,
        ensures
            final(board).wf(),
            final(board).size == old(board).size,
            final(self).id == old(self).id,
            final(self).piece_type == old(self).piece_type,
            match res {
                Ok(_) => {
                    &&& legal(old(board)@, x as int, y as int)
                    &&& final(board)@ == after_move(
                        old(board)@,
                        x as int,
                        y as int,
                        old(self).piece_type,
                    )
                    &&& final(self).captured_pairs == old(self).captured_pairs + pairs_taken(
                        old(board)@,
                        x as int,
                        y as int,
                        old(self).piece_type,
                    )
                },
                Err(msg) => {
                    &&& refusal(old(board)@, x as int, y as int) is Some
                    &&& msg@ == refusal(old(board)@, x as int, y as int).unwrap().text()
                    &&& *final(board) == *old(board)
                    &&& *final(self) == *old(self)
                },
            },
    {
        match board.play(x, y, self.piece_type) {
            Ok(n) => {
                self.captured_pairs = self.captured_pairs + n;
                Ok(())
            },
            Err(e) => Err(e.message()),
        }
    }

    /// The score of the position on `board`, searched `depth` plies ahead
    /// between the bounds `alpha` and `beta`, with the maximizing or the
    /// minimizing side to move.
    ///
    /// Every legal move is tried on a copy of the board, in an order drawn
    /// afresh at every position, and a position stops trying moves once
    /// `beta <= alpha`. All stones tried are of this player's colour, and no
    /// capture is made on the copies. Neither the order nor the bounds have
    /// any bearing on the score: it is `minimax_value` of the number of
    /// empty cells.
    pub fn minimax(
        &self,
        board: &mut Board,
        depth: isize,
        alpha: isize,
        beta: isize,
        maximizing_player: bool,
        rng: &mut StdRng,
    ) -> (score: isize)
        requires
            old(board).wf(),
            depth >= 0,
        ensures
            *final(board) == *old(board),
            score == minimax_value(
                empty_count(old(board)@),
                depth as int,
                maximizing_player,
                self.piece_type != Piece::Empty,
            ),
        decreases depth,
    {
        if depth == 0 {
            return 0;
        }
        let ghost cells = board@;
        let ghost empties = empty_count(cells);
        let ghost fills = self.piece_type != Piece::Empty;
        let ghost below = minimax_value(
            if fills {
                (empties - 1) as nat
            } else {
                empties
            },
            depth - 1,
            !maximizing_player,
            fills,
        );
        let mut moves = board.get_moves();
        shuffle_moves(rng, &mut moves);
        proof {
            lemma_legal_moves(cells);
            lemma_reordered(legal_moves(cells), moves@);
            if empties > 0 {
                lemma_minimax_step(empties, depth as int, maximizing_player, fills);
            }
        }
        let mut alpha = alpha;
        let mut beta = beta;
        let mut best_score: isize = if maximizing_player {
            isize::MIN
        } else {
            isize::MAX
        };
        let mut pruned = false;
        let mut i: usize = 0;
        while i < moves.len() && !pruned
            invariant
                i <= moves.len(),
                board.wf(),
                *board == *old(board),
                cells == board@,
                empties == empty_count(cells),
                fills == (self.piece_type != Piece::Empty),
                depth > 0,
                moves.len() == empties,
                forall|k: int|
                    0 <= k < moves.len() ==> legal(
                        cells,
                        (#[trigger] moves@[k]).0 as int,
                        moves@[k].1 as int,
                    ),
                below == minimax_value(
                    if fills {
                        (empties - 1) as nat
                    } else {
                        empties
                    },
                    depth - 1,
                    !maximizing_player,
                    fills,
                ),
                isize::MIN <= below <= isize::MAX,
                pruned ==> i > 0,
                best_score == (if i == 0 {
                    if maximizing_player {
                        isize::MIN as int
                    } else {
                        isize::MAX as int
                    }
                } else {
                    below
                }),
            decreases moves.len() - i,
        {
            let (x, y) = moves[i];
            let mut board_copy = board.clone();
            proof {
                assert(legal(cells, moves@[i as int].0 as int, moves@[i as int].1 as int));
                lemma_put_empty_count(cells, x as int, y as int, self.piece_type);
            }
            board_copy.set(x, y, self.piece_type);
            let score = self.minimax(
                &mut board_copy,
                depth - 1,
                alpha,
                beta,
                !maximizing_player,
                rng,
            );
            if maximizing_player {
                if score > best_score {
                    best_score = score;
                }
                if score > alpha {
                    alpha = score;
                }
            } else {
                if score < best_score {
                    best_score = score;
                }
                if score < beta {
                    beta = score;
                }
            }
            if beta <= alpha {
                pruned = true;
            }
            i += 1;
        }
        best_score
    }

    /// Chooses a move on `board`: the legal moves are put in a random order,
    /// and `think_ordered` chooses among them.
    pub fn think(&self, board: &Board, rng: &mut StdRng) -> (best: (usize, usize))
        requires
            board.wf(),
            !full(board@),
        ensures
            legal(board@, best.0 as int, best.1 as int),
    {
        let mut moves = board.get_moves();
        shuffle_moves(rng, &mut moves);
        proof {
            lemma_legal_moves(board@);
            lemma_reordered(legal_moves(board@), moves@);
        }
        self.think_ordered(board, &moves, rng)
    }

    /// Chooses among the candidate moves `moves`, tried in the order given:
    /// each is played on a copy of the board and the position is searched
    /// `SEARCH_DEPTH` plies ahead with the minimizing side to move; the
    /// candidate with the highest score is chosen, the first such candidate
    /// where several are level.
    ///
    /// Every candidate leaves the same number of empty cells and so gets the
    /// same score: the choice is the first candidate.
    pub fn think_ordered(&self, board: &Board, moves: &Vec<(usize, usize)>, rng: &mut StdRng) -> (best:
        (usize, usize))
        requires
            board.wf(),
            moves.len() > 0,
            forall|k: int|
                0 <= k < moves.len() ==> legal(
                    board@,
                    (#[trigger] moves@[k]).0 as int,
                    moves@[k].1 as int,
                ),
        ensures
            best == moves@[0],
    {
        let ghost fills = self.piece_type != Piece::Empty;
        let ghost each = minimax_value(
            (empty_count(board@) + empty_delta(Piece::Empty, self.piece_type)) as nat,
            SEARCH_DEPTH as int,
            false,
            fills,
        );
        let mut best_move = moves[0];
        let mut best_score: isize = isize::MIN;
        let mut alpha: isize = isize::MIN;
        let beta: isize = isize::MAX;
        let mut i: usize = 0;
        while i < moves.len()
            invariant
                i <= moves.len(),
                moves.len() > 0,
                board.wf(),
                fills == (self.piece_type != Piece::Empty),
                forall|k: int|
                    0 <= k < moves.len() ==> legal(
                        board@,
                        (#[trigger] moves@[k]).0 as int,
                        moves@[k].1 as int,
                    ),
                each == minimax_value(
                    (empty_count(board@) + empty_delta(Piece::Empty, self.piece_type)) as nat,
                    SEARCH_DEPTH as int,
                    false,
                    fills,
                ),
                best_move == moves@[0],
                i > 0 ==> best_score == each,
            decreases moves.len() - i,
        {
            let (x, y) = moves[i];
            let mut board_copy = board.clone();
            proof {
                assert(legal(board@, moves@[i as int].0 as int, moves@[i as int].1 as int));
                lemma_put_empty_count(board@, x as int, y as int, self.piece_type);
            }
            board_copy.set(x, y, self.piece_type);
            let score = self.minimax(&mut board_copy, SEARCH_DEPTH, alpha, beta, false, rng);
            if i == 0 || score > best_score {
                best_score = score;
                best_move = (x, y);
            }
            if score > alpha {
                alpha = score;
            }
            i += 1;
        }
        best_move
    }

    /// Whether the cell at `(x, y)` holds a stone of this player.
    pub fn owns_piece(&self, board: &Board, x: usize, y: usize) -> (b: bool)
        requires
            board.wf(),
            on_board(board@, x as int, y as int),
        ensures
            b == (board@[x as int][y as int] == self.piece_type),
    {
        board.get(x, y) == self.piece_type
    }

    /// Removes the pairs that this player takes by having just played at
    /// `(x, y)` and adds their number to the player's tally.
    pub fn capture(&mut self, board: &mut Board, x: usize, y: usize)
        requires
            old(board).wf(),
            old(self).captured_pairs + capture_count(
                old(board)@,
                x as int,
                y as int,
                old(self).piece_type,
            ) <= usize::MAX,
        ensures
            final(board).wf(),
            final(board).size == old(board).size,
            final(self).id == old(self).id,
            final(self).piece_type == old(self).piece_type,
            final(board)@ == after_captures(old(board)@, x as int, y as int, old(self).piece_type),
            final(self).captured_pairs == old(self).captured_pairs + capture_count(
                old(board)@,
                x as int,
                y as int,
                old(self).piece_type,
            ),
    {
        let n = board.apply_captures(x, y, self.piece_type);
        self.captured_pairs = self.captured_pairs + n;
    }
}

} // verus!

//! The game: a board, the players in turn order, and whose turn it is.

use crate::board::{
    empty_count, empty_grid, full, legal, lemma_legal_moves, refusal, Board, MoveError, Piece,
};
use crate::capture::{after_move, lemma_captures_only_remove, pairs_taken};
use crate::cells::{lemma_put_vacancies, put, square};
use crate::lines::{
    first_run_at, has_run, lemma_first_run_unique, lemma_new_run_passes_through_move, line,
    precedes, run_from, run_starts_at,
};
use crate::mcts_player::MCTSPlayer;
use crate::random_player::{get_piece_by_id, get_piece_id, piece_of, side_of};
use crate::rng::random_below;
use rand::rngs::StdRng;
use vstd::prelude::*;

verus! {

/// The stones in a row that win the game.
pub const WIN_LENGTH: usize = 5;

/// The pairs taken that win the game.
pub const CAPTURE_THRESHOLD: usize = 5;

/// The most sides that a game can have: one for each colour.
pub const MAX_PLAYERS: usize = 4;

/// The playouts that a player of a new game makes for each candidate move.
pub const DEFAULT_ROLLOUTS: usize = 100;

/// What `winner` holds when nobody has won.
pub const NO_WINNER: usize = 100;

/// How a position stands: still open, won by a side, or drawn.
#[derive(Clone, Copy, PartialEq, Eq, Debug, Structural)]
pub struct GameOutcome {
    pub is_game_over: bool,
    pub is_draw: bool,
    pub winner: usize,
}

/// The game goes on.
pub open spec fn ongoing() -> GameOutcome {
    GameOutcome { is_game_over: false, is_draw: false, winner: NO_WINNER }
}

/// The game has ended without a winner.
pub open spec fn drawn() -> GameOutcome {
    GameOutcome { is_game_over: true, is_draw: true, winner: NO_WINNER }
}

/// The game has ended and side `winner` has won.
pub open spec fn won_by(winner: usize) -> GameOutcome {
    GameOutcome { is_game_over: true, is_draw: false, winner }
}

/// Player `i` has taken at least `threshold` pairs.
pub open spec fn reached(players: Seq<MCTSPlayer>, i: int, threshold: int) -> bool {
    0 <= i < players.len() && players[i].captured_pairs >= threshold
}

/// Player `i` is the first in turn order to have taken `threshold` pairs.
pub open spec fn first_reached(players: Seq<MCTSPlayer>, i: int, threshold: int) -> bool {
    &&& reached(players, i, threshold)
    &&& forall|j: int| 0 <= j < i ==> !#[trigger] reached(players, j, threshold)
}

/// Some player has taken at least `threshold` pairs.
pub open spec fn any_reached(players: Seq<MCTSPlayer>, threshold: int) -> bool {
    exists|i: int| #[trigger] reached(players, i, threshold)
}

/// How the position stands. The conditions are tried in this order, and the
/// first that holds decides:
/// 1. a player has taken `threshold` pairs: that player has won (the first
///    in turn order, should there be several);
/// 2. no cell is empty: the game is drawn;
/// 3. a run of `win_length` stones of one side exists: that side has won
///    (the side of the first run, reading the board row by row).
pub open spec fn evaluate(
    players: Seq<MCTSPlayer>,
    cells: Seq<Seq<Piece>>,
    win_length: int,
    threshold: int,
) -> GameOutcome {
    if any_reached(players, threshold) {
        let i = choose|i: int| first_reached(players, i, threshold);
        won_by(players[i].id)
    } else if full(cells) {
        drawn()
    } else if has_run(cells, win_length) {
        let p = choose|p: (int, int)| first_run_at(cells, p.0, p.1, win_length);
        won_by(side_of(cells[p.0][p.1]) as usize)
    } else {
        ongoing()
    }
}

/// `players` with `n` more pairs in the tally of player `idx`.
pub open spec fn credited(players: Seq<MCTSPlayer>, idx: int, n: int) -> Seq<MCTSPlayer> {
    players.update(
        idx,
        MCTSPlayer {
            piece_type: players[idx].piece_type,
            id: players[idx].id,
            num_rollouts: players[idx].num_rollouts,
            captured_pairs: (players[idx].captured_pairs + n) as usize,
        },
    )
}

/// The playout that ended in `o` counts as a win for side `side`.
pub open spec fn counts_for(o: GameOutcome, side: int) -> bool {
    !o.is_draw && o.winner == side
}

/// How many of `outcomes` are wins for side `side`.
pub open spec fn wins_for(outcomes: Seq<GameOutcome>, side: int) -> nat
    decreases outcomes.len(),
{
    if outcomes.len() == 0 {
        0
    } else {
        wins_for(outcomes.drop_last(), side) + if counts_for(outcomes.last(), side) {
            1nat
        } else {
            0nat
        }
    }
}

/// How many of `outcomes` are draws.
pub open spec fn draws_in(outcomes: Seq<GameOutcome>) -> nat
    decreases outcomes.len(),
{
    if outcomes.len() == 0 {
        0
    } else {
        draws_in(outcomes.drop_last()) + if outcomes.last().is_draw {
            1nat
        } else {
            0nat
        }
    }
}

/// Every playout is counted at most once: as a draw, as a win of side 0 or
/// as a win of side 1.
pub proof fn lemma_tally_bound(outcomes: Seq<GameOutcome>)
    ensures
        wins_for(outcomes, 0) + wins_for(outcomes, 1) + draws_in(outcomes) <= outcomes.len(),
    decreases outcomes.len(),
{
    if outcomes.len() > 0 {
        lemma_tally_bound(outcomes.drop_last());
    }
}

/// Playouts that all ended in `o` are all counted as `o` is.
pub proof fn lemma_tally_uniform(outcomes: Seq<GameOutcome>, o: GameOutcome, side: int)
    requires
        forall|k: int| 0 <= k < outcomes.len() ==> outcomes[k] == o,
    ensures
        wins_for(outcomes, side) == (if counts_for(o, side) {
            outcomes.len()
        } else {
            0
        }),
        draws_in(outcomes) == (if o.is_draw {
            outcomes.len()
        } else {
            0
        }),
    decreases outcomes.len(),
{
    if outcomes.len() > 0 {
        lemma_tally_uniform(outcomes.drop_last(), o, side);
    }
}

/// Counts the playouts won by side 0, those won by side 1, and the draws.
pub fn tally_outcomes(outcomes: &Vec<GameOutcome>) -> (t: (usize, usize, usize))
    ensures
        t.0 == wins_for(outcomes@, 0),
        t.1 == wins_for(outcomes@, 1),
        t.2 == draws_in(outcomes@),
{
    let mut winner_0_count: usize = 0;
    let mut winner_1_count: usize = 0;
    let mut is_draw_count: usize = 0;
    let mut i: usize = 0;
    while i < outcomes.len()
        invariant
            i <= outcomes.len(),
            winner_0_count == wins_for(outcomes@.take(i as int), 0),
            winner_1_count == wins_for(outcomes@.take(i as int), 1),
            is_draw_count == draws_in(outcomes@.take(i as int)),
        decreases outcomes.len() - i,
    {
        proof {
            let next = outcomes@.take(i + 1);
            assert(next.drop_last() =~= outcomes@.take(i as int));
            assert(next.last() == outcomes@[i as int]);
            lemma_tally_bound(next);
        }
        let o = outcomes[i];
        if o.is_draw {
            is_draw_count += 1;
        } else if o.winner == 0 {
            winner_0_count += 1;
        } else if o.winner == 1 {
            winner_1_count += 1;
        }
        i += 1;
    }
    proof {
        assert(outcomes@.take(outcomes.len() as int) =~= outcomes@);
    }
    (winner_0_count, winner_1_count, is_draw_count)
}

/// Counts the playouts won by side `side`.
pub fn count_wins(outcomes: &Vec<GameOutcome>, side: usize) -> (wins: usize)
    ensures
        wins == wins_for(outcomes@, side as int),
        wins <= outcomes.len(),
{
    let mut wins: usize = 0;
    let mut i: usize = 0;
    while i < outcomes.len()
        invariant
            i <= outcomes.len(),
            wins == wins_for(outcomes@.take(i as int), side as int),
            wins <= i,
        decreases outcomes.len() - i,
    {
        proof {
            let next = outcomes@.take(i + 1);
            assert(next.drop_last() =~= outcomes@.take(i as int));
            assert(next.last() == outcomes@[i as int]);
        }
        let o = outcomes[i];
        if !o.is_draw && o.winner == side {
            wins += 1;
        }
        i += 1;
    }
    proof {
        assert(outcomes@.take(outcomes.len() as int) =~= outcomes@);
    }
    wins
}

/// Playouts that all end in a draw or in a win of side 0 or side 1 are each
/// counted once by the three counts together.
pub proof fn lemma_tally_complete(outcomes: Seq<GameOutcome>)
    requires
        forall|k: int|
            0 <= k < outcomes.len() ==> (#[trigger] outcomes[k]).is_draw || outcomes[k].winner < 2,
    ensures
        wins_for(outcomes, 0) + wins_for(outcomes, 1) + draws_in(outcomes) == outcomes.len(),
    decreases outcomes.len(),
{
    if outcomes.len() > 0 {
        lemma_tally_complete(outcomes.drop_last());
        assert(outcomes.last() == outcomes[outcomes.len() - 1]);
    }
}

/// The pairs taken by the first `upto` players together.
pub open spec fn total_pairs(players: Seq<MCTSPlayer>, upto: int) -> int
    decreases upto,
{
    if upto <= 0 {
        0
    } else {
        total_pairs(players, upto - 1) + players[upto - 1].captured_pairs
    }
}

/// A bound on the moves that can still be made while nobody has taken
/// `CAPTURE_THRESHOLD` pairs: every move fills one cell, and every pair
/// taken frees two cells but brings the end by captures nearer.
pub open spec fn moves_bound(players: Seq<MCTSPlayer>, cells: Seq<Seq<Piece>>) -> int {
    empty_count(cells) + 2 * ((CAPTURE_THRESHOLD - 1) * players.len() + 8 - total_pairs(
        players,
        players.len() as int,
    ))
}

/// Crediting `n` pairs to player `idx` raises the total by `n`, as far as
/// that player is counted.
pub proof fn lemma_total_credited(players: Seq<MCTSPlayer>, idx: int, n: int, upto: int)
    requires
        0 <= idx < players.len(),
        0 <= upto <= players.len(),
        0 <= n,
        players[idx].captured_pairs + n <= usize::MAX,
    ensures
        total_pairs(credited(players, idx, n), upto) == total_pairs(players, upto) + (if idx
            < upto {
            n
        } else {
            0
        }),
    decreases upto,
{
    if upto > 0 {
        lemma_total_credited(players, idx, n, upto - 1);
    }
}

/// While no player has reached `threshold` pairs, the first `upto` players
/// have taken at most `threshold - 1` pairs each.
pub proof fn lemma_total_below(players: Seq<MCTSPlayer>, threshold: int, upto: int)
    requires
        0 <= upto <= players.len(),
        1 <= threshold,
        !any_reached(players, threshold),
    ensures
        0 <= total_pairs(players, upto) <= (threshold - 1) * upto,
    decreases upto,
{
    if upto > 0 {
        lemma_total_below(players, threshold, upto - 1);
        assert(!reached(players, upto - 1, threshold));
        assert((threshold - 1) * upto == (threshold - 1) * (upto - 1) + (threshold - 1))
            by (nonlinear_arith);
    }
}

/// A position in which the game goes on has an empty cell and no player at
/// the threshold.
pub proof fn lemma_ongoing(
    players: Seq<MCTSPlayer>,
    cells: Seq<Seq<Piece>>,
    win_length: int,
    threshold: int,
)
    requires
        !evaluate(players, cells, win_length, threshold).is_game_over,
    ensures
        !any_reached(players, threshold),
        !full(cells),
        !has_run(cells, win_length),
{
}

/// Terminal priority: a player at the threshold wins, whatever else holds of
/// the board, be it full or with a run of any side on it.
pub proof fn lemma_capture_win_first(
    players: Seq<MCTSPlayer>,
    cells: Seq<Seq<Piece>>,
    win_length: int,
    threshold: int,
    i: int,
)
    requires
        first_reached(players, i, threshold),
    ensures
        evaluate(players, cells, win_length, threshold) == won_by(players[i].id),
{
    assert(reached(players, i, threshold));
    let w = choose|w: int| first_reached(players, w, threshold);
    assert(first_reached(players, w, threshold));
    if w < i {
        assert(!reached(players, w, threshold));
    }
    if i < w {
        assert(!reached(players, i, threshold));
    }
}

/// Draw: a board without an empty cell, with no player at the threshold, is
/// drawn, with or without a run on it.
pub proof fn lemma_full_board_draw(
    players: Seq<MCTSPlayer>,
    cells: Seq<Seq<Piece>>,
    win_length: int,
    threshold: int,
)
    requires
        full(cells),
        !any_reached(players, threshold),
    ensures
        evaluate(players, cells, win_length, threshold) == drawn(),
{
}

/// A run wins for the side whose stones form it, where no player is at the
/// threshold and the board has an empty cell.
pub proof fn lemma_run_win(
    players: Seq<MCTSPlayer>,
    cells: Seq<Seq<Piece>>,
    win_length: int,
    threshold: int,
    r: int,
    c: int,
)
    requires
        !any_reached(players, threshold),
        !full(cells),
        first_run_at(cells, r, c, win_length),
    ensures
        evaluate(players, cells, win_length, threshold) == won_by(side_of(cells[r][c]) as usize),
{
    let q = choose|q: (int, int)| first_run_at(cells, q.0, q.1, win_length);
    let here = (r, c);
    assert(first_run_at(cells, here.0, here.1, win_length));
    assert(first_run_at(cells, q.0, q.1, win_length));
    lemma_first_run_unique(cells, win_length, r, c, q.0, q.1);
    assert(has_run(cells, win_length));
}

/// `later` are the players `earlier` after some moves: the same players with
/// the same settings, none of them with fewer pairs than before.
pub open spec fn tallies_grown(earlier: Seq<MCTSPlayer>, later: Seq<MCTSPlayer>) -> bool {
    &&& later.len() == earlier.len()
    &&& forall|i: int|
        0 <= i < earlier.len() ==> {
            &&& (#[trigger] later[i]).id == earlier[i].id
            &&& later[i].piece_type == earlier[i].piece_type
            &&& later[i].num_rollouts == earlier[i].num_rollouts
            &&& later[i].captured_pairs >= earlier[i].captured_pairs
        }
}

/// The players are numbered in turn order and each plays the colour of its
/// number.
pub open spec fn seated(players: Seq<MCTSPlayer>) -> bool {
    &&& 1 <= players.len() <= MAX_PLAYERS
    &&& forall|i: int|
        0 <= i < players.len() ==> (#[trigger] players[i]).id == i && players[i].piece_type
            == piece_of(i)
}

/// A position as the rules see it: the cells, the players in turn order
/// with their tallies, and the index of the player to move.
pub struct Position {
    pub cells: Seq<Seq<Piece>>,
    pub players: Seq<MCTSPlayer>,
    pub turn: int,
}

/// The cells form a square, the players are seated, and the player to move
/// is one of them.
pub open spec fn sound(p: Position) -> bool {
    &&& square(p.cells)
    &&& seated(p.players)
    &&& 0 <= p.turn < p.players.len()
}

/// How the position stands under the standard rules.
pub open spec fn standing(p: Position) -> GameOutcome {
    evaluate(p.players, p.cells, WIN_LENGTH as int, CAPTURE_THRESHOLD as int)
}

/// The position after the player to move has played at `(r, c)`: the stone
/// is placed, the pairs it takes are removed and added to the mover's tally,
/// and the turn passes to the next player unless the game is over then.
pub open spec fn moved(p: Position, r: int, c: int) -> Position {
    let side = p.players[p.turn].piece_type;
    let players = credited(p.players, p.turn, pairs_taken(p.cells, r, c, side) as int);
    let cells = after_move(p.cells, r, c, side);
    let over = evaluate(players, cells, WIN_LENGTH as int, CAPTURE_THRESHOLD as int).is_game_over;
    Position {
        cells,
        players,
        turn: if over {
            p.turn
        } else {
            (p.turn + 1) % (p.players.len() as int)
        },
    }
}

/// `b` is `a` one legal move later: the game goes on in `a`, and `b` is what
/// a legal move of the player to move makes of it.
pub open spec fn one_move_later(a: Position, b: Position) -> bool {
    &&& !standing(a).is_game_over
    &&& exists|r: int, c: int| legal(a.cells, r, c) && b == #[trigger] moved(a, r, c)
}

/// `line` is a course of play: each position but the first is the one before
/// it one legal move later.
pub open spec fn course(line: Seq<Position>) -> bool {
    &&& line.len() >= 1
    &&& forall|i: int|
        #![trigger line[i]]
        0 <= i < line.len() - 1 ==> one_move_later(line[i], line[i + 1])
}

/// `b` is reached from `a` by legal moves, with the game going on in every
/// position before `b`.
pub open spec fn reaches(a: Position, b: Position) -> bool {
    exists|line: Seq<Position>|
        #[trigger] course(line) && line[0] == a && line[line.len() - 1] == b
}

/// `o` is how a game played on from `start` to its end can end: it is over,
/// and it is how a position stands that is reached from `start`.
pub open spec fn ends_in(start: Position, o: GameOutcome) -> bool {
    &&& o.is_game_over
    &&& exists|end: Position| #[trigger] reaches(start, end) && standing(end) == o
}

/// `outcomes` are how `n` games played on from `start` to their ends ended.
pub open spec fn playouts(start: Position, outcomes: Seq<GameOutcome>, n: int) -> bool {
    &&& outcomes.len() == n
    &&& forall|k: int| 0 <= k < n ==> ends_in(start, #[trigger] outcomes[k])
}

/// A move keeps a position sound and keeps the number of players.
pub proof fn lemma_moved_sound(p: Position, r: int, c: int)
    requires
        sound(p),
        legal(p.cells, r, c),
    ensures
        sound(moved(p, r, c)),
        moved(p, r, c).players.len() == p.players.len(),
        moved(p, r, c).cells.len() == p.cells.len(),
{
    let side = p.players[p.turn].piece_type;
    lemma_put_vacancies(p.cells, r, c, side, Piece::Empty);
    lemma_captures_only_remove(put(p.cells, r, c, side), r, c, side);
    let players = moved(p, r, c).players;
    assert forall|i: int| 0 <= i < players.len() implies (#[trigger] players[i]).id == i
        && players[i].piece_type == piece_of(i) by {
        assert(p.players[i].id == i);
    }
}

/// Only the mover can win by a move: after a legal move in a position in
/// which the game goes on, the game still goes on, or is drawn, or is won by
/// the player who made the move.
pub proof fn lemma_only_the_mover_wins(p: Position, r: int, c: int)
    requires
        sound(p),
        !standing(p).is_game_over,
        legal(p.cells, r, c),
    ensures
        ({
            let o = standing(moved(p, r, c));
            o == ongoing() || o == drawn() || o == won_by(p.turn as usize)
        }),
{
    let side = p.players[p.turn].piece_type;
    let q = moved(p, r, c);
    let threshold = CAPTURE_THRESHOLD as int;
    let len = WIN_LENGTH as int;
    assert(p.players[p.turn].id == p.turn);
    if any_reached(q.players, threshold) {
        let i = choose|i: int| reached(q.players, i, threshold);
        let w = choose|w: int| first_reached(q.players, w, threshold);
        assert(reached(q.players, i, threshold));
        lemma_some_first_reached(q.players, threshold, i);
        assert(first_reached(q.players, w, threshold));
        if w != p.turn {
            assert(q.players[w] == p.players[w]);
            assert(reached(p.players, w, threshold));
        }
    } else if full(q.cells) {
    } else if has_run(q.cells, len) {
        let (i, j) = choose|i: int, j: int| #[trigger] run_starts_at(q.cells, i, j, len);
        lemma_some_first_run(q.cells, len, i, j);
        let f = choose|f: (int, int)| first_run_at(q.cells, f.0, f.1, len);
        assert(first_run_at(q.cells, f.0, f.1, len));
        assert(run_starts_at(q.cells, f.0, f.1, len));
        let k = if run_from(q.cells, f.0, f.1, line(0), len) {
            0int
        } else if run_from(q.cells, f.0, f.1, line(1), len) {
            1int
        } else if run_from(q.cells, f.0, f.1, line(2), len) {
            2int
        } else {
            3int
        };
        assert(!has_run(p.cells, len));
        lemma_new_run_passes_through_move(p.cells, r, c, side, f.0, f.1, k, len);
        assert(q.cells[f.0][f.1] == side);
        assert(side == piece_of(p.turn));
    }
}

/// Where some player has reached the threshold, one of them is the first.
pub proof fn lemma_some_first_reached(players: Seq<MCTSPlayer>, threshold: int, i: int)
    requires
        reached(players, i, threshold),
    ensures
        exists|w: int| first_reached(players, w, threshold),
    decreases i,
{
    if exists|j: int| 0 <= j < i && reached(players, j, threshold) {
        let j = choose|j: int| 0 <= j < i && reached(players, j, threshold);
        lemma_some_first_reached(players, threshold, j);
    } else {
        assert(first_reached(players, i, threshold));
    }
}

/// Where a run starts somewhere, one of the cells where a run starts is the
/// first, reading the board row by row.
pub proof fn lemma_some_first_run(cells: Seq<Seq<Piece>>, len: int, i: int, j: int)
    requires
        run_starts_at(cells, i, j, len),
    ensures
        exists|f: (int, int)| first_run_at(cells, f.0, f.1, len),
    decreases i, j,
{
    if exists|a: int, b: int|
        precedes(a, b, i, j) && #[trigger] run_starts_at(cells, a, b, len) {
        let (a, b) = choose|a: int, b: int|
            precedes(a, b, i, j) && #[trigger] run_starts_at(cells, a, b, len);
        assert(0 <= a && 0 <= b);
        lemma_some_first_run(cells, len, a, b);
    } else {
        let f = (i, j);
        assert(first_run_at(cells, f.0, f.1, len));
    }
}

/// Along a course of play from a sound position, every position is sound
/// and has as many players as the first.
pub proof fn lemma_course_sound(line: Seq<Position>, i: int)
    requires
        course(line),
        sound(line[0]),
        0 <= i < line.len(),
    ensures
        sound(line[i]),
        line[i].players.len() == line[0].players.len(),
        line[i].cells.len() == line[0].cells.len(),
    decreases i,
{
    if i > 0 {
        lemma_course_sound(line, i - 1);
        let a = line[i - 1];
        assert(one_move_later(a, line[i - 1 + 1]));
        let (r, c) = choose|r: int, c: int| legal(a.cells, r, c) && line[i] == #[trigger] moved(a, r, c);
        lemma_moved_sound(a, r, c);
    }
}

/// A game that is over stays where it is: the only position reached from a
/// position in which the game is over is that position.
pub proof fn lemma_over_reaches_itself(a: Position, b: Position)
    requires
        standing(a).is_game_over,
        reaches(a, b),
    ensures
        b == a,
{
    let line = choose|line: Seq<Position>|
        #[trigger] course(line) && line[0] == a && line[line.len() - 1] == b;
    if line.len() > 1 {
        assert(one_move_later(line[0], line[0int + 1]));
    }
}

/// A game that is played on to its end from a sound position in which it
/// goes on ends in a draw or in the win of one of its players.
pub proof fn lemma_end_names_a_player(start: Position, o: GameOutcome)
    requires
        sound(start),
        !standing(start).is_game_over,
        ends_in(start, o),
    ensures
        o == drawn() || (o == won_by(o.winner) && o.winner < start.players.len()),
{
    let end = choose|end: Position| #[trigger] reaches(start, end) && standing(end) == o;
    let line = choose|line: Seq<Position>|
        #[trigger] course(line) && line[0] == start && line[line.len() - 1] == end;
    let last = line.len() - 1;
    assert(last > 0);
    lemma_course_sound(line, last - 1);
    let a = line[last - 1];
    assert(one_move_later(a, line[last - 1 + 1]));
    let (r, c) = choose|r: int, c: int| legal(a.cells, r, c) && end == #[trigger] moved(a, r, c);
    lemma_only_the_mover_wins(a, r, c);
    if o != drawn() {
        assert(o == won_by(a.turn as usize));
    }
}

/// The game goes on in `start`, and every legal move there ends it in `o`.
pub open spec fn decided_at_once(start: Position, o: GameOutcome) -> bool {
    &&& !standing(start).is_game_over
    &&& o.is_game_over
    &&& forall|r: int, c: int|
        legal(start.cells, r, c) ==> standing(#[trigger] moved(start, r, c)) == o
}

/// Where every legal move ends the game in `o`, every game played on from
/// there to its end ends in `o`.
pub proof fn lemma_decided_at_once(start: Position, o: GameOutcome, x: GameOutcome)
    requires
        decided_at_once(start, o),
        ends_in(start, x),
    ensures
        x == o,
{
    let end = choose|end: Position| #[trigger] reaches(start, end) && standing(end) == x;
    let line = choose|line: Seq<Position>|
        #[trigger] course(line) && line[0] == start && line[line.len() - 1] == end;
    assert(line.len() > 1);
    assert(one_move_later(line[0], line[0int + 1]));
    let (r, c) = choose|r: int, c: int|
        legal(start.cells, r, c) && line[1] == #[trigger] moved(start, r, c);
    assert(standing(line[1]) == o);
    if line.len() > 2 {
        assert(one_move_later(line[1], line[1int + 1]));
    }
}

/// Where every legal move ends the game in `o`, playouts from there are all
/// counted as `o` is.
pub proof fn lemma_playouts_decided_at_once(
    start: Position,
    o: GameOutcome,
    outcomes: Seq<GameOutcome>,
    n: int,
    side: int,
)
    requires
        decided_at_once(start, o),
        playouts(start, outcomes, n),
    ensures
        forall|k: int| 0 <= k < n ==> outcomes[k] == o,
        wins_for(outcomes, side) == (if counts_for(o, side) {
            n
        } else {
            0
        }),
        draws_in(outcomes) == (if o.is_draw {
            n
        } else {
            0
        }),
{
    assert forall|k: int| 0 <= k < outcomes.len() implies outcomes[k] == o by {
        lemma_decided_at_once(start, o, outcomes[k]);
    }
    lemma_tally_uniform(outcomes, o, side);
}

/// Adding one legal move to a course of play gives a course of play.
pub proof fn lemma_course_grows(line: Seq<Position>, r: int, c: int)
    requires
        course(line),
        !standing(line[line.len() - 1]).is_game_over,
        legal(line[line.len() - 1].cells, r, c),
    ensures
        course(line.push(moved(line[line.len() - 1], r, c))),
        line.push(moved(line[line.len() - 1], r, c))[0] == line[0],
{
    let last = line[line.len() - 1];
    let longer = line.push(moved(last, r, c));
    assert forall|i: int| #![trigger longer[i]] 0 <= i < longer.len() - 1 implies one_move_later(
        longer[i],
        longer[i + 1],
    ) by {
        if i < line.len() - 1 {
            assert(one_move_later(line[i], line[i + 1]));
        } else {
            assert(longer[i] == last);
            assert(longer[i + 1] == moved(last, r, c));
        }
    }
}

/// A game: the board, the players in turn order with their tallies, and the
/// index of the player to move.
pub struct Game {
    pub board: Board,
    pub players: Vec<MCTSPlayer>,
    pub player_idx: usize,
}

impl Clone for Game {
    /// An independent copy of the game.
    fn clone(&self) -> (g: Game)
        ensures
            g.board.size == self.board.size,
            g.board@ == self.board@,
            g.players@ == self.players@,
            g.player_idx == self.player_idx,
    {
        let mut players: Vec<MCTSPlayer> = Vec::new();
        let mut i: usize = 0;
        while i < self.players.len()
            invariant
                i <= self.players.len(),
                players@ == self.players@.take(i as int),
            decreases self.players.len() - i,
        {
            players.push(self.players[i]);
            proof {
                assert(players@ =~= self.players@.take(i + 1));
            }
            i += 1;
        }
        proof {
            assert(self.players@.take(self.players.len() as int) =~= self.players@);
        }
        Game { board: self.board.clone(), players, player_idx: self.player_idx }
    }
}

impl Game {
    /// The board is square, there are one to four players, numbered in turn
    /// order and each with the colour of its number, and the player to move
    /// is one of them.
    pub open spec fn wf(&self) -> bool {
        &&& self.board.wf()
        &&& seated(self.players@)
        &&& self.player_idx < self.players.len()
    }

    /// The position of the game as the rules see it.
    pub open spec fn position(&self) -> Position {
        Position { cells: self.board@, players: self.players@, turn: self.player_idx as int }
    }

    /// How the game stands under the standard rules: five in a row or five
    /// pairs taken win.
    pub open spec fn outcome(&self) -> GameOutcome {
        evaluate(self.players@, self.board@, WIN_LENGTH as int, CAPTURE_THRESHOLD as int)
    }

    /// A bound on the number of moves that this game can still take.
    pub open spec fn moves_bound(&self) -> int {
        moves_bound(self.players@, self.board@)
    }

    /// Why the move `(r, c)` is refused in this position, if it is: the game
    /// is over, or the placement is illegal.
    pub open spec fn rejects(&self, r: int, c: int) -> Option<MoveError> {
        if self.outcome().is_game_over {
            Some(MoveError::GameAlreadyOver)
        } else {
            refusal(self.board@, r, c)
        }
    }

    /// Whether the game is well formed.
    pub fn is_valid(&self) -> (b: bool)
        ensures
            b == self.wf(),
    {
        if !self.board.is_valid() {
            return false;
        }
        let count = self.players.len();
        if count < 1 || count > MAX_PLAYERS || self.player_idx >= count {
            return false;
        }
        let mut i: usize = 0;
        while i < count
            invariant
                i <= count,
                count == self.players.len(),
                forall|k: int|
                    0 <= k < i ==> (#[trigger] self.players@[k]).id == k
                        && self.players@[k].piece_type == piece_of(k),
            decreases count - i,
        {
            let player = self.players[i];
            if player.id != i || player.piece_type != get_piece_by_id(i) {
                return false;
            }
            i += 1;
        }
        true
    }

    /// A new game on an empty board of `size` by `size` cells with
    /// `num_players` players, the first of them to move.
    pub fn new(size: usize, num_players: usize) -> (g: Game)
        requires
            size * size <= isize::MAX,
            1 <= num_players <= MAX_PLAYERS,
        ensures
            g.wf(),
            g.board.size == size,
            g.players.len() == num_players,
            g.player_idx == 0,
            g.board@ == empty_grid(size as nat),
            forall|i: int|
                0 <= i < num_players ==> (#[trigger] g.players[i]).captured_pairs == 0
                    && g.players[i].num_rollouts == DEFAULT_ROLLOUTS,
    {
        let board = Board::new(size);
        let mut players: Vec<MCTSPlayer> = Vec::new();
        let mut i: usize = 0;
        while i < num_players
            invariant
                i <= num_players <= MAX_PLAYERS,
                players.len() == i,
                forall|k: int|
                    0 <= k < i ==> (#[trigger] players[k]).id == k && players[k].piece_type
                        == piece_of(k) && players[k].captured_pairs == 0
                        && players[k].num_rollouts == DEFAULT_ROLLOUTS,
            decreases num_players - i,
        {
            players.push(MCTSPlayer::new(i, get_piece_by_id(i), DEFAULT_ROLLOUTS, 0));
            i += 1;
        }
        Game { board, players, player_idx: 0 }
    }

    /// A fresh game of the given size and number of players. The game on
    /// which this is called is left as it is.
    pub fn reset(&mut self, size: usize, num_players: usize) -> (g: Game)
        requires
            size * size <= isize::MAX,
            1 <= num_players <= MAX_PLAYERS,
        ensures
            *final(self) == *old(self),
            g.wf(),
            g.board.size == size,
            g.players.len() == num_players,
            g.player_idx == 0,
            g.board@ == empty_grid(size as nat),
            forall|i: int|
                0 <= i < num_players ==> (#[trigger] g.players[i]).captured_pairs == 0
                    && g.players[i].num_rollouts == DEFAULT_ROLLOUTS,
    {
        Game::new(size, num_players)
    }

    /// How the game stands under the standard rules.
    pub fn current_outcome(&self) -> (o: GameOutcome)
        requires
            self.board.wf(),
        ensures
            o == self.outcome(),
    {
        self.is_game_over(&self.board, WIN_LENGTH, CAPTURE_THRESHOLD)
    }

    /// The pairs taken by each player, in turn order.
    pub fn tallies(&self) -> (pairs: Vec<usize>)
        ensures
            pairs.len() == self.players.len(),
            forall|i: int|
                0 <= i < pairs.len() ==> (#[trigger] pairs@[i]) == self.players@[i].captured_pairs,
    {
        let mut pairs: Vec<usize> = Vec::new();
        let mut i: usize = 0;
        while i < self.players.len()
            invariant
                i <= self.players.len(),
                pairs.len() == i,
                forall|k: int|
                    0 <= k < i ==> (#[trigger] pairs@[k]) == self.players@[k].captured_pairs,
            decreases self.players.len() - i,
        {
            pairs.push(self.players[i].captured_pairs);
            i += 1;
        }
        pairs
    }

    /// How the position on `board` stands for the players of this game, with
    /// `num_in_a_row` stones in a row or `num_captured_pairs` pairs taken
    /// needed to win.
    pub fn is_game_over(&self, board: &Board, num_in_a_row: usize, num_captured_pairs: usize) -> (o:
        GameOutcome)
        requires
            board.wf(),
        ensures
            o == evaluate(self.players@, board@, num_in_a_row as int, num_captured_pairs as int),
    {
        let ghost players = self.players@;
        let ghost threshold = num_captured_pairs as int;
        let mut i: usize = 0;
        while i < self.players.len()
            invariant
                i <= self.players.len(),
                players == self.players@,
                threshold == num_captured_pairs,
                forall|j: int| 0 <= j < i ==> !#[trigger] reached(players, j, threshold),
            decreases self.players.len() - i,
        {
            if self.players[i].captured_pairs >= num_captured_pairs {
                proof {
                    assert(reached(players, i as int, threshold));
                    assert(first_reached(players, i as int, threshold));
                    let w = choose|w: int| first_reached(players, w, threshold);
                    assert(first_reached(players, w, threshold));
                    if w < i {
                        assert(!reached(players, w, threshold));
                    }
                    if i < w {
                        assert(!reached(players, i as int, threshold));
                    }
                }
                return GameOutcome {
                    is_game_over: true,
                    is_draw: false,
                    winner: self.players[i].id,
                };
            }
            i += 1;
        }
        proof {
            assert(!any_reached(players, threshold));
        }
        if board.is_full() {
            return GameOutcome { is_game_over: true, is_draw: true, winner: NO_WINNER };
        }
        match board.find_run(num_in_a_row) {
            Some(p) => {
                let stone = board.get(p.0, p.1);
                proof {
                    let len = num_in_a_row as int;
                    assert(first_run_at(board@, p.0 as int, p.1 as int, len));
                    let q = choose|q: (int, int)| first_run_at(board@, q.0, q.1, len);
                    let here = (p.0 as int, p.1 as int);
                    assert(first_run_at(board@, here.0, here.1, len));
                    assert(first_run_at(board@, q.0, q.1, len));
                    lemma_first_run_unique(board@, len, here.0, here.1, q.0, q.1);
                    assert(has_run(board@, len));
                }
                GameOutcome { is_game_over: true, is_draw: false, winner: get_piece_id(&stone) }
            },
            None => GameOutcome { is_game_over: false, is_draw: false, winner: NO_WINNER },
        }
    }

    /// Makes the move `action` for the player whose turn it is: places the
    /// stone, removes the pairs it takes and adds them to the mover's tally,
    /// then judges the position. While the game goes on, the turn passes to
    /// the next player. A move that is refused changes nothing.
    pub fn step(&mut self, action: (usize, usize)) -> (res: Result<GameOutcome, MoveError>)
        requires
            old(self).wf(),
        ensures
            final(self).wf(),
            final(self).board.size == old(self).board.size,
            tallies_grown(old(self).players@, final(self).players@),
            match res {
                Ok(o) => {
                    let mover = old(self).player_idx as int;
                    let side = old(self).players[mover].piece_type;
                    &&& old(self).rejects(action.0 as int, action.1 as int) is None
                    &&& final(self).board@ == after_move(
                        old(self).board@,
                        action.0 as int,
                        action.1 as int,
                        side,
                    )
                    &&& final(self).players@ == credited(
                        old(self).players@,
                        mover,
                        pairs_taken(old(self).board@, action.0 as int, action.1 as int, side) as int,
                    )
                    &&& o == final(self).outcome()
                    &&& final(self).position() == moved(
                        old(self).position(),
                        action.0 as int,
                        action.1 as int,
                    )
                    &&& (o == ongoing() || o == drawn() || o == won_by(old(self).player_idx))
                    &&& final(self).moves_bound() == old(self).moves_bound() - 1
                    &&& final(self).moves_bound() >= 0
                    &&& final(self).player_idx == (if o.is_game_over {
                        mover
                    } else {
                        (mover + 1) % (old(self).players.len() as int)
                    })
                },
                Err(e) => old(self).rejects(action.0 as int, action.1 as int) == Some(e)
                    && *final(self) == *old(self),
            },
    {
        let before = self.is_game_over(&self.board, WIN_LENGTH, CAPTURE_THRESHOLD);
        if before.is_game_over {
            return Err(MoveError::GameAlreadyOver);
        }
        let idx = self.player_idx;
        let mover = self.players[idx];
        match self.board.play(action.0, action.1, mover.piece_type) {
            Err(e) => Err(e),
            Ok(n) => {
                proof {
                    let players = old(self).players@;
                    let threshold = CAPTURE_THRESHOLD as int;
                    let len = players.len() as int;
                    assert(!reached(players, idx as int, threshold));
                    lemma_total_below(players, threshold, len);
                    lemma_total_credited(players, idx as int, n as int, len);
                }
                let credited_mover = MCTSPlayer {
                    piece_type: mover.piece_type,
                    id: mover.id,
                    num_rollouts: mover.num_rollouts,
                    captured_pairs: mover.captured_pairs + n,
                };
                self.players.set(idx, credited_mover);
                assert(self.players@ == credited(old(self).players@, idx as int, n as int));
                let o = self.is_game_over(&self.board, WIN_LENGTH, CAPTURE_THRESHOLD);
                if !o.is_game_over {
                    self.player_idx = (idx + 1) % self.players.len();
                }
                proof {
                    lemma_only_the_mover_wins(
                        old(self).position(),
                        action.0 as int,
                        action.1 as int,
                    );
                }
                Ok(o)
            },
        }
    }

    /// Plays the game to its end with moves drawn at random from the legal
    /// ones, and returns the final position with its outcome. A game that is
    /// over already is returned as it is.
    pub fn playout(self, rng: &mut StdRng) -> (end: (Game, GameOutcome))
        requires
            self.wf(),
        ensures
            end.0.wf(),
            end.1 == end.0.outcome(),
            end.1.is_game_over,
            end.0.board.size == self.board.size,
            tallies_grown(self.players@, end.0.players@),
            reaches(self.position(), end.0.position()),
            ends_in(self.position(), end.1),
            !self.outcome().is_game_over ==> end.1 == drawn() || (end.1 == won_by(end.1.winner)
                && end.1.winner < self.players.len()),
            forall|o: GameOutcome| #[trigger] decided_at_once(self.position(), o) ==> end.1 == o,
            self.outcome().is_game_over ==> end.1 == self.outcome() && end.0.board@
                == self.board@ && end.0.players@ == self.players@ && end.0.player_idx
                == self.player_idx,
    {
        let mut game = self;
        let mut outcome = game.is_game_over(&game.board, WIN_LENGTH, CAPTURE_THRESHOLD);
        let ghost started_over = outcome.is_game_over;
        let ghost mut so_far: Seq<Position> = seq![self.position()];
        while !outcome.is_game_over
            invariant
                game.wf(),
                outcome == game.outcome(),
                game.board.size == self.board.size,
                tallies_grown(self.players@, game.players@),
                game.players.len() == self.players.len(),
                course(so_far),
                so_far[0] == self.position(),
                so_far[so_far.len() - 1] == game.position(),
                !started_over ==> outcome == ongoing() || outcome == drawn() || (outcome == won_by(
                    outcome.winner,
                ) && outcome.winner < self.players.len()),
                started_over == self.outcome().is_game_over,
                started_over ==> outcome == self.outcome() && game.board@ == self.board@
                    && game.players@ == self.players@ && game.player_idx == self.player_idx,
            decreases (if outcome.is_game_over { 0 } else { game.moves_bound() + 1 }),
        {
            let moves = game.board.get_moves();
            proof {
                lemma_legal_moves(game.board@);
            }
            let pick = random_below(rng, moves.len());
            let action = moves[pick];
            proof {
                lemma_course_grows(so_far, action.0 as int, action.1 as int);
                so_far = so_far.push(moved(game.position(), action.0 as int, action.1 as int));
            }
            let res = game.step(action);
            assert(res is Ok);
            outcome = match res {
                Ok(o) => o,
                Err(_) => outcome,
            };
        }
        proof {
            assert(course(so_far) && so_far[0] == self.position() && so_far[so_far.len() - 1]
                == game.position());
            assert(reaches(self.position(), game.position()));
            assert forall|o: GameOutcome| #[trigger] decided_at_once(self.position(), o) implies outcome
                == o by {
                lemma_decided_at_once(self.position(), o, outcome);
            }
        }
        (game, outcome)
    }

    /// Plays `n` random games to the end, each from a copy of this position,
    /// and returns how each of them ended.
    pub fn rollout_outcomes(&self, n: usize, rng: &mut StdRng) -> (outcomes: Vec<GameOutcome>)
        requires
            self.wf(),
        ensures
            playouts(self.position(), outcomes@, n as int),
            !self.outcome().is_game_over ==> forall|k: int|
                0 <= k < n ==> (#[trigger] outcomes@[k]) == drawn() || (outcomes@[k] == won_by(
                    outcomes@[k].winner,
                ) && outcomes@[k].winner < self.players.len()),
            self.outcome().is_game_over ==> forall|k: int|
                0 <= k < n ==> (#[trigger] outcomes@[k]) == self.outcome(),
            forall|o: GameOutcome, k: int|
                #![trigger decided_at_once(self.position(), o), outcomes@[k]]
                decided_at_once(self.position(), o) && 0 <= k < n ==> outcomes@[k] == o,
    {
        let mut outcomes: Vec<GameOutcome> = Vec::new();
        let mut i: usize = 0;
        while i < n
            invariant
                i <= n,
                self.wf(),
                outcomes.len() == i,
                forall|k: int| 0 <= k < i ==> ends_in(self.position(), #[trigger] outcomes@[k]),
                !self.outcome().is_game_over ==> forall|k: int|
                    0 <= k < i ==> (#[trigger] outcomes@[k]) == drawn() || (outcomes@[k]
                        == won_by(outcomes@[k].winner) && outcomes@[k].winner
                        < self.players.len()),
                self.outcome().is_game_over ==> forall|k: int|
                    0 <= k < i ==> (#[trigger] outcomes@[k]) == self.outcome(),
            decreases n - i,
        {
            let game = self.clone();
            assert(game.position() == self.position());
            let end = game.playout(rng);
            outcomes.push(end.1);
            i += 1;
        }
        proof {
            assert forall|o: GameOutcome, k: int|
                #![trigger decided_at_once(self.position(), o), outcomes@[k]]
                decided_at_once(self.position(), o) && 0 <= k < n implies outcomes@[k] == o by {
                lemma_decided_at_once(self.position(), o, outcomes@[k]);
            }
        }
        outcomes
    }

    /// Plays `n` random games to the end, each from a copy of this position,
    /// and returns how many were won by side 0, how many by side 1, and how
    /// many were drawn. The position itself is not touched. With one or two
    /// players every game is counted; a win of a third or fourth side is in
    /// none of the three counts.
    pub fn rollout(&mut self, n: usize, rng: &mut StdRng) -> (t: (usize, usize, usize))
        requires
            old(self).wf(),
        ensures
            *final(self) == *old(self),
            exists|outcomes: Seq<GameOutcome>|
                #[trigger] playouts(old(self).position(), outcomes, n as int) && t.0 == wins_for(
                    outcomes,
                    0,
                ) && t.1 == wins_for(outcomes, 1) && t.2 == draws_in(outcomes),
            t.0 + t.1 + t.2 <= n,
            !old(self).outcome().is_game_over && old(self).players.len() <= 2 ==> t.0 + t.1 + t.2
                == n,
            old(self).outcome().is_game_over ==> {
                let o = old(self).outcome();
                &&& t.0 == (if counts_for(o, 0) { n } else { 0 })
                &&& t.1 == (if counts_for(o, 1) { n } else { 0 })
                &&& t.2 == (if o.is_draw { n } else { 0 })
            },
            forall|o: GameOutcome|
                #![trigger decided_at_once(old(self).position(), o)]
                decided_at_once(old(self).position(), o) ==> {
                    &&& t.0 == (if counts_for(o, 0) { n } else { 0 })
                    &&& t.1 == (if counts_for(o, 1) { n } else { 0 })
                    &&& t.2 == (if o.is_draw { n } else { 0 })
                },
    {
        let outcomes = self.rollout_outcomes(n, rng);
        proof {
            lemma_tally_bound(outcomes@);
            if self.outcome().is_game_over {
                lemma_tally_uniform(outcomes@, self.outcome(), 0);
                lemma_tally_uniform(outcomes@, self.outcome(), 1);
            } else if self.players.len() <= 2 {
                lemma_tally_complete(outcomes@);
            }
            assert(playouts(self.position(), outcomes@, n as int));
            assert forall|o: GameOutcome|
                #![trigger decided_at_once(self.position(), o)]
                decided_at_once(self.position(), o) implies {
                &&& wins_for(outcomes@, 0) == (if counts_for(o, 0) { n as int } else { 0 })
                &&& wins_for(outcomes@, 1) == (if counts_for(o, 1) { n as int } else { 0 })
                &&& draws_in(outcomes@) == (if o.is_draw { n as int } else { 0 })
            } by {
                lemma_playouts_decided_at_once(self.position(), o, outcomes@, n as int, 0);
                lemma_playouts_decided_at_once(self.position(), o, outcomes@, n as int, 1);
            }
        }
        tally_outcomes(&outcomes)
    }

    /// Plays the game to its end and returns the final position with its
    /// outcome. With `random` set, every move is drawn at random from the
    /// legal ones; otherwise the player to move chooses by playouts. A game
    /// that is over already is returned as it is.
    pub fn run(self, random: bool, rng: &mut StdRng) -> (end: (Game, GameOutcome))
        requires
            self.wf(),
        ensures
            end.0.wf(),
            end.1 == end.0.outcome(),
            end.1.is_game_over,
            end.0.board.size == self.board.size,
            tallies_grown(self.players@, end.0.players@),
            reaches(self.position(), end.0.position()),
            ends_in(self.position(), end.1),
            !self.outcome().is_game_over ==> end.1 == drawn() || (end.1 == won_by(end.1.winner)
                && end.1.winner < self.players.len()),
            forall|o: GameOutcome| #[trigger] decided_at_once(self.position(), o) ==> end.1 == o,
            self.outcome().is_game_over ==> end.1 == self.outcome() && end.0.board@
                == self.board@ && end.0.players@ == self.players@ && end.0.player_idx
                == self.player_idx,
    {
        if random {
            return self.playout(rng);
        }
        let mut game = self;
        let mut outcome = game.is_game_over(&game.board, WIN_LENGTH, CAPTURE_THRESHOLD);
        let ghost started_over = outcome.is_game_over;
        let ghost mut so_far: Seq<Position> = seq![self.position()];
        while !outcome.is_game_over
            invariant
                game.wf(),
                outcome == game.outcome(),
                game.board.size == self.board.size,
                tallies_grown(self.players@, game.players@),
                game.players.len() == self.players.len(),
                course(so_far),
                so_far[0] == self.position(),
                so_far[so_far.len() - 1] == game.position(),
                !started_over ==> outcome == ongoing() || outcome == drawn() || (outcome == won_by(
                    outcome.winner,
                ) && outcome.winner < self.players.len()),
                started_over == self.outcome().is_game_over,
                started_over ==> outcome == self.outcome() && game.board@ == self.board@
                    && game.players@ == self.players@ && game.player_idx == self.player_idx,
            decreases (if outcome.is_game_over { 0 } else { game.moves_bound() + 1 }),
        {
            let player = game.players[game.player_idx];
            let action = player.think(game.clone(), rng);
            proof {
                lemma_course_grows(so_far, action.0 as int, action.1 as int);
                so_far = so_far.push(moved(game.position(), action.0 as int, action.1 as int));
            }
            let res = game.step(action);
            assert(res is Ok);
            outcome = match res {
                Ok(o) => o,
                Err(_) => outcome,
            };
        }
        proof {
            assert(course(so_far) && so_far[0] == self.position() && so_far[so_far.len() - 1]
                == game.position());
            assert(reaches(self.position(), game.position()));
            assert forall|o: GameOutcome| #[trigger] decided_at_once(self.position(), o) implies outcome
                == o by {
                lemma_decided_at_once(self.position(), o, outcome);
            }
        }
        (game, outcome)
    }
}

} // verus!

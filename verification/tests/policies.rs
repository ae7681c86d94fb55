use pente::alphabetaplayer::AlphaBetaPlayer;
use pente::board::{Board, Piece};
use pente::game::{count_wins, tally_outcomes, Game, GameOutcome, NO_WINNER};
use pente::mcts_player::{best_move, MCTSPlayer};
use pente::player::PlayerBehavior;
use pente::random_player::RandomPlayer;
use rand::rngs::StdRng;
use rand::SeedableRng;

fn drawn() -> GameOutcome {
    GameOutcome { is_game_over: true, is_draw: true, winner: NO_WINNER }
}

fn won_by(winner: usize) -> GameOutcome {
    GameOutcome { is_game_over: true, is_draw: false, winner }
}

fn pattern(r: usize, c: usize) -> Piece {
    if (c + 2 * r) % 4 < 2 {
        Piece::Black
    } else {
        Piece::White
    }
}

/// A board of five by five cells on which Black has four in a row at the top
/// and the cells (0, 4) and (2, 2) are the only empty ones.
fn one_move_from_winning() -> Game {
    let mut game = Game::new(5, 2);
    for r in 0..5 {
        for c in 0..5 {
            game.board.set(r, c, pattern(r, c));
        }
    }
    for c in 0..4 {
        game.board.set(0, c, Piece::Black);
    }
    game.board.set(0, 4, Piece::Empty);
    game.board.set(2, 2, Piece::Empty);
    game
}

fn with_empties(size: usize, empties: usize) -> Board {
    let mut board = Board::new(size);
    let mut left = size * size - empties;
    for r in 0..size {
        for c in 0..size {
            if left > 0 {
                board.set(r, c, if (r + c) % 2 == 0 { Piece::Black } else { Piece::White });
                left -= 1;
            }
        }
    }
    board
}

#[test]
fn random_player_chooses_a_legal_move() {
    let mut rng = StdRng::seed_from_u64(11);
    let player = RandomPlayer::new(0, Piece::Black);
    let mut game = Game::new(4, 2);
    for r in 0..4 {
        for c in 0..4 {
            if (r, c) != (1, 2) && (r, c) != (3, 0) {
                game.board.set(r, c, Piece::White);
            }
        }
    }
    for _ in 0..50 {
        let choice = player.think(game.clone(), &mut rng);
        assert!(choice == (1, 2) || choice == (3, 0));
    }
}

#[test]
fn random_player_reaches_every_legal_move() {
    let mut rng = StdRng::seed_from_u64(5);
    let player = RandomPlayer::new(0, Piece::Black);
    let game = Game::new(2, 2);
    let mut seen = vec![false; 4];
    for _ in 0..200 {
        let choice = player.think(game.clone(), &mut rng);
        assert!(game.board.is_legal(choice.0, choice.1));
        seen[choice.0 * 2 + choice.1] = true;
    }
    assert_eq!(seen, vec![true; 4]);
}

#[test]
fn random_player_is_reproducible_for_a_seed() {
    let player = RandomPlayer::new(0, Piece::Black);
    let game = Game::new(9, 2);
    let mut first = StdRng::seed_from_u64(2024);
    let mut second = StdRng::seed_from_u64(2024);
    for _ in 0..20 {
        assert_eq!(
            player.think(game.clone(), &mut first),
            player.think(game.clone(), &mut second)
        );
    }
}

#[test]
fn best_move_takes_the_first_of_the_highest_scores() {
    let moves = vec![(0, 0), (0, 1), (1, 0), (1, 1)];
    assert_eq!(best_move(&moves, &vec![0, 0, 0, 0]), (0, 0));
    assert_eq!(best_move(&moves, &vec![1, 3, 3, 2]), (0, 1));
    assert_eq!(best_move(&moves, &vec![1, 2, 3, 4]), (1, 1));
    assert_eq!(best_move(&moves, &vec![5, 2, 5, 4]), (0, 0));
    assert_eq!(best_move(&vec![(7, 9)], &vec![0]), (7, 9));
}

#[test]
fn outcomes_are_tallied() {
    let outcomes = vec![won_by(0), drawn(), won_by(1), won_by(0), won_by(3), won_by(0), drawn()];
    assert_eq!(tally_outcomes(&outcomes), (3, 1, 2));
    assert_eq!(tally_outcomes(&Vec::new()), (0, 0, 0));
}

#[test]
fn score_is_the_number_of_wins_of_the_own_side() {
    let outcomes = vec![won_by(0), drawn(), won_by(2), won_by(1), won_by(2), won_by(3), won_by(1)];
    assert_eq!(MCTSPlayer::new(0, Piece::Black, 10, 0).score(&outcomes), 1);
    assert_eq!(MCTSPlayer::new(1, Piece::White, 10, 0).score(&outcomes), 2);
    assert_eq!(MCTSPlayer::new(2, Piece::Red, 10, 0).score(&outcomes), 2);
    assert_eq!(MCTSPlayer::new(3, Piece::Green, 10, 0).score(&outcomes), 1);
    for side in 0..4 {
        assert_eq!(count_wins(&outcomes, side), MCTSPlayer::new(side, Piece::Red, 1, 0).score(&outcomes));
    }
    assert_eq!(count_wins(&Vec::new(), 0), 0);
    assert_eq!(count_wins(&vec![drawn()], 100), 0);
}

#[test]
fn third_side_takes_its_winning_move() {
    for seed in 0..5 {
        let mut rng = StdRng::seed_from_u64(seed);
        let mut game = Game::new(7, 3);
        for c in 0..4 {
            game.board.set(0, c, Piece::Red);
        }
        game.board.set(3, 3, Piece::Black);
        game.board.set(5, 5, Piece::White);
        game.player_idx = 2;
        for k in 0..3 {
            game.players[k].num_rollouts = 3;
        }
        let player = game.players[2];
        for r in 0..7 {
            for c in 0..7 {
                if r > 0 && game.board.is_legal(r, c) && !(r == 6 && c == 6) {
                    game.board.set(r, c, if (c + 2 * r) % 4 < 2 { Piece::Black } else { Piece::White });
                }
            }
        }
        let outcomes = {
            let mut after = game.clone();
            assert_eq!(after.step((0, 4)), Ok(won_by(2)));
            after.rollout_outcomes(3, &mut rng)
        };
        assert_eq!(outcomes, vec![won_by(2); 3]);
        assert_eq!(player.score(&outcomes), 3);
        assert_eq!(player.think(game.clone(), &mut rng), (0, 4));
    }
}

#[test]
fn rollouts_of_two_players_count_every_playout() {
    for seed in 0..4 {
        let mut rng = StdRng::seed_from_u64(seed);
        let mut game = Game::new(5, 2);
        let (w0, w1, draws) = game.rollout(40, &mut rng);
        assert_eq!(w0 + w1 + draws, 40);
        let outcomes = game.rollout_outcomes(20, &mut rng);
        assert_eq!(outcomes.len(), 20);
        for o in &outcomes {
            assert!(o.is_game_over);
            assert!(o.is_draw || o.winner < 2);
        }
        assert_eq!(
            tally_outcomes(&outcomes),
            (count_wins(&outcomes, 0), count_wins(&outcomes, 1), outcomes.iter().filter(|o| o.is_draw).count())
        );
    }
}

#[test]
fn rollouts_where_every_move_wins_are_all_wins() {
    let mut rng = StdRng::seed_from_u64(17);
    let mut game = Game::new(6, 2);
    for c in 0..4 {
        game.board.set(0, c + 1, Piece::Black);
    }
    for r in 1..6 {
        for c in 0..6 {
            game.board.set(r, c, if (c + 2 * r) % 4 < 2 { Piece::Black } else { Piece::White });
        }
    }
    assert_eq!(game.board.get_moves(), vec![(0, 0), (0, 5)]);
    assert_eq!(game.rollout(12, &mut rng), (12, 0, 0));
    assert_eq!(game.rollout(0, &mut rng), (0, 0, 0));
    assert_eq!(game.rollout_outcomes(4, &mut rng), vec![won_by(0); 4]);
}

#[test]
fn games_can_be_tested_for_validity() {
    let mut game = Game::new(4, 3);
    assert!(game.is_valid());
    assert!(game.board.is_valid());
    game.player_idx = 3;
    assert!(!game.is_valid());
    game.player_idx = 1;
    game.players[2].piece_type = Piece::Green;
    assert!(!game.is_valid());
    game.players[2].piece_type = Piece::Red;
    game.players[0].id = 1;
    assert!(!game.is_valid());
    game.players[0].id = 0;
    assert!(game.is_valid());
    game.board.size = 5;
    assert!(!game.is_valid());
    assert!(!game.board.is_valid());
    game.board.size = 4;
    game.players.clear();
    assert!(!game.is_valid());
}

#[test]
fn playout_ends_the_game() {
    let mut rng = StdRng::seed_from_u64(3);
    for size in [1usize, 2, 3, 6] {
        let game = Game::new(size, 2);
        let (end, outcome) = game.playout(&mut rng);
        assert!(outcome.is_game_over);
        assert_eq!(end.current_outcome(), outcome);
        assert_eq!(end.board.size, size);
    }
}

#[test]
fn playout_of_a_finished_game_changes_nothing() {
    let mut rng = StdRng::seed_from_u64(3);
    let mut game = one_move_from_winning();
    assert_eq!(game.step((0, 4)), Ok(won_by(0)));
    let board = game.board.snapshot();
    let (end, outcome) = game.clone().playout(&mut rng);
    assert_eq!(outcome, won_by(0));
    assert_eq!(end.board.snapshot(), board);
    assert_eq!(end.player_idx, game.player_idx);
    let (end, outcome) = game.clone().run(false, &mut rng);
    assert_eq!(outcome, won_by(0));
    assert_eq!(end.board.snapshot(), board);
}

#[test]
fn rollouts_from_a_won_position_are_all_wins() {
    let mut rng = StdRng::seed_from_u64(8);
    let mut game = one_move_from_winning();
    assert_eq!(game.step((0, 4)), Ok(won_by(0)));
    let board = game.board.snapshot();
    for n in [0usize, 1, 10, 100] {
        assert_eq!(game.rollout(n, &mut rng), (n, 0, 0));
    }
    assert_eq!(game.board.snapshot(), board);
}

#[test]
fn rollouts_from_a_drawn_position_are_all_draws() {
    let mut rng = StdRng::seed_from_u64(8);
    let mut game = Game::new(5, 2);
    for r in 0..5 {
        for c in 0..5 {
            game.board.set(r, c, pattern(r, c));
        }
    }
    game.board.set(2, 2, Piece::Empty);
    assert_eq!(game.step((2, 2)), Ok(drawn()));
    assert_eq!(game.rollout(25, &mut rng), (0, 0, 25));
}

#[test]
fn rollouts_count_every_playout_at_most_once() {
    let mut rng = StdRng::seed_from_u64(21);
    let mut game = Game::new(4, 2);
    let (w0, w1, draws) = game.rollout(30, &mut rng);
    assert!(w0 + w1 + draws <= 30);
    assert_eq!(w0 + w1 + draws, 30);
    assert_eq!(game.board.get_moves().len(), 16);
    assert_eq!(game.player_idx, 0);
}

#[test]
fn playout_player_takes_the_winning_move() {
    for seed in 0..5 {
        let mut rng = StdRng::seed_from_u64(seed);
        let game = one_move_from_winning();
        let player = game.players[0];
        assert_eq!(player.think(game.clone(), &mut rng), (0, 4));
    }
}

#[test]
fn playout_player_with_no_playouts_takes_the_first_move() {
    let mut rng = StdRng::seed_from_u64(1);
    let mut game = Game::new(3, 2);
    game.board.set(0, 0, Piece::White);
    let player = MCTSPlayer::new(0, Piece::Black, 0, 0);
    assert_eq!(player.think(game, &mut rng), (0, 1));
}

#[test]
fn playout_player_chooses_a_legal_move() {
    let mut rng = StdRng::seed_from_u64(77);
    let game = Game::new(3, 2);
    let player = MCTSPlayer::new(0, Piece::Black, 5, 0);
    let choice = player.think(game.clone(), &mut rng);
    assert!(game.board.is_legal(choice.0, choice.1));
}

#[test]
fn game_run_by_the_playout_players_ends() {
    let mut rng = StdRng::seed_from_u64(4);
    let mut game = Game::new(3, 2);
    game.players[0].num_rollouts = 2;
    game.players[1].num_rollouts = 2;
    let (end, outcome) = game.run(false, &mut rng);
    assert!(outcome.is_game_over);
    assert_eq!(end.current_outcome(), outcome);
    let (end, outcome) = Game::new(3, 2).run(true, &mut rng);
    assert!(outcome.is_game_over);
    assert_eq!(end.current_outcome(), outcome);
}

#[test]
fn search_scores_zero_when_the_horizon_comes_first() {
    let mut rng = StdRng::seed_from_u64(9);
    let player = AlphaBetaPlayer::new(0, Piece::Black);
    let mut board = Board::new(3);
    for maximizing in [true, false] {
        assert_eq!(player.minimax(&mut board, 0, isize::MIN, isize::MAX, maximizing, &mut rng), 0);
        assert_eq!(player.minimax(&mut board, 3, isize::MIN, isize::MAX, maximizing, &mut rng), 0);
    }
    let mut three_left = with_empties(3, 3);
    assert_eq!(player.minimax(&mut three_left, 3, isize::MIN, isize::MAX, true, &mut rng), 0);
    assert_eq!(player.minimax(&mut three_left, 3, -5, 5, false, &mut rng), 0);
    assert_eq!(board.get_moves().len(), 9);
}

#[test]
fn search_scores_a_board_that_fills_up_by_the_side_to_move_then() {
    let mut rng = StdRng::seed_from_u64(9);
    let player = AlphaBetaPlayer::new(0, Piece::Black);
    let mut none_left = with_empties(3, 0);
    assert_eq!(
        player.minimax(&mut none_left, 1, isize::MIN, isize::MAX, true, &mut rng),
        isize::MIN
    );
    assert_eq!(
        player.minimax(&mut none_left, 1, isize::MIN, isize::MAX, false, &mut rng),
        isize::MAX
    );
    assert_eq!(player.minimax(&mut none_left, 0, isize::MIN, isize::MAX, true, &mut rng), 0);
    let mut one_left = with_empties(3, 1);
    assert_eq!(
        player.minimax(&mut one_left, 3, isize::MIN, isize::MAX, true, &mut rng),
        isize::MAX
    );
    assert_eq!(
        player.minimax(&mut one_left, 3, isize::MIN, isize::MAX, false, &mut rng),
        isize::MIN
    );
    assert_eq!(player.minimax(&mut one_left, 1, isize::MIN, isize::MAX, true, &mut rng), 0);
    let mut two_left = with_empties(3, 2);
    assert_eq!(
        player.minimax(&mut two_left, 3, isize::MIN, isize::MAX, true, &mut rng),
        isize::MIN
    );
    assert_eq!(
        player.minimax(&mut two_left, 3, isize::MIN, isize::MAX, false, &mut rng),
        isize::MAX
    );
    assert_eq!(player.minimax(&mut two_left, 2, isize::MIN, isize::MAX, true, &mut rng), 0);
    assert_eq!(two_left.get_moves().len(), 2);
}

#[test]
fn search_does_not_depend_on_the_bounds_or_the_seed() {
    let player = AlphaBetaPlayer::new(1, Piece::White);
    for seed in 0..6 {
        let mut rng = StdRng::seed_from_u64(seed);
        let mut two_left = with_empties(3, 2);
        for (alpha, beta) in [(isize::MIN, isize::MAX), (0, 0), (-3, 8), (7, -7)] {
            assert_eq!(player.minimax(&mut two_left, 4, alpha, beta, true, &mut rng), isize::MIN);
            assert_eq!(player.minimax(&mut two_left, 2, alpha, beta, true, &mut rng), 0);
        }
    }
}

#[test]
fn deeper_search_of_a_resolved_position_scores_the_same() {
    let mut rng = StdRng::seed_from_u64(13);
    let player = AlphaBetaPlayer::new(0, Piece::Black);
    let mut two_left = with_empties(3, 2);
    let at_three = player.minimax(&mut two_left, 3, isize::MIN, isize::MAX, true, &mut rng);
    for depth in 4..8 {
        assert_eq!(
            player.minimax(&mut two_left, depth, isize::MIN, isize::MAX, true, &mut rng),
            at_three
        );
    }
}

#[test]
fn search_with_stones_that_fill_nothing() {
    let mut rng = StdRng::seed_from_u64(13);
    let player = AlphaBetaPlayer::new(0, Piece::Empty);
    let mut one_left = with_empties(2, 1);
    assert_eq!(player.minimax(&mut one_left, 3, isize::MIN, isize::MAX, true, &mut rng), 0);
    let mut none_left = with_empties(2, 0);
    assert_eq!(
        player.minimax(&mut none_left, 3, isize::MIN, isize::MAX, false, &mut rng),
        isize::MAX
    );
}

#[test]
fn search_player_takes_the_first_candidate() {
    let mut rng = StdRng::seed_from_u64(6);
    let player = AlphaBetaPlayer::new(0, Piece::Black);
    let board = with_empties(3, 4);
    let moves = board.get_moves();
    assert_eq!(moves.len(), 4);
    assert_eq!(player.think_ordered(&board, &moves, &mut rng), moves[0]);
    let turned: Vec<(usize, usize)> = moves.iter().rev().cloned().collect();
    assert_eq!(player.think_ordered(&board, &turned, &mut rng), moves[3]);
    let two = with_empties(3, 2);
    let moves = two.get_moves();
    assert_eq!(player.think_ordered(&two, &moves, &mut rng), moves[0]);
}

#[test]
fn search_player_chooses_a_legal_move() {
    let player = AlphaBetaPlayer::new(0, Piece::Black);
    for empties in 1..5 {
        let board = with_empties(3, empties);
        let mut rng = StdRng::seed_from_u64(empties as u64);
        for _ in 0..10 {
            let choice = player.think(&board, &mut rng);
            assert!(board.is_legal(choice.0, choice.1));
        }
        assert_eq!(board.get_moves().len(), empties);
    }
}

#[test]
fn search_player_is_reproducible_for_a_seed() {
    let player = AlphaBetaPlayer::new(0, Piece::Black);
    let board = with_empties(3, 5);
    let mut first = StdRng::seed_from_u64(99);
    let mut second = StdRng::seed_from_u64(99);
    for _ in 0..5 {
        assert_eq!(player.think(&board, &mut first), player.think(&board, &mut second));
    }
}

#[test]
fn search_player_varies_its_move_with_the_seed() {
    let player = AlphaBetaPlayer::new(0, Piece::Black);
    let board = with_empties(3, 4);
    let mut rng = StdRng::seed_from_u64(1234);
    let mut seen: Vec<(usize, usize)> = Vec::new();
    for _ in 0..60 {
        let choice = player.think(&board, &mut rng);
        if !seen.contains(&choice) {
            seen.push(choice);
        }
    }
    assert_eq!(seen.len(), 4);
}

#[test]
fn players_behave_alike() {
    fn tried<P: PlayerBehavior>(mut player: P, id: usize) {
        let mut rng = StdRng::seed_from_u64(31);
        assert_eq!(player.get_id(), id);
        player.set_id(id + 1);
        assert_eq!(player.get_id(), id + 1);
        assert_eq!(player.get_capture_count(), 0);
        let mut game = Game::new(5, 2);
        game.board.set(1, 1, Piece::White);
        game.board.set(1, 2, Piece::White);
        game.board.set(1, 3, Piece::Black);
        assert_eq!(player.act(&mut game.board, 1, 0), Ok(()));
        assert_eq!(player.get_capture_count(), 1);
        assert_eq!(
            player.act(&mut game.board, 1, 0),
            Err("Position already occupied".to_string())
        );
        assert_eq!(player.act(&mut game.board, 0, 5), Err("Position out of bounds".to_string()));
        assert_eq!(player.get_capture_count(), 1);
        player.set_capture_count(3);
        assert_eq!(player.get_capture_count(), 3);
        let choice = player.think(&game, &mut rng);
        assert!(game.board.is_legal(choice.0, choice.1));
    }
    tried(RandomPlayer::new(0, Piece::Black), 0);
    tried(MCTSPlayer::new(0, Piece::Black, 1, 0), 0);
    tried(AlphaBetaPlayer::new(0, Piece::Black), 0);
}

#[test]
fn owns_piece_compares_with_the_own_colour() {
    let mut board = Board::new(3);
    board.set(0, 0, Piece::Black);
    board.set(0, 1, Piece::White);
    let black = RandomPlayer::new(0, Piece::Black);
    assert!(black.owns_piece(&board, 0, 0));
    assert!(!black.owns_piece(&board, 0, 1));
    assert!(!black.owns_piece(&board, 2, 2));
    let white = MCTSPlayer::new(1, Piece::White, 1, 0);
    assert!(white.owns_piece(&board, 0, 1));
    assert!(!white.owns_piece(&board, 0, 0));
    let searching = AlphaBetaPlayer::new(1, Piece::White);
    assert!(searching.owns_piece(&board, 0, 1));
    assert!(!searching.owns_piece(&board, 1, 1));
}

#[test]
fn playout_player_acts_and_captures() {
    let mut board = Board::new(5);
    let mut player_0 = MCTSPlayer::new(0, Piece::Black, 100, 0);
    let mut player_1 = MCTSPlayer::new(1, Piece::White, 100, 2);
    assert_eq!(player_0.act(&mut board, 1, 1), Ok(()));
    assert_eq!(player_1.act(&mut board, 1, 0), Ok(()));
    assert_eq!(player_0.act(&mut board, 1, 2), Ok(()));
    assert_eq!(player_0.act(&mut board, 1, 2), Err("Position already occupied".to_string()));
    assert_eq!(player_0.act(&mut board, 5, 2), Err("Position out of bounds".to_string()));
    player_1.capture(&mut board, 1, 3);
    assert_eq!(player_1.captured_pairs, 3);
    assert_eq!(player_1.num_rollouts, 100);
    assert_eq!(board.get(1, 1), Piece::Empty);
    assert_eq!(board.get(1, 2), Piece::Empty);
    assert_eq!(player_1.act(&mut board, 1, 3), Ok(()));
    assert_eq!(player_1.captured_pairs, 3);
}

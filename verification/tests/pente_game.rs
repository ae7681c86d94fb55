use pente::board::MoveError;
use pente::pente::{Ending, Pente};
use rand::rngs::StdRng;
use rand::SeedableRng;

fn rows(game: &Pente) -> Vec<Vec<i8>> {
    game.get_board()
}

#[test]
fn new_game_is_empty_with_side_one_to_move() {
    let game = Pente::new();
    assert_eq!(game.size(), 19);
    assert_eq!(game.current_player, 1);
    assert_eq!(game.player_1_pairs, 0);
    assert_eq!(game.player_2_pairs, 0);
    assert_eq!(rows(&game), vec![vec![0i8; 19]; 19]);
    assert_eq!(game.get_valid_actions().len(), 361);
    assert!(!game.is_full());
}

#[test]
fn get_and_set_address_one_cell() {
    let mut game = Pente::new();
    game.set(3, 4, -1);
    game.set(18, 0, 7);
    assert_eq!(game.get(3, 4), -1);
    assert_eq!(game.get(18, 0), 7);
    assert_eq!(game.get(4, 3), 0);
    assert_eq!(game.get_valid_actions().len(), 359);
    let board = rows(&game);
    assert_eq!(board[3][4], -1);
    assert_eq!(board[18][0], 7);
}

#[test]
fn reset_returns_a_fresh_game() {
    let mut game = Pente::new();
    game.set(1, 1, 1);
    game.player_1_pairs = 3;
    let fresh = game.reset();
    assert_eq!(rows(&fresh), vec![vec![0i8; 19]; 19]);
    assert_eq!(fresh.player_1_pairs, 0);
    assert_eq!(fresh.current_player, 1);
    assert_eq!(game.get(1, 1), 1);
    assert_eq!(game.player_1_pairs, 3);
}

#[test]
fn game_from_a_given_board() {
    let mut board = vec![vec![0i8; 19]; 19];
    board[0][0] = 1;
    board[7][9] = -1;
    board[18][18] = 1;
    let mut game = Pente::new();
    game.current_player = -1;
    let made = game.new_from_board(board.clone());
    assert_eq!(rows(&made), board);
    assert_eq!(made.current_player, 1);
    assert_eq!(made.size(), 19);
    assert_eq!(game.current_player, -1);
    assert_eq!(game.get(0, 0), 0);
    let mut wide = vec![vec![5i8; 25]; 21];
    wide[2][3] = 1;
    let made = game.new_from_board(wide);
    assert_eq!(made.get(2, 3), 1);
    assert_eq!(made.get(18, 18), 5);
    assert_eq!(rows(&made).len(), 19);
    assert_eq!(rows(&made)[0].len(), 19);
}

#[test]
fn on_board_takes_signed_coordinates() {
    let game = Pente::new();
    assert!(game.is_on_board(0, 0));
    assert!(game.is_on_board(18, 18));
    assert!(!game.is_on_board(-1, 0));
    assert!(!game.is_on_board(0, -1));
    assert!(!game.is_on_board(19, 0));
    assert!(!game.is_on_board(0, 19));
    assert!(!game.is_on_board(isize::MIN, isize::MAX));
}

#[test]
fn valid_action_is_an_empty_cell_on_the_board() {
    let mut game = Pente::new();
    game.set(2, 2, 1);
    assert!(game.is_valid_action(2, 3));
    assert!(!game.is_valid_action(2, 2));
    assert!(!game.is_valid_action(-1, 2));
    assert!(!game.is_valid_action(2, 19));
}

#[test]
fn pair_counts_by_side() {
    let mut game = Pente::new();
    game.player_1_pairs = 2;
    game.player_2_pairs = 4;
    assert_eq!(game.get_pair_count(-1), 2);
    assert_eq!(game.get_pair_count(1), 4);
    assert_eq!(game.get_pair_count(0), 4);
}

#[test]
fn place_puts_a_stone_of_the_side_to_move() {
    let mut game = Pente::new();
    game.place(4, 5).unwrap();
    assert_eq!(game.get(4, 5), 1);
    game.current_player = -1;
    game.place(4, 6).unwrap();
    assert_eq!(game.get(4, 6), -1);
    assert_eq!(game.get_valid_actions().len(), 359);
}

#[test]
fn capture_takes_a_flanked_pair_in_each_direction() {
    let directions: Vec<(isize, isize)> =
        vec![(0, 1), (0, -1), (1, 0), (-1, 0), (1, 1), (-1, 1), (1, -1), (-1, -1)];
    for d in directions {
        let mut game = Pente::new();
        let at = |k: isize| ((9 + k * d.0) as usize, (9 + k * d.1) as usize);
        game.set(at(1).0, at(1).1, -1);
        game.set(at(2).0, at(2).1, -1);
        game.set(at(3).0, at(3).1, 1);
        game.set(9, 9, 1);
        game.capture(9, 9);
        assert_eq!(game.get(at(1).0, at(1).1), 0);
        assert_eq!(game.get(at(2).0, at(2).1), 0);
        assert_eq!(game.get(at(3).0, at(3).1), 1);
        assert_eq!(game.get(9, 9), 1);
        assert_eq!(game.player_2_pairs, 1);
        assert_eq!(game.player_1_pairs, 0);
    }
}

#[test]
fn capture_by_the_other_side_counts_in_the_first_tally() {
    let mut game = Pente::new();
    game.current_player = -1;
    game.set(0, 1, 1);
    game.set(0, 2, 1);
    game.set(0, 3, -1);
    game.set(0, 0, -1);
    game.capture(0, 0);
    assert_eq!(game.get(0, 1), 0);
    assert_eq!(game.get(0, 2), 0);
    assert_eq!(game.player_1_pairs, 1);
    assert_eq!(game.player_2_pairs, 0);
}

#[test]
fn capture_leaves_three_in_a_row_and_own_stones() {
    let mut game = Pente::new();
    game.set(5, 6, -1);
    game.set(5, 7, -1);
    game.set(5, 8, -1);
    game.set(5, 9, 1);
    game.set(6, 5, 1);
    game.set(7, 5, 1);
    game.set(8, 5, -1);
    game.set(4, 4, -1);
    game.set(3, 3, 3);
    game.set(2, 2, 1);
    game.set(5, 5, 1);
    let before = rows(&game);
    game.capture(5, 5);
    assert_eq!(rows(&game), before);
    assert_eq!(game.player_1_pairs, 0);
    assert_eq!(game.player_2_pairs, 0);
}

#[test]
fn capture_near_the_corner() {
    let mut game = Pente::new();
    game.set(0, 1, -1);
    game.set(0, 2, -1);
    game.set(0, 0, 1);
    game.capture(0, 0);
    assert_eq!(game.get(0, 1), -1);
    assert_eq!(game.player_2_pairs, 0);
}

#[test]
fn step_places_captures_and_passes_the_turn() {
    let mut game = Pente::new();
    let (state, reward, done) = game.step(1, 0).unwrap();
    assert_eq!((reward, done), (0, false));
    assert_eq!(state.get(1, 0), 1);
    assert_eq!(state.current_player, -1);
    assert_eq!(game.current_player, -1);
    game.step(1, 1).unwrap();
    game.step(9, 9).unwrap();
    game.step(1, 2).unwrap();
    let (state, reward, done) = game.step(1, 3).unwrap();
    assert_eq!((reward, done), (0, false));
    assert_eq!(state.player_2_pairs, 1);
    assert_eq!(state.get(1, 1), 0);
    assert_eq!(state.get(1, 2), 0);
    assert_eq!(rows(&state), rows(&game));
    assert_eq!(game.current_player, -1);
}

#[test]
fn step_ends_the_game_on_five_in_a_row() {
    let mut game = Pente::new();
    for c in 0..4 {
        assert!(!game.step(3, c).unwrap().2);
        assert!(!game.step(10, 2 * c).unwrap().2);
    }
    let (state, reward, done) = game.step(3, 4).unwrap();
    assert!(done);
    assert_eq!(reward, 1);
    assert_eq!(state.current_player, 1);
    assert_eq!(game.current_player, 1);
}

#[test]
fn five_through_the_last_cell_in_each_orientation() {
    for d in [(0isize, 1isize), (1, 0), (1, 1), (-1, 1)] {
        for last in 0..5isize {
            let mut game = Pente::new();
            game.current_player = -1;
            for k in 0..5isize {
                if k != last {
                    game.set((9 + k * d.0) as usize, (9 + k * d.1) as usize, -1);
                }
            }
            let at = ((9 + last * d.0) as usize, (9 + last * d.1) as usize);
            assert!(!game.is_done(at.0, at.1));
            game.place(at.0, at.1).unwrap();
            assert!(game.is_done(at.0, at.1));
            game.current_player = 1;
            assert!(!game.is_done(at.0, at.1));
        }
    }
}

#[test]
fn row_that_misses_the_last_cell_does_not_count() {
    let mut game = Pente::new();
    for c in 0..5 {
        game.set(2, c, 1);
    }
    assert!(game.is_done(2, 0));
    assert!(game.is_done(2, 4));
    assert!(!game.is_done(2, 5));
    assert!(!game.is_done(3, 2));
    assert!(!game.is_done(12, 12));
}

#[test]
fn four_in_a_row_is_not_done() {
    let mut game = Pente::new();
    for c in 0..4 {
        game.set(2, c, 1);
    }
    game.set(2, 5, 1);
    assert!(!game.is_done(2, 3));
    assert!(!game.is_done(2, 0));
}

#[test]
fn five_pairs_end_the_game() {
    let mut game = Pente::new();
    game.player_1_pairs = 5;
    assert!(game.is_done(0, 0));
    game.player_1_pairs = 4;
    assert!(!game.is_done(0, 0));
    game.player_2_pairs = 6;
    assert!(game.is_done(0, 0));
}

#[test]
fn fifth_pair_by_a_move_ends_the_game() {
    let mut game = Pente::new();
    game.player_2_pairs = 4;
    game.set(0, 1, -1);
    game.set(0, 2, -1);
    game.set(0, 3, 1);
    let (state, reward, done) = game.step(0, 0).unwrap();
    assert!(done);
    assert_eq!(reward, 1);
    assert_eq!(state.player_2_pairs, 5);
    assert_eq!(state.get(0, 1), 0);
}

#[test]
fn full_board_ends_the_game() {
    let mut game = Pente::new();
    for r in 0..19usize {
        for c in 0..19usize {
            game.set(r, c, if (c + 2 * r) % 4 < 2 { 1 } else { -1 });
        }
    }
    assert!(game.is_full());
    assert!(game.is_done(0, 0));
    assert!(game.get_valid_actions().is_empty());
    game.set(7, 7, 0);
    assert!(!game.is_full());
    assert_eq!(game.get_valid_actions(), vec![(7, 7)]);
}

#[test]
fn valid_actions_are_listed_in_row_major_order() {
    let mut game = Pente::new();
    for r in 0..19usize {
        for c in 0..19usize {
            game.set(r, c, 1);
        }
    }
    game.set(18, 0, 0);
    game.set(0, 18, 0);
    game.set(4, 4, 0);
    assert_eq!(game.get_valid_actions(), vec![(0, 18), (4, 4), (18, 0)]);
}

#[test]
fn clone_is_independent() {
    let mut game = Pente::new();
    game.set(1, 1, 1);
    let copy = game.clone();
    game.set(1, 1, -1);
    game.set(2, 2, 1);
    game.player_1_pairs = 2;
    assert_eq!(copy.get(1, 1), 1);
    assert_eq!(copy.get(2, 2), 0);
    assert_eq!(copy.player_1_pairs, 0);
}

#[test]
fn random_game_runs_to_its_end() {
    for seed in 0..3 {
        let mut rng = StdRng::seed_from_u64(seed);
        let mut game = Pente::new();
        let states = game.play_random_game(&mut rng);
        assert!(!states.is_empty());
        let last = states.len() - 1;
        for (i, (_, reward, done)) in states.iter().enumerate() {
            assert_eq!(*done, i == last);
            if i < last {
                assert_eq!(*reward, 0);
            }
        }
        assert_eq!(rows(&states[last].0), rows(&game));
        assert_eq!(states[last].1, game.current_player);
        assert!(game.current_player == 1 || game.current_player == -1);
    }
}

#[test]
fn random_game_is_reproducible_for_a_seed() {
    let mut first = Pente::new();
    let mut second = Pente::new();
    let a = first.play_random_game(&mut StdRng::seed_from_u64(42));
    let b = second.play_random_game(&mut StdRng::seed_from_u64(42));
    assert_eq!(a.len(), b.len());
    assert_eq!(rows(&first), rows(&second));
}

#[test]
fn illegal_step_is_refused_and_changes_nothing() {
    let mut game = Pente::new();
    game.step(4, 4).unwrap();
    let board = rows(&game);
    assert!(matches!(game.step(4, 4), Err(MoveError::CellOccupied)));
    assert!(matches!(game.step(19, 0), Err(MoveError::OutOfBounds)));
    assert!(matches!(game.step(0, 19), Err(MoveError::OutOfBounds)));
    assert_eq!(game.place(4, 4), Err(MoveError::CellOccupied));
    assert_eq!(game.place(0, 40), Err(MoveError::OutOfBounds));
    assert_eq!(rows(&game), board);
    assert_eq!(game.current_player, -1);
    assert_eq!(game.player_1_pairs, 0);
    assert_eq!(game.player_2_pairs, 0);
}

#[test]
fn endings_in_their_order() {
    let mut game = Pente::new();
    assert_eq!(game.ending(0, 0), None);
    for c in 0..5 {
        game.set(2, c, 1);
    }
    assert_eq!(game.ending(2, 2), Some(Ending::Row));
    assert_eq!(game.ending(9, 9), None);
    for r in 0..19usize {
        for c in 0..19usize {
            if game.get(r, c) == 0 {
                game.set(r, c, if (c + 2 * r) % 4 < 2 { 1 } else { -1 });
            }
        }
    }
    assert_eq!(game.ending(2, 2), Some(Ending::Draw));
    game.player_2_pairs = 5;
    assert_eq!(game.ending(2, 2), Some(Ending::SecondSideByPairs));
    game.player_1_pairs = 7;
    assert_eq!(game.ending(2, 2), Some(Ending::FirstSideByPairs));
    assert!(game.is_done(2, 2));
}

#[test]
fn pairs_at_counts_without_changing_the_board() {
    let mut game = Pente::new();
    game.set(9, 10, -1);
    game.set(9, 11, -1);
    game.set(9, 12, 1);
    game.set(10, 9, -1);
    game.set(11, 9, -1);
    game.set(12, 9, 1);
    game.set(8, 8, -1);
    game.set(7, 7, 1);
    let before = rows(&game);
    assert_eq!(game.pairs_at(9, 9), 2);
    assert_eq!(game.pairs_at(0, 0), 0);
    assert_eq!(game.pairs_at(40, 40), 0);
    assert_eq!(rows(&game), before);
    game.current_player = -1;
    assert_eq!(game.pairs_at(9, 9), 0);
    game.current_player = 1;
    let (state, _, _) = game.step(9, 9).unwrap();
    assert_eq!(state.player_2_pairs, 2);
}

#[test]
fn validity_can_be_tested() {
    let mut game = Pente::new();
    assert!(game.is_valid());
    assert!(game.grid_is_valid());
    game.current_player = 3;
    assert!(!game.is_valid());
    assert!(game.grid_is_valid());
    game.current_player = -1;
    game.size = 18;
    assert!(!game.is_valid());
    assert!(!game.grid_is_valid());
}

#[test]
fn tally_near_its_limit() {
    let mut game = Pente::new();
    game.player_2_pairs = 255;
    assert!(game.any_move_fits_now());
    game.set(0, 1, -1);
    game.set(0, 2, -1);
    game.set(0, 3, 1);
    assert!(!game.any_move_fits_now());
    game.player_2_pairs = 254;
    assert!(game.any_move_fits_now());
    let (state, reward, done) = game.step(0, 0).unwrap();
    assert_eq!(state.player_2_pairs, 255);
    assert_eq!((reward, done), (1, true));
}

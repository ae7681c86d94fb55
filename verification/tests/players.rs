use pente::alphabetaplayer::AlphaBetaPlayer;
use pente::board::{Board, Piece};
use pente::random_player::RandomPlayer;

#[test]
fn alphabetaplayer_test_player_act() {
    let mut board = Board::new(3);
    let mut player = AlphaBetaPlayer::new(0, Piece::Black);
    assert_eq!(player.act(&mut board, 0, 0), Ok(()));
    assert_eq!(player.act(&mut board, 0, 0), Err("Position already occupied".to_string()));
    assert_eq!(player.act(&mut board, 3, 0), Err("Position out of bounds".to_string()));
}

#[test]
fn alphabetaplayer_test_player_capture() {
    let mut board = Board::new(5);
    let mut player_0 = AlphaBetaPlayer::new(0, Piece::Black);
    let mut player_1 = AlphaBetaPlayer::new(1, Piece::White);

    assert_eq!(player_0.act(&mut board, 1, 1), Ok(()));
    assert_eq!(player_1.act(&mut board, 1, 0), Ok(()));
    assert_eq!(player_0.act(&mut board, 1, 2), Ok(()));

    player_1.capture(&mut board, 1, 3);

    assert_eq!(player_1.captured_pairs, 1);
    assert_eq!(board.get(1, 1), Piece::Empty);
    assert_eq!(board.get(1, 2), Piece::Empty);
}

#[test]
fn random_player_test_player_act() {
    let mut board = Board::new(3);
    let mut player = RandomPlayer::new(0, Piece::Black);
    assert_eq!(player.act(&mut board, 0, 0), Ok(()));
    assert_eq!(player.act(&mut board, 0, 0), Err("Position already occupied".to_string()));
    assert_eq!(player.act(&mut board, 3, 0), Err("Position out of bounds".to_string()));
}

#[test]
fn random_player_test_player_capture() {
    let mut board = Board::new(5);
    let mut player_0 = RandomPlayer::new(0, Piece::Black);
    let mut player_1 = RandomPlayer::new(1, Piece::White);

    assert_eq!(player_0.act(&mut board, 1, 1), Ok(()));
    assert_eq!(player_1.act(&mut board, 1, 0), Ok(()));
    assert_eq!(player_0.act(&mut board, 1, 2), Ok(()));

    player_1.capture(&mut board, 1, 3);

    assert_eq!(player_1.captured_pairs, 1);
    assert_eq!(board.get(1, 1), Piece::Empty);
    assert_eq!(board.get(1, 2), Piece::Empty);
}

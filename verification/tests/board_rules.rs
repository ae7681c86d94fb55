use pente::board::{Board, MoveError, Piece};

fn directions() -> Vec<(isize, isize)> {
    vec![(0, 1), (0, -1), (1, 0), (-1, 0), (1, 1), (-1, -1), (1, -1), (-1, 1)]
}

fn cell(origin: (usize, usize), d: (isize, isize), k: isize) -> (usize, usize) {
    ((origin.0 as isize + k * d.0) as usize, (origin.1 as isize + k * d.1) as usize)
}

#[test]
fn new_board_is_empty_everywhere() {
    let board = Board::new(4);
    assert_eq!(board.size, 4);
    for r in 0..4 {
        for c in 0..4 {
            assert_eq!(board.get(r, c), Piece::Empty);
        }
    }
    assert_eq!(board.get_moves().len(), 16);
    assert!(!board.is_full());
}

#[test]
fn board_of_size_zero_is_full() {
    let board = Board::new(0);
    assert!(board.is_full());
    assert!(board.get_moves().is_empty());
    assert!(!board.is_on_board(0, 0));
}

#[test]
fn set_changes_one_cell_only() {
    let mut board = Board::new(3);
    board.set(1, 2, Piece::Red);
    for r in 0..3 {
        for c in 0..3 {
            let want = if (r, c) == (1, 2) { Piece::Red } else { Piece::Empty };
            assert_eq!(board.get(r, c), want);
        }
    }
    board.set(1, 2, Piece::Green);
    assert_eq!(board.get(1, 2), Piece::Green);
}

#[test]
fn clone_of_a_board_is_independent() {
    let mut board = Board::new(3);
    board.set(0, 1, Piece::Black);
    let copy = board.clone();
    board.set(0, 1, Piece::White);
    board.set(2, 2, Piece::Red);
    assert_eq!(copy.get(0, 1), Piece::Black);
    assert_eq!(copy.get(2, 2), Piece::Empty);
    assert_eq!(copy.size, 3);
}

#[test]
fn on_board_is_a_bounds_check() {
    let board = Board::new(5);
    assert!(board.is_on_board(0, 0));
    assert!(board.is_on_board(4, 4));
    assert!(!board.is_on_board(5, 0));
    assert!(!board.is_on_board(0, 5));
    assert!(!board.is_on_board(usize::MAX, 2));
}

#[test]
fn legal_means_on_board_and_empty() {
    let mut board = Board::new(3);
    board.set(1, 1, Piece::White);
    for r in 0..5 {
        for c in 0..5 {
            let want = r < 3 && c < 3 && (r, c) != (1, 1);
            assert_eq!(board.is_legal(r, c), want);
        }
    }
}

#[test]
fn place_refuses_and_leaves_the_board_alone() {
    let mut board = Board::new(3);
    assert_eq!(board.place(1, 1, Piece::Black), Ok(()));
    let before = board.snapshot();
    assert_eq!(board.place(1, 1, Piece::White), Err(MoveError::CellOccupied));
    assert_eq!(board.place(3, 1, Piece::White), Err(MoveError::OutOfBounds));
    assert_eq!(board.place(1, 3, Piece::White), Err(MoveError::OutOfBounds));
    assert_eq!(board.snapshot(), before);
    assert_eq!(board.get(1, 1), Piece::Black);
}

#[test]
fn error_messages() {
    assert_eq!(MoveError::OutOfBounds.message(), "Position out of bounds");
    assert_eq!(MoveError::CellOccupied.message(), "Position already occupied");
    assert_eq!(MoveError::GameAlreadyOver.message(), "Game is already over");
}

#[test]
fn moves_are_listed_in_row_major_order() {
    let mut board = Board::new(3);
    board.set(0, 0, Piece::Black);
    board.set(1, 1, Piece::White);
    board.set(2, 2, Piece::Black);
    assert_eq!(board.get_moves(), vec![(0, 1), (0, 2), (1, 0), (1, 2), (2, 0), (2, 1)]);
}

#[test]
fn snapshot_is_a_dense_copy() {
    let mut board = Board::new(2);
    board.set(0, 1, Piece::Black);
    board.set(1, 0, Piece::Green);
    assert_eq!(
        board.snapshot(),
        vec![vec![Piece::Empty, Piece::Black], vec![Piece::Green, Piece::Empty]]
    );
}

#[test]
fn full_board_is_detected() {
    let mut board = Board::new(2);
    board.set(0, 0, Piece::Black);
    board.set(0, 1, Piece::White);
    board.set(1, 0, Piece::White);
    assert!(!board.is_full());
    board.set(1, 1, Piece::Black);
    assert!(board.is_full());
    assert!(board.get_moves().is_empty());
}

#[test]
fn pair_is_captured_in_each_direction() {
    for d in directions() {
        let mut board = Board::new(7);
        let origin = (3, 3);
        let a = cell(origin, d, 1);
        let b = cell(origin, d, 2);
        let t = cell(origin, d, 3);
        board.set(a.0, a.1, Piece::White);
        board.set(b.0, b.1, Piece::White);
        board.set(t.0, t.1, Piece::Black);
        assert_eq!(board.play(3, 3, Piece::Black), Ok(1));
        assert_eq!(board.get(a.0, a.1), Piece::Empty);
        assert_eq!(board.get(b.0, b.1), Piece::Empty);
        assert_eq!(board.get(t.0, t.1), Piece::Black);
        assert_eq!(board.get(3, 3), Piece::Black);
        assert_eq!(board.get_moves().len(), 49 - 2);
    }
}

#[test]
fn three_in_a_row_are_not_captured() {
    for d in directions() {
        let mut board = Board::new(9);
        let origin = (4, 4);
        for k in 1..=3 {
            let p = cell(origin, d, k);
            board.set(p.0, p.1, Piece::White);
        }
        let far = cell(origin, d, 4);
        board.set(far.0, far.1, Piece::Black);
        let before = board.snapshot();
        assert_eq!(board.apply_captures(4, 4, Piece::Black), 0);
        assert_eq!(board.snapshot(), before);
    }
}

#[test]
fn single_stone_is_not_captured() {
    let mut board = Board::new(5);
    board.set(2, 1, Piece::White);
    board.set(2, 2, Piece::Black);
    assert_eq!(board.play(2, 0, Piece::Black), Ok(0));
    assert_eq!(board.get(2, 1), Piece::White);
}

#[test]
fn pair_of_two_different_opponents_is_not_captured() {
    let mut board = Board::new(5);
    board.set(0, 1, Piece::White);
    board.set(0, 2, Piece::Red);
    board.set(0, 3, Piece::Black);
    assert_eq!(board.play(0, 0, Piece::Black), Ok(0));
    assert_eq!(board.get(0, 1), Piece::White);
    assert_eq!(board.get(0, 2), Piece::Red);
}

#[test]
fn pair_of_a_third_side_is_captured() {
    let mut board = Board::new(5);
    board.set(0, 1, Piece::Red);
    board.set(0, 2, Piece::Red);
    board.set(0, 3, Piece::Black);
    assert_eq!(board.play(0, 0, Piece::Black), Ok(1));
    assert_eq!(board.get(0, 1), Piece::Empty);
    assert_eq!(board.get(0, 2), Piece::Empty);
}

#[test]
fn own_stones_are_never_removed() {
    let mut board = Board::new(5);
    board.set(2, 1, Piece::Black);
    board.set(2, 2, Piece::Black);
    board.set(2, 3, Piece::White);
    assert_eq!(board.play(2, 0, Piece::Black), Ok(0));
    assert_eq!(board.get(2, 1), Piece::Black);
    assert_eq!(board.get(2, 2), Piece::Black);
    assert_eq!(board.get(2, 0), Piece::Black);
}

#[test]
fn playing_into_a_flanked_spot_is_safe() {
    let mut board = Board::new(5);
    board.set(1, 0, Piece::White);
    board.set(1, 1, Piece::Black);
    board.set(1, 3, Piece::White);
    assert_eq!(board.play(1, 2, Piece::Black), Ok(0));
    assert_eq!(board.get(1, 1), Piece::Black);
    assert_eq!(board.get(1, 2), Piece::Black);
}

#[test]
fn several_pairs_fall_to_one_stone() {
    let mut board = Board::new(7);
    for d in directions() {
        let a = cell((3, 3), d, 1);
        let b = cell((3, 3), d, 2);
        let t = cell((3, 3), d, 3);
        board.set(a.0, a.1, Piece::White);
        board.set(b.0, b.1, Piece::White);
        board.set(t.0, t.1, Piece::Black);
    }
    assert_eq!(board.play(3, 3, Piece::Black), Ok(8));
    for d in directions() {
        let a = cell((3, 3), d, 1);
        let b = cell((3, 3), d, 2);
        let t = cell((3, 3), d, 3);
        assert_eq!(board.get(a.0, a.1), Piece::Empty);
        assert_eq!(board.get(b.0, b.1), Piece::Empty);
        assert_eq!(board.get(t.0, t.1), Piece::Black);
    }
    assert_eq!(board.get_moves().len(), 49 - 9);
}

#[test]
fn captures_near_the_edge_need_all_three_cells() {
    let mut board = Board::new(4);
    board.set(0, 2, Piece::White);
    board.set(0, 3, Piece::White);
    assert_eq!(board.play(0, 1, Piece::Black), Ok(0));
    assert_eq!(board.get(0, 2), Piece::White);
    assert_eq!(board.get(0, 3), Piece::White);
    assert_eq!(board.apply_captures(7, 7, Piece::Black), 0);
    assert_eq!(board.apply_captures(usize::MAX, usize::MAX, Piece::Black), 0);
}

#[test]
fn captures_do_not_read_the_played_cell() {
    let mut board = Board::new(5);
    board.set(1, 1, Piece::Black);
    board.set(1, 2, Piece::Black);
    board.set(1, 0, Piece::White);
    assert_eq!(board.apply_captures(1, 3, Piece::White), 1);
    assert_eq!(board.get(1, 3), Piece::Empty);
    assert_eq!(board.get(1, 1), Piece::Empty);
    assert_eq!(board.get(1, 2), Piece::Empty);
}

#[test]
fn play_refuses_like_place() {
    let mut board = Board::new(3);
    board.set(0, 0, Piece::White);
    let before = board.snapshot();
    assert_eq!(board.play(0, 0, Piece::Black), Err(MoveError::CellOccupied));
    assert_eq!(board.play(9, 0, Piece::Black), Err(MoveError::OutOfBounds));
    assert_eq!(board.snapshot(), before);
}

#[test]
fn runs_are_found_in_the_four_orientations() {
    for d in [(0isize, 1isize), (1, 0), (1, 1), (1, -1)] {
        let mut board = Board::new(9);
        let start = if d == (1, -1) { (2, 6) } else { (2, 2) };
        for k in 0..5 {
            let p = cell(start, d, k);
            board.set(p.0, p.1, Piece::Red);
        }
        assert_eq!(board.find_run(5), Some(start));
        assert!(board.run_starts(start.0, start.1, 5));
        assert!(board.run_starts(start.0, start.1, 4));
        assert!(!board.run_starts(start.0, start.1, 6));
        assert_eq!(board.find_run(6), None);
    }
}

#[test]
fn four_in_a_row_or_a_broken_row_is_no_run() {
    let mut board = Board::new(6);
    for c in 0..4 {
        board.set(0, c, Piece::Black);
    }
    board.set(0, 4, Piece::White);
    board.set(0, 5, Piece::Black);
    assert_eq!(board.find_run(5), None);
    assert_eq!(board.find_run(4), Some((0, 0)));
}

#[test]
fn first_run_in_row_major_order_is_reported() {
    let mut board = Board::new(7);
    for c in 1..6 {
        board.set(5, c, Piece::Black);
    }
    for r in 0..5 {
        board.set(r, 6, Piece::White);
    }
    assert_eq!(board.find_run(5), Some((0, 6)));
}

#[test]
fn default_board_has_nineteen_rows() {
    let board = Board::default();
    assert_eq!(board.size, 19);
    assert_eq!(board.get_moves().len(), 361);
    assert_eq!(board.get(18, 18), Piece::Empty);
    assert!(!board.is_on_board(19, 0));
}

use chess_rules::board::Board;
use chess_rules::piece::{Color, Piece, Position};
use chess_rules::utils;
use chess_rules::utils::{ChessError, ErrorKind};

fn sq(rank: usize, file: usize) -> Position {
    Position { rank, file }
}

#[test]
fn mask_rejects_coordinates_off_the_board() {
    assert_eq!(utils::mask(8, 0).unwrap_err().kind(), ErrorKind::InvalidPosition);
    assert_eq!(utils::mask(0, 8).unwrap_err().kind(), ErrorKind::InvalidPosition);
    assert_eq!(utils::mask(usize::MAX, usize::MAX).unwrap_err().kind(), ErrorKind::InvalidPosition);
    assert_eq!(utils::mask(0, 0).unwrap(), 1);
    assert_eq!(utils::mask(7, 7).unwrap(), 1u64 << 63);
}

#[test]
fn unmask_rejects_masks_that_are_not_one_bit() {
    assert_eq!(utils::unmask(0).unwrap_err().kind(), ErrorKind::InvalidPosition);
    assert_eq!(utils::unmask(3).unwrap_err().kind(), ErrorKind::InvalidPosition);
    assert_eq!(utils::unmask(u64::MAX).unwrap_err().kind(), ErrorKind::InvalidPosition);
    assert_eq!(utils::unmask(1).unwrap(), (0, 0));
    assert_eq!(utils::unmask(1u64 << 63).unwrap(), (7, 7));
}

#[test]
fn unmask_inverts_mask_on_every_square() {
    for rank in 0..8 {
        for file in 0..8 {
            let m = utils::mask(rank, file).unwrap();
            assert_eq!(m.count_ones(), 1);
            assert_eq!(utils::unmask(m).unwrap(), (rank, file));
        }
    }
}

#[test]
fn validate_pos_accepts_zero_to_seven() {
    assert!(utils::validate_pos(0, 0));
    assert!(utils::validate_pos(7, 7));
    assert!(!utils::validate_pos(-1, 0));
    assert!(!utils::validate_pos(0, -1));
    assert!(!utils::validate_pos(8, 0));
    assert!(!utils::validate_pos(0, 8));
    assert!(!utils::validate_pos(i8::MIN, i8::MAX));
}

#[test]
fn all_positions_lists_the_squares_by_index() {
    let all = utils::all_positions();
    assert_eq!(all.len(), 64);
    assert_eq!(all[0], sq(0, 0));
    assert_eq!(all[1], sq(0, 1));
    assert_eq!(all[8], sq(1, 0));
    assert_eq!(all[63], sq(7, 7));
    for (i, p) in all.iter().enumerate() {
        assert_eq!(p.to_index(), i);
        assert_eq!(Position::from_index(i), *p);
    }
}

#[test]
fn shifted_stays_on_the_board() {
    assert_eq!(sq(0, 0).shifted(-1, 0), None);
    assert_eq!(sq(0, 0).shifted(0, -1), None);
    assert_eq!(sq(7, 7).shifted(1, 0), None);
    assert_eq!(sq(7, 7).shifted(0, 1), None);
    assert_eq!(sq(3, 3).shifted(-3, 4), Some(sq(7, 0)));
    assert_eq!(sq(3, 3).shifted(4, -3), Some(sq(0, 7)));
    assert_eq!(sq(3, 3).shifted(i8::MAX, i8::MIN), None);
    assert_eq!(sq(8, 3).shifted(0, -1), Some(sq(7, 3)));
    assert_eq!(sq(259, 3).shifted(0, 1), None);
    assert_eq!(sq(usize::MAX, usize::MAX).shifted(1, 1), None);
}

#[test]
fn index_and_bitboard_of_a_square() {
    assert_eq!(sq(1, 1).to_index(), 9);
    assert_eq!(sq(6, 1).to_index(), 49);
    assert_eq!(sq(1, 1).to_bitboard(), 1u64 << 9);
    assert_eq!(sq(7, 7).to_bitboard(), 1u64 << 63);
    assert_eq!(Position::from_index(49), sq(6, 1));
    assert_eq!(Position::from_index(64), sq(8, 0));
    assert!(sq(7, 7).is_valid());
    assert!(!sq(8, 0).is_valid());
    assert!(!sq(0, 8).is_valid());
}

#[test]
fn square_from_algebraic_text() {
    assert_eq!(Position::from_fen("e3"), sq(2, 4));
    assert_eq!(Position::from_fen("a1"), sq(0, 0));
    assert_eq!(Position::from_fen("h8"), sq(7, 7));
    assert_eq!(Position::from_fen("e3xyz"), sq(2, 4));
    assert_eq!(Position::from_fen("i9"), sq(8, 8));
}

#[test]
fn sliding_without_a_side_stops_before_any_piece() -> Result<(), ChessError> {
    let mut board = Board::new();
    board.set(0, 3, Some(Piece::Rook(Color::Black)))?;
    board.set(2, 0, Some(Piece::Rook(Color::White)))?;

    let reached = utils::sliding_moves(&board, sq(0, 0), &[(1, 0), (0, 1)], None)?;
    assert_eq!(reached, vec![sq(0, 1), sq(0, 2), sq(1, 0)]);

    let white = utils::sliding_moves(&board, sq(0, 0), &[(1, 0), (0, 1)], Some(Color::White))?;
    assert_eq!(white, vec![sq(0, 1), sq(0, 2), sq(0, 3), sq(1, 0)]);

    let black = utils::sliding_moves(&board, sq(0, 0), &[(0, 1), (1, 0)], Some(Color::Black))?;
    assert_eq!(black, vec![sq(1, 0), sq(2, 0), sq(0, 1), sq(0, 2)]);
    Ok(())
}

#[test]
fn sliding_follows_long_strides() -> Result<(), ChessError> {
    let board = Board::new();
    let reached = utils::sliding_moves(&board, sq(0, 0), &[(3, 2), (-1, 0)], None)?;
    assert_eq!(reached, vec![sq(2, 3), sq(4, 6)]);
    let none = utils::sliding_moves(&board, sq(0, 0), &[], Some(Color::White))?;
    assert_eq!(none, vec![]);
    Ok(())
}

#[test]
fn stepping_keeps_the_order_of_the_deltas() -> Result<(), ChessError> {
    let mut board = Board::new();
    board.set(1, 1, Some(Piece::Pawn(Color::White)))?;
    board.set(0, 1, Some(Piece::Pawn(Color::Black)))?;

    let deltas = [(1, 1), (1, 0), (0, 1), (-1, 0), (0, 0)];
    let white = utils::step_moves(&board, sq(0, 0), &deltas, Color::White)?;
    assert_eq!(white, vec![sq(0, 1), sq(1, 0), sq(0, 0)]);

    let black = utils::step_moves(&board, sq(0, 0), &deltas, Color::Black)?;
    assert_eq!(black, vec![sq(1, 1), sq(1, 0), sq(0, 0)]);
    Ok(())
}

#[test]
fn error_kinds_and_messages() {
    let e = ChessError::IllegalMove(String::from("no"));
    assert_eq!(e.kind(), ErrorKind::IllegalMove);
    assert_eq!(e.message(), "no");
    assert_eq!(e.clone(), e);
    assert_eq!(ChessError::ParseError(String::new()).kind(), ErrorKind::ParseError);
    assert_eq!(ChessError::InternalError(String::new()).kind(), ErrorKind::InternalError);
    assert_eq!(ChessError::InvalidPosition(String::new()).kind(), ErrorKind::InvalidPosition);
}

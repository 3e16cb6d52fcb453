use chess_rules::board::Board;
use chess_rules::piece::pawn::Promotion;
use chess_rules::piece::{bishop, king, knight, pawn, queen, rook};
use chess_rules::piece::{Castle, Color, MetaValue, MoveMeta, Piece, PieceEntity, Position};
use chess_rules::utils::{ChessError, ErrorKind};

fn at(rank: usize, file: usize) -> Position {
    Position { rank, file }
}

fn put(board: &mut Board, piece: Piece, pos: Position, moved: Option<bool>) -> PieceEntity {
    board.set(pos.rank, pos.file, Some(piece)).unwrap();
    let mut entity = PieceEntity::new(piece, pos);
    if let Some(m) = moved {
        entity.set_meta("moved", m);
    }
    board.set_entity(pos.rank, pos.file, Some(entity.clone()));
    entity
}

#[test]
fn knight_in_the_middle_has_eight_jumps_in_table_order() -> Result<(), ChessError> {
    let mut board = Board::new();
    let knight = put(&mut board, Piece::Knight(Color::Black), at(3, 3), None);
    assert_eq!(
        knight.legal_moves(&board)?,
        vec![at(4, 5), at(2, 5), at(4, 1), at(2, 1), at(5, 4), at(1, 4), at(5, 2), at(1, 2)]
    );
    assert_eq!(knight::legal_moves(&knight, &board)?, knight.legal_moves(&board)?);
    assert_eq!(knight.plain_moves(&board)?, knight.legal_moves(&board)?);
    Ok(())
}

#[test]
fn bishop_rays_end_at_the_first_piece() -> Result<(), ChessError> {
    let mut board = Board::new();
    let b = put(&mut board, Piece::Bishop(Color::White), at(0, 0), None);
    assert_eq!(
        b.legal_moves(&board)?,
        vec![at(1, 1), at(2, 2), at(3, 3), at(4, 4), at(5, 5), at(6, 6), at(7, 7)]
    );

    put(&mut board, Piece::Pawn(Color::White), at(3, 3), None);
    assert_eq!(b.legal_moves(&board)?, vec![at(1, 1), at(2, 2)]);

    put(&mut board, Piece::Pawn(Color::Black), at(3, 3), None);
    assert_eq!(b.legal_moves(&board)?, vec![at(1, 1), at(2, 2), at(3, 3)]);
    assert_eq!(bishop::legal_moves(&b, &board)?, vec![at(1, 1), at(2, 2), at(3, 3)]);
    Ok(())
}

#[test]
fn bishop_lists_its_rays_in_table_order() -> Result<(), ChessError> {
    let mut board = Board::new();
    let b = put(&mut board, Piece::Bishop(Color::White), at(1, 1), None);
    assert_eq!(
        b.legal_moves(&board)?,
        vec![
            at(2, 2), at(3, 3), at(4, 4), at(5, 5), at(6, 6), at(7, 7),
            at(0, 0),
            at(2, 0),
            at(0, 2),
        ]
    );
    Ok(())
}

#[test]
fn rook_lists_files_then_ranks() -> Result<(), ChessError> {
    let mut board = Board::new();
    let r = put(&mut board, Piece::Rook(Color::White), at(1, 1), None);
    put(&mut board, Piece::Pawn(Color::Black), at(1, 3), None);
    put(&mut board, Piece::Pawn(Color::White), at(4, 1), None);
    assert_eq!(
        r.legal_moves(&board)?,
        vec![at(1, 2), at(1, 3), at(1, 0), at(2, 1), at(3, 1), at(0, 1)]
    );
    assert_eq!(rook::legal_moves(&r, &board)?, r.legal_moves(&board)?);
    Ok(())
}

#[test]
fn queen_lists_diagonals_then_lines() -> Result<(), ChessError> {
    let mut board = Board::new();
    let q = put(&mut board, Piece::Queen(Color::Black), at(0, 0), None);
    put(&mut board, Piece::Pawn(Color::White), at(2, 2), None);
    put(&mut board, Piece::Pawn(Color::Black), at(0, 2), None);
    assert_eq!(
        q.legal_moves(&board)?,
        vec![
            at(1, 1), at(2, 2),
            at(0, 1),
            at(1, 0), at(2, 0), at(3, 0), at(4, 0), at(5, 0), at(6, 0), at(7, 0),
        ]
    );
    assert_eq!(queen::legal_moves(&q, &board)?, q.legal_moves(&board)?);
    Ok(())
}

#[test]
fn king_steps_in_table_order() -> Result<(), ChessError> {
    let mut board = Board::new();
    let k = put(&mut board, Piece::King(Color::White), at(1, 1), Some(true));
    assert_eq!(
        k.legal_moves(&board)?,
        vec![at(1, 2), at(1, 0), at(0, 2), at(0, 1), at(0, 0), at(2, 0), at(2, 1), at(2, 2)]
    );
    put(&mut board, Piece::Pawn(Color::White), at(1, 2), None);
    put(&mut board, Piece::Pawn(Color::Black), at(0, 0), None);
    assert_eq!(
        k.legal_moves(&board)?,
        vec![at(1, 0), at(0, 2), at(0, 1), at(0, 0), at(2, 0), at(2, 1), at(2, 2)]
    );
    assert_eq!(king::step_moves_of(&k, &board)?, k.legal_moves(&board)?);
    Ok(())
}

#[test]
fn king_castles_on_both_wings_after_its_steps() -> Result<(), ChessError> {
    let mut board = Board::new();
    let k = put(&mut board, Piece::King(Color::White), at(0, 4), None);
    put(&mut board, Piece::Rook(Color::White), at(0, 0), None);
    put(&mut board, Piece::Rook(Color::White), at(0, 7), Some(false));
    assert_eq!(
        k.legal_moves(&board)?,
        vec![at(0, 5), at(0, 3), at(1, 3), at(1, 4), at(1, 5), at(0, 6), at(0, 2)]
    );
    assert_eq!(
        k.plain_moves(&board)?,
        vec![at(0, 5), at(0, 3), at(1, 3), at(1, 4), at(1, 5)]
    );
    Ok(())
}

#[test]
fn no_castling_once_king_or_rook_has_moved() -> Result<(), ChessError> {
    let mut board = Board::new();
    let k = put(&mut board, Piece::King(Color::Black), at(7, 4), Some(true));
    put(&mut board, Piece::Rook(Color::Black), at(7, 0), None);
    put(&mut board, Piece::Rook(Color::Black), at(7, 7), None);
    assert!(!k.legal_moves(&board)?.contains(&at(7, 6)));
    assert!(!k.legal_moves(&board)?.contains(&at(7, 2)));

    let k = put(&mut board, Piece::King(Color::Black), at(7, 4), Some(false));
    put(&mut board, Piece::Rook(Color::Black), at(7, 7), Some(true));
    let moves = k.legal_moves(&board)?;
    assert!(!moves.contains(&at(7, 6)));
    assert!(moves.contains(&at(7, 2)));
    Ok(())
}

#[test]
fn no_castling_past_a_piece_or_with_a_stranger() -> Result<(), ChessError> {
    let mut board = Board::new();
    let k = put(&mut board, Piece::King(Color::White), at(0, 4), None);
    put(&mut board, Piece::Rook(Color::White), at(0, 0), None);
    put(&mut board, Piece::Knight(Color::White), at(0, 1), None);
    put(&mut board, Piece::Rook(Color::Black), at(0, 7), None);
    let moves = k.legal_moves(&board)?;
    assert!(!moves.contains(&at(0, 2)));
    assert!(!moves.contains(&at(0, 6)));
    Ok(())
}

#[test]
fn no_castling_into_or_through_an_attack() -> Result<(), ChessError> {
    let mut board = Board::new();
    let k = put(&mut board, Piece::King(Color::White), at(0, 4), None);
    put(&mut board, Piece::Rook(Color::White), at(0, 7), None);
    put(&mut board, Piece::Rook(Color::Black), at(7, 6), None);
    assert!(!k.legal_moves(&board)?.contains(&at(0, 6)));

    let mut board = Board::new();
    let k = put(&mut board, Piece::King(Color::White), at(0, 4), None);
    put(&mut board, Piece::Rook(Color::White), at(0, 7), None);
    put(&mut board, Piece::Rook(Color::Black), at(7, 5), None);
    assert!(!k.legal_moves(&board)?.contains(&at(0, 6)));

    let mut board = Board::new();
    let k = put(&mut board, Piece::King(Color::White), at(0, 4), None);
    put(&mut board, Piece::Rook(Color::White), at(0, 7), None);
    put(&mut board, Piece::Rook(Color::Black), at(7, 7), None);
    assert!(k.legal_moves(&board)?.contains(&at(0, 6)));
    Ok(())
}

#[test]
fn two_kings_that_may_castle_do_not_wait_for_each_other() -> Result<(), ChessError> {
    let mut board = Board::new();
    let white = put(&mut board, Piece::King(Color::White), at(0, 4), None);
    put(&mut board, Piece::Rook(Color::White), at(0, 7), None);
    let black = put(&mut board, Piece::King(Color::Black), at(7, 4), None);
    put(&mut board, Piece::Rook(Color::Black), at(7, 7), None);
    put(&mut board, Piece::Pawn(Color::White), at(1, 7), None);
    put(&mut board, Piece::Pawn(Color::Black), at(6, 7), None);
    assert!(white.legal_moves(&board)?.contains(&at(0, 6)));
    assert!(black.legal_moves(&board)?.contains(&at(7, 6)));
    assert!(board.is_square_attacked(at(7, 6), Color::Black)?);
    assert!(board.is_square_attacked(at(0, 6), Color::White)?);
    Ok(())
}

#[test]
fn pawn_without_a_moved_flag_may_step_twice() -> Result<(), ChessError> {
    let mut board = Board::new();
    let p = put(&mut board, Piece::Pawn(Color::White), at(1, 1), None);
    assert_eq!(p.legal_moves(&board)?, vec![at(2, 1), at(3, 1)]);

    let far = put(&mut board, Piece::Pawn(Color::Black), at(4, 6), None);
    assert_eq!(far.legal_moves(&board)?, vec![at(3, 6), at(2, 6)]);
    Ok(())
}

#[test]
fn pawn_pushes_need_empty_squares() -> Result<(), ChessError> {
    let mut board = Board::new();
    let p = put(&mut board, Piece::Pawn(Color::White), at(1, 1), Some(false));
    put(&mut board, Piece::Knight(Color::Black), at(3, 1), None);
    assert_eq!(pawn::legal_moves(&p, &board)?, vec![at(2, 1)]);

    put(&mut board, Piece::Knight(Color::Black), at(2, 1), None);
    board.set(3, 1, None)?;
    assert_eq!(pawn::legal_moves(&p, &board)?, vec![]);
    Ok(())
}

#[test]
fn pawn_captures_lower_file_before_higher_file() -> Result<(), ChessError> {
    let mut board = Board::new();
    let p = put(&mut board, Piece::Pawn(Color::White), at(1, 1), Some(false));
    put(&mut board, Piece::Knight(Color::Black), at(2, 0), None);
    put(&mut board, Piece::Knight(Color::Black), at(2, 2), None);
    assert_eq!(
        pawn::legal_moves(&p, &board)?,
        vec![at(2, 1), at(3, 1), at(2, 0), at(2, 2)]
    );

    let edge = put(&mut board, Piece::Pawn(Color::Black), at(3, 0), Some(true));
    put(&mut board, Piece::Knight(Color::White), at(2, 1), None);
    assert_eq!(pawn::legal_moves(&edge, &board)?, vec![at(2, 1)]);
    Ok(())
}

#[test]
fn pawn_captures_in_passing() -> Result<(), ChessError> {
    let mut board = Board::new();
    let p = put(&mut board, Piece::Pawn(Color::White), at(4, 4), Some(true));
    put(&mut board, Piece::Pawn(Color::Black), at(4, 5), Some(true));
    board.set_passant_target(Some(at(5, 5)));
    assert_eq!(pawn::legal_moves(&p, &board)?, vec![at(5, 4), at(5, 5)]);

    let mut board = Board::new();
    let p = put(&mut board, Piece::Pawn(Color::Black), at(3, 2), Some(true));
    put(&mut board, Piece::Pawn(Color::White), at(3, 1), Some(true));
    board.set_passant_target(Some(at(2, 1)));
    assert_eq!(pawn::legal_moves(&p, &board)?, vec![at(2, 2), at(2, 1)]);
    Ok(())
}

#[test]
fn capture_in_passing_needs_every_condition() -> Result<(), ChessError> {
    // the neighbour is no pawn
    let mut board = Board::new();
    let p = put(&mut board, Piece::Pawn(Color::White), at(4, 4), Some(true));
    put(&mut board, Piece::Knight(Color::Black), at(4, 5), None);
    board.set_passant_target(Some(at(5, 5)));
    assert_eq!(pawn::legal_moves(&p, &board)?, vec![at(5, 4)]);

    // the neighbour is a pawn of the own side
    let mut board = Board::new();
    let p = put(&mut board, Piece::Pawn(Color::White), at(4, 4), Some(true));
    put(&mut board, Piece::Pawn(Color::White), at(4, 5), None);
    board.set_passant_target(Some(at(5, 5)));
    assert_eq!(pawn::legal_moves(&p, &board)?, vec![at(5, 4)]);

    // the target is two files away
    let mut board = Board::new();
    let p = put(&mut board, Piece::Pawn(Color::White), at(4, 4), Some(true));
    put(&mut board, Piece::Pawn(Color::Black), at(4, 5), None);
    board.set_passant_target(Some(at(5, 6)));
    assert_eq!(pawn::legal_moves(&p, &board)?, vec![at(5, 4)]);

    // the target lies behind the pawn
    let mut board = Board::new();
    let p = put(&mut board, Piece::Pawn(Color::White), at(4, 4), Some(true));
    put(&mut board, Piece::Pawn(Color::Black), at(4, 5), None);
    board.set_passant_target(Some(at(3, 5)));
    assert_eq!(pawn::legal_moves(&p, &board)?, vec![at(5, 4)]);

    // the target is occupied
    let mut board = Board::new();
    let p = put(&mut board, Piece::Pawn(Color::White), at(4, 4), Some(true));
    put(&mut board, Piece::Pawn(Color::Black), at(4, 5), None);
    put(&mut board, Piece::Knight(Color::White), at(5, 5), None);
    board.set_passant_target(Some(at(5, 5)));
    assert_eq!(pawn::legal_moves(&p, &board)?, vec![at(5, 4)]);
    Ok(())
}

#[test]
fn pawn_with_no_square_in_front_has_no_list() {
    let mut board = Board::new();
    let white = put(&mut board, Piece::Pawn(Color::White), at(7, 0), None);
    assert_eq!(
        pawn::legal_moves(&white, &board).unwrap_err().kind(),
        ErrorKind::InvalidPosition
    );
    let black = put(&mut board, Piece::Pawn(Color::Black), at(0, 3), None);
    assert_eq!(black.legal_moves(&board).unwrap_err().kind(), ErrorKind::InvalidPosition);
    assert_eq!(black.plain_moves(&board).unwrap_err().kind(), ErrorKind::InvalidPosition);
}

#[test]
fn double_step_leaves_the_square_passed_over() -> Result<(), ChessError> {
    let mut board = Board::new();
    let mut p = put(&mut board, Piece::Pawn(Color::White), at(1, 4), Some(false));
    let record = pawn::on_move(&mut p, at(3, 4), &mut board, None)?;

    assert_eq!(board.get_passant_target(), Some(at(2, 4)));
    assert!(p.has_moved());
    assert_eq!(p.piece, Piece::Pawn(Color::White));
    assert_eq!(p.pos, at(1, 4));
    assert_eq!(board.get(1, 4)?, Some(Piece::Pawn(Color::White)));
    assert_eq!(board.get(3, 4)?, None);
    assert_eq!(
        record,
        MoveMeta {
            piece: Piece::Pawn(Color::White),
            from: at(1, 4),
            to: at(3, 4),
            castle: None,
            promotion: None,
            capture: None,
        }
    );
    Ok(())
}

#[test]
fn single_step_keeps_the_target_of_before() -> Result<(), ChessError> {
    let mut board = Board::new();
    board.set_passant_target(Some(at(5, 0)));
    let mut p = put(&mut board, Piece::Pawn(Color::White), at(1, 4), Some(false));
    put(&mut board, Piece::Knight(Color::Black), at(2, 5), None);
    let record = p.on_move(at(2, 5), &mut board, None)?;
    assert_eq!(board.get_passant_target(), Some(at(5, 0)));
    assert_eq!(record.capture, Some(at(2, 5)));
    assert_eq!(record.promotion, None);
    assert!(p.has_moved());
    Ok(())
}

#[test]
fn promotion_changes_the_record_of_the_piece() -> Result<(), ChessError> {
    let mut board = Board::new();
    let mut p = put(&mut board, Piece::Pawn(Color::Black), at(1, 0), Some(true));
    put(&mut board, Piece::Rook(Color::White), at(0, 1), None);
    let record = p.on_move(
        at(0, 1),
        &mut board,
        Some(Promotion { pawn_pos: at(1, 0), new_piece: Piece::Knight(Color::Black) }),
    )?;
    assert_eq!(p.piece, Piece::Knight(Color::Black));
    assert_eq!(record.piece, Piece::Pawn(Color::Black));
    assert_eq!(record.promotion, Some(Piece::Knight(Color::Black)));
    assert_eq!(record.capture, Some(at(0, 1)));
    assert_eq!(board.get_entity(1, 0).unwrap().piece, Piece::Pawn(Color::Black));
    Ok(())
}

#[test]
fn a_move_off_the_board_changes_nothing() {
    let mut board = Board::new();
    board.set_passant_target(Some(at(5, 0)));
    for piece in [
        Piece::Pawn(Color::White),
        Piece::Knight(Color::White),
        Piece::Bishop(Color::White),
        Piece::Rook(Color::White),
        Piece::Queen(Color::White),
        Piece::King(Color::White),
    ] {
        let mut e = put(&mut board, piece, at(6, 4), None);
        let err = e
            .on_move(
                at(8, 4),
                &mut board,
                Some(Promotion { pawn_pos: at(6, 4), new_piece: Piece::Queen(Color::White) }),
            )
            .unwrap_err();
        assert_eq!(err.kind(), ErrorKind::InvalidPosition);
        assert_eq!(e.piece, piece);
        assert_eq!(e.get_meta("moved"), None);
        assert_eq!(board.get_passant_target(), Some(at(5, 0)));
    }
}

#[test]
fn only_pawn_rook_and_king_note_that_they_moved() -> Result<(), ChessError> {
    for (piece, notes) in [
        (Piece::Pawn(Color::White), true),
        (Piece::Knight(Color::White), false),
        (Piece::Bishop(Color::White), false),
        (Piece::Rook(Color::White), true),
        (Piece::Queen(Color::White), false),
        (Piece::King(Color::White), true),
    ] {
        let mut board = Board::new();
        let mut e = put(&mut board, piece, at(3, 3), None);
        put(&mut board, Piece::Pawn(Color::Black), at(4, 3), None);
        let record = e.on_move(at(4, 3), &mut board, None)?;
        assert_eq!(e.has_moved(), notes);
        assert_eq!(e.get_meta("moved"), if notes { Some(&MetaValue::Bool(true)) } else { None });
        assert_eq!(e.pos, at(3, 3));
        assert_eq!(record.piece, piece);
        assert_eq!(record.from, at(3, 3));
        assert_eq!(record.to, at(4, 3));
        assert_eq!(record.capture, Some(at(4, 3)));
        assert_eq!(record.promotion, None);
        let no_wing = Castle {
            white_king: false,
            white_queen: false,
            black_king: false,
            black_queen: false,
        };
        assert_eq!(
            record.castle,
            if piece == Piece::King(Color::White) { Some(no_wing) } else { None }
        );
        assert_eq!(board.get_passant_target(), None);
    }
    Ok(())
}

#[test]
fn the_record_of_a_castling_names_the_wing() -> Result<(), ChessError> {
    let none =
        Castle { white_king: false, white_queen: false, black_king: false, black_queen: false };

    let mut board = Board::new();
    let mut k = put(&mut board, Piece::King(Color::White), at(0, 4), None);
    let record = king::on_move(&mut k, at(0, 6), &mut board)?;
    assert_eq!(record.castle, Some(Castle { white_king: true, ..none }));
    assert!(k.has_moved());

    let mut k = put(&mut board, Piece::King(Color::White), at(0, 4), Some(false));
    let record = king::on_move(&mut k, at(0, 2), &mut board)?;
    assert_eq!(record.castle, Some(Castle { white_queen: true, ..none }));

    let mut k = put(&mut board, Piece::King(Color::Black), at(7, 4), None);
    let record = king::on_move(&mut k, at(7, 6), &mut board)?;
    assert_eq!(record.castle, Some(Castle { black_king: true, ..none }));

    let mut k = put(&mut board, Piece::King(Color::Black), at(7, 4), None);
    let record = king::on_move(&mut k, at(7, 2), &mut board)?;
    assert_eq!(record.castle, Some(Castle { black_queen: true, ..none }));

    let mut k = put(&mut board, Piece::King(Color::Black), at(7, 4), Some(true));
    let record = king::on_move(&mut k, at(7, 2), &mut board)?;
    assert_eq!(record.castle, Some(none));
    Ok(())
}

#[test]
fn a_piece_right_beside_ends_the_ray() -> Result<(), ChessError> {
    let mut board = Board::new();
    let r = put(&mut board, Piece::Rook(Color::White), at(0, 0), None);
    put(&mut board, Piece::Pawn(Color::Black), at(0, 1), None);
    put(&mut board, Piece::Pawn(Color::White), at(1, 0), None);
    assert_eq!(r.legal_moves(&board)?, vec![at(0, 1)]);
    Ok(())
}

#[test]
fn a_capture_in_passing_names_the_square_of_the_pawn_passed() -> Result<(), ChessError> {
    let mut board = Board::new();
    let mut white = put(&mut board, Piece::Pawn(Color::White), at(4, 4), None);
    put(&mut board, Piece::Pawn(Color::Black), at(4, 3), None);
    board.set_passant_target(Some(at(5, 3)));
    let record = pawn::on_move(&mut white, at(5, 3), &mut board, None)?;
    assert_eq!(record.to, at(5, 3));
    assert_eq!(record.capture, Some(at(4, 3)));
    assert_eq!(record.from, at(4, 4));
    assert_eq!(board.get_passant_target(), Some(at(5, 3)));

    let mut board = Board::new();
    let mut black = put(&mut board, Piece::Pawn(Color::Black), at(3, 2), Some(true));
    put(&mut board, Piece::Pawn(Color::White), at(3, 3), Some(true));
    board.set_passant_target(Some(at(2, 3)));
    let record = black.on_move(at(2, 3), &mut board, None)?;
    assert_eq!(record.capture, Some(at(3, 3)));
    Ok(())
}

#[test]
fn a_diagonal_step_that_is_no_capture_in_passing_takes_nothing() -> Result<(), ChessError> {
    // the target of the board is another square
    let mut board = Board::new();
    let mut white = put(&mut board, Piece::Pawn(Color::White), at(4, 4), None);
    put(&mut board, Piece::Pawn(Color::Black), at(4, 3), None);
    board.set_passant_target(Some(at(5, 5)));
    assert_eq!(pawn::on_move(&mut white, at(5, 3), &mut board, None)?.capture, None);

    // there is no target
    let mut board = Board::new();
    let mut white = put(&mut board, Piece::Pawn(Color::White), at(4, 4), None);
    put(&mut board, Piece::Pawn(Color::Black), at(4, 3), None);
    assert_eq!(pawn::on_move(&mut white, at(5, 3), &mut board, None)?.capture, None);

    // the piece beside is no pawn
    let mut board = Board::new();
    let mut white = put(&mut board, Piece::Pawn(Color::White), at(4, 4), None);
    put(&mut board, Piece::Rook(Color::Black), at(4, 3), None);
    board.set_passant_target(Some(at(5, 3)));
    assert_eq!(pawn::on_move(&mut white, at(5, 3), &mut board, None)?.capture, None);

    // the pawn beside is of the own side
    let mut board = Board::new();
    let mut white = put(&mut board, Piece::Pawn(Color::White), at(4, 4), None);
    put(&mut board, Piece::Pawn(Color::White), at(4, 3), None);
    board.set_passant_target(Some(at(5, 3)));
    assert_eq!(pawn::on_move(&mut white, at(5, 3), &mut board, None)?.capture, None);

    // a piece stands on the target: an ordinary capture
    let mut board = Board::new();
    let mut white = put(&mut board, Piece::Pawn(Color::White), at(4, 4), None);
    put(&mut board, Piece::Pawn(Color::Black), at(4, 3), None);
    put(&mut board, Piece::Knight(Color::Black), at(5, 3), None);
    board.set_passant_target(Some(at(5, 3)));
    assert_eq!(
        pawn::on_move(&mut white, at(5, 3), &mut board, None)?.capture,
        Some(at(5, 3))
    );
    Ok(())
}

#[test]
fn a_capture_is_judged_by_the_side_of_the_pawn() -> Result<(), ChessError> {
    let mut board = Board::new();
    let mut white = put(&mut board, Piece::Pawn(Color::White), at(6, 0), Some(true));
    put(&mut board, Piece::Rook(Color::Black), at(7, 1), None);
    let record = white.on_move(
        at(7, 1),
        &mut board,
        Some(Promotion { pawn_pos: at(6, 0), new_piece: Piece::Queen(Color::Black) }),
    )?;
    assert_eq!(record.capture, Some(at(7, 1)));
    assert_eq!(record.promotion, Some(Piece::Queen(Color::Black)));
    assert_eq!(white.piece, Piece::Queen(Color::Black));

    let mut board = Board::new();
    let mut white = put(&mut board, Piece::Pawn(Color::White), at(6, 0), Some(true));
    put(&mut board, Piece::Rook(Color::White), at(7, 1), None);
    let record = white.on_move(
        at(7, 1),
        &mut board,
        Some(Promotion { pawn_pos: at(6, 0), new_piece: Piece::Queen(Color::Black) }),
    )?;
    assert_eq!(record.capture, None);
    Ok(())
}

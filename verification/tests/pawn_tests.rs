use chess_rules::board::Board;
use chess_rules::piece::pawn;
use chess_rules::piece::{Color, MoveMeta, Piece, PieceEntity, Position};
use chess_rules::utils::ChessError;

#[test]
fn pawn_legal_moves() -> Result<(), ChessError> {
    let mut board = Board::new();

    board.set(1, 1, Some(Piece::Pawn(Color::White)))?;
    board.set(2, 2, Some(Piece::Pawn(Color::White)))?;
    board.set(3, 3, Some(Piece::Pawn(Color::Black)))?;

    let mut entity1 = PieceEntity::new(
        Piece::Pawn(Color::White),
        Position { rank: 1, file: 1 },
    );
    entity1.set_meta("moved", false);

    let mut entity2 = PieceEntity::new(
        Piece::Pawn(Color::White),
        Position { rank: 2, file: 2 },
    );
    entity2.set_meta("moved", true);

    let mut entity3 = PieceEntity::new(
        Piece::Pawn(Color::Black),
        Position { rank: 3, file: 3 },
    );
    entity3.set_meta("moved", true);

    board.set_entity(1, 1, Some(entity1.clone()));
    board.set_entity(2, 2, Some(entity2.clone()));
    board.set_entity(3, 3, Some(entity3.clone()));

    // moving for entity1 (two forward)
    assert_eq!(
        pawn::legal_moves(&entity1, &board)?,
        vec![
            Position { rank: 2, file: 1 },
            Position { rank: 3, file: 1 }
        ]
    );

    // moving for entity2 (one forward + capture on 3:3 (right))
    assert_eq!(
        pawn::legal_moves(&entity2, &board)?,
        vec![
            Position { rank: 3, file: 2 },
            Position { rank: 3, file: 3 },
        ]
    );

    // moving for entity3 (one forward + capture on 2:2 (right))
    assert_eq!(
        pawn::legal_moves(&entity3, &board)?,
        vec![
            Position { rank: 2, file: 3 },
            Position { rank: 2, file: 2 },
        ]
    );
    Ok(())
}

#[test]
fn pawn_on_move() -> Result<(), ChessError> {
    let mut board = Board::new();

    board.set(6, 1, Some(Piece::Pawn(Color::White)))?;
    let mut pawn_entity = PieceEntity::new(
        Piece::Pawn(Color::White),
        Position { rank: 6, file: 1 },
    );

    let on_move_result = pawn::on_move(
        &mut pawn_entity,
        Position { rank: 7, file: 1 },
        &mut board,
        Some(pawn::Promotion {
            pawn_pos: Position { rank: 6, file: 1 },
            new_piece: Piece::Queen(Color::White),
        }),
    )?;

    assert_eq!(
        on_move_result,
        MoveMeta {
            piece: Piece::Pawn(Color::White),
            from: Position { rank: 6, file: 1 },
            to: Position { rank: 7, file: 1 },
            castle: None,
            promotion: Some(Piece::Queen(Color::White)),
            capture: None,
        }
    );
    Ok(())
}

#[test]
fn on_move_passant_target_set() -> Result<(), ChessError> {
    let mut board = Board::new();

    board.set(1, 1, Some(Piece::Pawn(Color::White)))?;
    board.set(3, 2, Some(Piece::Pawn(Color::Black)))?;

    let _pawn_entity_white = PieceEntity::new(
        Piece::Pawn(Color::White),
        Position { rank: 1, file: 1 },
    );
    let mut pawn_entity_black = PieceEntity::new(
        Piece::Pawn(Color::Black),
        Position { rank: 3, file: 2 },
    );

    let on_move_result = pawn::on_move(
        &mut pawn_entity_black,
        Position { rank: 1, file: 2 },
        &mut board,
        None,
    )?;

    assert_eq!(
        board.get_passant_target(),
        Some(Position { rank: 2, file: 2 })
    );

    assert_eq!(
        on_move_result,
        MoveMeta {
            piece: Piece::Pawn(Color::Black),
            from: Position { rank: 3, file: 2 },
            to: Position { rank: 1, file: 2 },
            castle: None,
            promotion: None,
            capture: None,
        }
    );
    Ok(())
}

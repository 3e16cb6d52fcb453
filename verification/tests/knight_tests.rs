use chess_rules::board::Board;
use chess_rules::piece::{Color, Piece, PieceEntity, Position};
use chess_rules::utils::ChessError;

fn back_rank_for_knight_tests(color: Color) -> [Piece; 8] {
    [
        Piece::Rook(color),
        Piece::Knight(color),
        Piece::Bishop(color),
        Piece::Queen(color),
        Piece::King(color),
        Piece::Bishop(color),
        Piece::Knight(color),
        Piece::Rook(color),
    ]
}

fn start_template_for_knight_tests() -> Vec<Option<PieceEntity>> {
    let mut slots: Vec<Option<PieceEntity>> = Vec::new();
    for index in 0..64usize {
        let rank = index / 8;
        let file = index % 8;
        let piece = match rank {
            0 => Some(back_rank_for_knight_tests(Color::White)[file]),
            1 => Some(Piece::Pawn(Color::White)),
            6 => Some(Piece::Pawn(Color::Black)),
            7 => Some(back_rank_for_knight_tests(Color::Black)[file]),
            _ => None,
        };
        slots.push(piece.map(|p| {
            let mut entity = PieceEntity::new(p, Position { rank, file });
            entity.set_meta("moved", false);
            entity
        }));
    }
    slots
}

#[test]
fn no_moves() -> Result<(), ChessError> {
    let mut board = Board::new();

    board.set(0, 0, Some(Piece::Knight(Color::White)))?;
    board.set(1, 2, Some(Piece::Knight(Color::White)))?;
    board.set(2, 1, Some(Piece::Knight(Color::White)))?;

    let knight_1_entity = PieceEntity::new(
        Piece::Knight(Color::White),
        Position { rank: 0, file: 0 },
    );
    let knight_2_entity = PieceEntity::new(
        Piece::Knight(Color::White),
        Position { rank: 1, file: 2 },
    );
    let knight_3_entity = PieceEntity::new(
        Piece::Knight(Color::White),
        Position { rank: 2, file: 1 },
    );

    board.set_entity(0, 0, Some(knight_1_entity.clone()));
    board.set_entity(1, 2, Some(knight_2_entity));
    board.set_entity(2, 1, Some(knight_3_entity));

    assert_eq!(knight_1_entity.legal_moves(&board)?, vec![]);
    Ok(())
}

#[test]
fn knight_tests_one_capture() -> Result<(), ChessError> {
    let mut board = Board::new();

    board.set(0, 0, Some(Piece::Knight(Color::White)))?;
    board.set(1, 2, Some(Piece::Knight(Color::White)))?;
    board.set(2, 1, Some(Piece::Knight(Color::Black)))?;

    let knight_1_entity = PieceEntity::new(
        Piece::Knight(Color::White),
        Position { rank: 0, file: 0 },
    );
    let knight_2_entity = PieceEntity::new(
        Piece::Knight(Color::White),
        Position { rank: 1, file: 2 },
    );
    let knight_3_entity = PieceEntity::new(
        Piece::Knight(Color::Black),
        Position { rank: 2, file: 1 },
    );

    board.set_entity(0, 0, Some(knight_1_entity.clone()));
    board.set_entity(1, 2, Some(knight_2_entity));
    board.set_entity(2, 1, Some(knight_3_entity));

    assert_eq!(
        knight_1_entity.legal_moves(&board)?,
        vec![Position { rank: 2, file: 1 }]
    );
    Ok(())
}

#[test]
fn knight_tests_initial_position() -> Result<(), ChessError> {
    let mut board = Board::new();
    let template = start_template_for_knight_tests();
    board.from_template(template)?;

    assert!(board
        .get_entity(0, 1)
        .unwrap()
        .legal_moves(&board)?
        .contains(&Position { rank: 2, file: 2 },));

    assert!(board
        .get_entity(0, 1)
        .unwrap()
        .legal_moves(&board)?
        .contains(&Position { rank: 2, file: 0 }));

    assert!(board
        .get_entity(0, 6)
        .unwrap()
        .legal_moves(&board)?
        .contains(&Position { rank: 2, file: 5 }));

    assert!(board
        .get_entity(0, 6)
        .unwrap()
        .legal_moves(&board)?
        .contains(&Position { rank: 2, file: 7 }));

    Ok(())
}

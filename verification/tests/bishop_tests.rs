use chess_rules::board::Board;
use chess_rules::piece::{Color, Piece, PieceEntity, Position};
use chess_rules::utils::ChessError;

fn back_rank_for_bishop_tests(color: Color) -> [Piece; 8] {
    [
        Piece::Rook(color),
        Piece::Knight(color),
        Piece::Bishop(color),
        Piece::Queen(color),
        Piece::King(color),
        Piece::Bishop(color),
        Piece::Knight(color),
        Piece::Rook(color),
    ]
}

fn start_template_for_bishop_tests() -> Vec<Option<PieceEntity>> {
    let mut slots: Vec<Option<PieceEntity>> = Vec::new();
    for index in 0..64usize {
        let rank = index / 8;
        let file = index % 8;
        let piece = match rank {
            0 => Some(back_rank_for_bishop_tests(Color::White)[file]),
            1 => Some(Piece::Pawn(Color::White)),
            6 => Some(Piece::Pawn(Color::Black)),
            7 => Some(back_rank_for_bishop_tests(Color::Black)[file]),
            _ => None,
        };
        slots.push(piece.map(|p| {
            let mut entity = PieceEntity::new(p, Position { rank, file });
            entity.set_meta("moved", false);
            entity
        }));
    }
    slots
}

#[test]
fn bishop_tests_one_capture() -> Result<(), ChessError> {
    let mut board = Board::new();

    board.set(0, 0, Some(Piece::Bishop(Color::White)))?;
    board.set(1, 1, Some(Piece::Bishop(Color::Black)))?;

    let bishop_1_entity = PieceEntity::new(
        Piece::Bishop(Color::White),
        Position { rank: 0, file: 0 },
    );
    let bishop_2_entity = PieceEntity::new(
        Piece::Bishop(Color::Black),
        Position { rank: 1, file: 1 },
    );

    board.set_entity(0, 0, Some(bishop_1_entity.clone()));
    board.set_entity(1, 1, Some(bishop_2_entity));

    let legal = bishop_1_entity.legal_moves(&board)?;

    assert!(legal.contains(&Position { rank: 1, file: 1 }));
    Ok(())
}

#[test]
fn bishop_tests_initial_position() -> Result<(), ChessError> {
    let mut board = Board::new();
    let template = start_template_for_bishop_tests();
    board.from_template(template)?;

    assert_eq!(board.get_entity(0, 2).unwrap().legal_moves(&board)?, vec![]);
    Ok(())
}

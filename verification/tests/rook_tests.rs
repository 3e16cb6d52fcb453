use chess_rules::board::Board;
use chess_rules::piece::{Color, Piece, PieceEntity, Position};
use chess_rules::utils::ChessError;

fn back_rank_for_rook_tests(color: Color) -> [Piece; 8] {
    [
        Piece::Rook(color),
        Piece::Knight(color),
        Piece::Bishop(color),
        Piece::Queen(color),
        Piece::King(color),
        Piece::Bishop(color),
        Piece::Knight(color),
        Piece::Rook(color),
    ]
}

fn start_template_for_rook_tests() -> Vec<Option<PieceEntity>> {
    let mut slots: Vec<Option<PieceEntity>> = Vec::new();
    for index in 0..64usize {
        let rank = index / 8;
        let file = index % 8;
        let piece = match rank {
            0 => Some(back_rank_for_rook_tests(Color::White)[file]),
            1 => Some(Piece::Pawn(Color::White)),
            6 => Some(Piece::Pawn(Color::Black)),
            7 => Some(back_rank_for_rook_tests(Color::Black)[file]),
            _ => None,
        };
        slots.push(piece.map(|p| {
            let mut entity = PieceEntity::new(p, Position { rank, file });
            entity.set_meta("moved", false);
            entity
        }));
    }
    slots
}

#[test]
fn rook_tests_one_capture() -> Result<(), ChessError> {
    let mut board = Board::new();

    board.set(0, 0, Some(Piece::Queen(Color::White)))?;
    board.set(0, 1, Some(Piece::Queen(Color::White)))?;
    board.set(1, 0, Some(Piece::Queen(Color::Black)))?;

    let queen_1_entity = PieceEntity::new(
        Piece::Queen(Color::White),
        Position { rank: 0, file: 0 },
    );
    let queen_2_entity = PieceEntity::new(
        Piece::Queen(Color::White),
        Position { rank: 0, file: 1 },
    );
    let queen_3_entity = PieceEntity::new(
        Piece::Queen(Color::Black),
        Position { rank: 1, file: 0 },
    );

    board.set_entity(0, 0, Some(queen_1_entity.clone()));
    board.set_entity(0, 1, Some(queen_2_entity));
    board.set_entity(1, 0, Some(queen_3_entity));

    let legal = queen_1_entity.legal_moves(&board)?;

    assert!(legal.contains(&Position { rank: 1, file: 0 }));
    Ok(())
}

#[test]
fn rook_tests_initial_position() -> Result<(), ChessError> {
    let mut board = Board::new();
    let template = start_template_for_rook_tests();
    board.from_template(template)?;

    assert_eq!(board.get_entity(0, 0).unwrap().legal_moves(&board)?, vec![]);
    Ok(())
}

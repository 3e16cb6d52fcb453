use chess_rules::board::Board;
use chess_rules::piece::{Color, Piece, PieceEntity, Position};
use chess_rules::utils::ChessError;

fn back_rank_for_board_tests(color: Color) -> [Piece; 8] {
    [
        Piece::Rook(color),
        Piece::Knight(color),
        Piece::Bishop(color),
        Piece::Queen(color),
        Piece::King(color),
        Piece::Bishop(color),
        Piece::Knight(color),
        Piece::Rook(color),
    ]
}

fn start_template_for_board_tests() -> Vec<Option<PieceEntity>> {
    let mut slots: Vec<Option<PieceEntity>> = Vec::new();
    for index in 0..64usize {
        let rank = index / 8;
        let file = index % 8;
        let piece = match rank {
            0 => Some(back_rank_for_board_tests(Color::White)[file]),
            1 => Some(Piece::Pawn(Color::White)),
            6 => Some(Piece::Pawn(Color::Black)),
            7 => Some(back_rank_for_board_tests(Color::Black)[file]),
            _ => None,
        };
        slots.push(piece.map(|p| {
            let mut entity = PieceEntity::new(p, Position { rank, file });
            entity.set_meta("moved", false);
            entity
        }));
    }
    slots
}

#[test]
fn get_set() -> Result<(), ChessError> {
    let mut board = Board::new();
    assert_eq!(board.get(0, 0)?, None);

    board.set(0, 0, Some(Piece::Rook(Color::White)))?;

    assert_eq!(board.get(0, 0)?, Some(Piece::Rook(Color::White)));
    Ok(())
}

#[test]
fn fen() -> Result<(), ChessError> {
    let mut board = Board::new();
    assert_eq!(board.generate_fen()?, "8/8/8/8/8/8/8/8 w - - 0 1");

    board.set(0, 0, Some(Piece::Rook(Color::White)))?;
    board.set_entity(
        0,
        0,
        Some(PieceEntity::new(
            Piece::Rook(Color::White),
            Position { rank: 0, file: 0 },
        )),
    );

    assert_eq!(board.generate_fen()?, "8/8/8/8/8/8/8/R7 w - - 0 1");
    Ok(())
}

#[test]
fn template_parsing() -> Result<(), ChessError> {
    let mut board = Board::new();
    let template = start_template_for_board_tests();
    let _ = board.from_template(template)?;

    assert_eq!(board.get(7, 4)?, Some(Piece::King(Color::Black)));
    assert_eq!(board.get(0, 4)?, Some(Piece::King(Color::White)));
    assert_eq!(board.get(0, 0)?, Some(Piece::Rook(Color::White)));
    assert_eq!(board.get(7, 7)?, Some(Piece::Rook(Color::Black)));
    assert_eq!(board.get(0, 3)?, Some(Piece::Queen(Color::White)));
    assert_eq!(board.get(7, 3)?, Some(Piece::Queen(Color::Black)));
    Ok(())
}

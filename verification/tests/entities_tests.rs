use chess_rules::board::Board;
use chess_rules::piece::{Color, Piece, PieceEntity, Position};

#[test]
fn entities() -> () {
    let mut board = Board::new();
    assert!(board.get_entity(0, 0).is_none());

    board.set_entity(
        0,
        0,
        Some(PieceEntity::new(
            Piece::Rook(Color::White),
            Position { rank: 0, file: 0 },
        )),
    );

    assert!(board.get_entity(0, 0).is_some());
    assert_eq!(
        board.get_entity(0, 0).unwrap().piece,
        Piece::Rook(Color::White)
    );
}

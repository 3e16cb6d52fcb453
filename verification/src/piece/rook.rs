//! The rook: four orthogonal rays.

use vstd::prelude::*;
use crate::board::{Board, BoardView};
use crate::piece::{
    capture_on, moved_key, plain_move, EntityView, MetaView, MoveMeta, PieceEntity, Position,
};
use crate::utils::{fails_with, sliding_moves, sliding_targets, ChessError, ErrorKind};

verus! {

/// The directions of a rook, in the order in which its rays are listed.
pub const DIRS: [(i8, i8); 4] = [(1, 0), (-1, 0), (0, 1), (0, -1)];

/// The destinations of a rook: along each of its rays the empty squares
/// up to the first occupied one, and that one too if a piece of the other
/// side stands on it.
pub open spec fn rook_moves(b: BoardView, e: EntityView) -> Seq<Position> {
    sliding_targets(b, e.pos, DIRS@, Some(e.piece.side()))
}

/// The pseudo-legal destinations of the rook `entity`. It never fails.
pub fn legal_moves(entity: &PieceEntity, board: &Board) -> (r: Result<Vec<Position>, ChessError>)
    ensures
        r matches Ok(v) && v@ == rook_moves(board@, entity@),
{
    let dirs: [(i8, i8); 4] = DIRS;
    sliding_moves(board, entity.pos, dirs.as_slice(), Some(entity.piece.color()))
}

/// The record of the rook's move to `new_pos`. The record of the piece
/// notes that it has moved, which ends its part in castling; the board does
/// not change.
///
/// Fails with `InvalidPosition`, changing nothing, exactly when `new_pos` is
/// off the board.
pub fn on_move(entity: &mut PieceEntity, new_pos: Position, board: &mut Board) -> (r: Result<
    MoveMeta,
    ChessError,
>)
    ensures
        final(board)@ == old(board)@,
        new_pos.valid() ==> r == Ok::<MoveMeta, ChessError>(
            plain_move(old(board)@, old(entity)@, new_pos),
        ) && final(entity)@ == (EntityView {
            meta: old(entity)@.meta.insert(moved_key(), MetaView::Bool(true)),
            ..old(entity)@
        }),
        !new_pos.valid() ==> fails_with(r, ErrorKind::InvalidPosition) && final(entity)@ == old(
            entity,
        )@,
{
    let capture: Option<Position> = capture_on(board, new_pos, entity.piece.color())?;
    entity.set_meta("moved", true);
    Ok(
        MoveMeta {
            piece: entity.piece,
            from: entity.pos,
            to: new_pos,
            castle: None,
            promotion: None,
            capture,
        },
    )
}

} // verus!

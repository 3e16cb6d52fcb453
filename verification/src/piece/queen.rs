//! The queen: the rays of the bishop, then those of the rook.

use vstd::prelude::*;
use crate::board::{Board, BoardView};
use crate::piece::{capture_on, plain_move, EntityView, MoveMeta, PieceEntity, Position};
use crate::utils::{fails_with, sliding_moves, sliding_targets, ChessError, ErrorKind};

verus! {

/// The directions of a queen, in the order in which its rays are listed.
pub const DIRS: [(i8, i8); 8] = [(1, 1), (-1, -1), (-1, 1), (1, -1), (1, 0), (-1, 0), (0, 1), (0, -1)];

/// The destinations of a queen: along each of its rays the empty squares
/// up to the first occupied one, and that one too if a piece of the other
/// side stands on it.
pub open spec fn queen_moves(b: BoardView, e: EntityView) -> Seq<Position> {
    sliding_targets(b, e.pos, DIRS@, Some(e.piece.side()))
}

/// The pseudo-legal destinations of the queen `entity`. It never fails.
pub fn legal_moves(entity: &PieceEntity, board: &Board) -> (r: Result<Vec<Position>, ChessError>)
    ensures
        r matches Ok(v) && v@ == queen_moves(board@, entity@),
{
    let dirs: [(i8, i8); 8] = DIRS;
    sliding_moves(board, entity.pos, dirs.as_slice(), Some(entity.piece.color()))
}

/// The record of the queen's move to `new_pos`. Neither the record of the
/// piece nor the board changes.
///
/// Fails with `InvalidPosition` exactly when `new_pos` is off the board.
pub fn on_move(entity: &mut PieceEntity, new_pos: Position, board: &mut Board) -> (r: Result<
    MoveMeta,
    ChessError,
>)
    ensures
        final(entity)@ == old(entity)@,
        final(board)@ == old(board)@,
        new_pos.valid() ==> r == Ok::<MoveMeta, ChessError>(
            plain_move(old(board)@, old(entity)@, new_pos),
        ),
        !new_pos.valid() ==> fails_with(r, ErrorKind::InvalidPosition),
{
    let capture: Option<Position> = capture_on(board, new_pos, entity.piece.color())?;
    Ok(
        MoveMeta {
            piece: entity.piece,
            from: entity.pos,
            to: new_pos,
            castle: None,
            promotion: None,
            capture,
        },
    )
}

} // verus!

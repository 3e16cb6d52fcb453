//! The knight: eight fixed jumps.

use vstd::prelude::*;
use crate::board::{Board, BoardView};
use crate::piece::{capture_on, plain_move, EntityView, MoveMeta, PieceEntity, Position};
use crate::utils::{fails_with, step_moves, step_targets, ChessError, ErrorKind};

verus! {

/// The jumps of a knight, in the order in which its destinations are listed.
pub const STEPS: [(i8, i8); 8] = [
    (2, 1),
    (2, -1),
    (-2, 1),
    (-2, -1),
    (1, 2),
    (1, -2),
    (-1, 2),
    (-1, -2),
];

/// The destinations of a knight: each jump that stays on the board and
/// lands on an empty square or on a piece of the other side.
pub open spec fn knight_moves(b: BoardView, e: EntityView) -> Seq<Position> {
    step_targets(b, e.pos, STEPS@, e.piece.side())
}

/// The pseudo-legal destinations of the knight `entity`. It never fails.
pub fn legal_moves(entity: &PieceEntity, board: &Board) -> (r: Result<Vec<Position>, ChessError>)
    ensures
        r matches Ok(v) && v@ == knight_moves(board@, entity@),
{
    let steps: [(i8, i8); 8] = STEPS;
    step_moves(board, entity.pos, steps.as_slice(), entity.piece.color())
}

/// The record of the knight's move to `new_pos`. Neither the record of the
/// piece nor the board changes.
///
/// Fails with `InvalidPosition` exactly when `new_pos` is off the board.
pub fn on_move(entity: &mut PieceEntity, new_pos: Position, board: &mut Board) -> (r: Result<
    MoveMeta,
    ChessError,
>)
    ensures
        final(entity)@ == old(entity)@,
        final(board)@ == old(board)@,
        new_pos.valid() ==> r == Ok::<MoveMeta, ChessError>(
            plain_move(old(board)@, old(entity)@, new_pos),
        ),
        !new_pos.valid() ==> fails_with(r, ErrorKind::InvalidPosition),
{
    let capture: Option<Position> = capture_on(board, new_pos, entity.piece.color())?;
    Ok(
        MoveMeta {
            piece: entity.piece,
            from: entity.pos,
            to: new_pos,
            castle: None,
            promotion: None,
            capture,
        },
    )
}

} // verus!

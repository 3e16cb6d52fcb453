//! The pawn: pushes, diagonal captures, capture in passing and promotion.

use vstd::prelude::*;
use crate::board::{Board, BoardView};
use crate::piece::{
    capture_on, moved_key, taken, Color, EntityView, MetaView, MoveMeta, Piece, PieceEntity,
    Position,
};
use crate::utils::{fails_with, lists, ChessError, ErrorKind};

verus! {

/// A request to turn the pawn on `pawn_pos` into `new_piece`.
#[derive(Debug, Clone, Copy, PartialEq, Eq)]
pub struct Promotion {
    pub pawn_pos: Position,
    pub new_piece: Piece,
}

/// The direction in which the pawns of `color` travel: up the ranks for
/// White, down for Black.
pub open spec fn forward(color: Color) -> int {
    match color {
        Color::White => 1,
        Color::Black => -1,
    }
}

/// The pushes of a pawn: one square forward if it is empty, and then two
/// squares forward if the pawn has not moved and that square is empty too.
pub open spec fn pawn_pushes(b: BoardView, e: EntityView) -> Seq<Position> {
    let dir = forward(e.piece.side());
    match e.pos.offset(0, dir) {
        Some(one) => if b.vacant(one) {
            match e.pos.offset(0, 2 * dir) {
                Some(two) => if !e.has_moved() && b.vacant(two) {
                    seq![one, two]
                } else {
                    seq![one]
                },
                None => seq![one],
            }
        } else {
            Seq::empty()
        },
        None => Seq::empty(),
    }
}

/// The capture of a pawn towards the file `d_file` away: the square one
/// forward on that file if a piece of the other side stands on it.
pub open spec fn pawn_capture(b: BoardView, e: EntityView, d_file: int) -> Seq<Position> {
    match e.pos.offset(d_file, forward(e.piece.side())) {
        Some(to) => if b.hostile(to, e.piece.side()) {
            seq![to]
        } else {
            Seq::empty()
        },
        None => Seq::empty(),
    }
}

/// Whether the pawn may capture in passing into `target` towards the file
/// `d_file` away: `target` is the square one forward on that file and is
/// empty, and the square beside the pawn on that file holds a pawn of the
/// other side.
pub open spec fn passant_open(b: BoardView, e: EntityView, target: Position, d_file: int) -> bool {
    &&& e.pos.offset(d_file, forward(e.piece.side())) == Some(target)
    &&& b.vacant(target)
    &&& e.pos.offset(d_file, 0) matches Some(beside)
    &&& b.piece_at(beside) == Some(Piece::Pawn(e.piece.side().flip()))
}

/// The capture in passing of a pawn: the en-passant target of the board, if
/// the pawn may capture into it on either side.
pub open spec fn pawn_passant(b: BoardView, e: EntityView) -> Seq<Position> {
    match b.passant_target {
        Some(target) => if passant_open(b, e, target, -1) || passant_open(b, e, target, 1) {
            seq![target]
        } else {
            Seq::empty()
        },
        None => Seq::empty(),
    }
}

/// The destinations of a pawn, in this order: one forward, two forward,
/// capture towards the lower file, capture towards the higher file, capture
/// in passing. A pawn with no square in front of it on the board has no
/// list of destinations: that is an `InvalidPosition`.
pub open spec fn pawn_moves(b: BoardView, e: EntityView) -> Result<Seq<Position>, ErrorKind> {
    if e.pos.offset(0, forward(e.piece.side())) is None {
        Err(ErrorKind::InvalidPosition)
    } else {
        Ok(pawn_pushes(b, e) + pawn_capture(b, e, -1) + pawn_capture(b, e, 1) + pawn_passant(b, e))
    }
}

fn may_capture_in_passing(
    entity: &PieceEntity,
    board: &Board,
    target: Position,
    dir: i8,
    d_file: i8,
) -> (open: bool)
    requires
        dir == forward(entity.piece.side()),
    ensures
        open == passant_open(board@, entity@, target, d_file as int),
{
    let color: Color = entity.piece.color();
    match entity.pos.shifted(d_file, dir) {
        Some(to) => {
            if to != target {
                return false;
            }
        },
        None => {
            return false;
        },
    }
    let empty: bool = match board.is_empty(target.rank, target.file) {
        Ok(e) => e,
        Err(_) => false,
    };
    if !empty {
        return false;
    }
    match entity.pos.shifted(d_file, 0) {
        Some(beside) => match board.get(beside.rank, beside.file) {
            Ok(Some(Piece::Pawn(c))) => c != color,
            _ => false,
        },
        None => false,
    }
}

/// The pseudo-legal destinations of the pawn `entity`.
///
/// Fails with `InvalidPosition` exactly when the square in front of the pawn
/// is off the board.
pub fn legal_moves(entity: &PieceEntity, board: &Board) -> (r: Result<Vec<Position>, ChessError>)
    ensures
        lists(r, pawn_moves(board@, entity@)),
{
    let color: Color = entity.piece.color();
    let dir: i8 = match color {
        Color::White => 1,
        Color::Black => -1,
    };
    let one: Position = match entity.pos.shifted(0, dir) {
        Some(p) => p,
        None => {
            return Err(
                ChessError::InvalidPosition("no square in front of the pawn".to_owned()),
            );
        },
    };
    let mut moves: Vec<Position> = Vec::new();
    if board.is_empty(one.rank, one.file)? {
        moves.push(one);
        if !entity.has_moved() {
            match one.shifted(0, dir) {
                Some(two) => {
                    if board.is_empty(two.rank, two.file)? {
                        moves.push(two);
                    }
                },
                None => {},
            }
        }
    }
    assert(moves@ =~= pawn_pushes(board@, entity@));
    match entity.pos.shifted(-1, dir) {
        Some(to) => {
            if board.is_enemy(to.rank, to.file, color)? {
                moves.push(to);
            }
        },
        None => {},
    }
    assert(moves@ =~= pawn_pushes(board@, entity@) + pawn_capture(board@, entity@, -1));
    match entity.pos.shifted(1, dir) {
        Some(to) => {
            if board.is_enemy(to.rank, to.file, color)? {
                moves.push(to);
            }
        },
        None => {},
    }
    assert(moves@ =~= pawn_pushes(board@, entity@) + pawn_capture(board@, entity@, -1)
        + pawn_capture(board@, entity@, 1));
    match board.get_passant_target() {
        Some(target) => {
            if may_capture_in_passing(entity, board, target, dir, -1) || may_capture_in_passing(
                entity,
                board,
                target,
                dir,
                1,
            ) {
                moves.push(target);
            }
        },
        None => {},
    }
    assert(moves@ =~= pawn_pushes(board@, entity@) + pawn_capture(board@, entity@, -1)
        + pawn_capture(board@, entity@, 1) + pawn_passant(board@, entity@));
    Ok(moves)
}

/// Whether a move from `from` to `to` crosses two ranks.
pub open spec fn double_step(from: Position, to: Position) -> bool {
    from.rank - to.rank == 2 || to.rank - from.rank == 2
}

/// The square that a double step from `from` to `to` passes over.
pub open spec fn passed_over(from: Position, to: Position) -> Position {
    Position { rank: ((from.rank + to.rank) / 2) as usize, file: from.file }
}

/// The piece that the record of a pawn holds after a move: the requested
/// piece, or the pawn itself when none is requested.
pub open spec fn promoted(e: EntityView, promotion: Option<Promotion>) -> Piece {
    match promotion {
        Some(p) => p.new_piece,
        None => e.piece,
    }
}

/// The record of a pawn after a move: it holds the promoted piece and notes
/// that the piece has moved. The square stays.
pub open spec fn pawn_after(e: EntityView, promotion: Option<Promotion>) -> EntityView {
    EntityView {
        piece: promoted(e, promotion),
        pos: e.pos,
        meta: e.meta.insert(moved_key(), MetaView::Bool(true)),
    }
}

/// The en-passant target after a pawn's move from `from` to `to`: the
/// square passed over by a double step, and the target of before otherwise.
pub open spec fn passant_after(b: BoardView, from: Position, to: Position) -> Option<Position> {
    if double_step(from, to) {
        Some(passed_over(from, to))
    } else {
        b.passant_target
    }
}

/// The square of the pawn that the pawn of `e` takes in passing by going to
/// `to`: the square beside it on the file of `to`, if `to` is the
/// en-passant target of the board and the pawn may capture into it on that
/// side. A move that does not capture in passing takes no such pawn.
pub open spec fn taken_in_passing(b: BoardView, e: EntityView, to: Position) -> Option<Position> {
    if b.passant_target == Some(to) && passant_open(b, e, to, -1) {
        e.pos.offset(-1, 0)
    } else if b.passant_target == Some(to) && passant_open(b, e, to, 1) {
        e.pos.offset(1, 0)
    } else {
        None
    }
}

/// The square whose piece the pawn of `e` takes by going to `to`: the
/// square of the pawn taken in passing, if the move captures in passing;
/// otherwise `to` itself iff a piece of the other side stands there.
pub open spec fn pawn_taken(b: BoardView, e: EntityView, to: Position) -> Option<Position> {
    match taken_in_passing(b, e, to) {
        Some(beside) => Some(beside),
        None => taken(b, to, e.piece.side()),
    }
}

/// The record of a pawn's move to `to`.
pub open spec fn pawn_record(
    b: BoardView,
    e: EntityView,
    to: Position,
    promotion: Option<Promotion>,
) -> MoveMeta {
    MoveMeta {
        piece: e.piece,
        from: e.pos,
        to,
        castle: None,
        promotion: match promotion {
            Some(p) => Some(p.new_piece),
            None => None,
        },
        capture: pawn_taken(b, e, to),
    }
}

/// The record of the pawn's move to `new_pos`, and what the move implies:
/// after a double step the en-passant target of the board is the square
/// passed over; the record of the piece notes that it has moved and holds
/// the requested piece if one is requested. Neither the square of the
/// piece nor the bit sets change.
///
/// The record names the square whose piece is taken: for a capture in
/// passing the square of the pawn passed, which is not the destination;
/// otherwise the destination, if a piece of the other side than the pawn
/// stands there.
///
/// Fails with `InvalidPosition`, changing nothing, exactly when `new_pos` is
/// off the board.
pub fn on_move(
    entity: &mut PieceEntity,
    new_pos: Position,
    board: &mut Board,
    promotion: Option<Promotion>,
) -> (r: Result<MoveMeta, ChessError>)
    ensures
        new_pos.valid() ==> r == Ok::<MoveMeta, ChessError>(
            pawn_record(old(board)@, old(entity)@, new_pos, promotion),
        ) && final(entity)@ == pawn_after(old(entity)@, promotion) && final(board)@ == old(
            board,
        )@.with_passant(passant_after(old(board)@, old(entity).pos, new_pos)),
        !new_pos.valid() ==> fails_with(r, ErrorKind::InvalidPosition) && final(entity)@ == old(
            entity,
        )@ && final(board)@ == old(board)@,
{
    if !new_pos.is_valid() {
        return Err(ChessError::InvalidPosition("destination off the board".to_owned()));
    }
    let from: Position = entity.pos;
    let color: Color = entity.piece.color();
    let dir: i8 = match color {
        Color::White => 1,
        Color::Black => -1,
    };
    let at_target: bool = match board.get_passant_target() {
        Some(target) => target == new_pos,
        None => false,
    };
    let passing: Option<Position> = if at_target && may_capture_in_passing(
        entity,
        board,
        new_pos,
        dir,
        -1,
    ) {
        from.shifted(-1, 0)
    } else if at_target && may_capture_in_passing(entity, board, new_pos, dir, 1) {
        from.shifted(1, 0)
    } else {
        None
    };
    let capture: Option<Position> = match passing {
        Some(beside) => Some(beside),
        None => capture_on(board, new_pos, color)?,
    };
    let two_up: bool = from.rank < 8 && from.rank + 2 == new_pos.rank;
    let two_down: bool = new_pos.rank + 2 == from.rank;
    if two_up || two_down {
        let middle: usize = (from.rank + new_pos.rank) / 2;
        board.set_passant_target(Some(Position { rank: middle, file: from.file }));
    }
    let prev_piece: Piece = entity.piece;
    match promotion {
        Some(p) => {
            entity.piece = p.new_piece;
        },
        None => {},
    }
    entity.set_meta("moved", true);
    Ok(
        MoveMeta {
            piece: prev_piece,
            from,
            to: new_pos,
            castle: None,
            promotion: match promotion {
                Some(p) => Some(p.new_piece),
                None => None,
            },
            capture,
        },
    )
}

} // verus!

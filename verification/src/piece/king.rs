//! The king: eight steps, and castling.

use vstd::prelude::*;
use crate::board::{of_color, Board, BoardView};
use crate::piece::{
    capture_on, has_position, moved_key, plain_gen, taken, Castle, Color, EntityView, MetaView,
    MoveMeta, Piece, PieceEntity, Position,
};
use crate::utils::{
    answers, fails_with, lists, ray, sliding_moves, sliding_targets, step_moves, step_targets,
    ChessError, ErrorKind,
};

verus! {

broadcast use crate::board::lemma_view_wf;

/// The steps of a king, in the order in which its destinations are listed.
pub const STEPS: [(i8, i8); 8] = [
    (1, 0),
    (-1, 0),
    (1, -1),
    (0, -1),
    (-1, -1),
    (-1, 1),
    (0, 1),
    (1, 1),
];

/// The directions in which a king castles, in the order in which the
/// castling destinations are listed.
pub const CASTLE_DIRS: [(i8, i8); 2] = [(1, 0), (-1, 0)];

/// The steps of a king: each adjacent square that is empty or holds a piece
/// of the other side.
pub open spec fn king_steps(b: BoardView, e: EntityView) -> Seq<Position> {
    step_targets(b, e.pos, STEPS@, e.piece.side())
}

/// Whether a piece of `by` reaches `target` by the geometry of its kind,
/// castling left aside. The records of `by` are asked in the order of the
/// flat index; the first one that reaches `target`, or whose destinations
/// cannot be listed, decides.
///
/// Castling is left aside to keep the question well founded: whether a king
/// may castle depends on what the other side attacks, and that must not
/// depend in turn on whether the other king may castle.
pub open spec fn path_attacked(b: BoardView, target: Position, by: Color) -> Result<
    bool,
    ErrorKind,
> {
    b.scan(target, of_color(by), plain_gen(b), 0)
}

/// The first occupied square from `from` along the rank, towards the higher
/// files for `d == 1` and towards the lower ones for `d == -1`.
pub open spec fn first_occupied(b: BoardView, from: Position, d: int) -> Option<Position> {
    let path = ray(b, from, d, 0, None);
    let end = if path.len() == 0 {
        from
    } else {
        path.last()
    };
    end.offset(d, 0)
}

/// Whether the king of `e` has a partner to castle with towards `d`: the
/// first occupied square in that direction holds the record of a rook of
/// the king's side that has not moved.
pub open spec fn castle_partner(b: BoardView, e: EntityView, d: int) -> bool {
    first_occupied(b, e.pos, d) matches Some(corner) && b.entity_at(corner) matches Some(rook)
        && rook.piece == Piece::Rook(e.piece.side()) && !rook.has_moved()
}

/// The castling destination of the king of `e` towards `d`, as a list of
/// at most one square: the square two files away, if the king has a partner
/// in that direction and the other side attacks neither that square nor the
/// one that the king crosses.
pub open spec fn castle_toward(b: BoardView, e: EntityView, d: int) -> Result<
    Seq<Position>,
    ErrorKind,
> {
    if !castle_partner(b, e, d) {
        Ok(Seq::empty())
    } else {
        match (e.pos.offset(d, 0), e.pos.offset(2 * d, 0)) {
            (Some(crossed), Some(target)) => match path_attacked(
                b,
                crossed,
                e.piece.side().flip(),
            ) {
                Err(k) => Err(k),
                Ok(true) => Ok(Seq::empty()),
                Ok(false) => match path_attacked(b, target, e.piece.side().flip()) {
                    Err(k) => Err(k),
                    Ok(true) => Ok(Seq::empty()),
                    Ok(false) => Ok(seq![target]),
                },
            },
            _ => Ok(Seq::empty()),
        }
    }
}

/// The destinations of a king: its steps, then, unless the king has moved,
/// its castling destination towards the higher files and the one towards
/// the lower files.
pub open spec fn king_moves(b: BoardView, e: EntityView) -> Result<Seq<Position>, ErrorKind> {
    if e.has_moved() {
        Ok(king_steps(b, e))
    } else {
        match castle_toward(b, e, 1) {
            Err(k) => Err(k),
            Ok(east) => match castle_toward(b, e, -1) {
                Err(k) => Err(k),
                Ok(west) => Ok(king_steps(b, e) + east + west),
            },
        }
    }
}

/// The steps of the king `entity`, castling left aside. It never fails.
pub fn step_moves_of(entity: &PieceEntity, board: &Board) -> (r: Result<Vec<Position>, ChessError>)
    ensures
        r matches Ok(v) && v@ == king_steps(board@, entity@),
{
    let steps: [(i8, i8); 8] = STEPS;
    step_moves(board, entity.pos, steps.as_slice(), entity.piece.color())
}

/// Whether a piece of `by` reaches `target` by the geometry of its kind,
/// castling left aside.
///
/// Fails with `InvalidPosition` exactly when a pawn of `by` with no square
/// in front of it on the board is asked before any piece that reaches
/// `target`.
pub fn transit_attacked(board: &Board, target: Position, by: Color) -> (r: Result<
    bool,
    ChessError,
>)
    ensures
        answers(r, path_attacked(board@, target, by)),
{
    let mut i: usize = 0;
    while i < 64
        invariant
            0 <= i <= 64,
            path_attacked(board@, target, by) == board@.scan(
                target,
                of_color(by),
                plain_gen(board@),
                i as int,
            ),
        decreases 64 - i,
    {
        let pos: Position = Position::from_index(i);
        match board.get_entity(pos.rank, pos.file) {
            Some(attacker) => {
                if attacker.piece.color() == by {
                    let moves: Vec<Position> = attacker.plain_moves(board)?;
                    if has_position(&moves, target) {
                        return Ok(true);
                    }
                }
            },
            None => {},
        }
        i = i + 1;
    }
    Ok(false)
}

fn has_partner(entity: &PieceEntity, board: &Board, d: i8) -> (found: bool)
    requires
        d == 1 || d == -1,
    ensures
        found == castle_partner(board@, entity@, d as int),
{
    let dirs: [(i8, i8); 1] = [(d, 0)];
    proof {
        reveal_with_fuel(sliding_targets, 2);
        assert(dirs@.len() == 1);
        assert(dirs@.last() == (d, 0i8));
        assert(dirs@.drop_last() =~= Seq::<(i8, i8)>::empty());
        assert(sliding_targets(board@, entity.pos, dirs@, None) =~= ray(
            board@,
            entity.pos,
            d as int,
            0,
            None,
        ));
    }
    let path: Vec<Position> = match sliding_moves(board, entity.pos, dirs.as_slice(), None) {
        Ok(p) => p,
        Err(_) => Vec::new(),
    };
    let end: Position = if path.len() == 0 {
        entity.pos
    } else {
        path[path.len() - 1]
    };
    match end.shifted(d, 0) {
        Some(corner) => match board.get_entity(corner.rank, corner.file) {
            Some(rook) => {
                let same: bool = match rook.piece {
                    Piece::Rook(c) => c == entity.piece.color(),
                    _ => false,
                };
                same && !rook.has_moved()
            },
            None => false,
        },
        None => false,
    }
}

fn castle_move(entity: &PieceEntity, board: &Board, d: i8, moves: &mut Vec<Position>) -> (r: Result<
    (),
    ChessError,
>)
    requires
        d == 1 || d == -1,
    ensures
        match castle_toward(board@, entity@, d as int) {
            Ok(found) => r is Ok && final(moves)@ == old(moves)@ + found,
            Err(k) => fails_with(r, k),
        },
{
    if !has_partner(entity, board, d) {
        assert(moves@ + Seq::<Position>::empty() =~= moves@);
        return Ok(());
    }
    let enemy: Color = entity.piece.color().opposite();
    match (entity.pos.shifted(d, 0), entity.pos.shifted(2 * d, 0)) {
        (Some(crossed), Some(target)) => {
            if transit_attacked(board, crossed, enemy)? {
                assert(moves@ + Seq::<Position>::empty() =~= moves@);
                return Ok(());
            }
            if transit_attacked(board, target, enemy)? {
                assert(moves@ + Seq::<Position>::empty() =~= moves@);
                return Ok(());
            }
            assert(moves@ + seq![target] =~= moves@.push(target));
            moves.push(target);
            Ok(())
        },
        _ => {
            assert(moves@ + Seq::<Position>::empty() =~= moves@);
            Ok(())
        },
    }
}

/// The pseudo-legal destinations of the king `entity`: its steps and, unless
/// it has moved, its castling destinations.
///
/// Fails with `InvalidPosition` exactly when castling depends on a pawn of
/// the other side with no square in front of it on the board.
pub fn legal_moves(entity: &PieceEntity, board: &Board) -> (r: Result<Vec<Position>, ChessError>)
    ensures
        lists(r, king_moves(board@, entity@)),
{
    let mut moves: Vec<Position> = step_moves_of(entity, board)?;
    if entity.has_moved() {
        return Ok(moves);
    }
    castle_move(entity, board, 1, &mut moves)?;
    castle_move(entity, board, -1, &mut moves)?;
    Ok(moves)
}

/// The wing on which a king's move from `e.pos` to `to` castles: the move
/// castles iff it crosses two files and the king has not moved; the wing is
/// the king's for a move towards the higher files, the queen's for the
/// other. No flag is set for a move that does not castle.
pub open spec fn castle_side(e: EntityView, to: Position) -> Castle {
    let castles = !e.has_moved() && (to.file - e.pos.file == 2 || e.pos.file - to.file == 2);
    let white = e.piece.side() == Color::White;
    Castle {
        white_king: white && castles && to.file > e.pos.file,
        white_queen: white && castles && to.file < e.pos.file,
        black_king: !white && castles && to.file > e.pos.file,
        black_queen: !white && castles && to.file < e.pos.file,
    }
}

/// The record of a king's move to `to`.
pub open spec fn king_record(b: BoardView, e: EntityView, to: Position) -> MoveMeta {
    MoveMeta {
        piece: e.piece,
        from: e.pos,
        to,
        castle: Some(castle_side(e, to)),
        promotion: None,
        capture: taken(b, to, e.piece.side()),
    }
}

/// The record of the king's move to `new_pos`, which names the wing if the
/// move castles. The record of the piece notes that it has moved; the board
/// does not change.
///
/// Fails with `InvalidPosition`, changing nothing, exactly when `new_pos` is
/// off the board.
pub fn on_move(entity: &mut PieceEntity, new_pos: Position, board: &mut Board) -> (r: Result<
    MoveMeta,
    ChessError,
>)
    ensures
        final(board)@ == old(board)@,
        new_pos.valid() ==> r == Ok::<MoveMeta, ChessError>(
            king_record(old(board)@, old(entity)@, new_pos),
        ) && final(entity)@ == (EntityView {
            meta: old(entity)@.meta.insert(moved_key(), MetaView::Bool(true)),
            ..old(entity)@
        }),
        !new_pos.valid() ==> fails_with(r, ErrorKind::InvalidPosition) && final(entity)@ == old(
            entity,
        )@,
{
    let capture: Option<Position> = capture_on(board, new_pos, entity.piece.color())?;
    let from: Position = entity.pos;
    let has_moved: bool = entity.has_moved();
    let east: bool = from.file < 8 && new_pos.file == from.file + 2;
    let west: bool = from.file == new_pos.file + 2;
    let is_castle: bool = (east || west) && !has_moved;
    let is_white: bool = match entity.piece.color() {
        Color::White => true,
        Color::Black => false,
    };
    let side: Castle = Castle {
        white_king: is_white && is_castle && new_pos.file > from.file,
        white_queen: is_white && is_castle && new_pos.file < from.file,
        black_king: !is_white && is_castle && new_pos.file > from.file,
        black_queen: !is_white && is_castle && new_pos.file < from.file,
    };
    entity.set_meta("moved", true);
    Ok(
        MoveMeta {
            piece: entity.piece,
            from,
            to: new_pos,
            castle: Some(side),
            promotion: None,
            capture,
        },
    )
}

} // verus!

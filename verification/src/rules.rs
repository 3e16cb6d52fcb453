//! Check, king safety of candidate moves, checkmate and stalemate.

use vstd::prelude::*;
use crate::board::{
    attacked, lemma_king_pos, lemma_scan_total, of_color, scan_fault, scan_hit, Board, BoardView,
};
use crate::piece::{
    full_gen, has_position, lemma_plain_moves_sound, moves_of, plain_moves_of, Color, EntityView,
    Piece, Position,
};
use crate::utils::{answers, fails_with, ChessError, ErrorKind};

verus! {

broadcast use crate::board::lemma_view_wf;

/// The test that accepts every record but that of the king of `color`.
pub open spec fn not_king_of(color: Color) -> spec_fn(EntityView) -> bool {
    |e: EntityView| e.piece != Piece::King(color)
}

/// Whether the king of `color` is in check: whether the square of the king
/// is among the pseudo-legal destinations of any record other than the
/// king's own. Without a king of `color` in the bit sets that is an
/// `InternalError`. The records are asked in the order of the flat index;
/// the first one that reaches the king, or whose destinations cannot be
/// listed, decides.
pub open spec fn in_check(b: BoardView, color: Color) -> Result<bool, ErrorKind> {
    match b.king_pos(color) {
        None => Err(ErrorKind::InternalError),
        Some(king) => b.scan(king, not_king_of(color), full_gen(b), 0),
    }
}

/// Whether the move from `from` to `to` leaves the king of `color` out of
/// check. A move from a square without a record never does.
pub open spec fn survives(b: BoardView, from: Position, to: Position, color: Color) -> Result<
    bool,
    ErrorKind,
> {
    if !from.valid() {
        Err(ErrorKind::InvalidPosition)
    } else if b.entity_at(from) is None {
        Ok(false)
    } else if !to.valid() {
        Err(ErrorKind::InvalidPosition)
    } else {
        match in_check(b.relocated(from, to), color) {
            Err(k) => Err(k),
            Ok(check) => Ok(!check),
        }
    }
}

/// The candidates among `moves`, in their order, that leave the king of
/// `color` out of check when the piece recorded on `from` goes there. The
/// first candidate for which that cannot be told makes the whole a failure.
pub open spec fn filtered(b: BoardView, moves: Seq<Position>, from: Position, color: Color) -> Result<
    Seq<Position>,
    ErrorKind,
>
    decreases moves.len(),
{
    if moves.len() == 0 {
        Ok(Seq::empty())
    } else {
        match filtered(b, moves.drop_last(), from, color) {
            Err(k) => Err(k),
            Ok(kept) => match survives(b, from, moves.last(), color) {
                Err(k) => Err(k),
                Ok(true) => Ok(kept.push(moves.last())),
                Ok(false) => Ok(kept),
            },
        }
    }
}

/// A list with one more square holds what the list held, and that square.
proof fn lemma_push_holds(list: Seq<Position>, last: Position, p: Position)
    ensures
        list.push(last).contains(p) <==> list.contains(p) || p == last,
{
    let longer = list.push(last);
    if list.contains(p) {
        let j = choose|j: int| 0 <= j < list.len() && list[j] == p;
        assert(longer[j] == p);
    }
    if p == last {
        assert(longer[list.len() as int] == p);
    }
    if longer.contains(p) {
        let j = choose|j: int| 0 <= j < longer.len() && longer[j] == p;
        if j < list.len() {
            assert(list[j] == p);
        }
    }
}

/// What filtering keeps: exactly the candidates that leave the king out of
/// check, no more of them than there were, and nothing at all from a square
/// without a record. Filtering fails exactly when a candidate cannot be
/// tried.
pub proof fn lemma_filtered(b: BoardView, moves: Seq<Position>, from: Position, color: Color)
    ensures
        match filtered(b, moves, from, color) {
            Ok(kept) => {
                &&& kept.len() <= moves.len()
                &&& forall|i: int|
                    0 <= i < moves.len() ==> survives(b, from, #[trigger] moves[i], color) is Ok
                &&& forall|p: Position|
                    kept.contains(p) <==> moves.contains(p) && survives(b, from, p, color) == Ok::<
                        bool,
                        ErrorKind,
                    >(true)
            },
            Err(k) => exists|i: int|
                0 <= i < moves.len() && survives(b, from, #[trigger] moves[i], color) == Err::<
                    bool,
                    ErrorKind,
                >(k),
        },
    decreases moves.len(),
{
    if moves.len() > 0 {
        let front = moves.drop_last();
        let last = moves.last();
        lemma_filtered(b, front, from, color);
        assert(moves =~= front.push(last));
        match filtered(b, front, from, color) {
            Err(k) => {
                let i = choose|i: int|
                    0 <= i < front.len() && survives(b, from, #[trigger] front[i], color) == Err::<
                        bool,
                        ErrorKind,
                    >(k);
                assert(moves[i] == front[i]);
            },
            Ok(before) => {
                match survives(b, from, last, color) {
                    Err(k) => {
                        assert(moves[moves.len() - 1] == last);
                    },
                    Ok(safe) => {
                        let kept = filtered(b, moves, from, color).unwrap();
                        assert forall|i: int| 0 <= i < moves.len() implies survives(
                            b,
                            from,
                            #[trigger] moves[i],
                            color,
                        ) is Ok by {
                            if i < front.len() {
                                assert(moves[i] == front[i]);
                            }
                        }
                        assert forall|p: Position|
                            kept.contains(p) <==> moves.contains(p) && survives(b, from, p, color)
                                == Ok::<bool, ErrorKind>(true) by {
                            lemma_push_holds(front, last, p);
                            if safe {
                                lemma_push_holds(before, last, p);
                            }
                        }
                    },
                }
            },
        }
    }
}

/// Whether the piece of `e` has a pseudo-legal move that leaves the king of
/// `color` out of check.
pub open spec fn has_safe_move(b: BoardView, e: EntityView, color: Color) -> Result<
    bool,
    ErrorKind,
> {
    match moves_of(b, e) {
        Err(k) => Err(k),
        Ok(moves) => match filtered(b, moves, e.pos, color) {
            Err(k) => Err(k),
            Ok(kept) => Ok(kept.len() > 0),
        },
    }
}

/// Whether a piece of `color` recorded on a square from `from` on has a
/// safe move. The records are asked in the order of the flat index; the
/// first one that has a safe move, or for which that cannot be told,
/// decides.
pub open spec fn any_safe_move(b: BoardView, color: Color, from: int) -> Result<bool, ErrorKind>
    decreases 64 - from,
{
    if from < 0 || from >= 64 {
        Ok(false)
    } else if b.entities[from] is Some && b.entities[from].unwrap().piece.side() == color {
        match has_safe_move(b, b.entities[from].unwrap(), color) {
            Err(k) => Err(k),
            Ok(true) => Ok(true),
            Ok(false) => any_safe_move(b, color, from + 1),
        }
    } else {
        any_safe_move(b, color, from + 1)
    }
}

/// `color` is checkmated: its king is in check and none of its pieces has
/// a safe move.
pub open spec fn checkmate(b: BoardView, color: Color) -> Result<bool, ErrorKind> {
    match in_check(b, color) {
        Err(k) => Err(k),
        Ok(false) => Ok(false),
        Ok(true) => match any_safe_move(b, color, 0) {
            Err(k) => Err(k),
            Ok(found) => Ok(!found),
        },
    }
}

/// `color` is stalemated: its king is not in check and none of its pieces
/// has a safe move.
pub open spec fn stalemate(b: BoardView, color: Color) -> Result<bool, ErrorKind> {
    match in_check(b, color) {
        Err(k) => Err(k),
        Ok(true) => Ok(false),
        Ok(false) => match any_safe_move(b, color, 0) {
            Err(k) => Err(k),
            Ok(found) => Ok(!found),
        },
    }
}

/// No side is checkmated and stalemated at once.
pub proof fn lemma_mate_excludes_stalemate(b: BoardView, color: Color)
    ensures
        !(checkmate(b, color) == Ok::<bool, ErrorKind>(true) && stalemate(b, color) == Ok::<
            bool,
            ErrorKind,
        >(true)),
        checkmate(b, color) == Ok::<bool, ErrorKind>(true) ==> in_check(b, color) == Ok::<
            bool,
            ErrorKind,
        >(true),
        stalemate(b, color) == Ok::<bool, ErrorKind>(true) ==> in_check(b, color) == Ok::<
            bool,
            ErrorKind,
        >(false),
{
}

/// Where the destinations of every record can be listed, the king of
/// `color` is in check exactly when the other side attacks the square of
/// the king: no piece of the own side has that square among its
/// destinations.
pub proof fn lemma_check_is_attack(b: BoardView, color: Color)
    requires
        b.wf(),
        b.king_pos(color) is Some,
        forall|i: int|
            0 <= i < 64 ==> (#[trigger] b.entities[i] matches Some(e) ==> moves_of(b, e) is Ok),
    ensures
        in_check(b, color) == attacked(b, b.king_pos(color).unwrap(), color.flip()),
{
    let king = b.king_pos(color).unwrap();
    let all = not_king_of(color);
    let foes = of_color(color.flip());
    let gen = full_gen(b);
    lemma_king_pos(b, color);
    assert forall|i: int, k: ErrorKind| 0 <= i < 64 implies !#[trigger] scan_fault(
        b,
        all,
        gen,
        i,
        k,
    ) by {
        assert(b.entities[i] matches Some(e) ==> moves_of(b, e) is Ok);
    }
    assert forall|i: int, k: ErrorKind| 0 <= i < 64 implies !#[trigger] scan_fault(
        b,
        foes,
        gen,
        i,
        k,
    ) by {
        assert(b.entities[i] matches Some(e) ==> moves_of(b, e) is Ok);
    }
    lemma_scan_total(b, king, all, gen);
    lemma_scan_total(b, king, foes, gen);
    assert forall|i: int| 0 <= i < 64 implies (#[trigger] scan_hit(b, king, all, gen, i)
        <==> scan_hit(b, king, foes, gen, i)) by {
        if scan_hit(b, king, all, gen, i) {
            let e = b.entities[i].unwrap();
            if e.piece.side() == color {
                let moves = moves_of(b, e).unwrap();
                assert(moves == plain_moves_of(b, e).unwrap());
                lemma_plain_moves_sound(b, e);
                let j = choose|j: int| 0 <= j < moves.len() && moves[j] == king;
                assert(b.admits(moves[j], Some(color)));
            }
        }
    }
    let by_all = exists|i: int| 0 <= i < 64 && #[trigger] scan_hit(b, king, all, gen, i);
    let by_foes = exists|i: int| 0 <= i < 64 && #[trigger] scan_hit(b, king, foes, gen, i);
    if by_all {
        let i = choose|i: int| 0 <= i < 64 && #[trigger] scan_hit(b, king, all, gen, i);
        assert(scan_hit(b, king, foes, gen, i));
    }
    if by_foes {
        let i = choose|i: int| 0 <= i < 64 && #[trigger] scan_hit(b, king, foes, gen, i);
        assert(scan_hit(b, king, all, gen, i));
    }
    assert(by_all == by_foes);
}

/// Whether the king of `color` is in check.
///
/// Fails with `InternalError` exactly when the bit sets hold no king of
/// `color`; otherwise it fails exactly when the destinations of a record
/// cannot be listed and no earlier record reaches the king.
pub fn is_in_check(board: &Board, color: Color) -> (r: Result<bool, ChessError>)
    ensures
        answers(r, in_check(board@, color)),
{
    let king_pos: Position = match board.get_king_pos(color) {
        Ok(Some(p)) => p,
        _ => {
            return Err(
                ChessError::InternalError(
                    match color {
                        Color::White => "White king not found".to_owned(),
                        Color::Black => "Black king not found".to_owned(),
                    },
                ),
            );
        },
    };
    let mut i: usize = 0;
    while i < 64
        invariant
            0 <= i <= 64,
            board@.king_pos(color) == Some(king_pos),
            in_check(board@, color) == board@.scan(
                king_pos,
                not_king_of(color),
                full_gen(board@),
                i as int,
            ),
        decreases 64 - i,
    {
        let pos: Position = Position::from_index(i);
        match board.get_entity(pos.rank, pos.file) {
            Some(p) => {
                let own_king: bool = match p.piece {
                    Piece::King(c) => c == color,
                    _ => false,
                };
                if !own_king {
                    let moves: Vec<Position> = p.legal_moves(board)?;
                    if has_position(&moves, king_pos) {
                        return Ok(true);
                    }
                }
            },
            None => {},
        }
        i = i + 1;
    }
    Ok(false)
}

/// Keeps of `moves` the candidates that leave the king of `color` out of
/// check. Each candidate is tried on a copy of the board on which the piece
/// recorded on `from` has gone to the candidate; the board itself never
/// changes. With no record on `from` no candidate is kept.
///
/// Fails, leaving `moves` as it was, exactly when a candidate cannot be
/// tried: with `InvalidPosition` when `from` or the candidate is off the
/// board, and as `is_in_check` fails on the copy.
pub fn filter_moves(board: &mut Board, moves: &mut Vec<Position>, from: Position, color: Color) -> (r:
    Result<(), ChessError>)
    ensures
        final(board)@ == old(board)@,
        match filtered(old(board)@, old(moves)@, from, color) {
            Ok(kept) => r is Ok && final(moves)@ == kept,
            Err(k) => fails_with(r, k) && final(moves)@ == old(moves)@,
        },
{
    let mut kept: Vec<Position> = Vec::new();
    let mut i: usize = 0;
    while i < moves.len()
        invariant
            0 <= i <= moves.len(),
            board@ == old(board)@,
            moves@ == old(moves)@,
            filtered(board@, moves@.take(i as int), from, color) == Ok::<Seq<Position>, ErrorKind>(
                kept@,
            ),
        decreases moves.len() - i,
    {
        let mv: Position = moves[i];
        proof {
            assert(moves@.take(i + 1).drop_last() =~= moves@.take(i as int));
            assert(moves@.take(i + 1).last() == mv);
        }
        if !from.is_valid() {
            proof {
                lemma_filtered_fails(board@, moves@, from, color, i + 1);
            }
            return Err(ChessError::InvalidPosition("origin off the board".to_owned()));
        }
        let safe: bool = match board.get_entity(from.rank, from.file) {
            Some(_) => {
                if !mv.is_valid() {
                    proof {
                        lemma_filtered_fails(board@, moves@, from, color, i + 1);
                    }
                    return Err(
                        ChessError::InvalidPosition("destination off the board".to_owned()),
                    );
                }
                let mut b_clone: Board = board.clone();
                let _ = b_clone.relocate(from, mv);
                match is_in_check(&b_clone, color) {
                    Ok(check) => !check,
                    Err(e) => {
                        proof {
                            lemma_filtered_fails(board@, moves@, from, color, i + 1);
                        }
                        return Err(e);
                    },
                }
            },
            None => false,
        };
        if safe {
            kept.push(mv);
        }
        i = i + 1;
    }
    proof {
        assert(moves@.take(i as int) =~= moves@);
    }
    *moves = kept;
    Ok(())
}

/// A failure on a first part of the candidates is the failure of the whole.
proof fn lemma_filtered_fails(
    b: BoardView,
    moves: Seq<Position>,
    from: Position,
    color: Color,
    n: int,
)
    requires
        0 <= n <= moves.len(),
        filtered(b, moves.take(n), from, color) is Err,
    ensures
        filtered(b, moves, from, color) == filtered(b, moves.take(n), from, color),
    decreases moves.len(),
{
    if n == moves.len() {
        assert(moves.take(n) =~= moves);
    } else {
        assert(moves.drop_last().take(n) =~= moves.take(n));
        lemma_filtered_fails(b, moves.drop_last(), from, color, n);
    }
}

/// Whether a piece of `color` has a pseudo-legal move that leaves its king
/// out of check.
fn some_safe_move(board: &mut Board, color: Color) -> (r: Result<bool, ChessError>)
    ensures
        final(board)@ == old(board)@,
        answers(r, any_safe_move(old(board)@, color, 0)),
{
    let mut i: usize = 0;
    while i < 64
        invariant
            0 <= i <= 64,
            board@ == old(board)@,
            any_safe_move(board@, color, 0) == any_safe_move(board@, color, i as int),
        decreases 64 - i,
    {
        let pos: Position = Position::from_index(i);
        let listed: Option<(Position, Result<Vec<Position>, ChessError>)> = match board.get_entity(
            pos.rank,
            pos.file,
        ) {
            Some(entity) => {
                if entity.piece.color() == color {
                    Some((entity.pos, entity.legal_moves(board)))
                } else {
                    None
                }
            },
            None => None,
        };
        match listed {
            Some((from, moves)) => {
                let mut m: Vec<Position> = moves?;
                filter_moves(board, &mut m, from, color)?;
                if m.len() > 0 {
                    return Ok(true);
                }
            },
            None => {},
        }
        i = i + 1;
    }
    Ok(false)
}

/// Whether `color` is checkmated: in check, and without a piece that has a
/// pseudo-legal move that leaves the king out of check. The board does not
/// change.
///
/// Fails exactly when the check, or a move of a piece asked before one that
/// has a safe move, cannot be judged.
pub fn is_checkmate(board: &mut Board, color: Color) -> (r: Result<bool, ChessError>)
    ensures
        final(board)@ == old(board)@,
        answers(r, checkmate(old(board)@, color)),
{
    if !is_in_check(board, color)? {
        return Ok(false);
    }
    let found: bool = some_safe_move(board, color)?;
    Ok(!found)
}

/// Whether `color` is stalemated: not in check, and without a piece that
/// has a pseudo-legal move that leaves the king out of check. The board
/// does not change.
///
/// Fails exactly when the check, or a move of a piece asked before one that
/// has a safe move, cannot be judged.
pub fn is_stalemate(board: &mut Board, color: Color) -> (r: Result<bool, ChessError>)
    ensures
        final(board)@ == old(board)@,
        answers(r, stalemate(old(board)@, color)),
{
    if is_in_check(board, color)? {
        return Ok(false);
    }
    let found: bool = some_safe_move(board, color)?;
    Ok(!found)
}

} // verus!

//! The board: twelve occupancy bit sets, the overlay of piece records, and
//! the bookkeeping of a game in progress.

use vstd::prelude::*;
use crate::fen::{
    described, digit, digit_of, digit_value, fen_outcome, fen_text, fields, lemma_loaded_synced,
    loaded, no_pieces, parse_number, passant_text, place, placement_text, push_decimal, rank_text,
    split_fields, string_of, template_ok, texts, value_of_digit,
};
use crate::piece::{
    full_gen, has_position, Castle, Color, EntityView, MoveMeta, Piece, PieceEntity, Position,
};
use crate::utils::{
    answers, chars_of, fails_with, mask, on_board, square_bit, ChessError, ErrorKind,
};

verus! {

/// The number of a piece's bit set: pawn, knight, bishop, rook, queen, king
/// for White, then the same for Black.
spec fn slot_of(p: Piece) -> int {
    match p {
        Piece::Pawn(Color::White) => 0,
        Piece::Knight(Color::White) => 1,
        Piece::Bishop(Color::White) => 2,
        Piece::Rook(Color::White) => 3,
        Piece::Queen(Color::White) => 4,
        Piece::King(Color::White) => 5,
        Piece::Pawn(Color::Black) => 6,
        Piece::Knight(Color::Black) => 7,
        Piece::Bishop(Color::Black) => 8,
        Piece::Rook(Color::Black) => 9,
        Piece::Queen(Color::Black) => 10,
        Piece::King(Color::Black) => 11,
    }
}

/// The piece whose bit set has number `k`.
spec fn piece_of(k: int) -> Piece {
    if k == 0 {
        Piece::Pawn(Color::White)
    } else if k == 1 {
        Piece::Knight(Color::White)
    } else if k == 2 {
        Piece::Bishop(Color::White)
    } else if k == 3 {
        Piece::Rook(Color::White)
    } else if k == 4 {
        Piece::Queen(Color::White)
    } else if k == 5 {
        Piece::King(Color::White)
    } else if k == 6 {
        Piece::Pawn(Color::Black)
    } else if k == 7 {
        Piece::Knight(Color::Black)
    } else if k == 8 {
        Piece::Bishop(Color::Black)
    } else if k == 9 {
        Piece::Rook(Color::Black)
    } else if k == 10 {
        Piece::Queen(Color::Black)
    } else {
        Piece::King(Color::Black)
    }
}

fn slot_index(p: Piece) -> (k: usize)
    ensures
        k == slot_of(p),
        k < 12,
        piece_of(k as int) == p,
{
    match p {
        Piece::Pawn(Color::White) => 0,
        Piece::Knight(Color::White) => 1,
        Piece::Bishop(Color::White) => 2,
        Piece::Rook(Color::White) => 3,
        Piece::Queen(Color::White) => 4,
        Piece::King(Color::White) => 5,
        Piece::Pawn(Color::Black) => 6,
        Piece::Knight(Color::Black) => 7,
        Piece::Bishop(Color::Black) => 8,
        Piece::Rook(Color::Black) => 9,
        Piece::Queen(Color::Black) => 10,
        Piece::King(Color::Black) => 11,
    }
}

fn slot_piece(k: usize) -> (p: Piece)
    requires
        k < 12,
    ensures
        p == piece_of(k as int),
        slot_of(p) == k,
{
    if k == 0 {
        Piece::Pawn(Color::White)
    } else if k == 1 {
        Piece::Knight(Color::White)
    } else if k == 2 {
        Piece::Bishop(Color::White)
    } else if k == 3 {
        Piece::Rook(Color::White)
    } else if k == 4 {
        Piece::Queen(Color::White)
    } else if k == 5 {
        Piece::King(Color::White)
    } else if k == 6 {
        Piece::Pawn(Color::Black)
    } else if k == 7 {
        Piece::Knight(Color::Black)
    } else if k == 8 {
        Piece::Bishop(Color::Black)
    } else if k == 9 {
        Piece::Rook(Color::Black)
    } else if k == 10 {
        Piece::Queen(Color::Black)
    } else {
        Piece::King(Color::Black)
    }
}

/// Bit set `k` has the bit of square `sq`.
spec fn claimed(sets: Seq<u64>, sq: int, k: int) -> bool {
    sets[k] & square_bit(sq) != 0
}

/// No two of the twelve bit sets share a bit.
spec fn disjoint(sets: Seq<u64>) -> bool {
    forall|a: int, b: int| 0 <= a < b < 12 ==> #[trigger] sets[a] & #[trigger] sets[b] == 0
}

/// The piece whose bit set has the bit of square `sq`.
spec fn occupant(sets: Seq<u64>, sq: int) -> Option<Piece> {
    if claimed(sets, sq, 0) {
        Some(piece_of(0))
    } else if claimed(sets, sq, 1) {
        Some(piece_of(1))
    } else if claimed(sets, sq, 2) {
        Some(piece_of(2))
    } else if claimed(sets, sq, 3) {
        Some(piece_of(3))
    } else if claimed(sets, sq, 4) {
        Some(piece_of(4))
    } else if claimed(sets, sq, 5) {
        Some(piece_of(5))
    } else if claimed(sets, sq, 6) {
        Some(piece_of(6))
    } else if claimed(sets, sq, 7) {
        Some(piece_of(7))
    } else if claimed(sets, sq, 8) {
        Some(piece_of(8))
    } else if claimed(sets, sq, 9) {
        Some(piece_of(9))
    } else if claimed(sets, sq, 10) {
        Some(piece_of(10))
    } else if claimed(sets, sq, 11) {
        Some(piece_of(11))
    } else {
        None
    }
}

proof fn lemma_shared_bit(a: u64, b: u64, sq: int)
    requires
        0 <= sq < 64,
        a & b == 0,
    ensures
        a & square_bit(sq) == 0 || b & square_bit(sq) == 0,
{
    let s: u64 = sq as u64;
    assert(s < 64 && a & b == 0 ==> a & (1u64 << s) == 0 || b & (1u64 << s) == 0) by (bit_vector);
}

/// With disjoint bit sets, the occupant of a square is the one piece whose
/// bit set has the square's bit.
proof fn lemma_occupant_unique(sets: Seq<u64>, sq: int, k: int)
    requires
        disjoint(sets),
        0 <= sq < 64,
        0 <= k < 12,
    ensures
        claimed(sets, sq, k) <==> occupant(sets, sq) == Some(piece_of(k)),
{
    if claimed(sets, sq, k) {
        assert forall|j: int| 0 <= j < 12 && j != k implies !claimed(sets, sq, j) by {
            if j < k {
                lemma_shared_bit(sets[j], sets[k], sq);
            } else {
                lemma_shared_bit(sets[k], sets[j], sq);
            }
        }
    }
}

proof fn lemma_bit_cleared(a: u64, sq: int, other: int)
    requires
        0 <= sq < 64,
        0 <= other < 64,
    ensures
        ((a & !square_bit(sq)) & square_bit(other) != 0) == (other != sq && a & square_bit(other)
            != 0),
        ((a | square_bit(sq)) & square_bit(other) != 0) == (other == sq || a & square_bit(other)
            != 0),
{
    let s: u64 = sq as u64;
    let o: u64 = other as u64;
    assert(s < 64 && o < 64 ==> (((a & !(1u64 << s)) & (1u64 << o) != 0) == (o != s && a & (1u64
        << o) != 0))) by (bit_vector);
    assert(s < 64 && o < 64 ==> (((a | (1u64 << s)) & (1u64 << o) != 0) == (o == s || a & (1u64
        << o) != 0))) by (bit_vector);
}

proof fn lemma_disjoint_kept(a: u64, b: u64, m: u64)
    requires
        a & b == 0,
    ensures
        (a & !m) & (b & !m) == 0,
        (a | m) & (b & !m) == 0,
        (a & !m) & (b | m) == 0,
{
    assert(a & b == 0 ==> (a & !m) & (b & !m) == 0) by (bit_vector);
    assert(a & b == 0 ==> (a | m) & (b & !m) == 0) by (bit_vector);
    assert(a & b == 0 ==> (a & !m) & (b | m) == 0) by (bit_vector);
}

/// The mathematical content of a board.
#[verifier::ext_equal]
pub struct BoardView {
    /// The piece on each square according to the bit sets, by flat index.
    pub squares: Seq<Option<Piece>>,
    /// The piece record of each square of the overlay, by flat index.
    pub entities: Seq<Option<EntityView>>,
    /// The side to move.
    pub turn: Color,
    /// The castling rights.
    pub castling: Castle,
    /// The square that a pawn may capture into in passing, if any.
    pub passant_target: Option<Position>,
    /// Plies since the last pawn move or capture.
    pub halfmove: u8,
    /// The number of the move, counted from one.
    pub fullmove: u8,
    /// The moves recorded so far, oldest first.
    pub history: Seq<MoveMeta>,
}

impl BoardView {
    /// Both descriptions cover the 64 squares.
    pub open spec fn wf(self) -> bool {
        self.squares.len() == 64 && self.entities.len() == 64
    }

    /// The board with no piece, White to move, no castling right, no
    /// en-passant target, move one.
    pub open spec fn empty() -> BoardView {
        BoardView {
            squares: Seq::new(64, |i: int| None::<Piece>),
            entities: Seq::new(64, |i: int| None::<EntityView>),
            turn: Color::White,
            castling: Castle::none(),
            passant_target: None,
            halfmove: 0,
            fullmove: 1,
            history: Seq::empty(),
        }
    }

    /// The piece on `pos` according to the bit sets.
    pub open spec fn piece_at(self, pos: Position) -> Option<Piece> {
        if pos.valid() {
            self.squares[pos.index()]
        } else {
            None
        }
    }

    /// The piece record on `pos` in the overlay.
    pub open spec fn entity_at(self, pos: Position) -> Option<EntityView> {
        if pos.valid() {
            self.entities[pos.index()]
        } else {
            None
        }
    }

    /// No piece stands on `pos`.
    pub open spec fn vacant(self, pos: Position) -> bool {
        self.piece_at(pos) is None
    }

    /// A piece of the other side than `color` stands on `pos`.
    pub open spec fn hostile(self, pos: Position, color: Color) -> bool {
        self.piece_at(pos) matches Some(p) && p.side() != color
    }

    /// A piece may go to `pos`: the square is empty, or a side is given and
    /// the piece on it belongs to the other side. With no side given every
    /// occupied square blocks.
    pub open spec fn admits(self, pos: Position, color: Option<Color>) -> bool {
        match (self.piece_at(pos), color) {
            (None, _) => true,
            (Some(p), Some(c)) => p.side() != c,
            (Some(_), None) => false,
        }
    }

    /// The same board with `piece` on `pos` in the bit sets.
    pub open spec fn with_piece(self, pos: Position, piece: Option<Piece>) -> BoardView {
        BoardView { squares: self.squares.update(pos.index(), piece), ..self }
    }

    /// The same board with `entity` on `pos` in the overlay.
    pub open spec fn with_entity(self, pos: Position, entity: Option<EntityView>) -> BoardView {
        BoardView { entities: self.entities.update(pos.index(), entity), ..self }
    }

    /// The same board with another en-passant target.
    pub open spec fn with_passant(self, target: Option<Position>) -> BoardView {
        BoardView { passant_target: target, ..self }
    }

    /// The same board with the piece of `entity` on the square of `entity`
    /// in the bit sets and `entity` on that square in the overlay.
    pub open spec fn placed(self, entity: EntityView) -> BoardView {
        self.with_piece(entity.pos, Some(entity.piece)).with_entity(entity.pos, Some(entity))
    }

    /// The same board with nothing on `pos` in either description.
    pub open spec fn cleared(self, pos: Position) -> BoardView {
        self.with_piece(pos, None).with_entity(pos, None)
    }

    /// The board after the piece recorded on `from` has gone to `to`: both
    /// descriptions empty on `from`; on `to` the piece in the bit sets and,
    /// in the overlay, its record with `to` as its square.
    pub open spec fn relocated(self, from: Position, to: Position) -> BoardView {
        let e = self.entity_at(from).unwrap();
        self.cleared(from).placed(EntityView { pos: to, ..e })
    }

    /// The two descriptions agree: the overlay has a record exactly on the
    /// squares where the bit sets have a piece, and each record holds that
    /// piece and that square.
    pub open spec fn synced(self) -> bool {
        forall|i: int|
            0 <= i < 64 ==> match #[trigger] self.entities[i] {
                Some(e) => self.squares[i] == Some(e.piece) && e.pos == Position::at(i),
                None => self.squares[i] is None,
            }
    }

    /// The first square, by flat index from `from` on, that holds the king
    /// of `color`.
    pub open spec fn king_from(self, color: Color, from: int) -> Option<Position>
        decreases 64 - from,
    {
        if from < 0 || from >= 64 {
            None
        } else if self.squares[from] == Some(Piece::King(color)) {
            Some(Position::at(from))
        } else {
            self.king_from(color, from + 1)
        }
    }

    /// The first square, by flat index, that holds the king of `color`.
    pub open spec fn king_pos(self, color: Color) -> Option<Position> {
        self.king_from(color, 0)
    }

    /// Goes through the overlay by flat index from `from` on, looking only
    /// at the records that `counts` accepts, and stops at the first of them
    /// whose destinations, as `gen` lists them, hold `target` or cannot be
    /// listed: the answer is then `true`, or the failure. With no such
    /// record it is `false`.
    pub open spec fn scan(
        self,
        target: Position,
        counts: spec_fn(EntityView) -> bool,
        gen: spec_fn(EntityView) -> Result<Seq<Position>, ErrorKind>,
        from: int,
    ) -> Result<bool, ErrorKind>
        decreases 64 - from,
    {
        if from < 0 || from >= 64 {
            Ok(false)
        } else if self.entities[from] is Some && counts(self.entities[from].unwrap()) {
            match gen(self.entities[from].unwrap()) {
                Err(k) => Err(k),
                Ok(moves) => if moves.contains(target) {
                    Ok(true)
                } else {
                    self.scan(target, counts, gen, from + 1)
                },
            }
        } else {
            self.scan(target, counts, gen, from + 1)
        }
    }
}

/// The record on square `i` decides a scan with a hit: `counts` accepts it
/// and `gen` lists `target` among its destinations.
pub open spec fn scan_hit(
    b: BoardView,
    target: Position,
    counts: spec_fn(EntityView) -> bool,
    gen: spec_fn(EntityView) -> Result<Seq<Position>, ErrorKind>,
    i: int,
) -> bool {
    &&& b.entities[i] matches Some(e)
    &&& counts(e)
    &&& gen(e) matches Ok(moves)
    &&& moves.contains(target)
}

/// The record on square `i` decides a scan with the failure `k`: `counts`
/// accepts it and `gen` cannot list its destinations.
pub open spec fn scan_fault(
    b: BoardView,
    counts: spec_fn(EntityView) -> bool,
    gen: spec_fn(EntityView) -> Result<Seq<Position>, ErrorKind>,
    i: int,
    k: ErrorKind,
) -> bool {
    b.entities[i] matches Some(e) && counts(e) && gen(e) == Err::<Seq<Position>, ErrorKind>(k)
}

/// The record on square `i` does not decide a scan: there is none, or
/// `counts` does not accept it, or `gen` lists its destinations and
/// `target` is not among them.
pub open spec fn scan_silent(
    b: BoardView,
    target: Position,
    counts: spec_fn(EntityView) -> bool,
    gen: spec_fn(EntityView) -> Result<Seq<Position>, ErrorKind>,
    i: int,
) -> bool {
    b.entities[i] is Some && counts(b.entities[i].unwrap()) ==> gen(b.entities[i].unwrap()) is Ok
        && !gen(b.entities[i].unwrap()).unwrap().contains(target)
}

/// No record on a square from `from` up to `to` decides a scan.
pub open spec fn scan_quiet(
    b: BoardView,
    target: Position,
    counts: spec_fn(EntityView) -> bool,
    gen: spec_fn(EntityView) -> Result<Seq<Position>, ErrorKind>,
    from: int,
    to: int,
) -> bool {
    forall|j: int| from <= j < to ==> #[trigger] scan_silent(b, target, counts, gen, j)
}

/// A scan answers `true` exactly when some accepted record has `target`
/// among its destinations and no accepted record before it decides; it
/// fails exactly when the destinations of some accepted record cannot be
/// listed and no accepted record before it decides; it answers `false`
/// exactly when no record decides.
pub proof fn lemma_scan(
    b: BoardView,
    target: Position,
    counts: spec_fn(EntityView) -> bool,
    gen: spec_fn(EntityView) -> Result<Seq<Position>, ErrorKind>,
    from: int,
)
    requires
        0 <= from <= 64,
    ensures
        match b.scan(target, counts, gen, from) {
            Ok(true) => exists|i: int|
                from <= i < 64 && #[trigger] scan_hit(b, target, counts, gen, i) && scan_quiet(
                    b,
                    target,
                    counts,
                    gen,
                    from,
                    i,
                ),
            Ok(false) => scan_quiet(b, target, counts, gen, from, 64),
            Err(k) => exists|i: int|
                from <= i < 64 && #[trigger] scan_fault(b, counts, gen, i, k) && scan_quiet(
                    b,
                    target,
                    counts,
                    gen,
                    from,
                    i,
                ),
        },
    decreases 64 - from,
{
    if from < 64 {
        lemma_scan(b, target, counts, gen, from + 1);
        if scan_silent(b, target, counts, gen, from) {
            assert(b.scan(target, counts, gen, from) == b.scan(target, counts, gen, from + 1));
            match b.scan(target, counts, gen, from + 1) {
                Ok(true) => {
                    let i = choose|i: int|
                        from + 1 <= i < 64 && #[trigger] scan_hit(b, target, counts, gen, i)
                            && scan_quiet(b, target, counts, gen, from + 1, i);
                    assert forall|j: int| from <= j < i implies #[trigger] scan_silent(
                        b,
                        target,
                        counts,
                        gen,
                        j,
                    ) by {
                        if j > from {
                            assert(scan_quiet(b, target, counts, gen, from + 1, i));
                        }
                    }
                    assert(scan_hit(b, target, counts, gen, i) && scan_quiet(
                        b,
                        target,
                        counts,
                        gen,
                        from,
                        i,
                    ));
                },
                Ok(false) => {
                    assert forall|j: int| from <= j < 64 implies #[trigger] scan_silent(
                        b,
                        target,
                        counts,
                        gen,
                        j,
                    ) by {
                        if j > from {
                            assert(scan_quiet(b, target, counts, gen, from + 1, 64));
                        }
                    }
                },
                Err(k) => {
                    let i = choose|i: int|
                        from + 1 <= i < 64 && #[trigger] scan_fault(b, counts, gen, i, k)
                            && scan_quiet(b, target, counts, gen, from + 1, i);
                    assert forall|j: int| from <= j < i implies #[trigger] scan_silent(
                        b,
                        target,
                        counts,
                        gen,
                        j,
                    ) by {
                        if j > from {
                            assert(scan_quiet(b, target, counts, gen, from + 1, i));
                        }
                    }
                    assert(scan_fault(b, counts, gen, i, k) && scan_quiet(
                        b,
                        target,
                        counts,
                        gen,
                        from,
                        i,
                    ));
                },
            }
        } else {
            assert(scan_quiet(b, target, counts, gen, from, from));
            match gen(b.entities[from].unwrap()) {
                Ok(moves) => {
                    assert(scan_hit(b, target, counts, gen, from));
                },
                Err(k) => {
                    assert(scan_fault(b, counts, gen, from, k));
                },
            }
        }
    }
}

/// Where the destinations of every accepted record can be listed, a scan
/// answers whether some accepted record has `target` among them.
pub proof fn lemma_scan_total(
    b: BoardView,
    target: Position,
    counts: spec_fn(EntityView) -> bool,
    gen: spec_fn(EntityView) -> Result<Seq<Position>, ErrorKind>,
)
    requires
        forall|i: int, k: ErrorKind| 0 <= i < 64 ==> !#[trigger] scan_fault(b, counts, gen, i, k),
    ensures
        b.scan(target, counts, gen, 0) == Ok::<bool, ErrorKind>(
            exists|i: int| 0 <= i < 64 && #[trigger] scan_hit(b, target, counts, gen, i),
        ),
{
    lemma_scan(b, target, counts, gen, 0);
    if b.scan(target, counts, gen, 0) == Ok::<bool, ErrorKind>(false) {
        assert forall|i: int| 0 <= i < 64 implies !#[trigger] scan_hit(
            b,
            target,
            counts,
            gen,
            i,
        ) by {
            assert(scan_silent(b, target, counts, gen, i));
        }
    }
}

/// Putting a piece on a square changes what the bit sets hold there and
/// nowhere else, and leaves the overlay alone.
pub proof fn lemma_with_piece(b: BoardView, pos: Position, piece: Option<Piece>, other: Position)
    requires
        b.wf(),
        pos.valid(),
    ensures
        b.with_piece(pos, piece).wf(),
        b.with_piece(pos, piece).piece_at(other) == (if other == pos {
            piece
        } else {
            b.piece_at(other)
        }),
        b.with_piece(pos, piece).entity_at(other) == b.entity_at(other),
{
}

/// Putting a record on a square changes what the overlay holds there and
/// nowhere else, and leaves the bit sets alone.
pub proof fn lemma_with_entity(
    b: BoardView,
    pos: Position,
    entity: Option<EntityView>,
    other: Position,
)
    requires
        b.wf(),
        pos.valid(),
    ensures
        b.with_entity(pos, entity).wf(),
        b.with_entity(pos, entity).entity_at(other) == (if other == pos {
            entity
        } else {
            b.entity_at(other)
        }),
        b.with_entity(pos, entity).piece_at(other) == b.piece_at(other),
{
}

/// On the empty board the two descriptions agree.
pub proof fn lemma_synced_empty()
    ensures
        BoardView::empty().synced(),
{
}

/// Placing a record on its own square, clearing a square and relocating a
/// piece keep the two descriptions in agreement.
pub proof fn lemma_synced(b: BoardView, entity: EntityView, from: Position, to: Position)
    requires
        b.wf(),
        b.synced(),
    ensures
        entity.pos.valid() ==> b.placed(entity).synced(),
        from.valid() ==> b.cleared(from).synced(),
        from.valid() && to.valid() && b.entity_at(from) is Some ==> b.relocated(from, to).synced(),
{
    if entity.pos.valid() {
        let after = b.placed(entity);
        assert forall|i: int| 0 <= i < 64 implies match #[trigger] after.entities[i] {
            Some(e) => after.squares[i] == Some(e.piece) && e.pos == Position::at(i),
            None => after.squares[i] is None,
        } by {
            assert(b.entities[i] is Some || b.entities[i] is None);
        }
    }
    if from.valid() {
        let after = b.cleared(from);
        assert forall|i: int| 0 <= i < 64 implies match #[trigger] after.entities[i] {
            Some(e) => after.squares[i] == Some(e.piece) && e.pos == Position::at(i),
            None => after.squares[i] is None,
        } by {
            assert(b.entities[i] is Some || b.entities[i] is None);
        }
        if to.valid() && b.entity_at(from) is Some {
            let e = b.entity_at(from).unwrap();
            let moved = EntityView { pos: to, ..e };
            let last = after.placed(moved);
            assert forall|i: int| 0 <= i < 64 implies match #[trigger] last.entities[i] {
                Some(e) => last.squares[i] == Some(e.piece) && e.pos == Position::at(i),
                None => last.squares[i] is None,
            } by {
                assert(after.entities[i] is Some || after.entities[i] is None);
            }
        }
    }
}

proof fn lemma_king_from(b: BoardView, color: Color, from: int)
    requires
        b.wf(),
        0 <= from <= 64,
    ensures
        match b.king_from(color, from) {
            Some(p) => p.valid() && from <= p.index() && b.piece_at(p) == Some(Piece::King(color))
                && forall|i: int|
                from <= i < p.index() ==> b.squares[i] != Some(Piece::King(color)),
            None => forall|i: int| from <= i < 64 ==> b.squares[i] != Some(Piece::King(color)),
        },
    decreases 64 - from,
{
    if from < 64 {
        lemma_king_from(b, color, from + 1);
    }
}

/// The square that `king_pos` gives holds the king of `color` and is the
/// first that does; it gives none exactly when no square holds that king.
pub proof fn lemma_king_pos(b: BoardView, color: Color)
    requires
        b.wf(),
    ensures
        match b.king_pos(color) {
            Some(p) => p.valid() && b.piece_at(p) == Some(Piece::King(color)) && forall|q: Position|
                q.valid() && q.index() < p.index() ==> b.piece_at(q) != Some(Piece::King(color)),
            None => forall|q: Position| q.valid() ==> b.piece_at(q) != Some(Piece::King(color)),
        },
{
    lemma_king_from(b, color, 0);
}

/// Whether a piece of `by` attacks `target`: whether `target` is among the
/// pseudo-legal destinations of a piece of `by`. The records of `by` are
/// asked in the order of the flat index; the first one that has `target`
/// among its destinations, or whose destinations cannot be listed, decides.
pub open spec fn attacked(b: BoardView, target: Position, by: Color) -> Result<bool, ErrorKind> {
    b.scan(target, of_color(by), full_gen(b), 0)
}

/// The test that accepts the records of the pieces of `color`.
pub open spec fn of_color(color: Color) -> spec_fn(EntityView) -> bool {
    |e: EntityView| e.piece.side() == color
}

/// The view of a piece record that may be absent.
pub open spec fn shown(entity: Option<PieceEntity>) -> Option<EntityView> {
    match entity {
        Some(e) => Some(e@),
        None => None,
    }
}

/// The views of the piece records of an overlay, square by square.
pub open spec fn entity_views(entities: Seq<Option<PieceEntity>>) -> Seq<Option<EntityView>> {
    Seq::new(
        64,
        |i: int|
            if i < entities.len() {
                shown(entities[i])
            } else {
                None
            },
    )
}

/// A chess board.
///
/// Every square is claimed by at most one of the twelve bit sets, and the
/// overlay has one slot per square: each operation keeps both.
#[derive(Debug)]
pub struct Board {
    sets: [u64; 12],
    turn: Color,
    castling: Castle,
    passant_target: Option<Position>,
    fullmove: u8,
    halfmove: u8,
    entities: Vec<Option<PieceEntity>>,
    history: Vec<MoveMeta>,
}

impl View for Board {
    type V = BoardView;

    closed spec fn view(&self) -> BoardView {
        BoardView {
            squares: Seq::new(64, |sq: int| occupant(self.sets@, sq)),
            entities: entity_views(self.entities@),
            turn: self.turn,
            castling: self.castling,
            passant_target: self.passant_target,
            halfmove: self.halfmove,
            fullmove: self.fullmove,
            history: self.history@,
        }
    }
}

/// The view of every board covers the 64 squares in both descriptions.
pub broadcast proof fn lemma_view_wf(b: Board)
    ensures
        (#[trigger] b.view()).wf(),
{
}

impl Clone for Board {
    /// A full, independent copy of the board.
    fn clone(&self) -> (r: Self)
        ensures
            r@ == self@,
    {
        proof {
            use_type_invariant(self);
        }
        let mut entities: Vec<Option<PieceEntity>> = Vec::new();
        let mut i: usize = 0;
        while i < 64
            invariant
                0 <= i <= 64,
                self.entities.len() == 64,
                entities.len() == i,
                forall|j: int| 0 <= j < i ==> shown(#[trigger] entities@[j]) == shown(self.entities@[j]),
            decreases 64 - i,
        {
            let copy: Option<PieceEntity> = match &self.entities[i] {
                Some(e) => Some(e.clone()),
                None => None,
            };
            entities.push(copy);
            i = i + 1;
        }
        let mut history: Vec<MoveMeta> = Vec::new();
        let mut k: usize = 0;
        while k < self.history.len()
            invariant
                0 <= k <= self.history.len(),
                history@ == self.history@.take(k as int),
            decreases self.history.len() - k,
        {
            history.push(self.history[k]);
            assert(history@ =~= self.history@.take(k + 1));
            k = k + 1;
        }
        assert(self.history@.take(k as int) =~= self.history@);
        let r = Board {
            sets: self.sets,
            turn: self.turn,
            castling: self.castling,
            passant_target: self.passant_target,
            fullmove: self.fullmove,
            halfmove: self.halfmove,
            entities,
            history,
        };
        assert(r@ =~= self@);
        r
    }
}

impl Board {
    #[verifier::type_invariant]
    spec fn inv(self) -> bool {
        self.entities.len() == 64 && disjoint(self.sets@)
    }

    /// The bit set of `piece` has the bit of square `pos`.
    pub closed spec fn claims(&self, piece: Piece, pos: Position) -> bool {
        pos.valid() && claimed(self.sets@, pos.index(), slot_of(piece))
    }

    /// An empty board: no piece, White to move, no castling right, no
    /// en-passant target, move one.
    pub fn new() -> (b: Self)
        ensures
            b@ == BoardView::empty(),
            b@.synced(),
    {
        let mut entities: Vec<Option<PieceEntity>> = Vec::new();
        let mut i: usize = 0;
        while i < 64
            invariant
                0 <= i <= 64,
                entities.len() == i,
                forall|j: int| 0 <= j < i ==> entities[j] is None,
            decreases 64 - i,
        {
            entities.push(None);
            i = i + 1;
        }
        let sets: [u64; 12] = [0, 0, 0, 0, 0, 0, 0, 0, 0, 0, 0, 0];
        proof {
            assert forall|a: int, b: int| 0 <= a < b < 12 implies #[trigger] sets@[a]
                & #[trigger] sets@[b] == 0 by {
                assert(0u64 & 0u64 == 0) by (bit_vector);
            }
            assert forall|sq: int| 0 <= sq < 64 implies occupant(sets@, sq) is None by {
                let m = square_bit(sq);
                assert(0u64 & m == 0) by (bit_vector);
            }
        }
        let b = Board {
            sets,
            turn: Color::White,
            castling: Castle::default(),
            passant_target: None,
            fullmove: 1,
            halfmove: 0,
            entities,
            history: Vec::new(),
        };
        assert(b@ =~= BoardView::empty());
        b
    }

    /// The en-passant target.
    pub fn get_passant_target(&self) -> (t: Option<Position>)
        ensures
            t == self@.passant_target,
    {
        self.passant_target
    }

    /// Replaces the en-passant target and nothing else.
    pub fn set_passant_target(&mut self, target: Option<Position>)
        ensures
            final(self)@ == old(self)@.with_passant(target),
    {
        proof {
            use_type_invariant(&*self);
        }
        self.passant_target = target;
    }

    /// Appends `record` to the log of moves. The log only grows.
    pub fn record_move(&mut self, record: MoveMeta)
        ensures
            final(self)@ == (BoardView { history: old(self)@.history.push(record), ..old(self)@ }),
    {
        proof {
            use_type_invariant(&*self);
        }
        let ghost prior = self@;
        // The log is taken out while it grows and put back whole, so that the
        // board never lends out a part of itself across a call that may
        // unwind.
        let mut history: Vec<MoveMeta> = Vec::new();
        std::mem::swap(&mut history, &mut self.history);
        history.push(record);
        self.history = history;
        proof {
            assert(self@ =~= (BoardView { history: prior.history.push(record), ..prior }));
        }
    }

    /// The log of moves, oldest first.
    pub fn history(&self) -> (log: &Vec<MoveMeta>)
        ensures
            log@ == self@.history,
    {
        &self.history
    }

    /// The piece on `(rank, file)`.
    ///
    /// Fails with `InvalidPosition` exactly when a coordinate is outside
    /// `0..8`. On a square of the board it gives the one piece whose bit set
    /// claims the square, or `None` when no bit set does: two bit sets never
    /// claim one square.
    pub fn get(&self, rank: usize, file: usize) -> (r: Result<Option<Piece>, ChessError>)
        ensures
            self@.wf(),
            on_board(rank as int, file as int) ==> r == Ok::<Option<Piece>, ChessError>(
                self@.piece_at(Position { rank, file }),
            ),
            on_board(rank as int, file as int) ==> forall|p: Piece|
                self.claims(p, Position { rank, file }) <==> r == Ok::<Option<Piece>, ChessError>(
                    Some(p),
                ),
            !on_board(rank as int, file as int) ==> fails_with(r, ErrorKind::InvalidPosition),
    {
        proof {
            use_type_invariant(self);
        }
        let m: u64 = mask(rank, file)?;
        let ghost sq: int = rank * 8 + file;
        let mut k: usize = 0;
        while k < 12
            invariant
                0 <= k <= 12,
                0 <= sq < 64,
                on_board(rank as int, file as int),
                self.entities.len() == 64,
                sq == rank * 8 + file,
                m == square_bit(sq),
                disjoint(self.sets@),
                forall|j: int| 0 <= j < k ==> !claimed(self.sets@, sq, j),
            decreases 12 - k,
        {
            if self.sets[k] & m != 0 {
                let p: Piece = slot_piece(k);
                proof {
                    assert(claimed(self.sets@, sq, k as int));
                    assert forall|q: Piece| claimed(self.sets@, sq, slot_of(q)) implies q == p by {
                        lemma_occupant_unique(self.sets@, sq, slot_of(q));
                        lemma_occupant_unique(self.sets@, sq, k as int);
                    }
                }
                return Ok(Some(p));
            }
            k = k + 1;
        }
        Ok(None)
    }

    /// Puts `p` on `(rank, file)` in the bit sets: the square's bit leaves
    /// all twelve sets, then enters the set of `p` if there is one. The
    /// overlay is not touched.
    ///
    /// Fails with `InvalidPosition`, changing nothing, exactly when a
    /// coordinate is outside `0..8`.
    pub fn set(&mut self, rank: usize, file: usize, p: Option<Piece>) -> (r: Result<
        (),
        ChessError,
    >)
        ensures
            on_board(rank as int, file as int) ==> r is Ok && final(self)@ == old(self)@.with_piece(
                Position { rank, file },
                p,
            ),
            !on_board(rank as int, file as int) ==> fails_with(r, ErrorKind::InvalidPosition)
                && final(self)@ == old(self)@,
    {
        proof {
            use_type_invariant(&*self);
        }
        let m: u64 = mask(rank, file)?;
        let ghost sq: int = rank * 8 + file;
        let slot: usize = match p {
            Some(piece) => slot_index(piece),
            None => 12,
        };
        let ghost before = self.sets@;
        let mut sets: [u64; 12] = self.sets;
        let mut k: usize = 0;
        while k < 12
            invariant
                0 <= k <= 12,
                before.len() == 12,
                forall|j: int|
                    0 <= j < k ==> #[trigger] sets@[j] == if j == slot {
                        before[j] | m
                    } else {
                        before[j] & !m
                    },
                forall|j: int| k <= j < 12 ==> #[trigger] sets@[j] == before[j],
            decreases 12 - k,
        {
            if k == slot {
                sets[k] = sets[k] | m;
            } else {
                sets[k] = sets[k] & !m;
            }
            k = k + 1;
        }
        proof {
            assert forall|a: int, b: int| 0 <= a < b < 12 implies #[trigger] sets@[a]
                & #[trigger] sets@[b] == 0 by {
                assert(before[a] & before[b] == 0);
                lemma_disjoint_kept(before[a], before[b], m);
            }
            assert forall|other: int| 0 <= other < 64 implies occupant(sets@, other) == (if other
                == sq {
                p
            } else {
                occupant(before, other)
            }) by {
                assert forall|j: int| 0 <= j < 12 implies claimed(sets@, other, j) == (if other
                    == sq {
                    j == slot
                } else {
                    claimed(before, other, j)
                }) by {
                    lemma_bit_cleared(before[j], sq, other);
                }
            }
        }
        let ghost prior = self@;
        self.sets = sets;
        proof {
            assert(self@.squares =~= prior.squares.update(sq, p));
            assert(self@ =~= prior.with_piece(Position { rank, file }, p));
        }
        Ok(())
    }

    /// The first square, in the order of the flat index, on which the bit
    /// sets have the king of `color`; `None` when they have none. It never
    /// fails.
    pub fn get_king_pos(&self, color: Color) -> (r: Result<Option<Position>, ChessError>)
        ensures
            self@.wf(),
            r == Ok::<Option<Position>, ChessError>(self@.king_pos(color)),
            r matches Ok(Some(p)) ==> p.valid() && self@.piece_at(p) == Some(Piece::King(color)),
    {
        proof {
            use_type_invariant(self);
        }
        let mut i: usize = 0;
        while i < 64
            invariant
                0 <= i <= 64,
                self@.wf(),
                self@.king_pos(color) == self@.king_from(color, i as int),
            decreases 64 - i,
        {
            let pos: Position = Position::from_index(i);
            match self.get(pos.rank, pos.file) {
                Ok(Some(Piece::King(c))) => {
                    if c == color {
                        return Ok(Some(pos));
                    }
                },
                _ => {},
            }
            i = i + 1;
        }
        Ok(None)
    }

    /// The piece record on `(rank, file)` in the overlay; `None` where the
    /// overlay has no record, and off the board.
    pub fn get_entity(&self, rank: usize, file: usize) -> (r: Option<&PieceEntity>)
        ensures
            self@.wf(),
            match r {
                Some(e) => on_board(rank as int, file as int) && self@.entity_at(
                    Position { rank, file },
                ) == Some(e@),
                None => self@.entity_at(Position { rank, file }) is None,
            },
    {
        proof {
            use_type_invariant(self);
        }
        if rank >= 8 || file >= 8 {
            return None;
        }
        let idx: usize = Position { rank, file }.to_index();
        self.entities[idx].as_ref()
    }

    /// The piece record on `(rank, file)` in the overlay, to be changed in
    /// place. What the caller leaves in it is what the overlay then holds on
    /// that square; every other square and the bit sets stay. Where the
    /// overlay has no record, and off the board, there is nothing to change:
    /// the answer is `None` and the board stays as it is.
    pub fn get_entity_mut(&mut self, rank: usize, file: usize) -> (r: Option<&mut PieceEntity>)
        ensures
            match r {
                Some(e) => on_board(rank as int, file as int) && old(self)@.entity_at(
                    Position { rank, file },
                ) == Some(e@) && final(self)@ =~= old(self)@.with_entity(
                    Position { rank, file },
                    Some(final(e)@),
                ),
                None => old(self)@.entity_at(Position { rank, file }) is None && final(self)@
                    =~= old(self)@,
            },
    {
        proof {
            use_type_invariant(&*self);
        }
        if rank >= 8 || file >= 8 {
            return None;
        }
        let idx: usize = Position { rank, file }.to_index();
        self.entities[idx].as_mut()
    }

    /// Puts `entity` on `(rank, file)` in the overlay, or empties the slot.
    /// The bit sets are not touched. Off the board there is no slot, and
    /// nothing changes.
    pub fn set_entity(&mut self, rank: usize, file: usize, entity: Option<PieceEntity>)
        ensures
            on_board(rank as int, file as int) ==> final(self)@ == old(self)@.with_entity(
                Position { rank, file },
                shown(entity),
            ),
            !on_board(rank as int, file as int) ==> final(self)@ == old(self)@,
    {
        proof {
            use_type_invariant(&*self);
        }
        if rank >= 8 || file >= 8 {
            return;
        }
        let idx: usize = Position { rank, file }.to_index();
        let ghost prior = self@;
        let ghost record: Option<EntityView> = shown(entity);
        self.entities[idx] = entity;
        proof {
            assert(self@.entities =~= prior.entities.update(idx as int, record));
            assert(self@ =~= prior.with_entity(Position { rank, file }, record));
        }
    }

    /// Puts `entity` on its own square in both descriptions at once: its
    /// piece in the bit sets, the record in the overlay. Descriptions that
    /// agreed before agree afterwards.
    ///
    /// Fails with `InvalidPosition`, changing nothing, exactly when the
    /// square of `entity` is off the board.
    pub fn place(&mut self, entity: PieceEntity) -> (r: Result<(), ChessError>)
        ensures
            entity.pos.valid() ==> r is Ok && final(self)@ == old(self)@.placed(entity@),
            !entity.pos.valid() ==> fails_with(r, ErrorKind::InvalidPosition) && final(self)@
                == old(self)@,
            old(self)@.synced() ==> final(self)@.synced(),
    {
        let pos: Position = entity.pos;
        proof {
            lemma_view_wf(*self);
            if self@.synced() {
                lemma_synced(self@, entity@, pos, pos);
            }
        }
        self.set(pos.rank, pos.file, Some(entity.piece))?;
        self.set_entity(pos.rank, pos.file, Some(entity));
        Ok(())
    }

    /// Empties `(rank, file)` in both descriptions at once. Descriptions
    /// that agreed before agree afterwards.
    ///
    /// Fails with `InvalidPosition`, changing nothing, exactly when a
    /// coordinate is outside `0..8`.
    pub fn clear(&mut self, rank: usize, file: usize) -> (r: Result<(), ChessError>)
        ensures
            on_board(rank as int, file as int) ==> r is Ok && final(self)@ == old(self)@.cleared(
                Position { rank, file },
            ),
            !on_board(rank as int, file as int) ==> fails_with(r, ErrorKind::InvalidPosition)
                && final(self)@ == old(self)@,
            old(self)@.synced() ==> final(self)@.synced(),
    {
        proof {
            lemma_view_wf(*self);
            if self@.synced() {
                let pos = Position { rank, file };
                let any = EntityView { piece: Piece::Pawn(Color::White), pos, meta: Map::empty() };
                lemma_synced(self@, any, pos, pos);
            }
        }
        self.set(rank, file, None)?;
        self.set_entity(rank, file, None);
        Ok(())
    }

    /// Moves the piece recorded on `from` to `to` in both descriptions at
    /// once: `from` is emptied, and `to` holds the piece and its record,
    /// whose square is then `to`. What stood on `to` is gone. The metadata
    /// of the record stays as it is. Descriptions that agreed before agree
    /// afterwards.
    ///
    /// Fails, changing nothing, with `InvalidPosition` exactly when `from`
    /// or `to` is off the board, and with `IllegalMove` exactly when both
    /// are on the board and the overlay has no record on `from`.
    pub fn relocate(&mut self, from: Position, to: Position) -> (r: Result<(), ChessError>)
        ensures
            match r {
                Ok(_) => from.valid() && to.valid() && old(self)@.entity_at(from) is Some
                    && final(self)@ == old(self)@.relocated(from, to),
                Err(e) => final(self)@ == old(self)@ && if from.valid() && to.valid() {
                    e.kind() == ErrorKind::IllegalMove && old(self)@.entity_at(from) is None
                } else {
                    e.kind() == ErrorKind::InvalidPosition
                },
            },
            old(self)@.synced() ==> final(self)@.synced(),
    {
        if !from.is_valid() || !to.is_valid() {
            return Err(ChessError::InvalidPosition("square off the board".to_owned()));
        }
        let mut moved: PieceEntity = match self.get_entity(from.rank, from.file) {
            Some(e) => e.clone(),
            None => {
                return Err(ChessError::IllegalMove("no piece on the origin".to_owned()));
            },
        };
        proof {
            lemma_view_wf(*self);
            if self@.synced() {
                lemma_synced(self@, moved@, from, to);
            }
        }
        moved.pos = to;
        let _ = self.clear(from.rank, from.file);
        let _ = self.place(moved);
        Ok(())
    }

    /// True iff a piece of the other side than `color` stands on
    /// `(rank, file)`.
    ///
    /// Fails with `InvalidPosition` exactly when a coordinate is outside
    /// `0..8`.
    pub fn is_enemy(&self, rank: usize, file: usize, color: Color) -> (r: Result<bool, ChessError>)
        ensures
            self@.wf(),
            on_board(rank as int, file as int) ==> r == Ok::<bool, ChessError>(
                self@.hostile(Position { rank, file }, color),
            ),
            !on_board(rank as int, file as int) ==> fails_with(r, ErrorKind::InvalidPosition),
    {
        match self.get(rank, file)? {
            Some(p) => Ok(p.color() != color),
            None => Ok(false),
        }
    }

    /// True iff no piece stands on `(rank, file)`.
    ///
    /// Fails with `InvalidPosition` exactly when a coordinate is outside
    /// `0..8`.
    pub fn is_empty(&self, rank: usize, file: usize) -> (r: Result<bool, ChessError>)
        ensures
            self@.wf(),
            on_board(rank as int, file as int) ==> r == Ok::<bool, ChessError>(
                self@.vacant(Position { rank, file }),
            ),
            !on_board(rank as int, file as int) ==> fails_with(r, ErrorKind::InvalidPosition),
    {
        match self.get(rank, file)? {
            Some(_p) => Ok(false),
            None => Ok(true),
        }
    }

    /// Whether a piece may go to `pos`: true on an empty square; on an
    /// occupied one true iff `color` is given and the occupant belongs to
    /// the other side.
    ///
    /// Fails with `InvalidPosition` exactly when `pos` is off the board.
    pub fn can_move_to(&self, pos: Position, color: Option<Color>) -> (r: Result<bool, ChessError>)
        ensures
            self@.wf(),
            pos.valid() ==> r == Ok::<bool, ChessError>(self@.admits(pos, color)),
            !pos.valid() ==> fails_with(r, ErrorKind::InvalidPosition),
    {
        match (self.get(pos.rank, pos.file)?, color) {
            (None, _) => Ok(true),
            (Some(p), Some(c)) => Ok(p.color() != c),
            (Some(_), None) => Ok(false),
        }
    }

    /// Whether a piece of `attacker_color` attacks `from`: whether `from` is
    /// among the pseudo-legal destinations of one of its piece records. The
    /// records are asked square by square and the first hit ends the scan.
    ///
    /// Fails exactly when the destinations of a record of `attacker_color`
    /// cannot be listed and no earlier record of that side has `from` among
    /// its destinations.
    pub fn is_square_attacked(&self, from: Position, attacker_color: Color) -> (r: Result<
        bool,
        ChessError,
    >)
        ensures
            answers(r, attacked(self@, from, attacker_color)),
    {
        let mut i: usize = 0;
        while i < 64
            invariant
                0 <= i <= 64,
                attacked(self@, from, attacker_color) == self@.scan(
                    from,
                    of_color(attacker_color),
                    full_gen(self@),
                    i as int,
                ),
            decreases 64 - i,
        {
            let pos: Position = Position::from_index(i);
            match self.get_entity(pos.rank, pos.file) {
                Some(attacker) => {
                    if attacker.piece.color() == attacker_color {
                        let moves: Vec<Position> = attacker.legal_moves(self)?;
                        if has_position(&moves, from) {
                            return Ok(true);
                        }
                    }
                },
                None => {},
            }
            i = i + 1;
        }
        Ok(false)
    }

    /// Appends the text of rank `rank` to `out`.
    fn push_rank(&self, rank: usize, out: &mut String)
        requires
            rank < 8,
        ensures
            final(out)@ == old(out)@ + rank_text(self@.squares, rank as int, 0, 0),
    {
        let ghost before = out@;
        let ghost whole = rank_text(self@.squares, rank as int, 0, 0);
        let mut run: u8 = 0;
        let mut file: usize = 0;
        assert(before + whole =~= out@ + whole);
        while file < 8
            invariant
                0 <= file <= 8,
                rank < 8,
                run <= file,
                self@.wf(),
                before + whole == out@ + rank_text(
                    self@.squares,
                    rank as int,
                    file as int,
                    run as int,
                ),
            decreases 8 - file,
        {
            let piece: Option<Piece> = match self.get(rank, file) {
                Ok(p) => p,
                Err(_) => None,
            };
            match piece {
                Some(p) => {
                    let ghost rest = rank_text(self@.squares, rank as int, file + 1, 0);
                    let ghost so_far = out@;
                    let ghost pending: int = run as int;
                    if run > 0 {
                        out.push(digit_of(run));
                        run = 0;
                    }
                    out.push(p.fen_char());
                    proof {
                        assert(out@ + rest =~= so_far + rank_text(
                            self@.squares,
                            rank as int,
                            file as int,
                            pending,
                        )) by {
                            assert(self@.squares[rank * 8 + file] == Some(p));
                        }
                    }
                },
                None => {
                    run = run + 1;
                },
            }
            file = file + 1;
        }
        if run > 0 {
            out.push(digit_of(run));
        }
    }

    /// The text of the position: placement from the eighth rank down, side
    /// to move, castling rights, en-passant target, halfmove clock and move
    /// number.
    ///
    /// Fails with `InvalidPosition` exactly when the en-passant target is
    /// off the board.
    pub fn generate_fen(&self) -> (r: Result<String, ChessError>)
        ensures
            match self@.passant_target {
                Some(t) => if t.valid() {
                    r matches Ok(s) && s@ == fen_text(self@)
                } else {
                    fails_with(r, ErrorKind::InvalidPosition)
                },
                None => r matches Ok(s) && s@ == fen_text(self@),
            },
    {
        match self.passant_target {
            Some(t) => {
                if !t.is_valid() {
                    return Err(
                        ChessError::InvalidPosition("en-passant target off the board".to_owned()),
                    );
                }
            },
            None => {},
        }
        let mut out = String::new();
        let mut left: usize = 8;
        assert(out@ + placement_text(self@.squares, 7) =~= placement_text(self@.squares, 7));
        while left > 0
            invariant
                0 <= left <= 8,
                left > 0 ==> out@ + placement_text(self@.squares, left - 1) == placement_text(
                    self@.squares,
                    7,
                ),
                left == 0 ==> out@ == placement_text(self@.squares, 7),
            decreases left,
        {
            let rank: usize = left - 1;
            let ghost so_far = out@;
            self.push_rank(rank, &mut out);
            if rank > 0 {
                out.push('/');
                proof {
                    assert(out@ + placement_text(self@.squares, rank - 1) =~= so_far
                        + placement_text(self@.squares, rank as int));
                }
            }
            left = left - 1;
        }
        out.push(' ');
        out.push(self.turn.fen_char());
        out.push(' ');
        let castling: String = self.castling.as_fen();
        out.append(castling.as_str());
        out.push(' ');
        match self.passant_target {
            Some(t) => {
                out.push((('a' as u8) + (t.file as u8)) as char);
                out.push(digit_of((t.rank + 1) as u8));
            },
            None => {
                out.push('-');
            },
        }
        let ghost head = out@;
        proof {
            assert(head =~= placement_text(self@.squares, 7) + seq![' ', self@.turn.letter(), ' ']
                + self@.castling.text() + seq![' '] + passant_text(self@.passant_target));
        }
        out.push(' ');
        push_decimal(&mut out, self.halfmove);
        out.push(' ');
        push_decimal(&mut out, self.fullmove);
        proof {
            assert(out@ =~= fen_text(self@));
        }
        Ok(out)
    }

    /// Reads the placement field `text` into the bit sets.
    fn place_pieces(&mut self, text: &Vec<char>)
        ensures
            final(self)@ == (BoardView {
                squares: place(old(self)@.squares, text@, 0, 0),
                ..old(self)@
            }),
    {
        let ghost mut row: int = 0;
        let ghost mut file: int = 0;
        let mut r: usize = 0;
        let mut f: usize = 0;
        let mut i: usize = 0;
        assert(text@.skip(0) =~= text@);
        while i < text.len()
            invariant
                0 <= i <= text.len(),
                0 <= row,
                0 <= file,
                r == (if row < 8 { row } else { 8 }),
                f == (if file < 8 { file } else { 8 }),
                self@.wf(),
                old(self)@.wf(),
                self@ == (BoardView { squares: self@.squares, ..old(self)@ }),
                place(old(self)@.squares, text@, 0, 0) == place(
                    self@.squares,
                    text@.skip(i as int),
                    row,
                    file,
                ),
            decreases text.len() - i,
        {
            let c: char = text[i];
            proof {
                assert(text@.skip(i as int)[0] == c);
                assert(text@.skip(i as int).drop_first() =~= text@.skip(i + 1));
            }
            if c == '/' {
                if r < 8 {
                    r = r + 1;
                }
                f = 0;
                proof {
                    row = row + 1;
                    file = 0;
                }
            } else if digit(c) {
                let d: usize = value_of_digit(c) as usize;
                if f + d < 8 {
                    f = f + d;
                } else {
                    f = 8;
                }
                proof {
                    file = file + digit_value(c);
                }
            } else {
                if r < 8 && f < 8 {
                    let _ = self.set(7 - r, f, Some(Piece::from_fen(c)));
                }
                if f < 8 {
                    f = f + 1;
                }
                proof {
                    file = file + 1;
                }
            }
            i = i + 1;
        }
    }

    /// Takes every piece out of the bit sets. The overlay is not touched.
    fn clear_sets(&mut self)
        ensures
            final(self)@ == (BoardView { squares: no_pieces(), ..old(self)@ }),
    {
        proof {
            use_type_invariant(&*self);
        }
        let sets: [u64; 12] = [0, 0, 0, 0, 0, 0, 0, 0, 0, 0, 0, 0];
        proof {
            assert forall|a: int, b: int| 0 <= a < b < 12 implies #[trigger] sets@[a]
                & #[trigger] sets@[b] == 0 by {
                assert(0u64 & 0u64 == 0) by (bit_vector);
            }
            assert forall|sq: int| 0 <= sq < 64 implies occupant(sets@, sq) is None by {
                let m = square_bit(sq);
                assert(0u64 & m == 0) by (bit_vector);
            }
        }
        let ghost prior = self@;
        self.sets = sets;
        proof {
            assert(self@.squares =~= no_pieces());
            assert(self@ =~= (BoardView { squares: no_pieces(), ..prior }));
        }
    }

    /// Reads a position text of six fields separated by white space:
    /// placement, side to move, castling rights, en-passant target,
    /// halfmove clock, move number. Afterwards the board holds the position
    /// that the text describes: the bit sets hold the pieces of the
    /// placement and no others, and exactly the castling rights that the
    /// text names hold. The overlay and the log of moves are not part of a
    /// position text and are not touched.
    ///
    /// Fails with `ParseError`, changing nothing, exactly when the text has
    /// not six fields, the castling field is not `-` and has a letter
    /// outside `KQkq`, the en-passant field is neither `-` nor a square of
    /// the board, or a clock is no number below 256.
    pub fn from_fen(&mut self, fen: String) -> (r: Result<(), ChessError>)
        ensures
            match fen_outcome(old(self)@, fen@) {
                Some(after) => r is Ok && final(self)@ == after,
                None => fails_with(r, ErrorKind::ParseError) && final(self)@ == old(self)@,
            },
    {
        let chars: Vec<char> = chars_of(fen.as_str());
        let parts: Vec<Vec<char>> = split_fields(&chars);
        let ghost f = fields(fen@);
        proof {
            assert(texts(parts@).len() == parts@.len());
        }
        if parts.len() != 6 {
            return Err(ChessError::ParseError("invalid FEN, not enough parts".to_owned()));
        }
        proof {
            assert(forall|k: int| 0 <= k < 6 ==> f[k] == #[trigger] parts@[k]@);
        }
        let mut castling: Castle = Castle::default();
        match castling.from_fen(string_of(&parts[2])) {
            Ok(_) => {},
            Err(e) => {
                return Err(e);
            },
        }
        let passant: &Vec<char> = &parts[3];
        let no_target: bool = passant.len() == 1 && passant[0] == '-';
        proof {
            if no_target {
                assert(passant@ =~= seq!['-']);
            }
        }
        let well_formed: bool = no_target || (passant.len() >= 2 && 'a' <= passant[0] && passant[0]
            <= 'h' && '1' <= passant[1] && passant[1] <= '8');
        if !well_formed {
            return Err(ChessError::ParseError("invalid en-passant square".to_owned()));
        }
        let target: Option<Position> = if no_target {
            None
        } else {
            let square: String = string_of(passant);
            Some(Position::from_fen(square.as_str()))
        };
        let half: u8 = match parse_number(&parts[4]) {
            Some(n) => n,
            None => {
                return Err(ChessError::ParseError("halfmove clock parse error".to_owned()));
            },
        };
        let full: u8 = match parse_number(&parts[5]) {
            Some(n) => n,
            None => {
                return Err(ChessError::ParseError("fullmove clock parse error".to_owned()));
            },
        };
        let turn: String = string_of(&parts[1]);
        let side: Color = Color::from_fen(turn.as_str());
        self.clear_sets();
        self.place_pieces(&parts[0]);
        proof {
            use_type_invariant(&*self);
        }
        self.turn = side;
        self.castling = castling;
        self.passant_target = target;
        self.halfmove = half;
        self.fullmove = full;
        proof {
            assert(self@ =~= described(old(self)@, f));
        }
        Ok(())
    }

    /// Loads a template: one slot per square, each holding a piece record
    /// or nothing. The records are placed in order, each on its own square,
    /// in the bit sets and in the overlay; an empty slot changes nothing.
    ///
    /// Fails with `ParseError`, changing nothing, exactly when the template
    /// has not 64 slots or a record stands off the board.
    pub fn from_template(&mut self, template: Vec<Option<PieceEntity>>) -> (r: Result<
        (),
        ChessError,
    >)
        ensures
            template_ok(entity_list(template@)) ==> r is Ok && final(self)@ == loaded(
                old(self)@,
                entity_list(template@),
            ),
            !template_ok(entity_list(template@)) ==> fails_with(r, ErrorKind::ParseError)
                && final(self)@ == old(self)@,
            old(self)@.synced() ==> final(self)@.synced(),
    {
        let ghost views = entity_list(template@);
        proof {
            lemma_view_wf(*self);
            if self@.synced() && template_ok(views) {
                lemma_loaded_synced(self@, views);
            }
        }
        if template.len() != 64 {
            return Err(ChessError::ParseError("a template has 64 slots".to_owned()));
        }
        let mut i: usize = 0;
        while i < 64
            invariant
                0 <= i <= 64,
                template.len() == 64,
                views == entity_list(template@),
                forall|j: int| 0 <= j < i ==> (#[trigger] views[j] matches Some(e) ==> e.pos.valid()),
            decreases 64 - i,
        {
            match &template[i] {
                Some(ent) => {
                    if !ent.pos.is_valid() {
                        assert(views[i as int] == Some(ent@));
                        return Err(
                            ChessError::ParseError("a record stands off the board".to_owned()),
                        );
                    }
                },
                None => {},
            }
            i = i + 1;
        }
        let mut k: usize = 0;
        assert(views.take(0) =~= Seq::<Option<EntityView>>::empty());
        while k < 64
            invariant
                0 <= k <= 64,
                template.len() == 64,
                views == entity_list(template@),
                template_ok(views),
                self@ == loaded(old(self)@, views.take(k as int)),
            decreases 64 - k,
        {
            proof {
                assert(views.take(k + 1).drop_last() =~= views.take(k as int));
                assert(views.take(k + 1).last() == views[k as int]);
            }
            match &template[k] {
                Some(ent) => {
                    assert(views[k as int] == Some(ent@));
                    let _ = self.place(ent.clone());
                },
                None => {},
            }
            k = k + 1;
        }
        proof {
            assert(views.take(64) =~= views);
        }
        Ok(())
    }
}

/// The views of a list of piece records that may be absent.
pub open spec fn entity_list(list: Seq<Option<PieceEntity>>) -> Seq<Option<EntityView>> {
    Seq::new(list.len(), |i: int| shown(list[i]))
}

} // verus!

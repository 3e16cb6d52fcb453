//! Errors, square indexing, bit masks, and the two scanners that the move
//! generators share: the ray walker and the step walker.

use vstd::prelude::*;
use crate::board::{Board, BoardView};
use crate::piece::{Color, Position};

verus! {

/// What went wrong, without the message text.
#[derive(Debug, Clone, Copy, PartialEq, Eq, Structural)]
pub enum ErrorKind {
    InvalidPosition,
    IllegalMove,
    ParseError,
    InternalError,
}

/// The failures that board, generator and rules operations report. Each
/// variant carries a message for people to read.
#[derive(Debug, PartialEq, Eq)]
pub enum ChessError {
    /// A coordinate outside `0..8`, or a mask that is not a single bit.
    InvalidPosition(String),
    /// A move that cannot be made, such as one from a square without a piece.
    IllegalMove(String),
    /// Malformed position text or template.
    ParseError(String),
    /// The board contradicts itself, for instance by missing a king.
    InternalError(String),
}

impl Clone for ChessError {
    fn clone(&self) -> (r: Self)
        ensures
            r == *self,
    {
        match self {
            ChessError::InvalidPosition(m) => ChessError::InvalidPosition(m.clone()),
            ChessError::IllegalMove(m) => ChessError::IllegalMove(m.clone()),
            ChessError::ParseError(m) => ChessError::ParseError(m.clone()),
            ChessError::InternalError(m) => ChessError::InternalError(m.clone()),
        }
    }
}

impl ChessError {
    /// The variant of this error.
    pub open spec fn kind_of(&self) -> ErrorKind {
        match self {
            ChessError::InvalidPosition(_) => ErrorKind::InvalidPosition,
            ChessError::IllegalMove(_) => ErrorKind::IllegalMove,
            ChessError::ParseError(_) => ErrorKind::ParseError,
            ChessError::InternalError(_) => ErrorKind::InternalError,
        }
    }

    /// The variant of this error.
    #[verifier::when_used_as_spec(kind_of)]
    pub fn kind(&self) -> (k: ErrorKind)
        ensures
            k == self.kind_of(),
    {
        match self {
            ChessError::InvalidPosition(_) => ErrorKind::InvalidPosition,
            ChessError::IllegalMove(_) => ErrorKind::IllegalMove,
            ChessError::ParseError(_) => ErrorKind::ParseError,
            ChessError::InternalError(_) => ErrorKind::InternalError,
        }
    }

    /// The message carried by this error.
    pub fn message(&self) -> (m: String)
        ensures
            m@ == self.text(),
    {
        match self {
            ChessError::InvalidPosition(m) => m.clone(),
            ChessError::IllegalMove(m) => m.clone(),
            ChessError::ParseError(m) => m.clone(),
            ChessError::InternalError(m) => m.clone(),
        }
    }

    /// The characters of the message.
    pub open spec fn text(&self) -> Seq<char> {
        match self {
            ChessError::InvalidPosition(m) => m@,
            ChessError::IllegalMove(m) => m@,
            ChessError::ParseError(m) => m@,
            ChessError::InternalError(m) => m@,
        }
    }
}

/// True iff a fallible result failed with an error of kind `kind`.
pub open spec fn fails_with<T>(r: Result<T, ChessError>, kind: ErrorKind) -> bool {
    r matches Err(e) && e.kind() == kind
}

/// True iff `r` is what `expected` describes: the same value, or a failure
/// of the same kind.
pub open spec fn answers<T>(r: Result<T, ChessError>, expected: Result<T, ErrorKind>) -> bool {
    match expected {
        Ok(x) => r == Ok::<T, ChessError>(x),
        Err(k) => fails_with(r, k),
    }
}

/// True iff `r` is what `expected` describes: a list with the same squares
/// in the same order, or a failure of the same kind.
pub open spec fn lists(r: Result<Vec<Position>, ChessError>, expected: Result<
    Seq<Position>,
    ErrorKind,
>) -> bool {
    match expected {
        Ok(s) => r matches Ok(v) && v@ == s,
        Err(k) => fails_with(r, k),
    }
}

/// Whether `(rank, file)` names a square of the board.
pub open spec fn on_board(rank: int, file: int) -> bool {
    0 <= rank < 8 && 0 <= file < 8
}

/// The mask with only bit `index` set.
pub open spec fn square_bit(index: int) -> u64 {
    1u64 << (index as u64)
}

/// Whether `masked` has exactly one bit set.
pub open spec fn is_single_bit(masked: u64) -> bool {
    exists|index: int| 0 <= index < 64 && masked == square_bit(index)
}

/// Distinct squares have distinct masks, and no square has the zero mask.
pub proof fn lemma_square_bit_injective(i: int, j: int)
    requires
        0 <= i < 64,
        0 <= j < 64,
    ensures
        square_bit(i) != 0,
        square_bit(i) == square_bit(j) ==> i == j,
{
    let a: u64 = i as u64;
    let b: u64 = j as u64;
    assert(a < 64 ==> 1u64 << a != 0) by (bit_vector);
    assert(a < 64 && b < 64 && (1u64 << a) == (1u64 << b) ==> a == b) by (bit_vector);
}

/// The single-bit mask of square `(rank, file)`.
///
/// Fails with `InvalidPosition` exactly when a coordinate is outside `0..8`.
pub fn mask(rank: usize, file: usize) -> (r: Result<u64, ChessError>)
    ensures
        on_board(rank as int, file as int) ==> r == Ok::<u64, ChessError>(
            square_bit(rank * 8 + file),
        ),
        !on_board(rank as int, file as int) ==> fails_with(r, ErrorKind::InvalidPosition),
{
    if rank >= 8 || file >= 8 {
        return Err(
            ChessError::InvalidPosition("rank and file expected to be in range 0-8".to_owned()),
        );
    }
    let index: u64 = (rank * 8 + file) as u64;
    Ok(1u64 << index)
}

/// The square `(rank, file)` whose mask is `masked`.
///
/// Fails with `InvalidPosition` exactly when `masked` is not a single bit.
pub fn unmask(masked: u64) -> (r: Result<(usize, usize), ChessError>)
    ensures
        match r {
            Ok((rank, file)) => on_board(rank as int, file as int) && masked == square_bit(
                rank * 8 + file,
            ),
            Err(e) => e.kind() == ErrorKind::InvalidPosition && !is_single_bit(masked),
        },
{
    if masked == 0 || masked & (masked - 1) != 0 {
        proof {
            assert forall|index: int| 0 <= index < 64 implies masked != square_bit(index) by {
                let k: u64 = index as u64;
                assert(k < 64 ==> (1u64 << k) != 0 && (1u64 << k) & (((1u64 << k) - 1) as u64) == 0)
                    by (bit_vector);
            }
        }
        return Err(ChessError::InvalidPosition("unmask expects a single-bit mask".to_owned()));
    }
    let zeros: u32 = masked.trailing_zeros();
    proof {
        vstd::std_specs::bits::axiom_u64_trailing_zeros(masked);
        let t: u64 = zeros as u64;
        assert(t < 64 && masked != 0 && masked & ((masked - 1) as u64) == 0 && (masked >> t) & 1 == 1
            ==> masked == 1u64 << t) by (bit_vector);
    }
    let index: usize = zeros as usize;
    let rank: usize = index / 8;
    let file: usize = index % 8;
    Ok((rank, file))
}

/// Taken on trust, not proved: `String::push` of the standard library
/// appends `ch` to the end of the string and leaves the characters before
/// it as they were.
pub assume_specification[ String::push ](s: &mut String, ch: char)
    ensures
        final(s)@ == old(s)@.push(ch),
;

/// The characters of `s`, in order.
pub fn chars_of(s: &str) -> (v: Vec<char>)
    ensures
        v@ == s@,
{
    let mut v: Vec<char> = Vec::new();
    for c in it: s.chars()
        invariant
            v@ == it.seq().take(it.index() as int),
            it.seq() == s@,
    {
        v.push(c);
    }
    v
}

/// True iff both coordinates lie in `0..8`.
pub fn validate_pos(rank: i8, file: i8) -> (ok: bool)
    ensures
        ok == on_board(rank as int, file as int),
{
    0 <= rank && rank < 8 && 0 <= file && file < 8
}

/// The 64 squares in the order of their flat index: rank by rank from
/// White's back rank, each rank from the a-file on.
pub fn all_positions() -> (v: Vec<Position>)
    ensures
        v@.len() == 64,
        forall|i: int| 0 <= i < 64 ==> #[trigger] v@[i] == Position::at(i) && v@[i].valid(),
{
    let mut v: Vec<Position> = Vec::new();
    let mut i: usize = 0;
    while i < 64
        invariant
            0 <= i <= 64,
            v@.len() == i,
            forall|j: int| 0 <= j < i ==> #[trigger] v@[j] == Position::at(j) && v@[j].valid(),
        decreases 64 - i,
    {
        v.push(Position::from_index(i));
        i = i + 1;
    }
    v
}

/// How many more steps of `(dx, dy)` can start at `from` at most.
pub open spec fn ray_room(from: Position, dx: int, dy: int) -> int {
    if dx > 0 {
        8 - from.file
    } else if dx < 0 {
        from.file + 1
    } else if dy > 0 {
        8 - from.rank
    } else {
        from.rank + 1
    }
}

/// The squares that a sliding piece reaches from `from` in the direction
/// `(dx, dy)`: every empty square up to the first occupied one, and that
/// one too if `color` may go there.
pub open spec fn ray(b: BoardView, from: Position, dx: int, dy: int, color: Option<Color>) -> Seq<
    Position,
>
    decreases ray_room(from, dx, dy),
{
    if dx == 0 && dy == 0 {
        Seq::empty()
    } else {
        match from.offset(dx, dy) {
            None => Seq::empty(),
            Some(next) => if b.vacant(next) {
                seq![next] + ray(b, next, dx, dy, color)
            } else if b.admits(next, color) {
                seq![next]
            } else {
                Seq::empty()
            },
        }
    }
}

/// The rays of `dirs` from `from`, one after the other in the order of
/// `dirs`.
pub open spec fn sliding_targets(
    b: BoardView,
    from: Position,
    dirs: Seq<(i8, i8)>,
    color: Option<Color>,
) -> Seq<Position>
    decreases dirs.len(),
{
    if dirs.len() == 0 {
        Seq::empty()
    } else {
        sliding_targets(b, from, dirs.drop_last(), color) + ray(
            b,
            from,
            dirs.last().0 as int,
            dirs.last().1 as int,
            color,
        )
    }
}

/// The squares among `from + delta`, for the `deltas` in order, that are on
/// the board and that a piece of `color` may go to.
pub open spec fn step_targets(b: BoardView, from: Position, deltas: Seq<(i8, i8)>, color: Color) -> Seq<
    Position,
>
    decreases deltas.len(),
{
    if deltas.len() == 0 {
        Seq::empty()
    } else {
        let rest = step_targets(b, from, deltas.drop_last(), color);
        match from.offset(deltas.last().0 as int, deltas.last().1 as int) {
            Some(to) => if b.admits(to, Some(color)) {
                rest.push(to)
            } else {
                rest
            },
            None => rest,
        }
    }
}

/// The squares of a ray and nothing else: each is the step from the one
/// before it, the first from `from`; all lie on the board; all but the last
/// are empty, and `color` may go to the last; and the ray goes on as far as
/// that allows.
pub proof fn lemma_ray(b: BoardView, from: Position, dx: int, dy: int, color: Option<Color>)
    requires
        dx != 0 || dy != 0,
    ensures
        ({
            let r = ray(b, from, dx, dy, color);
            &&& r.len() <= 8
            &&& forall|i: int| 0 <= i < r.len() ==> (#[trigger] r[i]).valid() && b.admits(r[i], color)
            &&& forall|i: int| 0 <= i < r.len() - 1 ==> b.vacant(#[trigger] r[i])
            &&& r.len() > 0 ==> from.offset(dx, dy) == Some(r[0])
            &&& forall|i: int|
                0 <= i < r.len() - 1 ==> (#[trigger] r[i]).offset(dx, dy) == Some(r[i + 1])
            &&& r.len() == 0 ==> (from.offset(dx, dy) matches Some(next) ==> !b.admits(next, color))
            &&& r.len() > 0 && b.vacant(r.last()) ==> (r.last().offset(dx, dy) matches Some(next)
                ==> !b.admits(next, color))
        }),
    decreases ray_room(from, dx, dy),
{
    let r = ray(b, from, dx, dy, color);
    match from.offset(dx, dy) {
        None => {},
        Some(next) => {
            if b.vacant(next) {
                lemma_ray(b, next, dx, dy, color);
                let rest = ray(b, next, dx, dy, color);
                assert(r =~= seq![next] + rest);
                assert forall|i: int| 0 <= i < r.len() implies (#[trigger] r[i]).valid()
                    && b.admits(r[i], color) by {
                    if i > 0 {
                        assert(r[i] == rest[i - 1]);
                    }
                }
                assert forall|i: int| 0 <= i < r.len() - 1 implies b.vacant(#[trigger] r[i]) by {
                    if i > 0 {
                        assert(r[i] == rest[i - 1]);
                    }
                }
                assert forall|i: int| 0 <= i < r.len() - 1 implies (#[trigger] r[i]).offset(dx, dy)
                    == Some(r[i + 1]) by {
                    if i > 0 {
                        assert(r[i] == rest[i - 1]);
                        assert(r[i + 1] == rest[i]);
                    } else {
                        assert(r[1] == rest[0]);
                    }
                }
                if rest.len() > 0 {
                    assert(r.last() == rest.last());
                }
                assert(rest.len() <= ray_room(next, dx, dy));
            } else if b.admits(next, color) {
                assert(r =~= seq![next]);
            }
        },
    }
    assert(r.len() <= 8) by {
        lemma_ray_length(b, from, dx, dy, color);
    }
}

/// A ray has at most as many squares as there is room for steps, and never
/// more than eight.
proof fn lemma_ray_length(b: BoardView, from: Position, dx: int, dy: int, color: Option<Color>)
    requires
        dx != 0 || dy != 0,
    ensures
        ray(b, from, dx, dy, color).len() <= 8,
        from.valid() ==> ray(b, from, dx, dy, color).len() < ray_room(from, dx, dy),
    decreases ray_room(from, dx, dy),
{
    match from.offset(dx, dy) {
        None => {},
        Some(next) => {
            if b.vacant(next) {
                lemma_ray_length(b, next, dx, dy, color);
            }
        },
    }
}

/// A piece of the other side right next to `from` ends the ray there: the
/// ray is that one square. A piece of the own side leaves the ray empty.
pub proof fn lemma_ray_blocked(b: BoardView, from: Position, dx: int, dy: int, color: Color)
    requires
        dx != 0 || dy != 0,
        from.offset(dx, dy) matches Some(next) && !b.vacant(next),
    ensures
        ray(b, from, dx, dy, Some(color)) == (if b.hostile(from.offset(dx, dy).unwrap(), color) {
            seq![from.offset(dx, dy).unwrap()]
        } else {
            Seq::<Position>::empty()
        }),
{
}

/// The squares of the rays of `dirs` lie on the board, and `color` may go
/// to each of them.
pub proof fn lemma_sliding_targets(
    b: BoardView,
    from: Position,
    dirs: Seq<(i8, i8)>,
    color: Option<Color>,
)
    requires
        forall|i: int| 0 <= i < dirs.len() ==> (#[trigger] dirs[i]).0 != 0 || dirs[i].1 != 0,
    ensures
        forall|i: int|
            0 <= i < sliding_targets(b, from, dirs, color).len() ==> (#[trigger] sliding_targets(
                b,
                from,
                dirs,
                color,
            )[i]).valid() && b.admits(sliding_targets(b, from, dirs, color)[i], color),
    decreases dirs.len(),
{
    if dirs.len() > 0 {
        lemma_sliding_targets(b, from, dirs.drop_last(), color);
        lemma_ray(b, from, dirs.last().0 as int, dirs.last().1 as int, color);
        let all = sliding_targets(b, from, dirs, color);
        let front = sliding_targets(b, from, dirs.drop_last(), color);
        let last = ray(b, from, dirs.last().0 as int, dirs.last().1 as int, color);
        assert(all == front + last);
        assert forall|i: int| 0 <= i < all.len() implies (#[trigger] all[i]).valid() && b.admits(
            all[i],
            color,
        ) by {
            if i < front.len() {
                assert(all[i] == front[i]);
            } else {
                assert(all[i] == last[i - front.len()]);
            }
        }
    }
}

/// The square that step `i` of `deltas` leads to from `from`, if it is on
/// the board.
pub open spec fn step_to(from: Position, deltas: Seq<(i8, i8)>, i: int) -> Option<Position> {
    from.offset(deltas[i].0 as int, deltas[i].1 as int)
}

/// A square is a destination of a stepping piece exactly when one of the
/// steps leads to it and a piece of `color` may go there.
pub proof fn lemma_step_targets(
    b: BoardView,
    from: Position,
    deltas: Seq<(i8, i8)>,
    color: Color,
    p: Position,
)
    ensures
        step_targets(b, from, deltas, color).contains(p) <==> b.admits(p, Some(color)) && exists|
            i: int,
        |
            0 <= i < deltas.len() && #[trigger] step_to(from, deltas, i) == Some(p),
        step_targets(b, from, deltas, color).len() <= deltas.len(),
    decreases deltas.len(),
{
    let all = step_targets(b, from, deltas, color);
    if deltas.len() > 0 {
        let front = deltas.drop_last();
        let rest = step_targets(b, from, front, color);
        let n = deltas.len() - 1;
        lemma_step_targets(b, from, front, color, p);
        assert forall|i: int| 0 <= i < n implies step_to(from, front, i) == step_to(
            from,
            deltas,
            i,
        ) by {}
        let last = step_to(from, deltas, n);
        let kept = last matches Some(to) && b.admits(to, Some(color));
        if kept {
            assert(all == rest.push(last.unwrap()));
            assert(all.contains(p) <==> rest.contains(p) || p == last.unwrap()) by {
                if rest.contains(p) {
                    let j = choose|j: int| 0 <= j < rest.len() && rest[j] == p;
                    assert(all[j] == p);
                }
                if p == last.unwrap() {
                    assert(all[rest.len() as int] == p);
                }
            }
        } else {
            assert(all == rest);
        }
        if all.contains(p) {
            if rest.contains(p) {
                let i = choose|i: int| 0 <= i < n && #[trigger] step_to(from, front, i) == Some(p);
                assert(step_to(from, deltas, i) == Some(p));
            } else {
                assert(step_to(from, deltas, n) == Some(p));
            }
        }
        if b.admits(p, Some(color)) && exists|i: int|
            0 <= i < deltas.len() && #[trigger] step_to(from, deltas, i) == Some(p) {
            let i = choose|i: int|
                0 <= i < deltas.len() && #[trigger] step_to(from, deltas, i) == Some(p);
            if i < n {
                assert(step_to(from, front, i) == Some(p));
            }
        }
    }
}

/// A stepping piece all of whose steps lead off the board or to squares
/// that it may not go to has no destination.
pub proof fn lemma_steps_blocked(b: BoardView, from: Position, deltas: Seq<(i8, i8)>, color: Color)
    requires
        forall|i: int|
            0 <= i < deltas.len() ==> (#[trigger] step_to(from, deltas, i) matches Some(to)
                ==> !b.admits(to, Some(color))),
    ensures
        step_targets(b, from, deltas, color) == Seq::<Position>::empty(),
    decreases deltas.len(),
{
    if deltas.len() > 0 {
        let front = deltas.drop_last();
        assert forall|i: int| 0 <= i < front.len() implies (#[trigger] step_to(from, front, i)
            matches Some(to) ==> !b.admits(to, Some(color))) by {
            assert(step_to(from, front, i) == step_to(from, deltas, i));
        }
        lemma_steps_blocked(b, from, front, color);
        assert(step_to(from, deltas, deltas.len() - 1) == from.offset(
            deltas.last().0 as int,
            deltas.last().1 as int,
        ));
    }
}

/// A stepping piece that may follow exactly one of its steps has exactly
/// that destination.
pub proof fn lemma_steps_single(
    b: BoardView,
    from: Position,
    deltas: Seq<(i8, i8)>,
    color: Color,
    only: int,
)
    requires
        0 <= only < deltas.len(),
        step_to(from, deltas, only) matches Some(to) && b.admits(to, Some(color)),
        forall|i: int|
            0 <= i < deltas.len() && i != only ==> (#[trigger] step_to(from, deltas, i) matches Some(
                to,
            ) ==> !b.admits(to, Some(color))),
    ensures
        step_targets(b, from, deltas, color) == seq![step_to(from, deltas, only).unwrap()],
    decreases deltas.len(),
{
    let front = deltas.drop_last();
    let n = deltas.len() - 1;
    assert(step_to(from, deltas, n) == from.offset(
        deltas.last().0 as int,
        deltas.last().1 as int,
    ));
    assert forall|i: int| 0 <= i < front.len() implies step_to(from, front, i) == step_to(
        from,
        deltas,
        i,
    ) by {}
    if only == n {
        assert forall|i: int| 0 <= i < front.len() implies (#[trigger] step_to(from, front, i)
            matches Some(to) ==> !b.admits(to, Some(color))) by {
            assert(step_to(from, front, i) == step_to(from, deltas, i));
        }
        lemma_steps_blocked(b, from, front, color);
        assert(Seq::<Position>::empty().push(step_to(from, deltas, only).unwrap()) =~= seq![
            step_to(from, deltas, only).unwrap(),
        ]);
    } else {
        assert forall|i: int| 0 <= i < front.len() && i != only implies (#[trigger] step_to(
            from,
            front,
            i,
        ) matches Some(to) ==> !b.admits(to, Some(color))) by {
            assert(step_to(from, front, i) == step_to(from, deltas, i));
        }
        assert(step_to(from, front, only) == step_to(from, deltas, only));
        lemma_steps_single(b, from, front, color, only);
    }
}

/// Walks one ray and appends what it reaches to `moves`.
fn walk_ray(
    board: &Board,
    from: Position,
    dx: i8,
    dy: i8,
    color: Option<Color>,
    moves: &mut Vec<Position>,
)
    requires
        dx != 0 || dy != 0,
    ensures
        final(moves)@ == old(moves)@ + ray(board@, from, dx as int, dy as int, color),
{
    let ghost start = moves@;
    let ghost whole = ray(board@, from, dx as int, dy as int, color);
    let mut current: Position = from;
    let mut walking: bool = true;
    while walking
        invariant
            dx != 0 || dy != 0,
            start + whole == moves@ + (if walking {
                ray(board@, current, dx as int, dy as int, color)
            } else {
                Seq::<Position>::empty()
            }),
        decreases
                (if walking {
                    1 + (if current.offset(dx as int, dy as int) is Some {
                        ray_room(current, dx as int, dy as int)
                    } else {
                        0
                    })
                } else {
                    0
                }),
    {
        match current.shifted(dx, dy) {
            None => {
                walking = false;
            },
            Some(next) => {
                let empty: bool = match board.is_empty(next.rank, next.file) {
                    Ok(e) => e,
                    Err(_) => false,
                };
                if empty {
                    proof {
                        assert(moves@ + (seq![next] + ray(
                            board@,
                            next,
                            dx as int,
                            dy as int,
                            color,
                        )) =~= moves@.push(next) + ray(board@, next, dx as int, dy as int, color));
                    }
                    moves.push(next);
                    current = next;
                } else {
                    let open: bool = match board.can_move_to(next, color) {
                        Ok(o) => o,
                        Err(_) => false,
                    };
                    proof {
                        assert(moves@ + seq![next] =~= moves@.push(next));
                    }
                    if open {
                        moves.push(next);
                    }
                    walking = false;
                }
            },
        }
    }
    proof {
        assert(moves@ + Seq::<Position>::empty() =~= moves@);
    }
}

/// The destinations of a sliding piece on `from`: for each direction of
/// `dirs` in order, the empty squares of the ray and then the first
/// occupied square if `color` may go there. It never fails.
///
/// No direction may be `(0, 0)`.
pub fn sliding_moves(board: &Board, from: Position, dirs: &[(i8, i8)], color: Option<Color>) -> (r:
    Result<Vec<Position>, ChessError>)
    requires
        forall|i: int| 0 <= i < dirs@.len() ==> (#[trigger] dirs@[i]).0 != 0 || dirs@[i].1 != 0,
    ensures
        r matches Ok(v) && v@ == sliding_targets(board@, from, dirs@, color),
{
    let mut moves: Vec<Position> = Vec::new();
    let mut i: usize = 0;
    while i < dirs.len()
        invariant
            0 <= i <= dirs@.len(),
            forall|i: int| 0 <= i < dirs@.len() ==> (#[trigger] dirs@[i]).0 != 0 || dirs@[i].1 != 0,
            moves@ == sliding_targets(board@, from, dirs@.take(i as int), color),
        decreases dirs@.len() - i,
    {
        let dx: i8 = dirs[i].0;
        let dy: i8 = dirs[i].1;
        proof {
            assert(dirs@.take(i + 1).drop_last() =~= dirs@.take(i as int));
        }
        walk_ray(board, from, dx, dy, color, &mut moves);
        i = i + 1;
    }
    proof {
        assert(dirs@.take(i as int) =~= dirs@);
    }
    Ok(moves)
}

/// The destinations of a stepping piece of `color` on `from`: the squares
/// `from + delta`, for the `deltas` in order, that are on the board and
/// empty or held by the other side. It never fails.
pub fn step_moves(board: &Board, from: Position, deltas: &[(i8, i8)], color: Color) -> (r: Result<
    Vec<Position>,
    ChessError,
>)
    ensures
        r matches Ok(v) && v@ == step_targets(board@, from, deltas@, color),
{
    let mut moves: Vec<Position> = Vec::new();
    let mut i: usize = 0;
    while i < deltas.len()
        invariant
            0 <= i <= deltas@.len(),
            moves@ == step_targets(board@, from, deltas@.take(i as int), color),
        decreases deltas@.len() - i,
    {
        let dx: i8 = deltas[i].0;
        let dy: i8 = deltas[i].1;
        proof {
            assert(deltas@.take(i + 1).drop_last() =~= deltas@.take(i as int));
        }
        match from.shifted(dx, dy) {
            Some(to) => {
                let open: bool = match board.can_move_to(to, Some(color)) {
                    Ok(o) => o,
                    Err(_) => false,
                };
                if open {
                    moves.push(to);
                }
            },
            None => {},
        }
        i = i + 1;
    }
    proof {
        assert(deltas@.take(i as int) =~= deltas@);
    }
    Ok(moves)
}

} // verus!

//! Colors, pieces, squares and the stateful piece records of the overlay.

pub mod bishop;
pub mod king;
pub mod knight;
pub mod pawn;
pub mod queen;
pub mod rook;

use vstd::prelude::*;
use vstd::std_specs::convert::{FromSpecImpl, IntoSpec};
use crate::board::{Board, BoardView};
use crate::utils::{
    chars_of, fails_with, lemma_sliding_targets, lemma_step_targets, lists, on_board, square_bit,
    ChessError, ErrorKind,
};

verus! {

/// The two sides.
#[derive(Debug, Clone, Copy, PartialEq, Eq, Structural)]
pub enum Color {
    White,
    Black,
}

impl Default for Color {
    fn default() -> (c: Self)
        ensures
            c == Color::White,
    {
        Color::White
    }
}

impl Color {
    /// The other side.
    pub open spec fn flip(self) -> Color {
        match self {
            Color::White => Color::Black,
            Color::Black => Color::White,
        }
    }

    /// The letter that names this side in position text.
    pub open spec fn letter(self) -> char {
        match self {
            Color::White => 'w',
            Color::Black => 'b',
        }
    }

    /// The side named by `text`: Black for `b`, White for anything else.
    pub open spec fn parse(text: Seq<char>) -> Color {
        if text == seq!['b'] {
            Color::Black
        } else {
            Color::White
        }
    }

    /// `w` for White, `b` for Black.
    pub fn fen_char(&self) -> (c: char)
        ensures
            c == self.letter(),
    {
        match self {
            Color::White => 'w',
            Color::Black => 'b',
        }
    }

    /// Reads an active-color field: `b` is Black, every other text is White.
    pub fn from_fen(str: &str) -> (c: Self)
        ensures
            c == Color::parse(str@),
    {
        if str.unicode_len() == 1 && str.get_char(0) == 'b' {
            assert(str@ =~= seq!['b']);
            Color::Black
        } else {
            Color::White
        }
    }

    /// The other side; applying it twice gives the side back.
    pub fn opposite(&self) -> (c: Self)
        ensures
            c == self.flip(),
            c != *self,
            c.flip() == *self,
    {
        match self {
            Color::White => Color::Black,
            Color::Black => Color::White,
        }
    }
}

/// A piece kind paired with the side that owns it.
#[derive(Debug, Clone, Copy, PartialEq, Eq, Structural)]
pub enum Piece {
    Pawn(Color),
    Knight(Color),
    Rook(Color),
    Bishop(Color),
    King(Color),
    Queen(Color),
}

impl Piece {
    /// The side that owns the piece.
    pub open spec fn side(&self) -> Color {
        match *self {
            Piece::Pawn(c) => c,
            Piece::Knight(c) => c,
            Piece::Bishop(c) => c,
            Piece::Rook(c) => c,
            Piece::Queen(c) => c,
            Piece::King(c) => c,
        }
    }

    /// The letter of the piece in position text: upper case for White,
    /// lower case for Black.
    pub open spec fn letter(self) -> char {
        match self {
            Piece::Pawn(Color::White) => 'P',
            Piece::Rook(Color::White) => 'R',
            Piece::Knight(Color::White) => 'N',
            Piece::Bishop(Color::White) => 'B',
            Piece::King(Color::White) => 'K',
            Piece::Queen(Color::White) => 'Q',
            Piece::Pawn(Color::Black) => 'p',
            Piece::Rook(Color::Black) => 'r',
            Piece::Knight(Color::Black) => 'n',
            Piece::Bishop(Color::Black) => 'b',
            Piece::King(Color::Black) => 'k',
            Piece::Queen(Color::Black) => 'q',
        }
    }

    /// The piece named by a letter; a letter that names none reads as a
    /// white pawn.
    pub open spec fn from_letter(c: char) -> Piece {
        if c == 'R' {
            Piece::Rook(Color::White)
        } else if c == 'N' {
            Piece::Knight(Color::White)
        } else if c == 'B' {
            Piece::Bishop(Color::White)
        } else if c == 'Q' {
            Piece::Queen(Color::White)
        } else if c == 'K' {
            Piece::King(Color::White)
        } else if c == 'p' {
            Piece::Pawn(Color::Black)
        } else if c == 'r' {
            Piece::Rook(Color::Black)
        } else if c == 'n' {
            Piece::Knight(Color::Black)
        } else if c == 'b' {
            Piece::Bishop(Color::Black)
        } else if c == 'q' {
            Piece::Queen(Color::Black)
        } else if c == 'k' {
            Piece::King(Color::Black)
        } else {
            Piece::Pawn(Color::White)
        }
    }

    /// The letter of the piece; reading it back gives the piece again.
    pub fn fen_char(&self) -> (c: char)
        ensures
            c == self.letter(),
            Piece::from_letter(c) == *self,
    {
        match self {
            Piece::Pawn(Color::White) => 'P',
            Piece::Rook(Color::White) => 'R',
            Piece::Knight(Color::White) => 'N',
            Piece::Bishop(Color::White) => 'B',
            Piece::King(Color::White) => 'K',
            Piece::Queen(Color::White) => 'Q',
            Piece::Pawn(Color::Black) => 'p',
            Piece::Rook(Color::Black) => 'r',
            Piece::Knight(Color::Black) => 'n',
            Piece::Bishop(Color::Black) => 'b',
            Piece::King(Color::Black) => 'k',
            Piece::Queen(Color::Black) => 'q',
        }
    }

    /// The piece named by a letter; a letter that names none reads as a
    /// white pawn.
    pub fn from_fen(fen: char) -> (p: Self)
        ensures
            p == Piece::from_letter(fen),
    {
        match fen {
            'P' => Piece::Pawn(Color::White),
            'R' => Piece::Rook(Color::White),
            'N' => Piece::Knight(Color::White),
            'B' => Piece::Bishop(Color::White),
            'Q' => Piece::Queen(Color::White),
            'K' => Piece::King(Color::White),
            'p' => Piece::Pawn(Color::Black),
            'r' => Piece::Rook(Color::Black),
            'n' => Piece::Knight(Color::Black),
            'b' => Piece::Bishop(Color::Black),
            'q' => Piece::Queen(Color::Black),
            'k' => Piece::King(Color::Black),
            _ => Piece::Pawn(Color::White),
        }
    }

    /// The side that owns the piece.
    #[verifier::when_used_as_spec(side)]
    pub fn color(&self) -> (c: Color)
        ensures
            c == self.side(),
    {
        match *self {
            Piece::Pawn(c) => c,
            Piece::Knight(c) => c,
            Piece::Bishop(c) => c,
            Piece::Rook(c) => c,
            Piece::Queen(c) => c,
            Piece::King(c) => c,
        }
    }
}

/// A square: `rank` counts rows from White's back rank, `file` counts
/// columns from the a-file. Both lie in `0..8` on a board square.
#[derive(Debug, Clone, Copy, PartialEq, Eq, Structural)]
pub struct Position {
    pub rank: usize,
    pub file: usize,
}

impl Position {
    /// Both coordinates lie in `0..8`.
    pub open spec fn valid(&self) -> bool {
        self.rank < 8 && self.file < 8
    }

    /// The flat index `rank * 8 + file`.
    pub open spec fn index(self) -> int {
        self.rank * 8 + self.file
    }

    /// The square with flat index `index`.
    pub open spec fn at(index: int) -> Position {
        Position { rank: (index / 8) as usize, file: (index % 8) as usize }
    }

    /// The square `dx` files and `dy` ranks away, if it is on the board.
    pub open spec fn offset(self, dx: int, dy: int) -> Option<Position> {
        if on_board(self.rank + dy, self.file + dx) {
            Some(Position { rank: (self.rank + dy) as usize, file: (self.file + dx) as usize })
        } else {
            None
        }
    }

    /// Both coordinates lie in `0..8`.
    #[verifier::when_used_as_spec(valid)]
    pub fn is_valid(&self) -> (ok: bool)
        ensures
            ok == self.valid(),
    {
        self.rank < 8 && self.file < 8
    }

    /// The square `dx` files and `dy` ranks away, or `None` when that leaves
    /// the board.
    pub fn shifted(&self, dx: i8, dy: i8) -> (r: Option<Self>)
        ensures
            r == self.offset(dx as int, dy as int),
            r matches Some(p) ==> p.valid(),
    {
        if self.file > 200 || self.rank > 200 {
            return None;
        }
        let new_file: i32 = self.file as i32 + dx as i32;
        let new_rank: i32 = self.rank as i32 + dy as i32;
        if 0 <= new_file && new_file <= 7 && 0 <= new_rank && new_rank <= 7 {
            Some(Position { file: new_file as usize, rank: new_rank as usize })
        } else {
            None
        }
    }

    /// The mask with only this square's bit set.
    pub fn to_bitboard(self) -> (r: u64)
        requires
            self.index() < 64,
        ensures
            r == square_bit(self.index()),
    {
        let index: u64 = self.to_index() as u64;
        1u64 << index
    }

    /// The square with flat index `index`. For `index < 64` the square is on
    /// the board and has that index.
    pub fn from_index(index: usize) -> (p: Self)
        ensures
            p == Position::at(index as int),
            p.file == index % 8,
            p.rank == index / 8,
            p.index() == index,
            index < 64 ==> p.valid(),
    {
        Position { file: index % 8, rank: index / 8 }
    }

    /// The flat index `rank * 8 + file`; below 64 for a board square, and
    /// then `from_index` gives the square back.
    pub fn to_index(self) -> (i: usize)
        requires
            self.index() <= usize::MAX,
        ensures
            i == self.index(),
            self.valid() ==> i < 64 && Position::at(i as int) == self,
    {
        self.rank * 8 + self.file
    }

    /// Reads a square in algebraic form: a file letter from `a` on, then a
    /// rank digit from `1` on. Characters after the second are not read.
    pub fn from_fen(slice: &str) -> (p: Self)
        requires
            slice@.len() >= 2,
            slice@[0] >= 'a',
            '1' <= slice@[1] <= '9',
        ensures
            p.file == slice@[0] as int - 'a' as int,
            p.rank == slice@[1] as int - '1' as int,
    {
        let file_char: char = slice.get_char(0);
        let rank_char: char = slice.get_char(1);
        let file: usize = (file_char as u32 - 'a' as u32) as usize;
        let rank: usize = (rank_char as u32 - '1' as u32) as usize;
        Position { rank, file }
    }
}

/// Castling rights: one flag per side and wing.
#[derive(Debug, Clone, Copy, PartialEq, Eq, Structural)]
pub struct Castle {
    pub white_king: bool,
    pub white_queen: bool,
    pub black_king: bool,
    pub black_queen: bool,
}

impl Default for Castle {
    fn default() -> (c: Self)
        ensures
            c == Castle::none(),
    {
        Castle { white_king: false, white_queen: false, black_king: false, black_queen: false }
    }
}

impl Castle {
    /// No right at all.
    pub open spec fn none() -> Castle {
        Castle { white_king: false, white_queen: false, black_king: false, black_queen: false }
    }

    /// The castling field of position text: the letters of the rights that
    /// hold, in the order `KQkq`, or `-` when none holds.
    pub open spec fn text(self) -> Seq<char> {
        let letters = (if self.white_king { seq!['K'] } else { Seq::<char>::empty() })
            + (if self.white_queen { seq!['Q'] } else { Seq::<char>::empty() })
            + (if self.black_king { seq!['k'] } else { Seq::<char>::empty() })
            + (if self.black_queen { seq!['q'] } else { Seq::<char>::empty() });
        if letters.len() == 0 {
            seq!['-']
        } else {
            letters
        }
    }

    /// These rights with the one named by `c` added, or `None` when `c`
    /// names no right.
    pub open spec fn grant(self, c: char) -> Option<Castle> {
        if c == 'K' {
            Some(Castle { white_king: true, ..self })
        } else if c == 'Q' {
            Some(Castle { white_queen: true, ..self })
        } else if c == 'k' {
            Some(Castle { black_king: true, ..self })
        } else if c == 'q' {
            Some(Castle { black_queen: true, ..self })
        } else {
            None
        }
    }

    /// Reads `text` letter by letter, adding the right that each letter
    /// names, and stops at the first letter that names none. Gives the
    /// rights reached and whether every letter was read.
    pub open spec fn read(self, text: Seq<char>) -> (Castle, bool)
        decreases text.len(),
    {
        if text.len() == 0 {
            (self, true)
        } else {
            match self.grant(text[0]) {
                Some(next) => next.read(text.drop_first()),
                None => (self, false),
            }
        }
    }

    /// The castling field of position text for these rights.
    pub fn as_fen(&self) -> (s: String)
        ensures
            s@ == self.text(),
    {
        let mut s = String::new();
        if self.white_king {
            s.push('K');
        }
        if self.white_queen {
            s.push('Q');
        }
        if self.black_king {
            s.push('k');
        }
        if self.black_queen {
            s.push('q');
        }
        if s.as_str().is_empty() {
            s.push('-');
        }
        s
    }

    /// The rights that a castling field names: none for `-`; otherwise one
    /// right for each of its letters, which must all be of `KQkq`. A field
    /// with any other letter names nothing.
    pub open spec fn named(text: Seq<char>) -> Option<Castle> {
        if text == seq!['-'] {
            Some(Castle::none())
        } else if Castle::none().read(text).1 {
            Some(Castle::none().read(text).0)
        } else {
            None
        }
    }

    /// Reads a castling field: afterwards exactly the rights that the field
    /// names hold.
    ///
    /// Fails with `ParseError`, changing nothing, exactly when the field is
    /// not `-` and has a letter outside `KQkq`.
    pub fn from_fen(&mut self, castling_slice: String) -> (r: Result<(), ChessError>)
        ensures
            match Castle::named(castling_slice@) {
                Some(rights) => r is Ok && *final(self) == rights,
                None => fails_with(r, ErrorKind::ParseError) && *final(self) == *old(self),
            },
    {
        let chars = chars_of(castling_slice.as_str());
        let mut rights: Castle = Castle::default();
        if chars.len() == 1 && chars[0] == '-' {
            assert(chars@ =~= seq!['-']);
            *self = rights;
            return Ok(());
        }
        let mut i: usize = 0;
        assert(chars@.skip(0) =~= chars@);
        while i < chars.len()
            invariant
                0 <= i <= chars.len(),
                chars@ == castling_slice@,
                chars@ != seq!['-'],
                *self == *old(self),
                Castle::none().read(chars@) == rights.read(chars@.skip(i as int)),
            decreases chars.len() - i,
        {
            let c: char = chars[i];
            proof {
                assert(chars@.skip(i as int)[0] == c);
                assert(chars@.skip(i as int).drop_first() =~= chars@.skip(i + 1));
            }
            if c == 'K' {
                rights.white_king = true;
            } else if c == 'Q' {
                rights.white_queen = true;
            } else if c == 'k' {
                rights.black_king = true;
            } else if c == 'q' {
                rights.black_queen = true;
            } else {
                return Err(
                    ChessError::ParseError("couldnt parse castling rights into char".to_owned()),
                );
            }
            i = i + 1;
        }
        proof {
            assert(chars@.skip(i as int) =~= Seq::<char>::empty());
        }
        *self = rights;
        Ok(())
    }
}

/// The record of one move.
#[derive(Debug, Clone, Copy, PartialEq, Eq)]
pub struct MoveMeta {
    /// The piece that moved, as it was before the move.
    pub piece: Piece,
    /// Where it stood.
    pub from: Position,
    /// Where it went.
    pub to: Position,
    /// For a king's move, the wing on which it castled, if it did.
    pub castle: Option<Castle>,
    /// The piece a pawn turned into, if it did.
    pub promotion: Option<Piece>,
    /// The square whose piece was taken, if any.
    pub capture: Option<Position>,
}

/// A value of a piece's metadata. It has the shapes of a JSON value: nothing,
/// a truth value, a number, a text, a list of values, or values under text
/// keys.
#[derive(Debug, PartialEq, Eq)]
pub enum MetaValue {
    Null,
    Bool(bool),
    /// A whole number of 64 bits with sign.
    Int(i64),
    /// Any other number, in its decimal text.
    Decimal(String),
    Text(String),
    List(Vec<MetaValue>),
    /// Values under text keys, in the order in which they were given.
    Object(Vec<(String, MetaValue)>),
}

/// The mathematical content of a metadata value.
pub enum MetaView {
    Null,
    Bool(bool),
    Int(i64),
    Decimal(Seq<char>),
    Text(Seq<char>),
    List(Seq<MetaView>),
    Object(Seq<(Seq<char>, MetaView)>),
}

impl View for MetaValue {
    type V = MetaView;

    open spec fn view(&self) -> MetaView
        decreases self,
    {
        match self {
            MetaValue::Null => MetaView::Null,
            MetaValue::Bool(b) => MetaView::Bool(*b),
            MetaValue::Int(i) => MetaView::Int(*i),
            MetaValue::Decimal(t) => MetaView::Decimal(t@),
            MetaValue::Text(t) => MetaView::Text(t@),
            MetaValue::List(items) => MetaView::List(
                Seq::new(
                    items@.len(),
                    |i: int|
                        if 0 <= i < items@.len() {
                            items@[i].view()
                        } else {
                            MetaView::Null
                        },
                ),
            ),
            MetaValue::Object(fields) => MetaView::Object(
                Seq::new(
                    fields@.len(),
                    |i: int|
                        if 0 <= i < fields@.len() {
                            (fields@[i].0@, fields@[i].1.view())
                        } else {
                            (Seq::empty(), MetaView::Null)
                        },
                ),
            ),
        }
    }
}

impl Clone for MetaValue {
    fn clone(&self) -> (r: Self)
        ensures
            r@ == self@,
        decreases self,
    {
        match self {
            MetaValue::Null => MetaValue::Null,
            MetaValue::Bool(b) => MetaValue::Bool(*b),
            MetaValue::Int(i) => MetaValue::Int(*i),
            MetaValue::Decimal(t) => MetaValue::Decimal(t.clone()),
            MetaValue::Text(t) => MetaValue::Text(t.clone()),
            MetaValue::List(items) => {
                let mut copy: Vec<MetaValue> = Vec::new();
                let mut i: usize = 0;
                assert(decreases_to!(self => items@));
                while i < items.len()
                    invariant
                        0 <= i <= items.len(),
                        decreases_to!(self => items@),
                        copy.len() == i,
                        forall|j: int| 0 <= j < i ==> copy@[j]@ == items@[j]@,
                    decreases items.len() - i,
                {
                    proof {
                        vstd::seq::axiom_seq_index_decreases(items@, i as int);
                    }
                    let item: MetaValue = items[i].clone();
                    copy.push(item);
                    i = i + 1;
                }
                let r = MetaValue::List(copy);
                assert(r@->List_0 =~= self@->List_0);
                r
            },
            MetaValue::Object(fields) => {
                let mut copy: Vec<(String, MetaValue)> = Vec::new();
                let mut i: usize = 0;
                assert(decreases_to!(self => fields@));
                while i < fields.len()
                    invariant
                        0 <= i <= fields.len(),
                        decreases_to!(self => fields@),
                        copy.len() == i,
                        forall|j: int|
                            0 <= j < i ==> copy@[j].0@ == fields@[j].0@ && copy@[j].1@
                                == fields@[j].1@,
                    decreases fields.len() - i,
                {
                    proof {
                        vstd::seq::axiom_seq_index_decreases(fields@, i as int);
                    }
                    let key: String = fields[i].0.clone();
                    let item: MetaValue = fields[i].1.clone();
                    copy.push((key, item));
                    i = i + 1;
                }
                let r = MetaValue::Object(copy);
                assert(r@->Object_0 =~= self@->Object_0);
                r
            },
        }
    }
}

impl MetaValue {
    /// The text `t` as a value.
    pub fn text(t: &str) -> (r: Self)
        ensures
            r@ == MetaView::Text(t@),
    {
        MetaValue::Text(t.to_owned())
    }

    /// The list of the texts of `items`, in their order.
    pub fn texts(items: &[&str]) -> (r: Self)
        ensures
            r@ == MetaView::List(Seq::new(items@.len(), |i: int| MetaView::Text(items@[i]@))),
    {
        let mut list: Vec<MetaValue> = Vec::new();
        let mut i: usize = 0;
        while i < items.len()
            invariant
                0 <= i <= items@.len(),
                list.len() == i,
                forall|j: int| 0 <= j < i ==> list@[j]@ == MetaView::Text(items@[j]@),
            decreases items@.len() - i,
        {
            list.push(MetaValue::text(items[i]));
            i = i + 1;
        }
        let r = MetaValue::List(list);
        assert(r@->List_0 =~= Seq::new(items@.len(), |i: int| MetaView::Text(items@[i]@)));
        r
    }
}

impl From<bool> for MetaValue {
    fn from(b: bool) -> (r: Self) {
        MetaValue::Bool(b)
    }
}

impl FromSpecImpl<bool> for MetaValue {
    open spec fn obeys_from_spec() -> bool {
        true
    }

    open spec fn from_spec(b: bool) -> Self {
        MetaValue::Bool(b)
    }
}

impl From<i64> for MetaValue {
    fn from(i: i64) -> (r: Self) {
        MetaValue::Int(i)
    }
}

impl FromSpecImpl<i64> for MetaValue {
    open spec fn obeys_from_spec() -> bool {
        true
    }

    open spec fn from_spec(i: i64) -> Self {
        MetaValue::Int(i)
    }
}

impl From<String> for MetaValue {
    fn from(t: String) -> (r: Self) {
        MetaValue::Text(t)
    }
}

impl FromSpecImpl<String> for MetaValue {
    open spec fn obeys_from_spec() -> bool {
        true
    }

    open spec fn from_spec(t: String) -> Self {
        MetaValue::Text(t)
    }
}

impl<'a> From<Vec<&'a str>> for MetaValue {
    /// The list of the texts of `items`, in their order.
    fn from(items: Vec<&'a str>) -> (r: Self)
        ensures
            r@ == MetaView::List(Seq::new(items@.len(), |i: int| MetaView::Text(items@[i]@))),
    {
        MetaValue::texts(items.as_slice())
    }
}

impl<'a> FromSpecImpl<Vec<&'a str>> for MetaValue {
    /// The texts of a list of string slices are made anew, so no value is
    /// named here; what the conversion gives is stated on `from`.
    open spec fn obeys_from_spec() -> bool {
        false
    }

    open spec fn from_spec(items: Vec<&'a str>) -> Self {
        MetaValue::Null
    }
}

impl From<Vec<MetaValue>> for MetaValue {
    fn from(items: Vec<MetaValue>) -> (r: Self) {
        MetaValue::List(items)
    }
}

impl FromSpecImpl<Vec<MetaValue>> for MetaValue {
    open spec fn obeys_from_spec() -> bool {
        true
    }

    open spec fn from_spec(items: Vec<MetaValue>) -> Self {
        MetaValue::List(items)
    }
}

/// The key under which a piece records that it has moved.
pub open spec fn moved_key() -> Seq<char> {
    "moved"@
}

/// A piece's metadata: a small open-ended store of values under text keys.
///
/// The entries are kept in a list and found by comparing keys, so that what
/// the store holds under each key follows from the entries alone, with
/// nothing taken on trust about hashing of texts.
#[derive(Debug)]
pub struct PieceEntityData {
    entries: Vec<(String, MetaValue)>,
}

/// What a list of entries holds under each key: of two entries with one
/// key, the later one counts.
pub open spec fn entries_map(entries: Seq<(String, MetaValue)>) -> Map<Seq<char>, MetaView>
    decreases entries.len(),
{
    if entries.len() == 0 {
        Map::empty()
    } else {
        entries_map(entries.drop_last()).insert(entries.last().0@, entries.last().1@)
    }
}

/// Lists with the same keys and the same values, entry by entry, hold the
/// same.
proof fn lemma_entries_map_same(a: Seq<(String, MetaValue)>, b: Seq<(String, MetaValue)>)
    requires
        a.len() == b.len(),
        forall|i: int| 0 <= i < a.len() ==> a[i].0@ == b[i].0@ && a[i].1@ == b[i].1@,
    ensures
        entries_map(a) == entries_map(b),
    decreases a.len(),
{
    if a.len() > 0 {
        lemma_entries_map_same(a.drop_last(), b.drop_last());
    }
}

proof fn lemma_entries_map_update(entries: Seq<(String, MetaValue)>, i: int, e: (String, MetaValue))
    requires
        0 <= i < entries.len(),
        entries[i].0@ == e.0@,
        forall|j: int| i < j < entries.len() ==> entries[j].0@ != e.0@,
    ensures
        entries_map(entries.update(i, e)) == entries_map(entries).insert(e.0@, e.1@),
    decreases entries.len(),
{
    let updated = entries.update(i, e);
    if i == entries.len() - 1 {
        assert(updated.drop_last() =~= entries.drop_last());
        assert(entries_map(updated) =~= entries_map(entries).insert(e.0@, e.1@));
    } else {
        lemma_entries_map_update(entries.drop_last(), i, e);
        assert(updated.drop_last() =~= entries.drop_last().update(i, e));
        assert(updated.last() == entries.last());
        assert(entries_map(updated) =~= entries_map(entries).insert(e.0@, e.1@));
    }
}

proof fn lemma_entries_map_lookup(entries: Seq<(String, MetaValue)>, key: Seq<char>, n: int)
    requires
        0 <= n <= entries.len(),
        forall|j: int| n <= j < entries.len() ==> entries[j].0@ != key,
    ensures
        entries_map(entries).contains_key(key) == entries_map(entries.take(n)).contains_key(key),
        entries_map(entries).contains_key(key) ==> entries_map(entries)[key] == entries_map(
            entries.take(n),
        )[key],
    decreases entries.len(),
{
    if n == entries.len() {
        assert(entries.take(n) =~= entries);
    } else {
        lemma_entries_map_lookup(entries.drop_last(), key, n);
        assert(entries.drop_last().take(n) =~= entries.take(n));
    }
}

proof fn lemma_entries_map_keys(entries: Seq<(String, MetaValue)>, key: Seq<char>)
    ensures
        entries_map(entries).contains_key(key) <==> exists|i: int|
            0 <= i < entries.len() && (#[trigger] entries[i]).0@ == key,
    decreases entries.len(),
{
    if entries.len() > 0 {
        let front = entries.drop_last();
        lemma_entries_map_keys(front, key);
        if exists|i: int| 0 <= i < front.len() && (#[trigger] front[i]).0@ == key {
            let i = choose|i: int| 0 <= i < front.len() && (#[trigger] front[i]).0@ == key;
            assert(entries[i].0@ == key);
        }
        if exists|i: int| 0 <= i < entries.len() && (#[trigger] entries[i]).0@ == key {
            let i = choose|i: int| 0 <= i < entries.len() && (#[trigger] entries[i]).0@ == key;
            if i < front.len() {
                assert(front[i].0@ == key);
            }
        }
    }
}

impl View for PieceEntityData {
    type V = Map<Seq<char>, MetaView>;

    closed spec fn view(&self) -> Map<Seq<char>, MetaView> {
        entries_map(self.entries@)
    }
}

impl Clone for PieceEntityData {
    fn clone(&self) -> (r: Self)
        ensures
            r@ == self@,
    {
        let mut entries: Vec<(String, MetaValue)> = Vec::new();
        let mut i: usize = 0;
        while i < self.entries.len()
            invariant
                0 <= i <= self.entries.len(),
                entries.len() == i,
                forall|j: int|
                    0 <= j < i ==> entries@[j].0@ == self.entries@[j].0@ && entries@[j].1@
                        == self.entries@[j].1@,
            decreases self.entries.len() - i,
        {
            let key: String = self.entries[i].0.clone();
            let value: MetaValue = self.entries[i].1.clone();
            entries.push((key, value));
            i = i + 1;
        }
        proof {
            lemma_entries_map_same(entries@, self.entries@);
        }
        PieceEntityData { entries }
    }
}

impl PieceEntityData {
    /// An empty store.
    pub fn new() -> (d: Self)
        ensures
            d@ == Map::<Seq<char>, MetaView>::empty(),
    {
        PieceEntityData { entries: Vec::new() }
    }

    /// The index of the last entry under `key`, if there is one.
    fn find(&self, key: &String) -> (r: Option<usize>)
        ensures
            match r {
                Some(i) => i < self.entries.len() && self.entries[i as int].0@ == key@
                    && forall|j: int| i < j < self.entries.len() ==> self.entries[j].0@ != key@,
                None => forall|j: int| 0 <= j < self.entries.len() ==> self.entries[j].0@ != key@,
            },
    {
        let mut i: usize = self.entries.len();
        while i > 0
            invariant
                0 <= i <= self.entries.len(),
                forall|j: int| i <= j < self.entries.len() ==> self.entries[j].0@ != key@,
            decreases i,
        {
            i = i - 1;
            if self.entries[i].0 == *key {
                return Some(i);
            }
        }
        None
    }

    /// Stores `value` under `key`, in place of what was there.
    pub fn insert(&mut self, key: &str, value: MetaValue)
        ensures
            final(self)@ == old(self)@.insert(key@, value@),
    {
        let owned: String = key.to_owned();
        match self.find(&owned) {
            Some(i) => {
                proof {
                    lemma_entries_map_update(self.entries@, i as int, (owned, value));
                }
                self.entries[i] = (owned, value);
            },
            None => {
                proof {
                    assert(self.entries@.push((owned, value)).drop_last() =~= self.entries@);
                }
                self.entries.push((owned, value));
            },
        }
    }

    /// The keys under which a value is stored.
    pub fn keys(&self) -> (list: Vec<String>)
        ensures
            forall|key: Seq<char>|
                self@.contains_key(key) <==> exists|i: int|
                    0 <= i < list.len() && (#[trigger] list[i])@ == key,
    {
        let mut list: Vec<String> = Vec::new();
        let mut i: usize = 0;
        while i < self.entries.len()
            invariant
                0 <= i <= self.entries.len(),
                list.len() == i,
                forall|j: int| 0 <= j < i ==> (#[trigger] list[j])@ == self.entries[j].0@,
            decreases self.entries.len() - i,
        {
            list.push(self.entries[i].0.clone());
            i = i + 1;
        }
        proof {
            assert forall|key: Seq<char>|
                self@.contains_key(key) <==> exists|i: int|
                    0 <= i < list.len() && (#[trigger] list[i])@ == key by {
                lemma_entries_map_keys(self.entries@, key);
                if exists|i: int| 0 <= i < list.len() && (#[trigger] list[i])@ == key {
                    let i = choose|i: int| 0 <= i < list.len() && (#[trigger] list[i])@ == key;
                    assert(self.entries@[i].0@ == key);
                }
                if exists|i: int|
                    0 <= i < self.entries@.len() && (#[trigger] self.entries@[i]).0@ == key {
                    let i = choose|i: int|
                        0 <= i < self.entries@.len() && (#[trigger] self.entries@[i]).0@ == key;
                    assert(list[i]@ == key);
                }
            }
        }
        list
    }

    /// The value stored under `key`, if there is one.
    pub fn get(&self, key: &str) -> (r: Option<&MetaValue>)
        ensures
            match r {
                Some(v) => self@.contains_key(key@) && self@[key@] == v@,
                None => !self@.contains_key(key@),
            },
    {
        let owned: String = key.to_owned();
        match self.find(&owned) {
            Some(i) => {
                proof {
                    lemma_entries_map_lookup(self.entries@, key@, i + 1);
                    assert(self.entries@.take(i + 1).drop_last() =~= self.entries@.take(i as int));
                }
                Some(&self.entries[i].1)
            },
            None => {
                proof {
                    lemma_entries_map_lookup(self.entries@, key@, 0);
                    assert(self.entries@.take(0) =~= Seq::<(String, MetaValue)>::empty());
                }
                None
            },
        }
    }
}

/// What move generation reads of a piece record: its piece, its square and
/// its metadata.
pub struct EntityView {
    pub piece: Piece,
    pub pos: Position,
    pub meta: Map<Seq<char>, MetaView>,
}

impl EntityView {
    /// The record says that the piece has moved: its metadata holds `true`
    /// under `moved`.
    pub open spec fn has_moved(self) -> bool {
        self.meta.contains_key(moved_key()) && self.meta[moved_key()] == MetaView::Bool(true)
    }
}

/// The stateful record of one occupied square: the piece, where it stands,
/// and its metadata.
#[derive(Debug)]
pub struct PieceEntity {
    pub piece: Piece,
    pub pos: Position,
    pub data: PieceEntityData,
}

impl View for PieceEntity {
    type V = EntityView;

    open spec fn view(&self) -> EntityView {
        EntityView { piece: self.piece, pos: self.pos, meta: self.data@ }
    }
}

impl Clone for PieceEntity {
    fn clone(&self) -> (r: Self)
        ensures
            r@ == self@,
    {
        PieceEntity { piece: self.piece, pos: self.pos, data: self.data.clone() }
    }
}

impl PieceEntity {
    /// A record of `piece` on `pos` with no metadata.
    pub fn new(piece: Piece, pos: Position) -> (e: Self)
        ensures
            e.piece == piece,
            e.pos == pos,
            e@.meta == Map::<Seq<char>, MetaView>::empty(),
            !e@.has_moved(),
    {
        Self { piece, pos, data: PieceEntityData::new() }
    }

    /// Stores `value` under `key` in the metadata, in place of what was
    /// there. Piece and square stay, and so does what the metadata holds
    /// under every other key. What is stored is what the conversion of
    /// `value` gives.
    pub fn set_meta<V: Into<MetaValue>>(&mut self, key: &str, value: V)
        ensures
            final(self).piece == old(self).piece,
            final(self).pos == old(self).pos,
            exists|stored: MetaValue| #[trigger]
                call_ensures(<V as Into<MetaValue>>::into, (value,), stored) && final(self)@.meta
                    == old(self)@.meta.insert(key@, stored@),
            V::obeys_into_spec() ==> final(self)@.meta == old(self)@.meta.insert(
                key@,
                value.into_spec()@,
            ),
    {
        let v: MetaValue = value.into();
        let ghost stored = v;
        self.data.insert(key, v);
        proof {
            assert(call_ensures(<V as Into<MetaValue>>::into, (value,), stored));
        }
    }

    /// The value stored under `key` in the metadata, if there is one.
    pub fn get_meta(&self, key: &str) -> (r: Option<&MetaValue>)
        ensures
            match r {
                Some(v) => self@.meta.contains_key(key@) && self@.meta[key@] == v@,
                None => !self@.meta.contains_key(key@),
            },
    {
        self.data.get(key)
    }

    /// Whether the record says that the piece has moved.
    pub fn has_moved(&self) -> (m: bool)
        ensures
            m == self@.has_moved(),
    {
        match self.data.get("moved") {
            Some(MetaValue::Bool(b)) => *b,
            _ => false,
        }
    }
}

/// The record of a move of the piece of `e` to `to` that changes nothing
/// but the piece's square: the square is a capture iff a piece of the other
/// side stands on it.
pub open spec fn plain_move(b: BoardView, e: EntityView, to: Position) -> MoveMeta {
    MoveMeta {
        piece: e.piece,
        from: e.pos,
        to,
        castle: None,
        promotion: None,
        capture: taken(b, to, e.piece.side()),
    }
}

/// The square taken by a piece of `color` that goes to `to`: `to` itself
/// iff a piece of the other side stands there.
pub open spec fn taken(b: BoardView, to: Position, color: Color) -> Option<Position> {
    if b.hostile(to, color) {
        Some(to)
    } else {
        None
    }
}

/// The square taken by a piece of `color` that goes to `to`.
///
/// Fails with `InvalidPosition` exactly when `to` is off the board.
pub fn capture_on(board: &Board, to: Position, color: Color) -> (r: Result<
    Option<Position>,
    ChessError,
>)
    ensures
        to.valid() ==> r == Ok::<Option<Position>, ChessError>(taken(board@, to, color)),
        !to.valid() ==> fails_with(r, ErrorKind::InvalidPosition),
{
    if board.is_enemy(to.rank, to.file, color)? {
        Ok(Some(to))
    } else {
        Ok(None)
    }
}

/// True iff `p` occurs in `v`.
pub fn has_position(v: &Vec<Position>, p: Position) -> (found: bool)
    ensures
        found == v@.contains(p),
{
    let mut i: usize = 0;
    while i < v.len()
        invariant
            0 <= i <= v.len(),
            forall|j: int| 0 <= j < i ==> v@[j] != p,
        decreases v.len() - i,
    {
        if v[i] == p {
            return true;
        }
        i = i + 1;
    }
    false
}

/// The destinations that the geometry of its kind gives the piece of `e`:
/// for a king its steps without castling, for every other kind all its
/// pseudo-legal destinations.
pub open spec fn plain_moves_of(b: BoardView, e: EntityView) -> Result<Seq<Position>, ErrorKind> {
    match e.piece {
        Piece::Pawn(_) => pawn::pawn_moves(b, e),
        Piece::Knight(_) => Ok(knight::knight_moves(b, e)),
        Piece::Bishop(_) => Ok(bishop::bishop_moves(b, e)),
        Piece::King(_) => Ok(king::king_steps(b, e)),
        Piece::Rook(_) => Ok(rook::rook_moves(b, e)),
        Piece::Queen(_) => Ok(queen::queen_moves(b, e)),
    }
}

/// The pseudo-legal destinations of the piece of `e`: what the geometry of
/// its kind and the occupancy of the board allow, with no regard to the
/// safety of its own king.
pub open spec fn moves_of(b: BoardView, e: EntityView) -> Result<Seq<Position>, ErrorKind> {
    match e.piece {
        Piece::King(_) => king::king_moves(b, e),
        _ => plain_moves_of(b, e),
    }
}

/// Whatever the geometry of its kind gives a piece lies on the board and is
/// empty or held by the other side.
pub proof fn lemma_plain_moves_sound(b: BoardView, e: EntityView)
    requires
        b.wf(),
    ensures
        plain_moves_of(b, e) matches Ok(moves) ==> forall|i: int|
            0 <= i < moves.len() ==> (#[trigger] moves[i]).valid() && b.admits(
                moves[i],
                Some(e.piece.side()),
            ),
{
    let color = e.piece.side();
    match e.piece {
        Piece::Pawn(_) => {
            if pawn::pawn_moves(b, e) is Ok {
                let moves = pawn::pawn_moves(b, e).unwrap();
                let pushes = pawn::pawn_pushes(b, e);
                let left = pawn::pawn_capture(b, e, -1);
                let right = pawn::pawn_capture(b, e, 1);
                let passing = pawn::pawn_passant(b, e);
                assert(moves == pushes + left + right + passing);
                assert forall|i: int| 0 <= i < moves.len() implies (#[trigger] moves[i]).valid()
                    && b.admits(moves[i], Some(color)) by {
                    if i < pushes.len() {
                        assert(moves[i] == pushes[i]);
                    } else if i < pushes.len() + left.len() {
                        assert(moves[i] == left[i - pushes.len()]);
                    } else if i < pushes.len() + left.len() + right.len() {
                        assert(moves[i] == right[i - pushes.len() - left.len()]);
                    } else {
                        assert(moves[i] == passing[i - pushes.len() - left.len() - right.len()]);
                    }
                }
            }
        },
        Piece::Knight(_) => {
            let moves = knight::knight_moves(b, e);
            assert forall|i: int| 0 <= i < moves.len() implies (#[trigger] moves[i]).valid()
                && b.admits(moves[i], Some(color)) by {
                lemma_step_targets(b, e.pos, knight::STEPS@, color, moves[i]);
                assert(moves.contains(moves[i]));
            }
        },
        Piece::King(_) => {
            let moves = king::king_steps(b, e);
            assert forall|i: int| 0 <= i < moves.len() implies (#[trigger] moves[i]).valid()
                && b.admits(moves[i], Some(color)) by {
                lemma_step_targets(b, e.pos, king::STEPS@, color, moves[i]);
                assert(moves.contains(moves[i]));
            }
        },
        Piece::Bishop(_) => {
            lemma_sliding_targets(b, e.pos, bishop::DIRS@, Some(color));
        },
        Piece::Rook(_) => {
            lemma_sliding_targets(b, e.pos, rook::DIRS@, Some(color));
        },
        Piece::Queen(_) => {
            lemma_sliding_targets(b, e.pos, queen::DIRS@, Some(color));
        },
    }
}

/// The generator that lists destinations without castling.
pub open spec fn plain_gen(b: BoardView) -> spec_fn(EntityView) -> Result<Seq<Position>, ErrorKind> {
    |e: EntityView| plain_moves_of(b, e)
}

/// The generator that lists all pseudo-legal destinations.
pub open spec fn full_gen(b: BoardView) -> spec_fn(EntityView) -> Result<Seq<Position>, ErrorKind> {
    |e: EntityView| moves_of(b, e)
}

impl PieceEntity {
    /// The destinations that the geometry of the piece's kind gives it: for
    /// a king its steps without castling, for every other kind all its
    /// pseudo-legal destinations.
    ///
    /// Fails with `InvalidPosition` exactly when the piece is a pawn with no
    /// square in front of it on the board.
    pub fn plain_moves(&self, board: &Board) -> (r: Result<Vec<Position>, ChessError>)
        ensures
            lists(r, plain_moves_of(board@, self@)),
    {
        match self.piece {
            Piece::Pawn(_c) => pawn::legal_moves(self, board),
            Piece::Knight(_c) => knight::legal_moves(self, board),
            Piece::Bishop(_c) => bishop::legal_moves(self, board),
            Piece::King(_c) => king::step_moves_of(self, board),
            Piece::Rook(_c) => rook::legal_moves(self, board),
            Piece::Queen(_c) => queen::legal_moves(self, board),
        }
    }

    /// The pseudo-legal destinations of the piece, in the order of its
    /// kind's table: what geometry and occupancy allow, with no regard to
    /// the safety of its own king.
    ///
    /// Fails exactly when the destinations cannot be listed: for a pawn with
    /// no square in front of it on the board, and for a king whose castling
    /// depends on such a pawn of the other side.
    pub fn legal_moves(&self, board: &Board) -> (r: Result<Vec<Position>, ChessError>)
        ensures
            lists(r, moves_of(board@, self@)),
    {
        match self.piece {
            Piece::Pawn(_c) => pawn::legal_moves(self, board),
            Piece::Knight(_c) => knight::legal_moves(self, board),
            Piece::Bishop(_c) => bishop::legal_moves(self, board),
            Piece::King(_c) => king::legal_moves(self, board),
            Piece::Rook(_c) => rook::legal_moves(self, board),
            Piece::Queen(_c) => queen::legal_moves(self, board),
        }
    }

    /// The record of the piece's move to `new_pos`, and what the move
    /// implies for the record of the piece and for the board: a pawn, a rook
    /// and a king note that they have moved; a pawn holds the requested
    /// piece from then on, and its double step leaves the square passed
    /// over as en-passant target. The move itself is not made: the square of
    /// the record, the overlay and the bit sets stay as they are.
    ///
    /// Fails with `InvalidPosition`, changing nothing, exactly when `new_pos`
    /// is off the board.
    pub fn on_move(
        &mut self,
        new_pos: Position,
        board: &mut Board,
        promotion: Option<pawn::Promotion>,
    ) -> (r: Result<MoveMeta, ChessError>)
        ensures
            new_pos.valid() ==> r == Ok::<MoveMeta, ChessError>(
                record_of(old(board)@, old(self)@, new_pos, promotion),
            ) && final(self)@ == entity_after(old(self)@, promotion) && final(board)@ == old(
                board,
            )@.with_passant(target_after(old(board)@, old(self)@, new_pos)),
            !new_pos.valid() ==> fails_with(r, ErrorKind::InvalidPosition) && final(self)@ == old(
                self,
            )@ && final(board)@ == old(board)@,
    {
        match self.piece {
            Piece::Pawn(_c) => pawn::on_move(self, new_pos, board, promotion),
            Piece::Knight(_c) => knight::on_move(self, new_pos, board),
            Piece::Bishop(_c) => bishop::on_move(self, new_pos, board),
            Piece::King(_c) => king::on_move(self, new_pos, board),
            Piece::Rook(_c) => rook::on_move(self, new_pos, board),
            Piece::Queen(_c) => queen::on_move(self, new_pos, board),
        }
    }
}

/// The record of the move of the piece of `e` to `to`.
pub open spec fn record_of(
    b: BoardView,
    e: EntityView,
    to: Position,
    promotion: Option<pawn::Promotion>,
) -> MoveMeta {
    match e.piece {
        Piece::Pawn(_) => pawn::pawn_record(b, e, to, promotion),
        Piece::King(_) => king::king_record(b, e, to),
        _ => plain_move(b, e, to),
    }
}

/// The record of a piece after its move.
pub open spec fn entity_after(e: EntityView, promotion: Option<pawn::Promotion>) -> EntityView {
    match e.piece {
        Piece::Pawn(_) => pawn::pawn_after(e, promotion),
        Piece::King(_) | Piece::Rook(_) => EntityView {
            meta: e.meta.insert(moved_key(), MetaView::Bool(true)),
            ..e
        },
        _ => e,
    }
}

/// The en-passant target of the board after the move of the piece of `e`
/// to `to`.
pub open spec fn target_after(b: BoardView, e: EntityView, to: Position) -> Option<Position> {
    match e.piece {
        Piece::Pawn(_) => pawn::passant_after(b, e.pos, to),
        _ => b.passant_target,
    }
}

} // verus!

//! The text of a position: fields, digits and numbers.

use vstd::prelude::*;
use crate::board::{lemma_synced, BoardView};
use crate::piece::{Castle, Color, EntityView, Piece, Position};

verus! {

/// The characters that separate the fields of a position text: the white
/// space of Unicode.
pub open spec fn is_space(c: char) -> bool {
    ||| '\u{9}' <= c <= '\u{d}'
    ||| c == ' '
    ||| c == '\u{85}'
    ||| c == '\u{a0}'
    ||| c == '\u{1680}'
    ||| '\u{2000}' <= c <= '\u{200a}'
    ||| c == '\u{2028}'
    ||| c == '\u{2029}'
    ||| c == '\u{202f}'
    ||| c == '\u{205f}'
    ||| c == '\u{3000}'
}

/// Whether `c` separates fields.
pub fn space(c: char) -> (r: bool)
    ensures
        r == is_space(c),
{
    ('\u{9}' <= c && c <= '\u{d}') || c == ' ' || c == '\u{85}' || c == '\u{a0}' || c
        == '\u{1680}' || ('\u{2000}' <= c && c <= '\u{200a}') || c == '\u{2028}' || c
        == '\u{2029}' || c == '\u{202f}' || c == '\u{205f}' || c == '\u{3000}'
}

/// One of the ten digits `0` to `9`.
pub open spec fn is_digit(c: char) -> bool {
    '0' <= c <= '9'
}

/// The number that a digit stands for.
pub open spec fn digit_value(c: char) -> int {
    c as int - '0' as int
}

/// The digit that stands for `n`, for `n` below ten.
pub open spec fn digit_char(n: int) -> char {
    ('0' as int + n) as char
}

/// Whether `c` is a digit.
pub fn digit(c: char) -> (r: bool)
    ensures
        r == is_digit(c),
{
    '0' <= c && c <= '9'
}

/// The number that the digit `c` stands for.
pub fn value_of_digit(c: char) -> (n: u8)
    requires
        is_digit(c),
    ensures
        n == digit_value(c),
        n <= 9,
{
    (c as u32 - '0' as u32) as u8
}

/// The digit that stands for `n`.
pub fn digit_of(n: u8) -> (c: char)
    requires
        n <= 9,
    ensures
        c == digit_char(n as int),
        is_digit(c),
        digit_value(c) == n,
{
    (('0' as u8) + n) as char
}

/// The fields of `text` after the pending field `current`: the maximal
/// runs of characters that are not white space, in order.
pub open spec fn split_from(text: Seq<char>, current: Seq<char>) -> Seq<Seq<char>>
    decreases text.len(),
{
    let pending = if current.len() > 0 {
        seq![current]
    } else {
        Seq::<Seq<char>>::empty()
    };
    if text.len() == 0 {
        pending
    } else if is_space(text[0]) {
        pending + split_from(text.drop_first(), Seq::empty())
    } else {
        split_from(text.drop_first(), current.push(text[0]))
    }
}

/// The fields of `text`: the maximal runs of characters that are not white
/// space, in order.
pub open spec fn fields(text: Seq<char>) -> Seq<Seq<char>> {
    split_from(text, Seq::empty())
}

/// The contents of a list of fields.
pub open spec fn texts(list: Seq<Vec<char>>) -> Seq<Seq<char>> {
    Seq::new(list.len(), |i: int| list[i]@)
}

/// Splits `text` into its fields.
pub fn split_fields(text: &Vec<char>) -> (list: Vec<Vec<char>>)
    ensures
        texts(list@) == fields(text@),
{
    let mut list: Vec<Vec<char>> = Vec::new();
    let mut current: Vec<char> = Vec::new();
    let mut i: usize = 0;
    assert(text@.skip(0) =~= text@);
    assert(texts(list@) =~= Seq::<Seq<char>>::empty());
    assert(texts(list@) + fields(text@) =~= fields(text@));
    while i < text.len()
        invariant
            0 <= i <= text.len(),
            texts(list@) + split_from(text@.skip(i as int), current@) == fields(text@),
        decreases text.len() - i,
    {
        let c: char = text[i];
        proof {
            assert(text@.skip(i as int)[0] == c);
            assert(text@.skip(i as int).drop_first() =~= text@.skip(i + 1));
        }
        if space(c) {
            if current.len() > 0 {
                let ghost before = texts(list@);
                let ghost field = current@;
                list.push(current);
                current = Vec::new();
                proof {
                    assert(texts(list@) =~= before + seq![field]);
                    assert((before + seq![field]) + split_from(
                        text@.skip(i + 1),
                        Seq::empty(),
                    ) =~= before + (seq![field] + split_from(text@.skip(i + 1), Seq::empty())));
                }
            } else {
                assert(current@ =~= Seq::<char>::empty());
                assert(Seq::<Seq<char>>::empty() + split_from(text@.skip(i + 1), Seq::empty())
                    =~= split_from(text@.skip(i + 1), Seq::empty()));
            }
        } else {
            current.push(c);
        }
        i = i + 1;
    }
    proof {
        assert(text@.skip(i as int).len() == 0);
    }
    if current.len() > 0 {
        let ghost before = texts(list@);
        let ghost field = current@;
        list.push(current);
        proof {
            assert(texts(list@) =~= before + seq![field]);
        }
    } else {
        assert(texts(list@) + Seq::<Seq<char>>::empty() =~= texts(list@));
    }
    list
}

/// The number written by `text` in decimal, if `text` is one digit or more
/// and nothing else.
pub open spec fn digits_value(text: Seq<char>) -> Option<nat>
    decreases text.len(),
{
    if text.len() == 0 || !is_digit(text.last()) {
        None
    } else if text.len() == 1 {
        Some(digit_value(text.last()) as nat)
    } else {
        match digits_value(text.drop_last()) {
            None => None,
            Some(v) => Some((v * 10 + digit_value(text.last())) as nat),
        }
    }
}

/// The number below 256 written by `text`: digits, possibly after a plus
/// sign. Any other text, and any number from 256 on, gives `None`.
pub open spec fn number_value(text: Seq<char>) -> Option<u8> {
    let digits = if text.len() > 0 && text[0] == '+' {
        text.drop_first()
    } else {
        text
    };
    match digits_value(digits) {
        Some(v) => if v <= 255 {
            Some(v as u8)
        } else {
            None
        },
        None => None,
    }
}

/// A longer text of digits writes no smaller number, and a text with
/// something else than digits early on writes none.
proof fn lemma_digits_grow(text: Seq<char>, n: int)
    requires
        1 <= n <= text.len(),
    ensures
        digits_value(text.take(n)) is None ==> digits_value(text) is None,
        digits_value(text) matches Some(v) ==> digits_value(text.take(n)) matches Some(w) && w <= v,
    decreases text.len(),
{
    if n == text.len() {
        assert(text.take(n) =~= text);
    } else {
        assert(text.drop_last().take(n) =~= text.take(n));
        lemma_digits_grow(text.drop_last(), n);
    }
}

/// Reads a number below 256: digits, possibly after a plus sign.
pub fn parse_number(text: &Vec<char>) -> (r: Option<u8>)
    ensures
        r == number_value(text@),
{
    let start: usize = if text.len() > 0 && text[0] == '+' {
        1
    } else {
        0
    };
    let ghost digits = text@.skip(start as int);
    proof {
        if start == 1 {
            assert(text@.drop_first() =~= digits);
        } else {
            assert(text@ =~= digits);
        }
    }
    if start == text.len() {
        return None;
    }
    let mut acc: u32 = 0;
    let mut i: usize = start;
    while i < text.len()
        invariant
            start <= i <= text.len(),
            start < text.len(),
            digits == text@.skip(start as int),
            digits == (if text@.len() > 0 && text@[0] == '+' {
                text@.drop_first()
            } else {
                text@
            }),
            acc <= 255,
            i == start ==> acc == 0,
            i > start ==> digits_value(digits.take(i - start)) == Some(acc as nat),
        decreases text.len() - i,
    {
        let c: char = text[i];
        proof {
            assert(digits.take(i - start + 1).last() == c);
            assert(digits.take(i - start + 1).drop_last() =~= digits.take(i - start));
        }
        if !digit(c) {
            proof {
                assert(digits_value(digits.take(i - start + 1)) is None);
                lemma_digits_grow(digits, i - start + 1);
            }
            return None;
        }
        acc = acc * 10 + value_of_digit(c) as u32;
        assert(digits_value(digits.take(i - start + 1)) == Some(acc as nat));
        if acc > 255 {
            proof {
                lemma_digits_grow(digits, i - start + 1);
            }
            return None;
        }
        i = i + 1;
    }
    proof {
        assert(digits.take(i - start) =~= digits);
    }
    Some(acc as u8)
}

/// `n` written in decimal.
pub open spec fn decimal(n: nat) -> Seq<char>
    decreases n,
{
    if n < 10 {
        seq![digit_char(n as int)]
    } else {
        decimal(n / 10).push(digit_char((n % 10) as int))
    }
}

/// Appends `n` in decimal to `out`.
pub fn push_decimal(out: &mut String, n: u8)
    ensures
        final(out)@ == old(out)@ + decimal(n as nat),
{
    proof {
        reveal_with_fuel(decimal, 3);
    }
    let ghost before = out@;
    if n >= 100 {
        out.push(digit_of(n / 100));
        out.push(digit_of((n / 10) % 10));
        out.push(digit_of(n % 10));
        assert(out@ =~= before + decimal(n as nat));
    } else if n >= 10 {
        out.push(digit_of(n / 10));
        out.push(digit_of(n % 10));
        assert(out@ =~= before + decimal(n as nat));
    } else {
        out.push(digit_of(n));
        assert(out@ =~= before + decimal(n as nat));
    }
}

/// The text `chars` as a string.
pub fn string_of(chars: &Vec<char>) -> (s: String)
    ensures
        s@ == chars@,
{
    let mut s = String::new();
    let mut i: usize = 0;
    while i < chars.len()
        invariant
            0 <= i <= chars.len(),
            s@ == chars@.take(i as int),
        decreases chars.len() - i,
    {
        s.push(chars[i]);
        assert(s@ =~= chars@.take(i + 1));
        i = i + 1;
    }
    assert(chars@.take(i as int) =~= chars@);
    s
}

/// The text of the files from `file` on of rank `rank`, after `run` empty
/// squares not yet written: each piece by its letter, each run of empty
/// squares by its length.
pub open spec fn rank_text(squares: Seq<Option<Piece>>, rank: int, file: int, run: int) -> Seq<char>
    decreases 8 - file,
{
    let gap = if run > 0 {
        seq![digit_char(run)]
    } else {
        Seq::<char>::empty()
    };
    if file >= 8 {
        gap
    } else {
        match squares[rank * 8 + file] {
            None => rank_text(squares, rank, file + 1, run + 1),
            Some(p) => gap + seq![p.letter()] + rank_text(squares, rank, file + 1, 0),
        }
    }
}

/// The placement field for the ranks from `rank` down to the first: the
/// texts of the ranks, separated by `/`.
pub open spec fn placement_text(squares: Seq<Option<Piece>>, rank: int) -> Seq<char>
    decreases rank,
{
    if rank <= 0 {
        rank_text(squares, 0, 0, 0)
    } else {
        rank_text(squares, rank, 0, 0) + seq!['/'] + placement_text(squares, rank - 1)
    }
}

/// A square in algebraic form: the letter of its file, then the digit of
/// its rank counted from one.
pub open spec fn square_text(p: Position) -> Seq<char> {
    seq![('a' as int + p.file) as char, digit_char(p.rank + 1)]
}

/// The en-passant field: the target in algebraic form, or `-`.
pub open spec fn passant_text(target: Option<Position>) -> Seq<char> {
    match target {
        Some(p) => square_text(p),
        None => seq!['-'],
    }
}

/// The text of a position: placement, side to move, castling rights,
/// en-passant target, halfmove clock and move number, one space between
/// them.
pub open spec fn fen_text(b: BoardView) -> Seq<char> {
    placement_text(b.squares, 7) + seq![' ', b.turn.letter(), ' '] + b.castling.text() + seq![' ']
        + passant_text(b.passant_target) + seq![' '] + decimal(b.halfmove as nat) + seq![' ']
        + decimal(b.fullmove as nat)
}

/// The squares after the placement field `text` has been read from row
/// `row` and file `file` on. Rows count from the eighth rank down. A `/`
/// starts the next row, a digit skips that many files, and any other
/// character puts the piece it names on the current square and moves one
/// file on. What falls off the board is dropped; squares that the field
/// skips keep what they held.
pub open spec fn place(squares: Seq<Option<Piece>>, text: Seq<char>, row: int, file: int) -> Seq<
    Option<Piece>,
>
    decreases text.len(),
{
    if text.len() == 0 {
        squares
    } else if text[0] == '/' {
        place(squares, text.drop_first(), row + 1, 0)
    } else if is_digit(text[0]) {
        place(squares, text.drop_first(), row, file + digit_value(text[0]))
    } else if 0 <= row < 8 && 0 <= file < 8 {
        place(
            squares.update((7 - row) * 8 + file, Some(Piece::from_letter(text[0]))),
            text.drop_first(),
            row,
            file + 1,
        )
    } else {
        place(squares, text.drop_first(), row, file + 1)
    }
}

/// Whether `field` is an en-passant field: `-`, or a file letter from `a`
/// to `h` and a rank digit from `1` to `8`. What follows the digit is not
/// read.
pub open spec fn passant_field_ok(field: Seq<char>) -> bool {
    field == seq!['-'] || (field.len() >= 2 && 'a' <= field[0] <= 'h' && '1' <= field[1] <= '8')
}

/// The en-passant target that `field` names.
pub open spec fn passant_value(field: Seq<char>) -> Option<Position> {
    if field == seq!['-'] {
        None
    } else {
        Some(
            Position {
                rank: (field[1] as int - '1' as int) as usize,
                file: (field[0] as int - 'a' as int) as usize,
            },
        )
    }
}

/// The squares of a board without pieces.
pub open spec fn no_pieces() -> Seq<Option<Piece>> {
    Seq::new(64, |i: int| None::<Piece>)
}

/// The position that six fields describe, on the board `b`: the placement
/// on squares that held nothing, the side to move, exactly the castling
/// rights that the castling field names, the en-passant target and the two
/// clocks. The overlay and the log of moves are not part of the text and
/// stay those of `b`.
pub open spec fn described(b: BoardView, f: Seq<Seq<char>>) -> BoardView {
    BoardView {
        squares: place(no_pieces(), f[0], 0, 0),
        entities: b.entities,
        turn: Color::parse(f[1]),
        castling: Castle::named(f[2]).unwrap(),
        passant_target: passant_value(f[3]),
        halfmove: number_value(f[4]).unwrap(),
        fullmove: number_value(f[5]).unwrap(),
        history: b.history,
    }
}

/// Whether six fields describe a position: the castling field is `-` or
/// has letters of `KQkq` only, the en-passant field is `-` or a square of
/// the board, and both clocks are numbers below 256.
pub open spec fn fields_ok(f: Seq<Seq<char>>) -> bool {
    &&& f.len() == 6
    &&& Castle::named(f[2]) is Some
    &&& passant_field_ok(f[3])
    &&& number_value(f[4]) is Some
    &&& number_value(f[5]) is Some
}

/// What reading the position text `text` makes of the board `b`: the
/// position that the six fields of the text describe, or nothing when the
/// text has not six fields or one of them cannot be read.
pub open spec fn fen_outcome(b: BoardView, text: Seq<char>) -> Option<BoardView> {
    if fields_ok(fields(text)) {
        Some(described(b, fields(text)))
    } else {
        None
    }
}

/// Whether `template` can be loaded: it has one slot per square, and every
/// record in it stands on a square of the board.
pub open spec fn template_ok(template: Seq<Option<EntityView>>) -> bool {
    template.len() == 64 && forall|i: int|
        0 <= i < 64 ==> (#[trigger] template[i] matches Some(e) ==> e.pos.valid())
}

/// The board after the records of `template` have been placed in order,
/// each on its own square in both descriptions. An absent record changes
/// nothing.
pub open spec fn loaded(b: BoardView, template: Seq<Option<EntityView>>) -> BoardView
    decreases template.len(),
{
    if template.len() == 0 {
        b
    } else {
        let before = loaded(b, template.drop_last());
        match template.last() {
            Some(e) => before.placed(e),
            None => before,
        }
    }
}

/// Loading a template onto a board whose two descriptions agree leaves them
/// in agreement.
pub proof fn lemma_loaded_synced(b: BoardView, template: Seq<Option<EntityView>>)
    requires
        b.wf(),
        b.synced(),
        forall|i: int|
            0 <= i < template.len() ==> (#[trigger] template[i] matches Some(e) ==> e.pos.valid()),
    ensures
        loaded(b, template).wf(),
        loaded(b, template).synced(),
    decreases template.len(),
{
    if template.len() > 0 {
        let front = template.drop_last();
        assert forall|i: int| 0 <= i < front.len() implies (#[trigger] front[i] matches Some(e)
            ==> e.pos.valid()) by {
            assert(front[i] == template[i]);
        }
        lemma_loaded_synced(b, front);
        match template.last() {
            Some(e) => {
                assert(template[template.len() - 1] == Some(e));
                lemma_synced(loaded(b, front), e, e.pos, e.pos);
            },
            None => {},
        }
    }
}

/// No character of `text` is white space.
pub open spec fn solid(text: Seq<char>) -> bool {
    forall|i: int| 0 <= i < text.len() ==> !is_space(#[trigger] text[i])
}

/// A run of characters without white space goes to the pending field as a
/// whole.
proof fn lemma_split_word(word: Seq<char>, rest: Seq<char>, current: Seq<char>)
    requires
        solid(word),
    ensures
        split_from(word + rest, current) == split_from(rest, current + word),
    decreases word.len(),
{
    if word.len() == 0 {
        assert(word + rest =~= rest);
        assert(current + word =~= current);
    } else {
        let text = word + rest;
        assert(text[0] == word[0]);
        assert(!is_space(word[0]));
        assert(text.drop_first() =~= word.drop_first() + rest);
        assert(solid(word.drop_first())) by {
            assert forall|i: int| 0 <= i < word.drop_first().len() implies !is_space(
                #[trigger] word.drop_first()[i],
            ) by {
                assert(word.drop_first()[i] == word[i + 1]);
            }
        }
        lemma_split_word(word.drop_first(), rest, current.push(word[0]));
        assert(current.push(word[0]) + word.drop_first() =~= current + word);
    }
}

/// A text made of a field, one space and more text splits into that field
/// and the fields of the rest.
proof fn lemma_split_first(word: Seq<char>, rest: Seq<char>)
    requires
        solid(word),
        word.len() > 0,
    ensures
        fields(word + seq![' '] + rest) == seq![word] + fields(rest),
{
    let tail = seq![' '] + rest;
    assert(word + seq![' '] + rest =~= word + tail);
    lemma_split_word(word, tail, Seq::empty());
    assert(Seq::<char>::empty() + word =~= word);
    assert(tail[0] == ' ');
    assert(tail.drop_first() =~= rest);
}

/// A text that is one field splits into that field.
proof fn lemma_split_last(word: Seq<char>)
    requires
        solid(word),
        word.len() > 0,
    ensures
        fields(word) == seq![word],
{
    lemma_split_word(word, Seq::empty(), Seq::empty());
    assert(word + Seq::<char>::empty() =~= word);
    assert(Seq::<char>::empty() + word =~= word);
}

/// A number in decimal is one digit or more, nothing else, and reads back
/// as the number.
pub proof fn lemma_decimal(n: nat)
    ensures
        decimal(n).len() > 0,
        solid(decimal(n)),
        decimal(n)[0] != '+',
        digits_value(decimal(n)) == Some(n),
    decreases n,
{
    if n >= 10 {
        lemma_decimal(n / 10);
        let front = decimal(n / 10);
        let d = digit_char((n % 10) as int);
        assert(decimal(n) == front.push(d));
        assert(decimal(n).drop_last() =~= front);
        assert(decimal(n)[0] == front[0]);
        assert forall|i: int| 0 <= i < decimal(n).len() implies !is_space(
            #[trigger] decimal(n)[i],
        ) by {
            if i < front.len() {
                assert(decimal(n)[i] == front[i]);
            }
        }
    }
}

/// The castling field has no white space and reads back as the rights it
/// was written for.
pub proof fn lemma_castling_text(c: Castle)
    ensures
        c.text().len() > 0,
        solid(c.text()),
        Castle::named(c.text()) == Some(c),
{
    reveal_with_fuel(Castle::read, 5);
    let k = if c.white_king { seq!['K'] } else { Seq::<char>::empty() };
    let q = if c.white_queen { seq!['Q'] } else { Seq::<char>::empty() };
    let bk = if c.black_king { seq!['k'] } else { Seq::<char>::empty() };
    let bq = if c.black_queen { seq!['q'] } else { Seq::<char>::empty() };
    let letters = k + q + bk + bq;
    if letters.len() == 0 {
        assert(c == Castle::none());
    } else {
        assert(c.text() == letters);
        lemma_castling_read(c);
    }
}

proof fn lemma_castling_read(c: Castle)
    requires
        c != Castle::none(),
    ensures
        c.text() != seq!['-'],
        solid(c.text()),
        Castle::none().read(c.text()).0 == c,
{
    reveal_with_fuel(Castle::read, 5);
    let t = c.text();
    let none = Castle::none();
    if c.white_king {
        if c.white_queen {
            if c.black_king {
                if c.black_queen {
                    assert(t =~= seq!['K', 'Q', 'k', 'q']);
                    lemma_read4(none, 'K', 'Q', 'k', 'q');
                } else {
                    assert(t =~= seq!['K', 'Q', 'k']);
                    lemma_read3(none, 'K', 'Q', 'k');
                }
            } else {
                if c.black_queen {
                    assert(t =~= seq!['K', 'Q', 'q']);
                    lemma_read3(none, 'K', 'Q', 'q');
                } else {
                    assert(t =~= seq!['K', 'Q']);
                    lemma_read2(none, 'K', 'Q');
                }
            }
        } else {
            if c.black_king {
                if c.black_queen {
                    assert(t =~= seq!['K', 'k', 'q']);
                    lemma_read3(none, 'K', 'k', 'q');
                } else {
                    assert(t =~= seq!['K', 'k']);
                    lemma_read2(none, 'K', 'k');
                }
            } else {
                if c.black_queen {
                    assert(t =~= seq!['K', 'q']);
                    lemma_read2(none, 'K', 'q');
                } else {
                    assert(t =~= seq!['K']);
                    lemma_read1(none, 'K');
                }
            }
        }
    } else {
        if c.white_queen {
            if c.black_king {
                if c.black_queen {
                    assert(t =~= seq!['Q', 'k', 'q']);
                    lemma_read3(none, 'Q', 'k', 'q');
                } else {
                    assert(t =~= seq!['Q', 'k']);
                    lemma_read2(none, 'Q', 'k');
                }
            } else {
                if c.black_queen {
                    assert(t =~= seq!['Q', 'q']);
                    lemma_read2(none, 'Q', 'q');
                } else {
                    assert(t =~= seq!['Q']);
                    lemma_read1(none, 'Q');
                }
            }
        } else {
            if c.black_king {
                if c.black_queen {
                    assert(t =~= seq!['k', 'q']);
                    lemma_read2(none, 'k', 'q');
                } else {
                    assert(t =~= seq!['k']);
                    lemma_read1(none, 'k');
                }
            } else {
                assert(t =~= seq!['q']);
                lemma_read1(none, 'q');
            }
        }
    }
}

proof fn lemma_read1(c: Castle, a: char)
    requires
        c.grant(a) is Some,
    ensures
        c.read(seq![a]).0 == c.grant(a).unwrap(),
{
    reveal_with_fuel(Castle::read, 2);
    assert(seq![a].drop_first() =~= Seq::<char>::empty());
}

proof fn lemma_read2(c: Castle, a: char, b: char)
    requires
        c.grant(a) is Some,
        c.grant(a).unwrap().grant(b) is Some,
    ensures
        c.read(seq![a, b]).0 == c.grant(a).unwrap().grant(b).unwrap(),
{
    assert(seq![a, b].drop_first() =~= seq![b]);
    lemma_read1(c.grant(a).unwrap(), b);
}

proof fn lemma_read3(c: Castle, a: char, b: char, d: char)
    requires
        c.grant(a) is Some,
        c.grant(a).unwrap().grant(b) is Some,
        c.grant(a).unwrap().grant(b).unwrap().grant(d) is Some,
    ensures
        c.read(seq![a, b, d]).0 == c.grant(a).unwrap().grant(b).unwrap().grant(d).unwrap(),
{
    assert(seq![a, b, d].drop_first() =~= seq![b, d]);
    lemma_read2(c.grant(a).unwrap(), b, d);
}

proof fn lemma_read4(c: Castle, a: char, b: char, d: char, e: char)
    requires
        c.grant(a) is Some,
        c.grant(a).unwrap().grant(b) is Some,
        c.grant(a).unwrap().grant(b).unwrap().grant(d) is Some,
        c.grant(a).unwrap().grant(b).unwrap().grant(d).unwrap().grant(e) is Some,
    ensures
        c.read(seq![a, b, d, e]).0 == c.grant(a).unwrap().grant(b).unwrap().grant(d).unwrap().grant(
            e,
        ).unwrap(),
{
    assert(seq![a, b, d, e].drop_first() =~= seq![b, d, e]);
    lemma_read3(c.grant(a).unwrap(), b, d, e);
}

/// The en-passant field of a target on the board has no white space, is
/// well formed and reads back as the target.
pub proof fn lemma_passant_text(target: Option<Position>)
    requires
        target matches Some(p) ==> p.valid(),
    ensures
        passant_text(target).len() > 0,
        solid(passant_text(target)),
        passant_field_ok(passant_text(target)),
        passant_value(passant_text(target)) == target,
{
    match target {
        Some(p) => {
            let t = square_text(p);
            assert(t[0] == ('a' as int + p.file) as char);
            assert(t[1] == digit_char(p.rank + 1));
            assert(t != seq!['-']) by {
                assert(t.len() == 2);
            }
        },
        None => {},
    }
}

/// The squares that a placement text has laid when it stands before file
/// `file` of rank `rank`: those of `squares` on the ranks above and on the
/// files before, and no piece elsewhere.
pub open spec fn laid(squares: Seq<Option<Piece>>, rank: int, file: int) -> Seq<Option<Piece>> {
    Seq::new(
        64,
        |i: int|
            if i >= (rank + 1) * 8 || (rank * 8 <= i < rank * 8 + file) {
                squares[i]
            } else {
                None
            },
    )
}

/// The letter of a piece is neither white space, nor a digit, nor `/`.
proof fn lemma_letter(p: Piece)
    ensures
        !is_space(p.letter()),
        !is_digit(p.letter()),
        p.letter() != '/',
        Piece::from_letter(p.letter()) == p,
{
}

/// The digit of a run of one to eight empty squares.
proof fn lemma_run_digit(run: int)
    requires
        1 <= run <= 9,
    ensures
        is_digit(digit_char(run)),
        digit_value(digit_char(run)) == run,
        !is_space(digit_char(run)),
        digit_char(run) != '/',
{
}

/// The text of a rank has no white space, and is not empty where it has
/// something to tell.
proof fn lemma_rank_text_solid(squares: Seq<Option<Piece>>, rank: int, file: int, run: int)
    requires
        0 <= run <= file <= 8,
    ensures
        solid(rank_text(squares, rank, file, run)),
        file < 8 || run > 0 ==> rank_text(squares, rank, file, run).len() > 0,
    decreases 8 - file,
{
    let text = rank_text(squares, rank, file, run);
    if run > 0 {
        lemma_run_digit(run);
    }
    if file < 8 {
        match squares[rank * 8 + file] {
            None => {
                lemma_rank_text_solid(squares, rank, file + 1, run + 1);
            },
            Some(p) => {
                lemma_rank_text_solid(squares, rank, file + 1, 0);
                lemma_letter(p);
                let gap = if run > 0 {
                    seq![digit_char(run)]
                } else {
                    Seq::<char>::empty()
                };
                let rest = rank_text(squares, rank, file + 1, 0);
                assert(text == gap + seq![p.letter()] + rest);
                assert forall|i: int| 0 <= i < text.len() implies !is_space(#[trigger] text[i]) by {
                    if i < gap.len() {
                        assert(text[i] == gap[i]);
                    } else if i == gap.len() {
                        assert(text[i] == p.letter());
                    } else {
                        assert(text[i] == rest[i - gap.len() - 1]);
                    }
                }
            },
        }
    }
}

/// The placement field has no white space and is not empty.
proof fn lemma_placement_solid(squares: Seq<Option<Piece>>, rank: int)
    requires
        0 <= rank < 8,
    ensures
        solid(placement_text(squares, rank)),
        placement_text(squares, rank).len() > 0,
    decreases rank,
{
    lemma_rank_text_solid(squares, rank, 0, 0);
    if rank > 0 {
        lemma_placement_solid(squares, rank - 1);
        let head = rank_text(squares, rank, 0, 0);
        let tail = placement_text(squares, rank - 1);
        let text = placement_text(squares, rank);
        assert(text == head + seq!['/'] + tail);
        assert forall|i: int| 0 <= i < text.len() implies !is_space(#[trigger] text[i]) by {
            if i < head.len() {
                assert(text[i] == head[i]);
            } else if i == head.len() {
                assert(text[i] == '/');
            } else {
                assert(text[i] == tail[i - head.len() - 1]);
            }
        }
    }
}

/// Reading the text of the rest of a rank lays the rest of the rank.
proof fn lemma_place_rank(
    squares: Seq<Option<Piece>>,
    rank: int,
    file: int,
    run: int,
    rest: Seq<char>,
)
    requires
        squares.len() == 64,
        0 <= rank < 8,
        0 <= run <= file <= 8,
        forall|i: int| rank * 8 + file - run <= i < rank * 8 + file ==> squares[i] is None,
    ensures
        place(
            laid(squares, rank, file),
            rank_text(squares, rank, file, run) + rest,
            7 - rank,
            file - run,
        ) == place(laid(squares, rank, 8), rest, 7 - rank, 8),
    decreases 8 - file,
{
    let here = laid(squares, rank, file);
    let text = rank_text(squares, rank, file, run) + rest;
    let gap = if run > 0 {
        seq![digit_char(run)]
    } else {
        Seq::<char>::empty()
    };
    if run > 0 {
        lemma_run_digit(run);
    }
    if file >= 8 {
        if run > 0 {
            assert(text[0] == digit_char(run));
            assert(text.drop_first() =~= rest);
        } else {
            assert(text =~= rest);
        }
    } else {
        match squares[rank * 8 + file] {
            None => {
                lemma_place_rank(squares, rank, file + 1, run + 1, rest);
                assert(laid(squares, rank, file + 1) =~= here);
            },
            Some(p) => {
                lemma_letter(p);
                lemma_place_rank(squares, rank, file + 1, 0, rest);
                let tail = rank_text(squares, rank, file + 1, 0) + rest;
                let after_gap = seq![p.letter()] + tail;
                assert(text =~= gap + after_gap);
                if run > 0 {
                    assert(text[0] == digit_char(run));
                    assert(text.drop_first() =~= after_gap);
                    assert(place(here, text, 7 - rank, file - run) == place(
                        here,
                        after_gap,
                        7 - rank,
                        file,
                    ));
                } else {
                    assert(text =~= after_gap);
                }
                assert(after_gap[0] == p.letter());
                assert(after_gap.drop_first() =~= tail);
                assert(here.update((7 - (7 - rank)) * 8 + file, Some(p)) =~= laid(
                    squares,
                    rank,
                    file + 1,
                ));
                assert(place(here, after_gap, 7 - rank, file) == place(
                    laid(squares, rank, file + 1),
                    tail,
                    7 - rank,
                    file + 1,
                ));
            },
        }
    }
}

/// Reading the placement field of the ranks from `rank` down lays those
/// ranks.
proof fn lemma_place_ranks(squares: Seq<Option<Piece>>, rank: int)
    requires
        squares.len() == 64,
        0 <= rank < 8,
    ensures
        place(laid(squares, rank, 0), placement_text(squares, rank), 7 - rank, 0) == squares,
    decreases rank,
{
    if rank == 0 {
        lemma_place_rank(squares, 0, 0, 0, Seq::empty());
        assert(rank_text(squares, 0, 0, 0) + Seq::<char>::empty() =~= placement_text(squares, 0));
        assert(laid(squares, 0, 8) =~= squares);
    } else {
        let tail = placement_text(squares, rank - 1);
        let rest = seq!['/'] + tail;
        lemma_place_rank(squares, rank, 0, 0, rest);
        lemma_place_ranks(squares, rank - 1);
        assert(rank_text(squares, rank, 0, 0) + rest =~= placement_text(squares, rank));
        assert(rest[0] == '/');
        assert(rest.drop_first() =~= tail);
        assert(laid(squares, rank, 8) =~= laid(squares, rank - 1, 0));
    }
}

/// The six fields of the text of a position.
pub open spec fn fen_fields(b: BoardView) -> Seq<Seq<char>> {
    seq![
        placement_text(b.squares, 7),
        seq![b.turn.letter()],
        b.castling.text(),
        passant_text(b.passant_target),
        decimal(b.halfmove as nat),
        decimal(b.fullmove as nat),
    ]
}

/// Six fields with one space between them split into the six fields.
proof fn lemma_six_fields(
    p: Seq<char>,
    t: Seq<char>,
    c: Seq<char>,
    e: Seq<char>,
    h: Seq<char>,
    f: Seq<char>,
)
    requires
        solid(p) && p.len() > 0,
        solid(t) && t.len() > 0,
        solid(c) && c.len() > 0,
        solid(e) && e.len() > 0,
        solid(h) && h.len() > 0,
        solid(f) && f.len() > 0,
    ensures
        fields(p + seq![' '] + t + seq![' '] + c + seq![' '] + e + seq![' '] + h + seq![' '] + f)
            == seq![p, t, c, e, h, f],
{
    let space = seq![' '];
    let r4 = h + space + f;
    let r3 = e + space + r4;
    let r2 = c + space + r3;
    let r1 = t + space + r2;
    lemma_split_last(f);
    lemma_split_first(h, f);
    assert(fields(r4) =~= seq![h, f]);
    lemma_split_first(e, r4);
    assert(fields(r3) =~= seq![e, h, f]);
    lemma_split_first(c, r3);
    assert(fields(r2) =~= seq![c, e, h, f]);
    lemma_split_first(t, r2);
    assert(fields(r1) =~= seq![t, c, e, h, f]);
    lemma_split_first(p, r1);
    assert(fields(p + space + r1) =~= seq![p, t, c, e, h, f]);
    assert(p + space + t + space + c + space + e + space + h + space + f =~= p + space + r1);
}

/// The text of a position splits into its six fields.
pub proof fn lemma_fen_fields(b: BoardView)
    requires
        b.passant_target matches Some(t) ==> t.valid(),
    ensures
        fields(fen_text(b)) == fen_fields(b),
{
    let p = placement_text(b.squares, 7);
    let t = seq![b.turn.letter()];
    let c = b.castling.text();
    let e = passant_text(b.passant_target);
    let h = decimal(b.halfmove as nat);
    let f = decimal(b.fullmove as nat);
    lemma_placement_solid(b.squares, 7);
    lemma_castling_text(b.castling);
    lemma_passant_text(b.passant_target);
    lemma_decimal(b.halfmove as nat);
    lemma_decimal(b.fullmove as nat);
    assert(solid(t)) by {
        assert(t[0] == b.turn.letter());
    }
    lemma_six_fields(p, t, c, e, h, f);
    assert(fen_text(b) =~= p + seq![' '] + t + seq![' '] + c + seq![' '] + e + seq![' '] + h
        + seq![' '] + f);
}

/// Writing a position and reading the text gives the position back:
/// placement, side to move, castling rights, en-passant target and both
/// clocks. The overlay and the log of moves are not part of the text and
/// stay those of the board that is read onto.
pub proof fn lemma_fen_round_trip(b: BoardView, onto: BoardView)
    requires
        b.wf(),
        b.passant_target matches Some(t) ==> t.valid(),
    ensures
        fen_outcome(onto, fen_text(b)) == Some(
            BoardView { entities: onto.entities, history: onto.history, ..b },
        ),
{
    let parts = fields(fen_text(b));
    lemma_fen_fields(b);
    assert(parts == fen_fields(b));
    assert(parts.len() == 6);
    assert(place(no_pieces(), parts[0], 0, 0) == b.squares) by {
        lemma_place_ranks(b.squares, 7);
        assert(laid(b.squares, 7, 0) =~= no_pieces());
    }
    assert(Color::parse(parts[1]) == b.turn) by {
        assert(parts[1][0] == b.turn.letter());
        if b.turn == Color::Black {
            assert(parts[1] =~= seq!['b']);
        } else {
            assert(seq!['b'][0] == 'b');
        }
    }
    assert(Castle::named(parts[2]) == Some(b.castling)) by {
        lemma_castling_text(b.castling);
    }
    assert(passant_field_ok(parts[3]) && passant_value(parts[3]) == b.passant_target) by {
        lemma_passant_text(b.passant_target);
    }
    assert(number_value(parts[4]) == Some(b.halfmove)) by {
        lemma_decimal(b.halfmove as nat);
    }
    assert(number_value(parts[5]) == Some(b.fullmove)) by {
        lemma_decimal(b.fullmove as nat);
    }
}

} // verus!

//! The bit-packed board and the square aliases.

use vstd::prelude::*;
use crate::bits::{
    bit, count_bits, count_ones, lemma_bit_and, lemma_bit_clear, lemma_bit_not, lemma_bit_read,
    lemma_bit_set, lemma_bit_zero,
};
use crate::controller::{CheckersColor, Figure};
use crate::error::CheckersError;

verus! {

/// What one usable square holds: a piece or nothing, and whether a piece
/// was captured on it during the turn in progress.
#[derive(Copy, Clone)]
pub struct Square {
    pub figure: Option<Figure>,
    pub was_jumped_over: bool,
}

impl Square {
    /// A square with the given content and capture mark.
    pub fn new(figure: Option<Figure>, was_jumped_over: bool) -> (square: Self)
        ensures
            square == (Square { figure, was_jumped_over }),
    {
        Self { figure, was_jumped_over }
    }

    /// Whether a piece stands on the square.
    pub fn has_figure(&self) -> (has: bool)
        ensures
            has == self.figure.is_some(),
    {
        self.figure.is_some()
    }
}

/// Whether `(x, y)` lies on the board.
pub open spec fn on_board(x: int, y: int) -> bool {
    0 <= x <= 7 && 0 <= y <= 7
}

/// Whether `(x, y)` is one of the 32 squares that pieces stand on.
pub open spec fn usable(x: int, y: int) -> bool {
    on_board(x, y) && x % 2 == y % 2
}

/// The index of a usable square among the 32.
pub open spec fn square_index(x: int, y: int) -> int {
    x / 2 + y * 4
}

/// The piece that three state bits encode.
pub open spec fn decode(occupied: bool, dark: bool, king: bool) -> Option<Figure> {
    if !occupied {
        None
    } else {
        let color = if dark {
            CheckersColor::Black
        } else {
            CheckersColor::White
        };
        if king {
            Some(Figure::Queen(color))
        } else {
            Some(Figure::Pawn(color))
        }
    }
}

/// The piece on `(x, y)` in a sequence of the 32 squares; nothing stands
/// off the usable squares.
pub open spec fn figure_on(squares: Seq<Square>, x: int, y: int) -> Option<Figure> {
    if usable(x, y) {
        squares[square_index(x, y)].figure
    } else {
        None
    }
}

/// Whether `(x, y)` is marked as captured on; never so off the usable
/// squares.
pub open spec fn flagged_on(squares: Seq<Square>, x: int, y: int) -> bool {
    usable(x, y) && squares[square_index(x, y)].was_jumped_over
}

/// The squares after a piece, or nothing, is put on `(x, y)`. The capture
/// mark of the square stays; off the usable squares nothing changes.
pub open spec fn put(squares: Seq<Square>, x: int, y: int, figure: Option<Figure>) -> Seq<Square> {
    if usable(x, y) {
        let i = square_index(x, y);
        squares.update(i, Square { figure, was_jumped_over: squares[i].was_jumped_over })
    } else {
        squares
    }
}

/// The squares after the capture mark of `(x, y)` is set to `flag`.
pub open spec fn mark(squares: Seq<Square>, x: int, y: int, flag: bool) -> Seq<Square> {
    if usable(x, y) {
        let i = square_index(x, y);
        squares.update(i, Square { figure: squares[i].figure, was_jumped_over: flag })
    } else {
        squares
    }
}

/// The squares with every capture mark cleared.
pub open spec fn unmarked(squares: Seq<Square>) -> Seq<Square> {
    Seq::new(squares.len(), |i: int| Square { figure: squares[i].figure, was_jumped_over: false })
}

/// The 32 empty, unmarked squares.
pub open spec fn empty_squares() -> Seq<Square> {
    Seq::new(32, |i: int| Square { figure: None, was_jumped_over: false })
}

/// The number of squares among the first `n` that hold `figure`.
pub open spec fn count_figure(squares: Seq<Square>, figure: Figure, n: nat) -> nat
    decreases n,
{
    if n == 0 {
        0
    } else {
        count_figure(squares, figure, (n - 1) as nat) + if squares[n - 1].figure == Some(figure) {
            1nat
        } else {
            0nat
        }
    }
}

/// The number of pieces of one side and rank on the 32 squares.
pub open spec fn count_of(squares: Seq<Square>, figure: Figure) -> nat {
    count_figure(squares, figure, 32)
}

/// The letter `A`-`H` of column `x`.
pub open spec fn column_letter(x: int) -> char {
    (x + 65) as char
}

/// The digit `1`-`8` of row `y`.
pub open spec fn row_digit(y: int) -> char {
    (y + 49) as char
}

/// The alias of the square `(x, y)`: its column letter, then its row digit.
pub open spec fn alias_text(x: int, y: int) -> Seq<char> {
    seq![column_letter(x), row_digit(y)]
}

/// The coordinates that an alias names, if it is one: a column letter in
/// either case, then a row digit.
pub open spec fn parse_alias(text: Seq<char>) -> Option<(u8, u8)> {
    if text.len() != 2 {
        None
    } else {
        let letter = text[0];
        let digit = text[1];
        if !('1' <= digit <= '8') {
            None
        } else if 'A' <= letter <= 'H' {
            Some(((letter as int - 65) as u8, (digit as int - 49) as u8))
        } else if 'a' <= letter <= 'h' {
            Some(((letter as int - 97) as u8, (digit as int - 49) as u8))
        } else {
            None
        }
    }
}

/// `String::push`: appends one character to the end of the string.
#[verifier::external_body]
fn push_char(text: &mut String, c: char)
    ensures
        final(text)@ == old(text)@.push(c),
{
    text.push(c);
}

/// The alias of the square `(x, y)`, such as `A1` for `(0, 0)`.
pub fn alias(x: u8, y: u8) -> (text: String)
    requires
        x <= 7,
        y <= 7,
    ensures
        text@ == alias_text(x as int, y as int),
{
    let mut ret = String::new();
    let col = (x + 65u8) as char;
    let row = (y + 49u8) as char;
    push_char(&mut ret, col);
    push_char(&mut ret, row);
    assert(ret@ =~= alias_text(x as int, y as int));
    ret
}

/// The coordinates of the square that `alias` names.
pub fn coords_from_alias(alias: &str) -> (coords: Result<(u8, u8), CheckersError>)
    ensures
        match parse_alias(alias@) {
            Some(square) => coords == Ok::<(u8, u8), CheckersError>(square),
            None => coords == Err::<(u8, u8), CheckersError>(CheckersError::InvalidAlias),
        },
{
    if alias.unicode_len() != 2 {
        return Err(CheckersError::InvalidAlias);
    }
    let letter = alias.get_char(0);
    let digit = alias.get_char(1);
    if !('1' <= digit && digit <= '8') {
        return Err(CheckersError::InvalidAlias);
    }
    let y = digit as u8 - 49u8;
    if 'A' <= letter && letter <= 'H' {
        Ok((letter as u8 - 65u8, y))
    } else if 'a' <= letter && letter <= 'h' {
        Ok((letter as u8 - 97u8, y))
    } else {
        Err(CheckersError::InvalidAlias)
    }
}

/// Every square's alias names that square again.
pub proof fn lemma_alias_round_trip(x: u8, y: u8)
    requires
        x <= 7,
        y <= 7,
    ensures
        parse_alias(alias_text(x as int, y as int)) == Some((x, y)),
{
}

/// Distinct squares have distinct aliases, and an alias written with a
/// capital letter is the alias of the square it names.
pub proof fn lemma_alias_bijection(text: Seq<char>)
    requires
        parse_alias(text) is Some,
        'A' <= text[0] <= 'H',
    ensures
        ({
            let (x, y) = parse_alias(text).unwrap();
            x <= 7 && y <= 7 && alias_text(x as int, y as int) == text
        }),
{
    let (x, y) = parse_alias(text).unwrap();
    assert(alias_text(x as int, y as int) =~= text);
}

/// The 32 squares at the start of a game: twelve white men on the three
/// lowest rows, twelve black men on the three highest.
pub open spec fn start_squares() -> Seq<Square> {
    Seq::new(
        32,
        |i: int|
            Square {
                figure: if i < 12 {
                    Some(Figure::Pawn(CheckersColor::White))
                } else if i >= 20 {
                    Some(Figure::Pawn(CheckersColor::Black))
                } else {
                    None
                },
                was_jumped_over: false,
            },
    )
}

/// The squares after the first `n` of `positions` are placed, in order,
/// on an empty board.
pub open spec fn placed(positions: Seq<(u8, u8, Figure)>, n: nat) -> Seq<Square>
    decreases n,
{
    if n == 0 {
        empty_squares()
    } else {
        let (x, y, figure) = positions[n - 1];
        put(placed(positions, (n - 1) as nat), x as int, y as int, Some(figure))
    }
}

/// The squares after the first `n` of `positions`, each given by its
/// alias, are placed in order on an empty board.
pub open spec fn placed_by_alias(positions: Seq<(&str, Figure)>, n: nat) -> Seq<Square>
    decreases n,
{
    if n == 0 {
        empty_squares()
    } else {
        let (text, figure) = positions[n - 1];
        let (x, y) = parse_alias(text@).unwrap();
        put(placed_by_alias(positions, (n - 1) as nat), x as int, y as int, Some(figure))
    }
}

/// The piece that a character of a text grid stands for. Whatever is not
/// one of the four other symbols is a black king.
pub open spec fn symbol_figure(
    c: char,
    empty: char,
    white_pieces: (char, char),
    black_pieces: (char, char),
) -> Option<Figure> {
    if c == empty {
        None
    } else if c == white_pieces.0 {
        Some(Figure::Pawn(CheckersColor::White))
    } else if c == white_pieces.1 {
        Some(Figure::Queen(CheckersColor::White))
    } else if c == black_pieces.0 {
        Some(Figure::Pawn(CheckersColor::Black))
    } else {
        Some(Figure::Queen(CheckersColor::Black))
    }
}

/// The column and the row of the character at index `n` of a text grid
/// whose rows are separated by line feeds. The first row of the text is
/// row 0 of the board.
pub open spec fn grid_cursor(text: Seq<char>, n: nat) -> (int, int)
    decreases n,
{
    if n == 0 {
        (0, 0)
    } else {
        let (x, y) = grid_cursor(text, (n - 1) as nat);
        if text[n - 1] == '\n' {
            (0, y + 1)
        } else {
            (x + 1, y)
        }
    }
}

/// Whether each of the first `n` characters of a text grid, line feeds
/// aside, stands on the board.
pub open spec fn grid_fits(text: Seq<char>, n: nat) -> bool {
    forall|i: nat|
        i < n && text[i as int] != '\n' ==> on_board(
            (#[trigger] grid_cursor(text, i)).0,
            grid_cursor(text, i).1,
        )
}

/// The squares after the first `n` characters of a text grid are read.
pub open spec fn grid_squares(
    text: Seq<char>,
    n: nat,
    empty: char,
    white_pieces: (char, char),
    black_pieces: (char, char),
) -> Seq<Square>
    decreases n,
{
    if n == 0 {
        empty_squares()
    } else {
        let before = grid_squares(text, (n - 1) as nat, empty, white_pieces, black_pieces);
        let c = text[n - 1];
        if c == '\n' {
            before
        } else {
            let (x, y) = grid_cursor(text, (n - 1) as nat);
            put(before, x, y, symbol_figure(c, empty, white_pieces, black_pieces))
        }
    }
}

/// An 8x8 board over its 32 usable squares, one bit per square in each of
/// four masks. Bit `x / 2 + y * 4` stands for the usable square `(x, y)`.
#[derive(Copy, Clone, Debug)]
pub struct Board {
    pub occupation: u32,
    pub color: u32,
    pub figure: u32,
    pub flags: u32,
}

impl View for Board {
    type V = Seq<Square>;

    /// The 32 usable squares. The color and rank bits of an empty square
    /// mean nothing.
    open spec fn view(&self) -> Seq<Square> {
        Seq::new(
            32,
            |i: int|
                Square {
                    figure: decode(
                        bit(self.occupation, i as u32),
                        bit(self.color, i as u32),
                        bit(self.figure, i as u32),
                    ),
                    was_jumped_over: bit(self.flags, i as u32),
                },
        )
    }
}

impl Board {
    /// The board without any piece or mark.
    pub fn empty() -> (board: Self)
        ensures
            board@ == empty_squares(),
            board.occupation == 0 && board.color == 0 && board.figure == 0 && board.flags == 0,
    {
        let board = Self { occupation: 0, color: 0, figure: 0, flags: 0 };
        proof {
            let empty = empty_squares();
            assert forall|i: int| 0 <= i < 32 implies #[trigger] board@[i] == empty[i] by {
                lemma_bit_zero(i as u32);
            }
            assert(board@ =~= empty_squares());
        }
        board
    }

    /// Reads a board from a text grid: one row per line, one character per
    /// square, the first line being row 0. A character outside the 8x8
    /// grid is refused.
    pub fn from_str_repr(
        repr: &str,
        empty: char,
        white_pieces: (char, char),
        black_pieces: (char, char),
    ) -> (board: Result<Self, CheckersError>)
        ensures
            grid_fits(repr@, repr@.len()) ==> board is Ok && board.unwrap()@ == grid_squares(
                repr@,
                repr@.len(),
                empty,
                white_pieces,
                black_pieces,
            ),
            !grid_fits(repr@, repr@.len()) ==> board == Err::<Self, CheckersError>(
                CheckersError::OutOfBounds,
            ),
    {
        let mut ret = Self::empty();
        let len = repr.unicode_len();
        let mut x: usize = 0;
        let mut y: usize = 0;
        let mut i: usize = 0;
        while i < len
            invariant
                i <= len,
                len == repr@.len(),
                (x as int, y as int) == grid_cursor(repr@, i as nat),
                x <= i,
                y <= i,
                grid_fits(repr@, i as nat),
                ret@ == grid_squares(repr@, i as nat, empty, white_pieces, black_pieces),
            decreases len - i,
        {
            let c = repr.get_char(i);
            if c == '\n' {
                y = y + 1;
                x = 0;
            } else {
                if x > 7 || y > 7 {
                    return Err(CheckersError::OutOfBounds);
                }
                let figure = if c == empty {
                    None
                } else if c == white_pieces.0 {
                    Some(Figure::Pawn(CheckersColor::White))
                } else if c == white_pieces.1 {
                    Some(Figure::Queen(CheckersColor::White))
                } else if c == black_pieces.0 {
                    Some(Figure::Pawn(CheckersColor::Black))
                } else {
                    Some(Figure::Queen(CheckersColor::Black))
                };
                ret.set(x as u8, y as u8, figure);
                x = x + 1;
            }
            i = i + 1;
        }
        Ok(ret)
    }

    /// The board that holds the given pieces and nothing else. A later
    /// entry for a square replaces an earlier one.
    pub fn from_positions(positions: &[(u8, u8, Figure)]) -> (board: Self)
        requires
            forall|i: int|
                0 <= i < positions@.len() ==> positions@[i].0 <= 7 && positions@[i].1 <= 7,
        ensures
            board@ == placed(positions@, positions@.len()),
    {
        let mut ret = Self::empty();
        let mut i: usize = 0;
        while i < positions.len()
            invariant
                i <= positions@.len(),
                forall|i: int|
                    0 <= i < positions@.len() ==> positions@[i].0 <= 7 && positions@[i].1 <= 7,
                ret@ == placed(positions@, i as nat),
            decreases positions@.len() - i,
        {
            let (x, y, figure) = positions[i];
            ret.set(x, y, Some(figure));
            i = i + 1;
        }
        ret
    }

    /// The board that holds the given pieces, each on the square that its
    /// alias names, and nothing else.
    pub fn from_alias_positions(positions: &[(&str, Figure)]) -> (board: Result<
        Self,
        CheckersError,
    >)
        ensures
            (forall|i: int| 0 <= i < positions@.len() ==> parse_alias(positions@[i].0@) is Some)
                ==> board is Ok && board.unwrap()@ == placed_by_alias(
                positions@,
                positions@.len(),
            ),
            (exists|i: int| 0 <= i < positions@.len() && parse_alias(positions@[i].0@) is None)
                ==> board == Err::<Self, CheckersError>(CheckersError::InvalidAlias),
    {
        let mut ret = Self::empty();
        let mut i: usize = 0;
        while i < positions.len()
            invariant
                i <= positions@.len(),
                forall|k: int| 0 <= k < i ==> parse_alias(positions@[k].0@) is Some,
                ret@ == placed_by_alias(positions@, i as nat),
            decreases positions@.len() - i,
        {
            let (text, figure) = positions[i];
            match coords_from_alias(text) {
                Ok((x, y)) => {
                    ret.set(x, y, Some(figure));
                },
                Err(_) => {
                    return Err(CheckersError::InvalidAlias);
                },
            }
            i = i + 1;
        }
        Ok(ret)
    }

    /// The piece on the square that `alias` names.
    pub fn at_alias(&self, alias: &str) -> (figure: Result<Option<Figure>, CheckersError>)
        ensures
            match parse_alias(alias@) {
                Some((x, y)) => figure == Ok::<Option<Figure>, CheckersError>(
                    figure_on(self@, x as int, y as int),
                ),
                None => figure == Err::<Option<Figure>, CheckersError>(CheckersError::InvalidAlias),
            },
    {
        match coords_from_alias(alias) {
            Ok((x, y)) => Ok(self.at(x, y)),
            Err(_) => Err(CheckersError::InvalidAlias),
        }
    }

    /// The number of the bit that stands for the usable square `(x, y)`.
    pub fn calculate_shift(x: u8, y: u8) -> (shift: u8)
        requires
            x <= 7,
            y <= 7,
        ensures
            shift == square_index(x as int, y as int),
            shift < 32,
    {
        x / 2 + y * 4
    }

    /// The piece on `(x, y)`, if any.
    pub fn at(&self, x: u8, y: u8) -> (figure: Option<Figure>)
        requires
            x <= 7,
            y <= 7,
        ensures
            figure == figure_on(self@, x as int, y as int),
    {
        if x % 2 != y % 2 {
            return None;
        }
        let shift = Self::calculate_shift(x, y) as u32;
        proof {
            lemma_bit_read(self.occupation, shift);
            lemma_bit_read(self.figure, shift);
            lemma_bit_read(self.color, shift);
        }
        let occupation = (self.occupation >> shift) & 1;
        if occupation == 0 {
            return None;
        }
        let figure = (self.figure >> shift) & 1;
        let color = (self.color >> shift) & 1;
        if figure == 0 {
            if color == 0 {
                Some(Figure::Pawn(CheckersColor::White))
            } else {
                Some(Figure::Pawn(CheckersColor::Black))
            }
        } else {
            if color == 0 {
                Some(Figure::Queen(CheckersColor::White))
            } else {
                Some(Figure::Queen(CheckersColor::Black))
            }
        }
    }

    /// Puts `figure`, or nothing, on `(x, y)`. Only usable squares store
    /// anything.
    pub fn set(&mut self, x: u8, y: u8, figure: Option<Figure>)
        requires
            x <= 7,
            y <= 7,
        ensures
            final(self)@ == put(old(self)@, x as int, y as int, figure),
    {
        if x % 2 == y % 2 {
            let shift = Self::calculate_shift(x, y) as u32;
            let (occupation, color, kind, _) = match figure {
                Some(figure) => figure.bits(),
                None => (0, 0, 0, 0),
            };
            self.occupation = with_bit(self.occupation, shift, occupation == 1);
            self.color = with_bit(self.color, shift, color == 1);
            self.figure = with_bit(self.figure, shift, kind == 1);
            proof {
                let after = put(old(self)@, x as int, y as int, figure);
                assert forall|i: int| 0 <= i < 32 implies #[trigger] self@[i] == after[i] by {
                    assert(i as u32 == shift <==> i == shift as int);
                }
                assert(self@ =~= after);
            }
        }
    }

    /// Sets or clears the capture mark of `(x, y)`.
    pub fn set_flag(&mut self, x: u8, y: u8, flag: bool)
        requires
            x <= 7,
            y <= 7,
        ensures
            final(self)@ == mark(old(self)@, x as int, y as int, flag),
    {
        if x % 2 == y % 2 {
            let shift = Self::calculate_shift(x, y) as u32;
            self.flags = with_bit(self.flags, shift, flag);
            proof {
                let after = mark(old(self)@, x as int, y as int, flag);
                assert forall|i: int| 0 <= i < 32 implies #[trigger] self@[i] == after[i] by {
                    assert(i as u32 == shift <==> i == shift as int);
                }
                assert(self@ =~= after);
            }
        }
    }

    /// Clears every capture mark.
    pub fn reset_flags(&mut self)
        ensures
            final(self)@ == unmarked(old(self)@),
    {
        self.flags = 0;
        proof {
            let cleared = unmarked(old(self)@);
            assert forall|i: int| 0 <= i < 32 implies #[trigger] self@[i] == cleared[i] by {
                lemma_bit_zero(i as u32);
            }
            assert(self@ =~= unmarked(old(self)@));
        }
    }

    /// The number of pieces of the side `color`.
    pub fn num_figures(&self, color: CheckersColor) -> (n: u32)
        ensures
            n == count_of(self@, Figure::Pawn(color)) + count_of(self@, Figure::Queen(color)),
    {
        match color {
            CheckersColor::White => self.num_white_figures(),
            CheckersColor::Black => self.num_black_figures(),
        }
    }

    /// The number of men of the side `color`.
    pub fn num_pawns(&self, color: CheckersColor) -> (n: u32)
        ensures
            n == count_of(self@, Figure::Pawn(color)),
    {
        match color {
            CheckersColor::White => self.num_white_pawns(),
            CheckersColor::Black => self.num_black_pawns(),
        }
    }

    /// The number of kings of the side `color`.
    pub fn num_queens(&self, color: CheckersColor) -> (n: u32)
        ensures
            n == count_of(self@, Figure::Queen(color)),
    {
        match color {
            CheckersColor::White => self.num_white_queens(),
            CheckersColor::Black => self.num_black_queens(),
        }
    }

    /// The number of white pieces.
    pub fn num_white_figures(&self) -> (n: u32)
        ensures
            n == count_of(self@, Figure::Pawn(CheckersColor::White)) + count_of(
                self@,
                Figure::Queen(CheckersColor::White),
            ),
    {
        let mask = self.occupation & !self.color;
        proof {
            assert forall|j: u32| j < 32 implies bit(mask, j) == (bit(self.occupation, j) && !bit(
                self.color,
                j,
            )) by {
                lemma_bit_and(self.occupation, !self.color, j);
                lemma_bit_not(self.color, j);
            }
            lemma_count_side(mask, self@, CheckersColor::White, 32);
        }
        count_ones(mask)
    }

    /// The number of white men.
    pub fn num_white_pawns(&self) -> (n: u32)
        ensures
            n == count_of(self@, Figure::Pawn(CheckersColor::White)),
    {
        let mask = self.occupation & !self.color & !self.figure;
        proof {
            assert forall|j: u32| j < 32 implies bit(mask, j) == (bit(self.occupation, j) && !bit(
                self.color,
                j,
            ) && !bit(self.figure, j)) by {
                lemma_bit_and(self.occupation & !self.color, !self.figure, j);
                lemma_bit_and(self.occupation, !self.color, j);
                lemma_bit_not(self.color, j);
                lemma_bit_not(self.figure, j);
            }
            lemma_count_piece(mask, self@, Figure::Pawn(CheckersColor::White), 32);
        }
        count_ones(mask)
    }

    /// The number of white kings.
    pub fn num_white_queens(&self) -> (n: u32)
        ensures
            n == count_of(self@, Figure::Queen(CheckersColor::White)),
    {
        let mask = self.occupation & !self.color & self.figure;
        proof {
            assert forall|j: u32| j < 32 implies bit(mask, j) == (bit(self.occupation, j) && !bit(
                self.color,
                j,
            ) && bit(self.figure, j)) by {
                lemma_bit_and(self.occupation & !self.color, self.figure, j);
                lemma_bit_and(self.occupation, !self.color, j);
                lemma_bit_not(self.color, j);
            }
            lemma_count_piece(mask, self@, Figure::Queen(CheckersColor::White), 32);
        }
        count_ones(mask)
    }

    /// The number of black pieces.
    pub fn num_black_figures(&self) -> (n: u32)
        ensures
            n == count_of(self@, Figure::Pawn(CheckersColor::Black)) + count_of(
                self@,
                Figure::Queen(CheckersColor::Black),
            ),
    {
        let mask = self.occupation & self.color;
        proof {
            assert forall|j: u32| j < 32 implies bit(mask, j) == (bit(self.occupation, j) && bit(
                self.color,
                j,
            )) by {
                lemma_bit_and(self.occupation, self.color, j);
            }
            lemma_count_side(mask, self@, CheckersColor::Black, 32);
        }
        count_ones(mask)
    }

    /// The number of black men.
    pub fn num_black_pawns(&self) -> (n: u32)
        ensures
            n == count_of(self@, Figure::Pawn(CheckersColor::Black)),
    {
        let mask = self.occupation & self.color & !self.figure;
        proof {
            assert forall|j: u32| j < 32 implies bit(mask, j) == (bit(self.occupation, j) && bit(
                self.color,
                j,
            ) && !bit(self.figure, j)) by {
                lemma_bit_and(self.occupation & self.color, !self.figure, j);
                lemma_bit_and(self.occupation, self.color, j);
                lemma_bit_not(self.figure, j);
            }
            lemma_count_piece(mask, self@, Figure::Pawn(CheckersColor::Black), 32);
        }
        count_ones(mask)
    }

    /// The number of black kings.
    pub fn num_black_queens(&self) -> (n: u32)
        ensures
            n == count_of(self@, Figure::Queen(CheckersColor::Black)),
    {
        let mask = self.occupation & self.color & self.figure;
        proof {
            assert forall|j: u32| j < 32 implies bit(mask, j) == (bit(self.occupation, j) && bit(
                self.color,
                j,
            ) && bit(self.figure, j)) by {
                lemma_bit_and(self.occupation & self.color, self.figure, j);
                lemma_bit_and(self.occupation, self.color, j);
            }
            lemma_count_piece(mask, self@, Figure::Queen(CheckersColor::Black), 32);
        }
        count_ones(mask)
    }
}

impl Default for Board {
    /// The board at the start of a game.
    fn default() -> (board: Self)
        ensures
            board@ == start_squares(),
    {
        let board = Self {
            occupation: 0b11111111111100000000111111111111,
            color: 0b11111111111100000000000000000000,
            figure: 0,
            flags: 0,
        };
        proof {
            let start = start_squares();
            assert forall|i: int| 0 <= i < 32 implies #[trigger] board@[i] == start[i] by {
                let j = i as u32;
                lemma_bit_zero(j);
                assert(bit(0b11111111111100000000111111111111u32, j) == (j < 12 || j >= 20))
                    by (bit_vector)
                    requires
                        j < 32,
                ;
                assert(bit(0b11111111111100000000000000000000u32, j) == (j >= 20)) by (bit_vector)
                    requires
                        j < 32,
                ;
            }
            assert(board@ =~= start_squares());
        }
        board
    }
}

/// `mask` with bit `shift` set to `value`.
fn with_bit(mask: u32, shift: u32, value: bool) -> (out: u32)
    requires
        shift < 32,
    ensures
        forall|j: u32|
            j < 32 ==> #[trigger] bit(out, j) == if j == shift {
                value
            } else {
                bit(mask, j)
            },
{
    if value {
        let out = mask | (1u32 << shift);
        proof {
            assert forall|j: u32| j < 32 implies #[trigger] bit(out, j) == if j == shift {
                value
            } else {
                bit(mask, j)
            } by {
                lemma_bit_set(mask, shift, j);
            }
        }
        out
    } else {
        let out = mask & !(1u32 << shift);
        proof {
            assert forall|j: u32| j < 32 implies #[trigger] bit(out, j) == if j == shift {
                value
            } else {
                bit(mask, j)
            } by {
                lemma_bit_clear(mask, shift, j);
            }
        }
        out
    }
}

/// A mask whose bits say where `figure` stands holds as many set bits as
/// there are such squares.
proof fn lemma_count_piece(mask: u32, squares: Seq<Square>, figure: Figure, n: nat)
    requires
        n <= 32,
        squares.len() == 32,
        forall|j: u32| j < n ==> bit(mask, j) == (squares[j as int].figure == Some(figure)),
    ensures
        count_bits(mask, n) == count_figure(squares, figure, n),
    decreases n,
{
    if n > 0 {
        lemma_count_piece(mask, squares, figure, (n - 1) as nat);
        let j = (n - 1) as u32;
        assert(bit(mask, j) == (squares[j as int].figure == Some(figure)));
    }
}

/// A mask whose bits say where the pieces of one side stand counts the men
/// and the kings of that side together.
proof fn lemma_count_side(mask: u32, squares: Seq<Square>, color: CheckersColor, n: nat)
    requires
        n <= 32,
        squares.len() == 32,
        forall|j: u32|
            j < n ==> bit(mask, j) == (squares[j as int].figure == Some(Figure::Pawn(color))
                || squares[j as int].figure == Some(Figure::Queen(color))),
    ensures
        count_bits(mask, n) == count_figure(squares, Figure::Pawn(color), n) + count_figure(
            squares,
            Figure::Queen(color),
            n,
        ),
    decreases n,
{
    if n > 0 {
        lemma_count_side(mask, squares, color, (n - 1) as nat);
        let j = (n - 1) as u32;
        assert(bit(mask, j) == (squares[j as int].figure == Some(Figure::Pawn(color))
            || squares[j as int].figure == Some(Figure::Queen(color))));
    }
}

/// A usable square holds what was last put on it, and putting something
/// on one square changes no other.
pub proof fn lemma_put_then_figure_on(
    squares: Seq<Square>,
    x: int,
    y: int,
    figure: Option<Figure>,
    x_other: int,
    y_other: int,
)
    requires
        squares.len() == 32,
    ensures
        usable(x, y) ==> figure_on(put(squares, x, y, figure), x, y) == figure,
        !usable(x, y) ==> figure_on(put(squares, x, y, figure), x, y) is None,
        (x_other, y_other) != (x, y) ==> figure_on(put(squares, x, y, figure), x_other, y_other)
            == figure_on(squares, x_other, y_other),
        flagged_on(put(squares, x, y, figure), x_other, y_other) == flagged_on(
            squares,
            x_other,
            y_other,
        ),
{
    if usable(x, y) && usable(x_other, y_other) && (x_other, y_other) != (x, y) {
        assert(square_index(x, y) != square_index(x_other, y_other));
    }
}

/// The pieces among the first `n` squares at the start.
proof fn lemma_start_count(n: nat)
    requires
        n <= 32,
    ensures
        count_figure(start_squares(), Figure::Pawn(CheckersColor::White), n) == if n <= 12 {
            n
        } else {
            12
        },
        count_figure(start_squares(), Figure::Pawn(CheckersColor::Black), n) == if n <= 20 {
            0
        } else {
            n - 20
        },
        count_figure(start_squares(), Figure::Queen(CheckersColor::White), n) == 0,
        count_figure(start_squares(), Figure::Queen(CheckersColor::Black), n) == 0,
    decreases n,
{
    if n > 0 {
        lemma_start_count((n - 1) as nat);
    }
}

/// At the start each side has twelve men and no king.
pub proof fn lemma_start_counts()
    ensures
        count_of(start_squares(), Figure::Pawn(CheckersColor::White)) == 12,
        count_of(start_squares(), Figure::Pawn(CheckersColor::Black)) == 12,
        count_of(start_squares(), Figure::Queen(CheckersColor::White)) == 0,
        count_of(start_squares(), Figure::Queen(CheckersColor::Black)) == 0,
{
    lemma_start_count(32);
}


} // verus!

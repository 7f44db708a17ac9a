//! Pieces, actions and the turn controller.

use vstd::prelude::*;
use vstd::string::StringExecFns;
use crate::board::{alias, alias_text, Board, flagged_on, mark, on_board, Square};
use crate::error::CheckersError;
use crate::rules::{
    after_action, after_chain, after_jump, after_move, all_captures, all_moves, all_on_board,
    captures, captures_at, captures_upto, check_action, check_chain, check_jump, check_move,
    fly_jumps, free, hop_jumps, jumps_at, king_jumps_at, king_moves, lemma_first_stop,
    lemma_free_run_stop, lemma_jump_marks, lemma_jumps_capture, lemma_paths_end, lemma_paths_step,
    lemma_ray_squares, longest, man_jumps_at, man_moves, max_len, moves_at, moves_king, moves_upto,
    of_length, options, paths, positions, promoted, ray, ray_square_at, run_jumps, scan_square,
    side_on, slide_moves, unmarked_count,
};

verus! {

/// The two sides. White is the light side and moves towards higher rows.
#[derive(Copy, Clone, Debug, PartialEq, Eq, Structural)]
pub enum CheckersColor {
    White,
    Black,
}

impl CheckersColor {
    /// The other side.
    pub open spec fn spec_opposite(&self) -> CheckersColor {
        match *self {
            CheckersColor::White => CheckersColor::Black,
            CheckersColor::Black => CheckersColor::White,
        }
    }

    /// The other side.
    #[verifier::when_used_as_spec(spec_opposite)]
    pub fn opposite(&self) -> (other: Self)
        ensures
            other == self.spec_opposite(),
    {
        match self {
            CheckersColor::White => CheckersColor::Black,
            CheckersColor::Black => CheckersColor::White,
        }
    }

    /// Whether this is the white side.
    pub open spec fn spec_is_white(&self) -> bool {
        *self == CheckersColor::White
    }

    /// Whether this is the white side.
    #[verifier::when_used_as_spec(spec_is_white)]
    pub fn is_white(&self) -> (white: bool)
        ensures
            white == (*self == CheckersColor::White),
    {
        match self {
            CheckersColor::White => true,
            _ => false,
        }
    }
}

/// A piece: a man (`Pawn`) or a king (`Queen`) of one side.
#[derive(Copy, Clone, Debug, PartialEq, Eq, Structural)]
pub enum Figure {
    Pawn(CheckersColor),
    Queen(CheckersColor),
}

impl Figure {
    /// The bits that encode this piece on a board, as
    /// `(occupation, color, figure, flag)`.
    pub fn bits(&self) -> (b: (u32, u32, u32, u32))
        ensures
            b.0 == 1,
            b.1 == if self.spec_color() == CheckersColor::Black { 1u32 } else { 0u32 },
            b.2 == if self.spec_is_queen() { 1u32 } else { 0u32 },
            b.3 == 0,
    {
        match self {
            Figure::Pawn(CheckersColor::White) => (1, 0, 0, 0),
            Figure::Pawn(CheckersColor::Black) => (1, 1, 0, 0),
            Figure::Queen(CheckersColor::White) => (1, 0, 1, 0),
            Figure::Queen(CheckersColor::Black) => (1, 1, 1, 0),
        }
    }

    /// Whether the piece is white.
    pub open spec fn spec_is_white(&self) -> bool {
        self.spec_color() == CheckersColor::White
    }

    /// Whether the piece is white.
    #[verifier::when_used_as_spec(spec_is_white)]
    pub fn is_white(&self) -> (white: bool)
        ensures
            white == (self.spec_color() == CheckersColor::White),
    {
        match self {
            Figure::Pawn(CheckersColor::White) | Figure::Queen(CheckersColor::White) => true,
            _ => false,
        }
    }

    /// Whether the piece is a king.
    pub open spec fn spec_is_queen(&self) -> bool {
        *self is Queen
    }

    /// Whether the piece is a king.
    #[verifier::when_used_as_spec(spec_is_queen)]
    pub fn is_queen(&self) -> (queen: bool)
        ensures
            queen == (*self is Queen),
    {
        match self {
            Figure::Queen(CheckersColor::Black) | Figure::Queen(CheckersColor::White) => true,
            _ => false,
        }
    }

    /// The side of the piece.
    pub open spec fn spec_color(&self) -> CheckersColor {
        match *self {
            Figure::Pawn(color) => color,
            Figure::Queen(color) => color,
        }
    }

    /// The side of the piece.
    #[verifier::when_used_as_spec(spec_color)]
    pub fn color(&self) -> (color: CheckersColor)
        ensures
            color == self.spec_color(),
    {
        match self {
            Figure::Pawn(color) | Figure::Queen(color) => *color,
        }
    }

    /// The side that the piece plays against.
    pub open spec fn spec_enemy_color(&self) -> CheckersColor {
        self.spec_color().spec_opposite()
    }

    /// The side that the piece plays against.
    #[verifier::when_used_as_spec(spec_enemy_color)]
    pub fn enemy_color(&self) -> (color: CheckersColor)
        ensures
            color == self.spec_color().spec_opposite(),
    {
        self.color().opposite()
    }
}

/// A single diagonal step, or a king's slide, from one square to another.
#[derive(Copy, Clone, Debug, PartialEq, Eq, Structural)]
pub struct Move {
    pub x_start: u8,
    pub y_start: u8,
    pub x_end: u8,
    pub y_end: u8,
}

impl Move {
    /// The move from `(x_start, y_start)` to `(x_end, y_end)`.
    pub fn new(x_start: u8, y_start: u8, x_end: u8, y_end: u8) -> (m: Self)
        ensures
            m == (Move { x_start, y_start, x_end, y_end }),
    {
        Self { x_start, y_start, x_end, y_end }
    }

    /// The move as text: the aliases of its two squares, such as
    /// `C3 -> D4`.
    pub fn to_text(&self) -> (text: String)
        requires
            self.x_start <= 7 && self.y_start <= 7 && self.x_end <= 7 && self.y_end <= 7,
        ensures
            text@ == alias_text(self.x_start as int, self.y_start as int) + " -> "@ + alias_text(
                self.x_end as int,
                self.y_end as int,
            ),
    {
        let mut text = alias(self.x_start, self.y_start);
        text.append(" -> ");
        text.append(alias(self.x_end, self.y_end).as_str());
        text
    }
}

/// What every action has: the square it starts on and the square it ends on.
pub trait CheckersAct: Into<CheckersAction> {
    /// The square on which the action starts.
    spec fn spec_start_position(&self) -> (u8, u8);

    /// The square on which the action ends.
    spec fn spec_end_position(&self) -> (u8, u8);

    /// The square on which the action starts.
    fn start_position(&self) -> (start: (u8, u8))
        ensures
            start == self.spec_start_position(),
    ;

    /// The square on which the action ends.
    fn end_position(&self) -> (end: (u8, u8))
        ensures
            end == self.spec_end_position(),
    ;

    /// The squares on which the action starts and ends.
    fn start_end(&self) -> (squares: ((u8, u8), (u8, u8)))
        ensures
            squares == (self.spec_start_position(), self.spec_end_position()),
    {
        (self.start_position(), self.end_position())
    }
}

impl From<Move> for CheckersAction {
    fn from(m: Move) -> (action: CheckersAction) {
        CheckersAction::Move(m)
    }
}

impl vstd::std_specs::convert::FromSpecImpl<Move> for CheckersAction {
    open spec fn obeys_from_spec() -> bool {
        true
    }

    open spec fn from_spec(m: Move) -> CheckersAction {
        CheckersAction::Move(m)
    }
}

impl CheckersAct for Move {
    open spec fn spec_start_position(&self) -> (u8, u8) {
        (self.x_start, self.y_start)
    }

    open spec fn spec_end_position(&self) -> (u8, u8) {
        (self.x_end, self.y_end)
    }

    fn start_position(&self) -> (start: (u8, u8)) {
        (self.x_start, self.y_start)
    }

    fn end_position(&self) -> (end: (u8, u8)) {
        (self.x_end, self.y_end)
    }
}

/// One capture hop: from a square, over an enemy piece, onto an empty
/// square.
#[derive(Copy, Clone, Debug, PartialEq, Eq, Structural)]
pub struct Jump {
    pub x_start: u8,
    pub y_start: u8,
    pub x_over: u8,
    pub y_over: u8,
    pub x_end: u8,
    pub y_end: u8,
}

impl Jump {
    /// The jump from `(x_start, y_start)` over `(x_over, y_over)` onto
    /// `(x_end, y_end)`.
    pub fn new(x_start: u8, y_start: u8, x_over: u8, y_over: u8, x_end: u8, y_end: u8) -> (jump:
        Self)
        ensures
            jump == (Jump { x_start, y_start, x_over, y_over, x_end, y_end }),
    {
        Self { x_start, y_start, x_over, y_over, x_end, y_end }
    }

    /// The square that the jump goes over.
    pub fn over_position(&self) -> (over: (u8, u8))
        ensures
            over == (self.x_over, self.y_over),
    {
        (self.x_over, self.y_over)
    }

    /// The square on which the jump starts.
    pub fn start_position(&self) -> (start: (u8, u8))
        ensures
            start == (self.x_start, self.y_start),
    {
        (self.x_start, self.y_start)
    }

    /// The square on which the jump ends.
    pub fn end_position(&self) -> (end: (u8, u8))
        ensures
            end == (self.x_end, self.y_end),
    {
        (self.x_end, self.y_end)
    }

    /// The squares on which the jump starts and ends.
    pub fn start_end(&self) -> (squares: ((u8, u8), (u8, u8)))
        ensures
            squares == ((self.x_start, self.y_start), (self.x_end, self.y_end)),
    {
        (self.start_position(), self.end_position())
    }

    /// Whether all three squares of the jump lie on the board.
    pub open spec fn on_board(&self) -> bool {
        self.x_start <= 7 && self.y_start <= 7 && self.x_over <= 7 && self.y_over <= 7
            && self.x_end <= 7 && self.y_end <= 7
    }

    /// The jump as text: the aliases of its three squares, such as
    /// `C3 --|D4|-> E5`.
    pub fn to_text(&self) -> (text: String)
        requires
            self.on_board(),
        ensures
            text@ == alias_text(self.x_start as int, self.y_start as int) + " --|"@ + alias_text(
                self.x_over as int,
                self.y_over as int,
            ) + "|-> "@ + alias_text(self.x_end as int, self.y_end as int),
    {
        let mut text = alias(self.x_start, self.y_start);
        text.append(" --|");
        text.append(alias(self.x_over, self.y_over).as_str());
        text.append("|-> ");
        text.append(alias(self.x_end, self.y_end).as_str());
        text
    }
}

/// The start squares of the first `n` of `jumps`, each followed by an
/// arrow.
pub open spec fn starts_text(jumps: Seq<Jump>, n: nat) -> Seq<char>
    decreases n,
{
    if n == 0 {
        Seq::empty()
    } else {
        starts_text(jumps, (n - 1) as nat) + alias_text(
            jumps[n - 1].x_start as int,
            jumps[n - 1].y_start as int,
        ) + " -> "@
    }
}

/// The jumps of one capture turn of one piece, in order.
#[derive(Debug)]
pub struct JumpChain(pub Vec<Jump>);

impl View for JumpChain {
    type V = Seq<Jump>;

    open spec fn view(&self) -> Seq<Jump> {
        self.0@
    }
}

impl JumpChain {
    /// The number of jumps.
    pub fn len(&self) -> (len: usize)
        ensures
            len == self@.len(),
    {
        self.0.len()
    }

    /// The square on which the first jump starts.
    pub fn start_position(&self) -> (start: (u8, u8))
        requires
            self@.len() > 0,
        ensures
            start == (self@.first().x_start, self@.first().y_start),
    {
        self.0[0].start_position()
    }

    /// The square on which the last jump ends.
    pub fn end_position(&self) -> (end: (u8, u8))
        requires
            self@.len() > 0,
        ensures
            end == (self@.last().x_end, self@.last().y_end),
    {
        self.0[self.0.len() - 1].end_position()
    }

    /// The chain as text: the square from which each jump starts and the
    /// square on which the last one ends, such as `A1 -> C3 -> E5`. An
    /// empty chain is `[]`.
    pub fn to_text(&self) -> (text: String)
        requires
            forall|i: int| 0 <= i < self@.len() ==> (#[trigger] self@[i]).on_board(),
        ensures
            self@.len() == 0 ==> text@ == "[]"@,
            self@.len() > 0 ==> text@ == starts_text(self@, self@.len()) + alias_text(
                self@.last().x_end as int,
                self@.last().y_end as int,
            ),
    {
        if self.0.len() == 0 {
            return String::from_str("[]");
        }
        let mut text = String::new();
        let mut i: usize = 0;
        while i < self.0.len()
            invariant
                i <= self@.len(),
                forall|i: int| 0 <= i < self@.len() ==> (#[trigger] self@[i]).on_board(),
                text@ == starts_text(self@, i as nat),
            decreases self@.len() - i,
        {
            let (x_start, y_start) = self.0[i].start_position();
            text.append(alias(x_start, y_start).as_str());
            text.append(" -> ");
            i = i + 1;
        }
        let (x_end, y_end) = self.0[self.0.len() - 1].end_position();
        text.append(alias(x_end, y_end).as_str());
        text
    }
}

/// Anything that a piece can do in a turn.
pub enum CheckersAction {
    Jump(Jump),
    Move(Move),
    JumpChain(JumpChain),
}

impl CheckersAction {
    /// The square on which the action starts.
    pub fn start_position(&self) -> (start: (u8, u8))
        requires
            self matches CheckersAction::JumpChain(chain) ==> chain@.len() > 0,
        ensures
            start == match *self {
                CheckersAction::JumpChain(chain) => (
                    chain@.first().x_start,
                    chain@.first().y_start,
                ),
                CheckersAction::Jump(jump) => (jump.x_start, jump.y_start),
                CheckersAction::Move(m) => (m.x_start, m.y_start),
            },
    {
        match self {
            CheckersAction::JumpChain(jump_chain) => jump_chain.start_position(),
            CheckersAction::Jump(jump) => jump.start_position(),
            CheckersAction::Move(move_) => move_.start_position(),
        }
    }

    /// The square on which the action ends.
    pub fn end_position(&self) -> (end: (u8, u8))
        requires
            self matches CheckersAction::JumpChain(chain) ==> chain@.len() > 0,
        ensures
            end == match *self {
                CheckersAction::JumpChain(chain) => (chain@.last().x_end, chain@.last().y_end),
                CheckersAction::Jump(jump) => (jump.x_end, jump.y_end),
                CheckersAction::Move(m) => (m.x_end, m.y_end),
            },
    {
        match self {
            CheckersAction::JumpChain(jump_chain) => jump_chain.end_position(),
            CheckersAction::Jump(jump) => jump.end_position(),
            CheckersAction::Move(move_) => move_.end_position(),
        }
    }
}

/// A board together with, for each side, the number of king moves it has
/// made since its last move of a man.
pub struct CheckersController {
    pub board: Board,
    pub white_queen_idle_moves: u8,
    pub black_queen_idle_moves: u8,
}

/// The state of a game between two turns: the 32 squares and the two idle
/// counters.
pub ghost struct Position {
    pub squares: Seq<Square>,
    pub white_idle: int,
    pub black_idle: int,
}

impl View for CheckersController {
    type V = Position;

    open spec fn view(&self) -> Position {
        Position {
            squares: self.board@,
            white_idle: self.white_queen_idle_moves as int,
            black_idle: self.black_queen_idle_moves as int,
        }
    }
}

impl CheckersController {
    /// A controller of `board` with both idle counters at zero.
    pub fn new(board: Board) -> (controller: Self)
        ensures
            controller.board == board,
            controller.white_queen_idle_moves == 0,
            controller.black_queen_idle_moves == 0,
    {
        Self { board, white_queen_idle_moves: 0, black_queen_idle_moves: 0 }
    }

    /// A controller of `board` with the given idle counters, White's first.
    pub fn with_idle_moves(board: Board, wqim: u8, bqim: u8) -> (controller: Self)
        ensures
            controller.board == board,
            controller.white_queen_idle_moves == wqim,
            controller.black_queen_idle_moves == bqim,
    {
        Self { board, white_queen_idle_moves: wqim, black_queen_idle_moves: bqim }
    }

    /// The number of king moves White has made since its last move of a man.
    pub fn get_white_queen_idle_moves(&self) -> (n: u8)
        ensures
            n == self.white_queen_idle_moves,
    {
        self.white_queen_idle_moves
    }

    /// The number of king moves Black has made since its last move of a man.
    pub fn get_black_queen_idle_moves(&self) -> (n: u8)
        ensures
            n == self.black_queen_idle_moves,
    {
        self.black_queen_idle_moves
    }

    /// Whether `(x, y)` lies on the board.
    fn in_bounds(x: i8, y: i8) -> (inside: bool)
        ensures
            inside == on_board(x as int, y as int),
    {
        if y > 7 || x > 7 {
            return false;
        }
        if y < 0 || x < 0 {
            return false;
        }
        true
    }

    /// The four diagonals from `(x, y)`: towards the upper right, the upper
    /// left, the lower right and the lower left.
    pub fn diagonals(x: i8, y: i8) -> (rays: (
        Vec<(u8, u8)>,
        Vec<(u8, u8)>,
        Vec<(u8, u8)>,
        Vec<(u8, u8)>,
    ))
        ensures
            rays.0@ == ray(x as int, y as int, 1, 1),
            rays.1@ == ray(x as int, y as int, -1, 1),
            rays.2@ == ray(x as int, y as int, 1, -1),
            rays.3@ == ray(x as int, y as int, -1, -1),
            all_on_board(rays.0@),
            all_on_board(rays.1@),
            all_on_board(rays.2@),
            all_on_board(rays.3@),
    {
        let right_up = Self::diagonal(x, y, 1, 1);
        let left_up = Self::diagonal(x, y, -1, 1);
        let right_down = Self::diagonal(x, y, 1, -1);
        let left_down = Self::diagonal(x, y, -1, -1);
        (right_up, left_up, right_down, left_down)
    }

    /// The squares of the board met by stepping from `(x, y)` by
    /// `(x_step, y_step)`, nearest first.
    fn diagonal(x: i8, y: i8, x_step: i8, y_step: i8) -> (squares: Vec<(u8, u8)>)
        requires
            x_step == 1 || x_step == -1,
            y_step == 1 || y_step == -1,
        ensures
            squares@ == ray(x as int, y as int, x_step as int, y_step as int),
            all_on_board(squares@),
    {
        let mut ret: Vec<(u8, u8)> = Vec::new();
        if x < -1 || x > 8 || y < -1 || y > 8 {
            return ret;
        }
        let mut x: i8 = x + x_step;
        let mut y: i8 = y + y_step;
        let ghost x0 = x - x_step;
        let ghost y0 = y - y_step;
        while Self::in_bounds(x, y)
            invariant
                x_step == 1 || x_step == -1,
                y_step == 1 || y_step == -1,
                -2 <= x <= 9,
                -2 <= y <= 9,
                all_on_board(ret@),
                ray(x0 as int, y0 as int, x_step as int, y_step as int) == ret@ + ray(
                    x - x_step,
                    y - y_step,
                    x_step as int,
                    y_step as int,
                ),
            decreases
                    if x_step > 0 {
                        9 - x
                    } else {
                        x + 2
                    },
        {
            proof {
                assert(ret@.push((x as u8, y as u8)) + ray(
                    x as int,
                    y as int,
                    x_step as int,
                    y_step as int,
                ) =~= ret@ + ray(x - x_step, y - y_step, x_step as int, y_step as int));
            }
            ret.push((x as u8, y as u8));
            x += x_step;
            y += y_step;
        }
        ret
    }

    /// Whether `(x, y)` lies on the board and holds no piece.
    pub fn is_square_free(&self, x: u8, y: u8) -> (is_free: bool)
        ensures
            is_free == free(self.board@, x as int, y as int),
    {
        if x > 7 || y > 7 {
            return false;
        }
        self.board.at(x, y).is_none()
    }

    /// Whether a piece of the side `enemy_color` stands on `(x, y)`.
    pub fn is_enemy_on_square(&self, x: u8, y: u8, enemy_color: CheckersColor) -> (is_enemy: bool)
        requires
            x <= 7,
            y <= 7,
        ensures
            is_enemy == side_on(self.board@, x as int, y as int, enemy_color),
    {
        match self.board.at(x, y) {
            None => false,
            Some(figure) => figure.color() == enemy_color,
        }
    }

    /// Whether a piece was captured on `(x, y)` during the turn in progress.
    pub fn was_jumped_over(&self, x: u8, y: u8) -> (marked: bool)
        requires
            x <= 7,
            y <= 7,
        ensures
            marked == flagged_on(self.board@, x as int, y as int),
    {
        if x % 2 != y % 2 {
            return false;
        }
        let shift = Board::calculate_shift(x, y) as u32;
        ((self.board.flags >> shift) & 1) == 1
    }

    /// Whether the piece at `(x, y)`, if any, has a move.
    pub fn can_move(&self, x: u8, y: u8) -> (can: bool)
        requires
            x <= 7,
            y <= 7,
        ensures
            can == (moves_at(self.board@, x, y).len() > 0),
    {
        match self.board.at(x, y) {
            None => false,
            Some(Figure::Queen(_)) => self.can_queen_move(x, y),
            Some(Figure::Pawn(CheckersColor::White)) => self.can_white_pawn_move(x, y),
            Some(Figure::Pawn(CheckersColor::Black)) => self.can_black_pawn_move(x, y),
        }
    }

    /// The moves of the piece at `(x, y)`, none if the square is empty.
    pub fn moves_at(&self, x: u8, y: u8) -> (moves: Vec<Move>)
        requires
            x <= 7,
            y <= 7,
        ensures
            moves@ == moves_at(self.board@, x, y),
    {
        match self.board.at(x, y) {
            None => Vec::new(),
            Some(Figure::Queen(_)) => self.queen_moves_at(x, y),
            Some(Figure::Pawn(CheckersColor::White)) => self.white_pawn_moves_at(x, y),
            Some(Figure::Pawn(CheckersColor::Black)) => self.black_pawn_moves_at(x, y),
        }
    }

    /// The moves of a white man at `(x, y)`.
    fn white_pawn_moves_at(&self, x: u8, y: u8) -> (moves: Vec<Move>)
        requires
            x <= 7,
            y <= 7,
        ensures
            moves@ == man_moves(self.board@, x, y, CheckersColor::White),
    {
        let mut ret = Vec::with_capacity(2);
        let (x0, y0) = (x as i8 - 1, y as i8 + 1);
        let (x1, y1) = (x as i8 + 1, y as i8 + 1);
        if Self::in_bounds(x0, y0) && self.is_square_free(x0 as u8, y0 as u8) {
            ret.push(Move::new(x, y, x0 as u8, y0 as u8));
        }
        if Self::in_bounds(x1, y1) && self.is_square_free(x1 as u8, y1 as u8) {
            ret.push(Move::new(x, y, x1 as u8, y1 as u8));
        }
        assert(ret@ =~= man_moves(self.board@, x, y, CheckersColor::White));
        ret
    }

    /// The moves of a black man at `(x, y)`.
    fn black_pawn_moves_at(&self, x: u8, y: u8) -> (moves: Vec<Move>)
        requires
            x <= 7,
            y <= 7,
        ensures
            moves@ == man_moves(self.board@, x, y, CheckersColor::Black),
    {
        let mut ret = Vec::with_capacity(2);
        let (x0, y0) = (x as i8 - 1, y as i8 - 1);
        let (x1, y1) = (x as i8 + 1, y as i8 - 1);
        if Self::in_bounds(x0, y0) && self.is_square_free(x0 as u8, y0 as u8) {
            ret.push(Move::new(x, y, x0 as u8, y0 as u8));
        }
        if Self::in_bounds(x1, y1) && self.is_square_free(x1 as u8, y1 as u8) {
            ret.push(Move::new(x, y, x1 as u8, y1 as u8));
        }
        assert(ret@ =~= man_moves(self.board@, x, y, CheckersColor::Black));
        ret
    }

    /// Appends to `moves` the moves of a king at `(x, y)` along `diagonal`.
    fn slide_along(&self, x: u8, y: u8, diagonal: &Vec<(u8, u8)>, moves: &mut Vec<Move>)
        ensures
            final(moves)@ == old(moves)@ + slide_moves(self.board@, x, y, diagonal@),
    {
        let mut k: usize = 0;
        let mut open = true;
        while open && k < diagonal.len()
            invariant
                k <= diagonal@.len(),
                forall|j: int|
                    0 <= j < k ==> free(
                        self.board@,
                        #[trigger] diagonal@[j].0 as int,
                        diagonal@[j].1 as int,
                    ),
                !open ==> k < diagonal@.len() && !free(
                    self.board@,
                    diagonal@[k as int].0 as int,
                    diagonal@[k as int].1 as int,
                ),
                moves@ == old(moves)@ + Seq::new(
                    k as nat,
                    |i: int|
                        Move {
                            x_start: x,
                            y_start: y,
                            x_end: diagonal@[i].0,
                            y_end: diagonal@[i].1,
                        },
                ),
            decreases diagonal@.len() - k + if open { 1int } else { 0int },
        {
            let (x_end, y_end) = diagonal[k];
            if self.is_square_free(x_end, y_end) {
                moves.push(Move::new(x, y, x_end, y_end));
                k = k + 1;
            } else {
                open = false;
            }
        }
        proof {
            lemma_free_run_stop(self.board@, diagonal@, 0, k as int);
        }
    }

    /// The moves of a king at `(x, y)`.
    fn queen_moves_at(&self, x: u8, y: u8) -> (moves: Vec<Move>)
        requires
            x <= 7,
            y <= 7,
        ensures
            moves@ == king_moves(self.board@, x, y),
    {
        let mut ret = Vec::new();
        let (d1, d2, d3, d4) = Self::diagonals(x as i8, y as i8);
        self.slide_along(x, y, &d1, &mut ret);
        self.slide_along(x, y, &d2, &mut ret);
        self.slide_along(x, y, &d3, &mut ret);
        self.slide_along(x, y, &d4, &mut ret);
        ret
    }

    /// Whether one of the two squares above `(x, y)` is free.
    fn can_white_pawn_move(&self, x: u8, y: u8) -> (can: bool)
        requires
            x <= 7,
            y <= 7,
        ensures
            can == (free(self.board@, x - 1, y + 1) || free(self.board@, x + 1, y + 1)),
    {
        let (x1, y1) = (x as i8 - 1, y + 1);
        let (x2, y2) = (x + 1, y + 1);
        (Self::in_bounds(x1, y1 as i8) && self.is_square_free(x1 as u8, y1)) || (Self::in_bounds(
            x2 as i8,
            y2 as i8,
        ) && self.is_square_free(x2, y2))
    }

    /// Whether one of the two squares below `(x, y)` is free.
    fn can_black_pawn_move(&self, x: u8, y: u8) -> (can: bool)
        requires
            x <= 7,
            y <= 7,
        ensures
            can == (free(self.board@, x - 1, y - 1) || free(self.board@, x + 1, y - 1)),
    {
        let (x1, y1) = (x as i8 - 1, y as i8 - 1);
        let (x2, y2) = (x + 1, y as i8 - 1);
        (Self::in_bounds(x1, y1) && self.is_square_free(x1 as u8, y1 as u8)) || (Self::in_bounds(
            x2 as i8,
            y2,
        ) && self.is_square_free(x2, y2 as u8))
    }

    /// Whether a king at `(x, y)` has a move.
    fn can_queen_move(&self, x: u8, y: u8) -> (can: bool)
        requires
            x <= 7,
            y <= 7,
        ensures
            can == (king_moves(self.board@, x, y).len() > 0),
    {
        proof {
            lemma_ray_squares(x as int, y as int, 1, 1);
            lemma_ray_squares(x as int, y as int, -1, 1);
            lemma_ray_squares(x as int, y as int, 1, -1);
            lemma_ray_squares(x as int, y as int, -1, -1);
            let (a, b) = (x as int, y as int);
            assert(ray(a, b, 1, 1).len() > 0 ==> ray_square_at(a, b, 1, 1, 0));
            assert(ray(a, b, -1, 1).len() > 0 ==> ray_square_at(a, b, -1, 1, 0));
            assert(ray(a, b, 1, -1).len() > 0 ==> ray_square_at(a, b, 1, -1, 0));
            assert(ray(a, b, -1, -1).len() > 0 ==> ray_square_at(a, b, -1, -1, 0));
        }
        // A king steps like a man of either side.
        self.can_white_pawn_move(x, y) || self.can_black_pawn_move(x, y)
    }

    /// The single jumps open to the piece at `(x, y)`.
    pub fn possible_captures_at(&self, x: u8, y: u8) -> (jumps: Vec<Jump>)
        requires
            x <= 7,
            y <= 7,
        ensures
            jumps@ == jumps_at(self.board@, x, y),
    {
        match self.board.at(x, y) {
            None => Vec::new(),
            Some(Figure::Pawn(_)) => self.possible_pawn_jumps_at(x, y),
            Some(Figure::Queen(_)) => self.possible_queen_jumps_at(x, y),
        }
    }

    /// Whether the piece at `(x, y)`, if any, has a jump.
    pub fn can_capture(&self, x: u8, y: u8) -> (can: bool)
        requires
            x <= 7,
            y <= 7,
        ensures
            can == (jumps_at(self.board@, x, y).len() > 0),
    {
        match self.board.at(x, y) {
            None => false,
            Some(Figure::Pawn(_)) => !(self.possible_pawn_jumps_at(x, y).len() == 0),
            Some(Figure::Queen(_)) => !(self.possible_queen_jumps_at(x, y).len() == 0),
        }
    }

    /// The jumps of the man at `coords`, none if no man stands there.
    pub fn tuple_pawn_captures_at(&self, coords: (u8, u8)) -> (jumps: Vec<Jump>)
        requires
            coords.0 <= 7,
            coords.1 <= 7,
        ensures
            jumps@ == man_jumps_at(self.board@, coords.0, coords.1),
    {
        self.possible_pawn_jumps_at(coords.0, coords.1)
    }

    /// Appends to `jumps` the jump of a man at `(x, y)` along `diagonal`.
    fn hop_along(
        &self,
        x: u8,
        y: u8,
        enemy: CheckersColor,
        diagonal: &Vec<(u8, u8)>,
        jumps: &mut Vec<Jump>,
    )
        requires
            all_on_board(diagonal@),
        ensures
            final(jumps)@ == old(jumps)@ + hop_jumps(self.board@, x, y, enemy, diagonal@),
    {
        if diagonal.len() >= 2 {
            let over = diagonal[0];
            let end = diagonal[1];
            if self.is_square_free(end.0, end.1) && self.is_enemy_on_square(over.0, over.1, enemy)
                && !self.was_jumped_over(over.0, over.1) {
                jumps.push(Jump::new(x, y, over.0, over.1, end.0, end.1));
            }
        }
        assert(jumps@ =~= old(jumps)@ + hop_jumps(self.board@, x, y, enemy, diagonal@));
    }

    /// The jumps of the man at `(x, y)`, none if no man stands there.
    pub fn possible_pawn_jumps_at(&self, x: u8, y: u8) -> (jumps: Vec<Jump>)
        requires
            x <= 7,
            y <= 7,
        ensures
            jumps@ == man_jumps_at(self.board@, x, y),
    {
        let pawn = match self.board.at(x, y) {
            None => {
                return Vec::new();
            },
            Some(pawn) => pawn,
        };
        if pawn.is_queen() {
            return Vec::new();
        }
        let enemy = pawn.enemy_color();
        let (d1, d2, d3, d4) = Self::diagonals(x as i8, y as i8);
        let mut ret = Vec::new();
        self.hop_along(x, y, enemy, &d1, &mut ret);
        self.hop_along(x, y, enemy, &d2, &mut ret);
        self.hop_along(x, y, enemy, &d3, &mut ret);
        self.hop_along(x, y, enemy, &d4, &mut ret);
        ret
    }

    /// The jumps of the king at `coords`, none if no king stands there.
    pub fn tuple_queen_captures_at(&self, coords: (u8, u8)) -> (jumps: Vec<Jump>)
        requires
            coords.0 <= 7,
            coords.1 <= 7,
        ensures
            jumps@ == king_jumps_at(self.board@, coords.0, coords.1),
    {
        self.possible_queen_jumps_at(coords.0, coords.1)
    }

    /// Appends to `jumps` the jumps of a king at `(x, y)` along `diagonal`.
    fn fly_along(
        &self,
        x: u8,
        y: u8,
        enemy: CheckersColor,
        diagonal: &Vec<(u8, u8)>,
        jumps: &mut Vec<Jump>,
    )
        requires
            all_on_board(diagonal@),
        ensures
            final(jumps)@ == old(jumps)@ + fly_jumps(self.board@, x, y, enemy, diagonal@),
    {
        let n = diagonal.len();
        let mut i: usize = 0;
        let mut scanning = true;
        while scanning && i < n
            invariant
                n == diagonal@.len(),
                i <= n,
                all_on_board(diagonal@),
                forall|j: int|
                    0 <= j < i ==> !flagged_on(
                        self.board@,
                        #[trigger] diagonal@[j].0 as int,
                        diagonal@[j].1 as int,
                    ) && free(self.board@, diagonal@[j].0 as int, diagonal@[j].1 as int),
                !scanning ==> i < n && (flagged_on(
                    self.board@,
                    diagonal@[i as int].0 as int,
                    diagonal@[i as int].1 as int,
                ) || !free(
                    self.board@,
                    diagonal@[i as int].0 as int,
                    diagonal@[i as int].1 as int,
                )),
            decreases n - i + if scanning { 1int } else { 0int },
        {
            let (x_over, y_over) = diagonal[i];
            if self.was_jumped_over(x_over, y_over) || !self.is_square_free(x_over, y_over) {
                scanning = false;
            } else {
                i = i + 1;
            }
        }
        proof {
            lemma_first_stop(self.board@, diagonal@, 0, i as int);
        }
        if i < n {
            let (x_over, y_over) = diagonal[i];
            if !self.was_jumped_over(x_over, y_over) && self.is_enemy_on_square(
                x_over,
                y_over,
                enemy,
            ) {
                let mut k: usize = i + 1;
                let mut open = true;
                while open && k < n
                    invariant
                        n == diagonal@.len(),
                        i < k <= n,
                        x_over == diagonal@[i as int].0,
                        y_over == diagonal@[i as int].1,
                        forall|j: int|
                            i < j < k ==> free(
                                self.board@,
                                #[trigger] diagonal@[j].0 as int,
                                diagonal@[j].1 as int,
                            ),
                        !open ==> k < n && !free(
                            self.board@,
                            diagonal@[k as int].0 as int,
                            diagonal@[k as int].1 as int,
                        ),
                        jumps@ == old(jumps)@ + Seq::new(
                            (k - i - 1) as nat,
                            |j: int|
                                Jump {
                                    x_start: x,
                                    y_start: y,
                                    x_over: diagonal@[i as int].0,
                                    y_over: diagonal@[i as int].1,
                                    x_end: diagonal@[i + 1 + j].0,
                                    y_end: diagonal@[i + 1 + j].1,
                                },
                        ),
                    decreases n - k + if open { 1int } else { 0int },
                {
                    let (x_end, y_end) = diagonal[k];
                    if self.is_square_free(x_end, y_end) {
                        jumps.push(Jump::new(x, y, x_over, y_over, x_end, y_end));
                        k = k + 1;
                    } else {
                        open = false;
                    }
                }
                proof {
                    lemma_free_run_stop(self.board@, diagonal@, i + 1, k as int);
                }
            }
        }
        assert(jumps@ =~= old(jumps)@ + fly_jumps(self.board@, x, y, enemy, diagonal@));
    }

    /// The jumps of the king at `(x, y)`, none if no king stands there.
    pub fn possible_queen_jumps_at(&self, x: u8, y: u8) -> (jumps: Vec<Jump>)
        requires
            x <= 7,
            y <= 7,
        ensures
            jumps@ == king_jumps_at(self.board@, x, y),
    {
        let queen = match self.board.at(x, y) {
            None => {
                return Vec::new();
            },
            Some(queen) => queen,
        };
        if !queen.is_queen() {
            return Vec::new();
        }
        let enemy = queen.enemy_color();
        let (d1, d2, d3, d4) = Self::diagonals(x as i8, y as i8);
        let mut ret = Vec::new();
        self.fly_along(x, y, enemy, &d1, &mut ret);
        self.fly_along(x, y, enemy, &d2, &mut ret);
        self.fly_along(x, y, enemy, &d3, &mut ret);
        self.fly_along(x, y, enemy, &d4, &mut ret);
        ret
    }

    /// Executes one jump: the piece goes to the end square, and the square
    /// jumped over is emptied and marked.
    pub fn execute_jump(&mut self, jump: &Jump) -> (outcome: Result<(), CheckersError>)
        ensures
            outcome == check_jump(old(self).board@, *jump),
            final(self).board@ == after_jump(old(self).board@, *jump),
            outcome is Err ==> *final(self) == *old(self),
            final(self).white_queen_idle_moves == old(self).white_queen_idle_moves,
            final(self).black_queen_idle_moves == old(self).black_queen_idle_moves,
    {
        let (x_over, y_over) = jump.over_position();
        let ((x_start, y_start), (x_end, y_end)) = jump.start_end();
        if x_start > 7 || y_start > 7 || x_over > 7 || y_over > 7 || x_end > 7 || y_end > 7 {
            return Err(CheckersError::OutOfBounds);
        }
        let piece = match self.board.at(x_start, y_start) {
            None => {
                return Err(CheckersError::IllegalAction);
            },
            Some(piece) => piece,
        };
        if !self.is_square_free(x_end, y_end) {
            return Err(CheckersError::IllegalAction);
        }
        self.board.set(x_start, y_start, None);
        self.board.set(x_over, y_over, None);
        self.board.set_flag(x_over, y_over, true);
        self.board.set(x_end, y_end, Some(piece));
        Ok(())
    }

    /// Executes one move, and counts it: a king's move adds one to the
    /// idle counter of its side, a man's move sets that counter to zero.
    pub fn execute_move(&mut self, move_: &Move) -> (outcome: Result<(), CheckersError>)
        requires
            moves_king(old(self).board@, CheckersColor::White, *move_) ==> old(
                self,
            ).white_queen_idle_moves < u8::MAX,
            moves_king(old(self).board@, CheckersColor::Black, *move_) ==> old(
                self,
            ).black_queen_idle_moves < u8::MAX,
        ensures
            outcome == check_move(old(self).board@, *move_),
            final(self)@ == after_move(old(self)@, *move_),
            outcome is Err ==> *final(self) == *old(self),
    {
        let ((x_start, y_start), (x_end, y_end)) = move_.start_end();
        if x_start > 7 || y_start > 7 || x_end > 7 || y_end > 7 {
            return Err(CheckersError::OutOfBounds);
        }
        let piece = match self.board.at(x_start, y_start) {
            None => {
                return Err(CheckersError::IllegalAction);
            },
            Some(piece) => piece,
        };
        if !self.is_square_free(x_end, y_end) {
            return Err(CheckersError::IllegalAction);
        }
        match piece {
            Figure::Queen(CheckersColor::White) => {
                self.white_queen_idle_moves += 1;
            },
            Figure::Queen(CheckersColor::Black) => {
                self.black_queen_idle_moves += 1;
            },
            Figure::Pawn(CheckersColor::White) => {
                self.white_queen_idle_moves = 0;
            },
            Figure::Pawn(CheckersColor::Black) => {
                self.black_queen_idle_moves = 0;
            },
        }
        self.board.set(x_start, y_start, None);
        self.board.set(x_end, y_end, Some(piece));
        Ok(())
    }

    /// Executes the jumps of a chain in order, then clears every mark. If
    /// one of the jumps cannot be executed, nothing changes.
    pub fn execute_capture(&mut self, jump_chain: &JumpChain) -> (outcome: Result<
        (),
        CheckersError,
    >)
        ensures
            outcome == check_chain(old(self).board@, jump_chain@),
            final(self).board@ == after_chain(old(self).board@, jump_chain@),
            outcome is Err ==> *final(self) == *old(self),
            final(self).white_queen_idle_moves == old(self).white_queen_idle_moves,
            final(self).black_queen_idle_moves == old(self).black_queen_idle_moves,
    {
        let mut scratch = Self::new(self.board);
        let mut i: usize = 0;
        while i < jump_chain.0.len()
            invariant
                i <= jump_chain@.len(),
                *self == *old(self),
                run_jumps(old(self).board@, jump_chain@, i as nat) == Ok::<
                    Seq<Square>,
                    CheckersError,
                >(scratch.board@),
            decreases jump_chain@.len() - i,
        {
            match scratch.execute_jump(&jump_chain.0[i]) {
                Ok(_) => {},
                Err(e) => {
                    proof {
                        lemma_run_jumps_fails(
                            old(self).board@,
                            jump_chain@,
                            (i + 1) as nat,
                            jump_chain@.len(),
                        );
                    }
                    return Err(e);
                },
            }
            i = i + 1;
        }
        scratch.board.reset_flags();
        self.board = scratch.board;
        Ok(())
    }

    /// Executes a move, a jump or a capture chain.
    pub fn execute_action(&mut self, action: &CheckersAction) -> (outcome: Result<
        (),
        CheckersError,
    >)
        requires
            action matches CheckersAction::Move(m) ==> (moves_king(
                old(self).board@,
                CheckersColor::White,
                *m,
            ) ==> old(self).white_queen_idle_moves < u8::MAX) && (moves_king(
                old(self).board@,
                CheckersColor::Black,
                *m,
            ) ==> old(self).black_queen_idle_moves < u8::MAX),
        ensures
            final(self)@ == after_action(old(self)@, *action),
            outcome == check_action(old(self).board@, *action),
            outcome is Err ==> *final(self) == *old(self),
    {
        match action {
            CheckersAction::Move(move_) => self.execute_move(move_),
            CheckersAction::Jump(jump) => self.execute_jump(jump),
            CheckersAction::JumpChain(jump_chain) => self.execute_capture(jump_chain),
        }
    }

    /// Makes kings of the men that stand on the far row: white men on row
    /// 7, black men on row 0.
    pub fn promote(&mut self)
        ensures
            final(self).board@ == promoted(old(self).board@),
            final(self).white_queen_idle_moves == old(self).white_queen_idle_moves,
            final(self).black_queen_idle_moves == old(self).black_queen_idle_moves,
    {
        let mut k: u8 = 0;
        while k < 4
            invariant
                k <= 4,
                self.white_queen_idle_moves == old(self).white_queen_idle_moves,
                self.black_queen_idle_moves == old(self).black_queen_idle_moves,
                self.board@.len() == 32,
                forall|i: int|
                    0 <= i < 32 ==> #[trigger] self.board@[i] == if 28 <= i < 28 + k {
                        promoted(old(self).board@)[i]
                    } else {
                        old(self).board@[i]
                    },
            decreases 4 - k,
        {
            let x = 2 * k + 1;
            if let Some(Figure::Pawn(CheckersColor::White)) = self.board.at(x, 7) {
                self.board.set(x, 7, Some(Figure::Queen(CheckersColor::White)));
            }
            k = k + 1;
        }
        let mut k: u8 = 0;
        while k < 4
            invariant
                k <= 4,
                self.white_queen_idle_moves == old(self).white_queen_idle_moves,
                self.black_queen_idle_moves == old(self).black_queen_idle_moves,
                self.board@.len() == 32,
                forall|i: int|
                    0 <= i < 32 ==> #[trigger] self.board@[i] == if 28 <= i || i < k {
                        promoted(old(self).board@)[i]
                    } else {
                        old(self).board@[i]
                    },
            decreases 4 - k,
        {
            let x = 2 * k;
            if let Some(Figure::Pawn(CheckersColor::Black)) = self.board.at(x, 0) {
                self.board.set(x, 0, Some(Figure::Queen(CheckersColor::Black)));
            }
            k = k + 1;
        }
        assert(self.board@ =~= promoted(old(self).board@));
    }

    /// The squares on which the white pieces stand, row by row from row 0.
    pub fn get_white_pieces_position(&self) -> (squares: Vec<(u8, u8)>)
        ensures
            squares@ == positions(self.board@, CheckersColor::White, 64),
    {
        self.pieces_position(CheckersColor::White)
    }

    /// The squares on which the black pieces stand, row by row from row 0.
    pub fn get_black_pieces_position(&self) -> (squares: Vec<(u8, u8)>)
        ensures
            squares@ == positions(self.board@, CheckersColor::Black, 64),
    {
        self.pieces_position(CheckersColor::Black)
    }

    /// The squares on which the pieces of the side `color` stand, row by
    /// row from row 0.
    fn pieces_position(&self, color: CheckersColor) -> (squares: Vec<(u8, u8)>)
        ensures
            squares@ == positions(self.board@, color, 64),
    {
        let mut ret = Vec::new();
        let mut y: u8 = 0;
        while y < 8
            invariant
                y <= 8,
                ret@ == positions(self.board@, color, (y * 8) as nat),
            decreases 8 - y,
        {
            let mut x: u8 = 0;
            while x < 8
                invariant
                    x <= 8,
                    y < 8,
                    ret@ == positions(self.board@, color, (y * 8 + x) as nat),
                decreases 8 - x,
            {
                assert(scan_square(y * 8 + x) == (x, y));
                if let Some(figure) = self.board.at(x, y) {
                    if figure.color() == color {
                        ret.push((x, y));
                    }
                }
                x = x + 1;
            }
            y = y + 1;
        }
        ret
    }

    /// Every move of the side `color`, piece by piece in the order of
    /// their squares.
    pub fn all_moves(&self, color: CheckersColor) -> (moves: Vec<Move>)
        ensures
            moves@ == all_moves(self.board@, color),
    {
        let mut ret = Vec::new();
        let mut n: u8 = 0;
        while n < 64
            invariant
                n <= 64,
                ret@ == moves_upto(self.board@, color, n as nat),
            decreases 64 - n,
        {
            let (x, y) = (n % 8, n / 8);
            if self.is_enemy_on_square(x, y, color) {
                let mut figure_moves = self.moves_at(x, y);
                ret.append(&mut figure_moves);
            }
            n = n + 1;
        }
        ret
    }

    /// Every capture chain of the side `color`, piece by piece in the
    /// order of their squares: of each piece its longest chains.
    pub fn all_captures(&self, color: CheckersColor) -> (chains: Vec<JumpChain>)
        ensures
            chain_views(chains@) == all_captures(self.board@, color),
    {
        let mut ret: Vec<JumpChain> = Vec::new();
        let mut n: u8 = 0;
        while n < 64
            invariant
                n <= 64,
                chain_views(ret@) == captures_upto(self.board@, color, n as nat),
            decreases 64 - n,
        {
            let (x, y) = (n % 8, n / 8);
            if self.is_enemy_on_square(x, y, color) {
                let mut chains = self.captures_at(x, y);
                let ghost before = ret@;
                let ghost added = chains@;
                ret.append(&mut chains);
                assert(chain_views(before + added) =~= chain_views(before) + chain_views(added));
            }
            n = n + 1;
        }
        ret
    }

    /// The capture chains of the piece at `(x, y)`: the longest of the
    /// ways in which it can go on jumping until no jump is left.
    pub fn captures_at(&self, x: u8, y: u8) -> (chains: Vec<JumpChain>)
        requires
            x <= 7,
            y <= 7,
        ensures
            chain_views(chains@) == captures_at(self.board@, x, y),
    {
        let mut ret: Vec<JumpChain> = Vec::new();
        let mut path: Vec<Jump> = Vec::new();
        self.capture_path(x, y, &mut path, &mut ret);
        assert(chain_views(ret@) =~= paths(self.board@, x, y, 0, Seq::empty()));
        keep_longest(&ret)
    }

    /// Appends to `all_paths` every capture path of the piece at `(x, y)`
    /// that goes on from the jumps in `path`.
    fn capture_path(&self, x: u8, y: u8, path: &mut Vec<Jump>, all_paths: &mut Vec<JumpChain>)
        requires
            x <= 7,
            y <= 7,
        ensures
            final(path)@ == old(path)@,
            chain_views(final(all_paths)@) == chain_views(old(all_paths)@) + paths(
                self.board@,
                x,
                y,
                0,
                old(path)@,
            ),
        decreases unmarked_count(self.board@),
    {
        let possible_jumps = self.possible_captures_at(x, y);
        if possible_jumps.len() == 0 {
            proof {
                lemma_paths_end(self.board@, x, y, 0, path@);
            }
            if path.len() > 0 {
                let ghost before = all_paths@;
                all_paths.push(JumpChain(copy_jumps(path)));
                assert(chain_views(all_paths@) =~= chain_views(before) + seq![path@]);
            } else {
                assert(chain_views(all_paths@) =~= chain_views(all_paths@) + Seq::<
                    Seq<Jump>,
                >::empty());
            }
            return ;
        }
        let ghost goal = chain_views(old(all_paths)@) + paths(self.board@, x, y, 0, old(path)@);
        let mut i: usize = 0;
        while i < possible_jumps.len()
            invariant
                x <= 7,
                y <= 7,
                i <= possible_jumps@.len(),
                possible_jumps@.len() > 0,
                possible_jumps@ == jumps_at(self.board@, x, y),
                path@ == old(path)@,
                chain_views(all_paths@) + paths(self.board@, x, y, i as nat, old(path)@) == goal,
            decreases possible_jumps@.len() - i,
        {
            let jump = possible_jumps[i];
            let ghost before = chain_views(all_paths@);
            let ghost onward = paths(
                after_jump(self.board@, jump),
                jump.x_end,
                jump.y_end,
                0,
                old(path)@.push(jump),
            );
            let ghost rest = paths(self.board@, x, y, (i + 1) as nat, old(path)@);
            proof {
                lemma_jumps_capture(self.board@, x, y);
                lemma_jump_marks(self.board@, x, y, jump);
                lemma_paths_step(self.board@, x, y, i as nat, old(path)@);
                assert(before + (onward + rest) == goal);
            }
            path.push(jump);
            let mut controller = Self::new(self.board);
            let _ = controller.execute_jump(&jump);
            let (x_end, y_end) = jump.end_position();
            controller.capture_path(x_end, y_end, path, all_paths);
            path.pop();
            proof {
                assert(chain_views(all_paths@) == before + onward);
                assert((before + onward) + rest =~= before + (onward + rest));
                assert(path@ =~= old(path)@);
            }
            i = i + 1;
        }
        proof {
            lemma_paths_step(self.board@, x, y, i as nat, old(path)@);
            assert(chain_views(all_paths@) + Seq::<Seq<Jump>>::empty() =~= chain_views(all_paths@));
        }
    }

    /// What the side `color` may do, as `(capture chains, moves)`. If any
    /// of its pieces can capture, these are the longest capture chains of
    /// all and no move; otherwise every move and no chain.
    pub fn options(&self, color: CheckersColor) -> (choice: (Vec<JumpChain>, Vec<Move>))
        ensures
            chain_views(choice.0@) == options(self.board@, color).0,
            choice.1@ == options(self.board@, color).1,
    {
        let captures = self.all_captures(color);
        if captures.len() > 0 {
            (keep_longest(&captures), Vec::new())
        } else {
            (Vec::new(), self.all_moves(color))
        }
    }
}

/// The jump sequences of a sequence of chains.
pub open spec fn chain_views(chains: Seq<JumpChain>) -> Seq<Seq<Jump>> {
    Seq::new(chains.len(), |i: int| chains[i]@)
}

/// A copy of `jumps`.
fn copy_jumps(jumps: &Vec<Jump>) -> (copy: Vec<Jump>)
    ensures
        copy@ == jumps@,
{
    let mut copy = Vec::with_capacity(jumps.len());
    let mut i: usize = 0;
    while i < jumps.len()
        invariant
            i <= jumps@.len(),
            copy@ == jumps@.take(i as int),
        decreases jumps@.len() - i,
    {
        copy.push(jumps[i]);
        assert(copy@ =~= jumps@.take(i + 1));
        i = i + 1;
    }
    assert(jumps@.take(jumps@.len() as int) =~= jumps@);
    copy
}

/// The longest of `chains`, in order.
fn keep_longest(chains: &Vec<JumpChain>) -> (kept: Vec<JumpChain>)
    ensures
        chain_views(kept@) == longest(chain_views(chains@)),
{
    let ghost all = chain_views(chains@);
    let mut max: usize = 0;
    let mut i: usize = 0;
    while i < chains.len()
        invariant
            i <= chains@.len(),
            all == chain_views(chains@),
            max == max_len(all, i as nat),
        decreases chains@.len() - i,
    {
        if chains[i].len() > max {
            max = chains[i].len();
        }
        i = i + 1;
    }
    let mut kept: Vec<JumpChain> = Vec::new();
    let mut i: usize = 0;
    while i < chains.len()
        invariant
            i <= chains@.len(),
            all == chain_views(chains@),
            chain_views(kept@) == of_length(all, max as nat, i as nat),
        decreases chains@.len() - i,
    {
        if chains[i].len() == max {
            let ghost before = kept@;
            kept.push(JumpChain(copy_jumps(&chains[i].0)));
            assert(chain_views(kept@) =~= chain_views(before).push(chains@[i as int]@));
        }
        i = i + 1;
    }
    kept
}

/// Once a jump of a chain has failed, the chain has failed, with the same
/// error.
proof fn lemma_run_jumps_fails(squares: Seq<Square>, jumps: Seq<Jump>, n: nat, m: nat)
    requires
        n <= m,
        run_jumps(squares, jumps, n) is Err,
    ensures
        run_jumps(squares, jumps, m) == run_jumps(squares, jumps, n),
    decreases m - n,
{
    if n < m {
        lemma_run_jumps_fails(squares, jumps, n, (m - 1) as nat);
    }
}

} // verus!

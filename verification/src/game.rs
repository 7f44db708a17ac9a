//! Playing a game: evaluators, players, and the turns that alternate them.

use vstd::prelude::*;
use crate::board::count_of;
use crate::controller::{chain_views, CheckersColor, CheckersController, Figure, Position};
use crate::game::player::Player;
use crate::game::progress::{idle_room, lemma_turn_makes_progress, pieces, way_left};
use crate::game::search::{after_capture, children, IDLE_LIMIT, idle_of};
use crate::rules::{after_move, lemma_moves_upto_legal, moves_own_piece, options, promoted};

pub mod estimators;
pub mod player;
pub mod progress;
pub mod search;

verus! {

/// A game between two players: the controller, the players, and the side
/// that is to move.
pub struct Game<WP, BP> {
    pub controller: CheckersController,
    pub white_player: WP,
    pub black_player: BP,
    pub current_player: CheckersColor,
}

/// Where a game stands after a turn.
#[derive(Copy, Clone, Debug, PartialEq, Eq, Structural)]
pub enum GameState {
    InProgress,
    /// The game is over, and this side has won.
    Decided(CheckersColor),
}

/// Whether the side `color` cannot go on: it has stalled, or it has no
/// option.
pub open spec fn stuck(position: Position, color: CheckersColor) -> bool {
    idle_of(position, color) > IDLE_LIMIT || children(position, color).len() == 0
}

/// Whether `after` is one of the positions that the side `color` can
/// reach from `before` in one turn.
pub open spec fn reached(before: Position, color: CheckersColor, after: Position) -> bool {
    exists|i: int|
        0 <= i < children(before, color).len() && after == #[trigger] children(before, color)[i]
}

/// Whether `after` is one of the positions that the side `color` can
/// reach from `before` in one turn, with its men promoted.
pub open spec fn reached_and_promoted(
    before: Position,
    color: CheckersColor,
    after: Position,
) -> bool {
    exists|i: int|
        0 <= i < children(before, color).len() && after == with_promotion(
            #[trigger] children(before, color)[i],
        )
}

/// Where a game stands once a turn has led to `position`.
pub open spec fn state_of(position: Position) -> GameState {
    if wiped_out(position, CheckersColor::White) {
        GameState::Decided(CheckersColor::Black)
    } else if wiped_out(position, CheckersColor::Black) {
        GameState::Decided(CheckersColor::White)
    } else {
        GameState::InProgress
    }
}

/// Whether a game that stands at `position`, with the side `to_move` to
/// move, is over and won by `winner`: the side to move cannot go on, or a
/// side has no piece left.
pub open spec fn won_by(position: Position, to_move: CheckersColor, winner: CheckersColor) -> bool {
    (stuck(position, to_move) && winner == to_move.spec_opposite()) || state_of(position)
        == GameState::Decided(winner)
}

/// Whether no piece of the side `color` is left.
pub open spec fn wiped_out(position: Position, color: CheckersColor) -> bool {
    count_of(position.squares, Figure::Pawn(color)) + count_of(
        position.squares,
        Figure::Queen(color),
    ) == 0
}

/// The position with its men promoted.
pub open spec fn with_promotion(position: Position) -> Position {
    Position { squares: promoted(position.squares), ..position }
}

impl<WP: Player, BP: Player> Game<WP, BP> {
    /// A game that White begins. The players are told their sides.
    pub fn new(controller: CheckersController, white_player: WP, black_player: BP) -> (game: Self)
        ensures
            game.controller == controller,
            game.current_player == CheckersColor::White,
            game.white_player.side() == CheckersColor::White,
            game.black_player.side() == CheckersColor::Black,
            game.white_player.ready() == white_player.ready(),
            game.black_player.ready() == black_player.ready(),
    {
        let mut white_player = white_player;
        let mut black_player = black_player;
        white_player.set_color(CheckersColor::White);
        black_player.set_color(CheckersColor::Black);
        Self { controller, white_player, black_player, current_player: CheckersColor::White }
    }

    /// One turn of the side to move: its player chooses one of its
    /// options, a capture wherever there is one, and the controller
    /// executes it. Nothing happens, and `None` is returned, if the side
    /// has stalled or has no option.
    pub fn step(&mut self) -> (outcome: Option<()>)
        requires
            old(self).white_player.ready(),
            old(self).black_player.ready(),
        ensures
            outcome is None <==> stuck(old(self).controller@, old(self).current_player),
            outcome is None ==> *final(self) == *old(self),
            outcome is Some ==> final(self).current_player
                == old(self).current_player.spec_opposite(),
            outcome is Some ==> reached(
                old(self).controller@,
                old(self).current_player,
                final(self).controller@,
            ),
            final(self).white_player == old(self).white_player,
            final(self).black_player == old(self).black_player,
    {
        let ghost kids = children(self.controller@, self.current_player);
        let idle_moves = match self.current_player {
            CheckersColor::White => self.controller.get_white_queen_idle_moves(),
            CheckersColor::Black => self.controller.get_black_queen_idle_moves(),
        };
        if idle_moves > IDLE_LIMIT {
            return None;
        }
        let (captures, moves) = self.controller.options(self.current_player);
        if captures.len() > 0 {
            let capture = match self.current_player {
                CheckersColor::White => self.white_player.choose_capture(
                    captures.as_slice(),
                    self.controller.board,
                ),
                CheckersColor::Black => self.black_player.choose_capture(
                    captures.as_slice(),
                    self.controller.board,
                ),
            };
            proof {
                let i = choose|i: int| 0 <= i < captures@.len() && captures@[i] == *capture;
                assert(chain_views(captures@)[i] == capture@);
                assert(after_capture(old(self).controller@, capture@) == kids[i]);
            }
            let _ = self.controller.execute_capture(capture);
            self.current_player = self.current_player.opposite();
            return Some(());
        }
        if moves.len() > 0 {
            let move_ = match self.current_player {
                CheckersColor::White => self.white_player.choose_move(
                    moves.as_slice(),
                    self.controller.board,
                ),
                CheckersColor::Black => self.black_player.choose_move(
                    moves.as_slice(),
                    self.controller.board,
                ),
            };
            proof {
                let i = choose|i: int| 0 <= i < moves@.len() && moves@[i] == *move_;
                lemma_moves_upto_legal(self.controller.board@, self.current_player, 64);
                assert(moves_own_piece(self.controller.board@, self.current_player, moves@[i]));
                assert(after_move(old(self).controller@, *move_) == kids[i]);
            }
            let _ = self.controller.execute_move(move_);
            self.current_player = self.current_player.opposite();
            return Some(());
        }
        None
    }

    /// One turn and what follows it. If the side to move cannot go on,
    /// the other side has won. Otherwise the turn is made and men are
    /// promoted; a side that then has no piece left has lost.
    pub fn play_turn(&mut self) -> (state: GameState)
        requires
            old(self).white_player.ready(),
            old(self).black_player.ready(),
        ensures
            stuck(old(self).controller@, old(self).current_player) ==> *final(self) == *old(self),
            stuck(old(self).controller@, old(self).current_player) ==> state
                == GameState::Decided(old(self).current_player.spec_opposite()),
            !stuck(old(self).controller@, old(self).current_player) ==> final(self).current_player
                == old(self).current_player.spec_opposite(),
            !stuck(old(self).controller@, old(self).current_player) ==> reached_and_promoted(
                old(self).controller@,
                old(self).current_player,
                final(self).controller@,
            ),
            !stuck(old(self).controller@, old(self).current_player) ==> state == state_of(
                final(self).controller@,
            ),
            final(self).white_player == old(self).white_player,
            final(self).black_player == old(self).black_player,
    {
        match self.step() {
            None => GameState::Decided(self.current_player.opposite()),
            Some(_) => {
                self.controller.promote();
                if self.controller.board.num_white_figures() == 0 {
                    GameState::Decided(CheckersColor::Black)
                } else if self.controller.board.num_black_figures() == 0 {
                    GameState::Decided(CheckersColor::White)
                } else {
                    GameState::InProgress
                }
            },
        }
    }

    /// Plays turn after turn until the game is over, and returns the
    /// winner. The game does come to an end.
    pub fn run(&mut self) -> (winner: CheckersColor)
        requires
            old(self).white_player.ready(),
            old(self).black_player.ready(),
        ensures
            won_by(final(self).controller@, final(self).current_player, winner),
            final(self).white_player == old(self).white_player,
            final(self).black_player == old(self).black_player,
    {
        loop
            invariant
                self.white_player == old(self).white_player,
                self.black_player == old(self).black_player,
                self.white_player.ready(),
                self.black_player.ready(),
            decreases
                    pieces(self.controller@.squares),
                    way_left(self.controller@.squares),
                    idle_room(self.controller@),
        {
            let ghost before = self.controller@;
            let ghost color = self.current_player;
            match self.play_turn() {
                GameState::Decided(winner) => {
                    return winner;
                },
                GameState::InProgress => {
                    proof {
                        lemma_turn_makes_progress(before, color, self.controller@);
                    }
                },
            }
        }
    }
}

} // verus!

//! The players: one that picks at random and two that search the game
//! tree.

use vstd::prelude::*;
use rand::seq::SliceRandom;
use rayon::iter::{IndexedParallelIterator, IntoParallelRefIterator, ParallelIterator};
use crate::board::Board;
use crate::controller::{chain_views, CheckersColor, CheckersController, JumpChain, Move, Position};
use crate::game::estimators::BoardEstimator;
use crate::game::search::{
    alpha_beta_scan, alpha_beta_value, best_alpha_beta_value, best_eval, best_value, bounded,
    capture_children, children, IDLE_LIMIT, idle_of, indices_of, lemma_alpha_beta_finds_minimax,
    lemma_best_alpha_beta_is_best_value, lemma_best_eval, lemma_best_eval_is_best_alpha_beta,
    lemma_best_eval_is_best_value, lemma_indices_of, MAX_SCORE, MIN_SCORE, minimax_value,
    move_children, scored, worst_score,
};
use crate::rules::{lemma_moves_upto_legal, moves_own_piece, options};

verus! {

/// Something that picks one of the moves, or one of the capture chains,
/// that it is offered.
pub trait Player {
    /// Whether the player is set up so that it can choose.
    spec fn ready(&self) -> bool;

    /// The side that the player plays.
    spec fn side(&self) -> CheckersColor;

    /// One of `moves`, which are the moves open on `board`.
    fn choose_move<'a>(&'a self, moves: &'a [Move], board: Board) -> (chosen: &'a Move)
        requires
            self.ready(),
            moves@.len() > 0,
        ensures
            exists|i: int| 0 <= i < moves@.len() && moves@[i] == *chosen,
    ;

    /// One of `captures`, which are the capture chains open on `board`.
    fn choose_capture<'a>(&'a self, captures: &'a [JumpChain], board: Board) -> (chosen:
        &'a JumpChain)
        requires
            self.ready(),
            captures@.len() > 0,
        ensures
            exists|i: int| 0 <= i < captures@.len() && captures@[i] == *chosen,
    ;

    /// The side that the player plays.
    fn get_color(&self) -> (color: CheckersColor)
        ensures
            color == self.side(),
    ;

    /// Tells the player which side it plays.
    fn set_color(&mut self, color: CheckersColor)
        ensures
            final(self).side() == color,
            final(self).ready() == old(self).ready(),
    ;
}

/// `SliceRandom::choose` with the generator of `rand::thread_rng`: one
/// element of a slice that is not empty, picked at random.
#[verifier::external_body]
fn choose_one<'a, T>(items: &'a [T]) -> (chosen: &'a T)
    requires
        items@.len() > 0,
    ensures
        items@.contains(*chosen),
{
    items.choose(&mut rand::thread_rng()).unwrap()
}

/// What a line typed by a person says of a choice among some candidates.
#[derive(Copy, Clone, Debug, PartialEq, Eq, Structural)]
pub enum Choice {
    /// The candidate with this index is chosen.
    Index(usize),
    /// The line is not a number.
    Unrecognised,
    /// The line is this number, and there is no candidate with that index.
    OutOfRange(usize),
}

/// What `str::trim` returns for a text.
pub uninterp spec fn trimmed(text: Seq<char>) -> Seq<char>;

/// What parsing a text as a `usize` returns, if it succeeds.
pub uninterp spec fn parsed_index(text: Seq<char>) -> Option<usize>;

/// `str::trim`: the text without the whitespace at its two ends.
#[verifier::external_body]
fn trim_line(line: &str) -> (text: &str)
    ensures
        text@ == trimmed(line@),
{
    line.trim()
}

/// `str::parse` for `usize`: the number that the text is, if it is one.
#[verifier::external_body]
fn parse_index(text: &str) -> (index: Option<usize>)
    ensures
        index == parsed_index(text@),
{
    text.parse::<usize>().ok()
}

/// The choice that a trimmed line stands for, given what it parses as.
/// An empty line stands for the first candidate.
pub open spec fn choice_of(is_empty: bool, parsed: Option<usize>, len: usize) -> Choice {
    if is_empty {
        Choice::Index(0)
    } else {
        match parsed {
            None => Choice::Unrecognised,
            Some(index) => if index >= len {
                Choice::OutOfRange(index)
            } else {
                Choice::Index(index)
            },
        }
    }
}

/// The choice among `len` candidates that a trimmed line stands for:
/// `is_empty` says whether the line is empty, `parsed` what number it is.
pub fn decide_choice(is_empty: bool, parsed: Option<usize>, len: usize) -> (choice: Choice)
    ensures
        choice == choice_of(is_empty, parsed, len),
{
    if is_empty {
        return Choice::Index(0);
    }
    match parsed {
        None => Choice::Unrecognised,
        Some(index) => if index >= len {
            Choice::OutOfRange(index)
        } else {
            Choice::Index(index)
        },
    }
}

/// The choice among `len` candidates that a line of input stands for.
pub fn read_choice(line: &str, len: usize) -> (choice: Choice)
    ensures
        choice == choice_of(
            trimmed(line@).len() == 0,
            parsed_index(trimmed(line@)),
            len,
        ),
{
    let input = trim_line(line);
    let is_empty = input.unicode_len() == 0;
    decide_choice(is_empty, parse_index(input), len)
}

/// A player that picks at random.
pub struct DummyBot {
    pub color: CheckersColor,
}

impl DummyBot {
    /// A random player, for White until told otherwise.
    pub fn new() -> (bot: Self)
        ensures
            bot.color == CheckersColor::White,
    {
        Self { color: CheckersColor::White }
    }
}

impl Player for DummyBot {
    open spec fn ready(&self) -> bool {
        true
    }

    open spec fn side(&self) -> CheckersColor {
        self.color
    }

    fn choose_move<'a>(&'a self, moves: &'a [Move], board: Board) -> (chosen: &'a Move) {
        choose_one(moves)
    }

    fn choose_capture<'a>(&'a self, captures: &'a [JumpChain], board: Board) -> (chosen:
        &'a JumpChain) {
        choose_one(captures)
    }

    fn get_color(&self) -> (color: CheckersColor) {
        self.color
    }

    fn set_color(&mut self, color: CheckersColor) {
        self.color = color;
    }
}

/// What the side `color` prefers among `evals`.
fn best_of_evals(color: CheckersColor, evals: &Vec<(usize, i64)>) -> (best: i64)
    ensures
        best == best_eval(color, evals@, evals@.len()),
{
    let mut best = if color.is_white() {
        i64::MIN
    } else {
        i64::MAX
    };
    let mut i: usize = 0;
    while i < evals.len()
        invariant
            i <= evals@.len(),
            best == best_eval(color, evals@, i as nat),
        decreases evals@.len() - i,
    {
        let eval = evals[i].1;
        if color.is_white() {
            if eval > best {
                best = eval;
            }
        } else {
            if eval < best {
                best = eval;
            }
        }
        i = i + 1;
    }
    best
}

/// The indices of those of `evals` that have the score `best`.
fn indices_with(evals: &Vec<(usize, i64)>, best: i64) -> (indices: Vec<usize>)
    ensures
        indices@ == indices_of(evals@, best, evals@.len()),
{
    let mut indices = Vec::new();
    let mut i: usize = 0;
    while i < evals.len()
        invariant
            i <= evals@.len(),
            indices@ == indices_of(evals@, best, i as nat),
        decreases evals@.len() - i,
    {
        if evals[i].1 == best {
            indices.push(evals[i].0);
        }
        i = i + 1;
    }
    indices
}

/// The values at the given indices.
fn at_indices<'a, U>(indices: &Vec<usize>, values: &'a [U]) -> (picked: Vec<&'a U>)
    requires
        forall|k: int| 0 <= k < indices@.len() ==> (#[trigger] indices@[k]) < values@.len(),
    ensures
        picked@.len() == indices@.len(),
        forall|k: int|
            0 <= k < indices@.len() ==> *(#[trigger] picked@[k]) == values@[indices@[k] as int],
{
    let mut ret: Vec<&'a U> = Vec::with_capacity(indices.len());
    let mut k: usize = 0;
    while k < indices.len()
        invariant
            k <= indices@.len(),
            forall|k: int| 0 <= k < indices@.len() ==> (#[trigger] indices@[k]) < values@.len(),
            ret@.len() == k,
            forall|j: int| 0 <= j < k ==> *(#[trigger] ret@[j]) == values@[indices@[j] as int],
        decreases indices@.len() - k,
    {
        ret.push(&values[indices[k]]);
        k = k + 1;
    }
    ret
}

/// A player that searches the game tree to a fixed depth and takes what
/// is best for its side: the highest value for White, the lowest for
/// Black.
pub struct MinMaxBot<T> {
    pub estimator: T,
    pub depth: usize,
    pub color: CheckersColor,
}

impl<T> MinMaxBot<T> {
    /// A player that searches `depth` turns deep, for White until told
    /// otherwise. To choose, it needs a depth of at least 1.
    pub fn new(estimator: T, depth: usize) -> (bot: Self)
        ensures
            bot.estimator == estimator,
            bot.depth == depth,
            bot.color == CheckersColor::White,
    {
        Self { estimator, depth, color: CheckersColor::White }
    }
}

impl<T: BoardEstimator> MinMaxBot<T> {
    /// The minimax value of a position with `current_color` to move.
    fn minmax(
        &self,
        controller: &CheckersController,
        depth: usize,
        current_color: CheckersColor,
    ) -> (value: i64)
        requires
        ensures
            value == minimax_value(self.estimator, controller@, depth as nat, current_color),
        decreases depth, 1nat,
    {
        if depth == 0 {
            return self.estimator.score(&controller.board);
        }
        let idle_moves = match current_color {
            CheckersColor::White => controller.get_white_queen_idle_moves(),
            CheckersColor::Black => controller.get_black_queen_idle_moves(),
        };
        if idle_moves > IDLE_LIMIT {
            return if current_color.is_white() {
                MIN_SCORE
            } else {
                MAX_SCORE
            };
        }
        let (jumps, moves) = controller.options(current_color);
        if jumps.len() > 0 {
            return self.minmax_jumps(controller, &jumps, depth, current_color);
        }
        if moves.len() > 0 {
            return self.minmax_moves(controller, &moves, depth, current_color);
        }
        if current_color.is_white() {
            MIN_SCORE
        } else {
            MAX_SCORE
        }
    }

    fn minmax_jumps(
        &self,
        controller: &CheckersController,
        captures: &Vec<JumpChain>,
        depth: usize,
        current_color: CheckersColor,
    ) -> (value: i64)
        requires
            depth > 0,
            captures@.len() > 0,
            chain_views(captures@) == options(controller.board@, current_color).0,
        ensures
            value == best_value(
                self.estimator,
                children(controller@, current_color),
                captures@.len() as nat,
                (depth - 1) as nat,
                current_color,
            ),
            children(controller@, current_color).len() == captures@.len(),
        decreases depth, 0nat,
    {
        let ghost kids = children(controller@, current_color);
        let mut current = if current_color.is_white() {
            i64::MIN
        } else {
            i64::MAX
        };
        let mut i: usize = 0;
        while i < captures.len()
            invariant
                depth > 0,
                i <= captures@.len(),
                kids == children(controller@, current_color),
                kids.len() == captures@.len(),
                chain_views(captures@) == options(controller.board@, current_color).0,
                current == best_value(
                    self.estimator,
                    kids,
                    i as nat,
                    (depth - 1) as nat,
                    current_color,
                ),
            decreases captures@.len() - i,
        {
            let mut child = CheckersController::with_idle_moves(
                controller.board,
                controller.get_white_queen_idle_moves(),
                controller.get_black_queen_idle_moves(),
            );
            let _ = child.execute_capture(&captures[i]);
            assert(chain_views(captures@)[i as int] == captures@[i as int]@);
            assert(child@ == kids[i as int]);
            let est = self.minmax(&child, depth - 1, current_color.opposite());
            if current_color.is_white() {
                if est > current {
                    current = est;
                }
            } else {
                if est < current {
                    current = est;
                }
            }
            i = i + 1;
        }
        current
    }

    fn minmax_moves(
        &self,
        controller: &CheckersController,
        moves: &Vec<Move>,
        depth: usize,
        current_color: CheckersColor,
    ) -> (value: i64)
        requires
            depth > 0,
            moves@.len() > 0,
            options(controller.board@, current_color).0.len() == 0,
            moves@ == options(controller.board@, current_color).1,
            idle_of(controller@, current_color) <= IDLE_LIMIT,
        ensures
            value == best_value(
                self.estimator,
                children(controller@, current_color),
                moves@.len() as nat,
                (depth - 1) as nat,
                current_color,
            ),
            children(controller@, current_color).len() == moves@.len(),
        decreases depth, 0nat,
    {
        let ghost kids = children(controller@, current_color);
        let mut current = if current_color.is_white() {
            i64::MIN
        } else {
            i64::MAX
        };
        let mut i: usize = 0;
        while i < moves.len()
            invariant
                depth > 0,
                i <= moves@.len(),
                kids == children(controller@, current_color),
                kids.len() == moves@.len(),
                options(controller.board@, current_color).0.len() == 0,
                moves@ == options(controller.board@, current_color).1,
                idle_of(controller@, current_color) <= IDLE_LIMIT,
                current == best_value(
                    self.estimator,
                    kids,
                    i as nat,
                    (depth - 1) as nat,
                    current_color,
                ),
            decreases moves@.len() - i,
        {
            let mut child = CheckersController::with_idle_moves(
                controller.board,
                controller.get_white_queen_idle_moves(),
                controller.get_black_queen_idle_moves(),
            );
            proof {
                lemma_moves_upto_legal(controller.board@, current_color, 64);
                assert(moves_own_piece(controller.board@, current_color, moves@[i as int]));
            }
            let _ = child.execute_move(&moves[i]);
            assert(child@ == kids[i as int]);
            let est = self.minmax(&child, depth - 1, current_color.opposite());
            if current_color.is_white() {
                if est > current {
                    current = est;
                }
            } else {
                if est < current {
                    current = est;
                }
            }
            i = i + 1;
        }
        current
    }

    fn get_best_eval(&self, evals: &Vec<(usize, i64)>) -> (best: i64)
        ensures
            best == best_eval(self.color, evals@, evals@.len()),
    {
        best_of_evals(self.color, evals)
    }

    fn get_best_indices(&self, evals: &Vec<(usize, i64)>, best: i64) -> (indices: Vec<usize>)
        ensures
            indices@ == indices_of(evals@, best, evals@.len()),
    {
        indices_with(evals, best)
    }

    fn get_at_indices<'a, U>(&'a self, indices: &Vec<usize>, values: &'a [U]) -> (picked: Vec<
        &'a U,
    >)
        requires
            forall|k: int| 0 <= k < indices@.len() ==> (#[trigger] indices@[k]) < values@.len(),
        ensures
            picked@.len() == indices@.len(),
            forall|k: int|
                0 <= k < indices@.len() ==> *(#[trigger] picked@[k]) == values@[indices@[k] as int],
    {
        at_indices(indices, values)
    }
}


/// The positions after each of `moves`, each from `board` with both idle
/// counters at zero.
fn positions_after_moves(moves: &[Move], board: Board) -> (positions: Vec<CheckersController>)
    ensures
        positions@.len() == moves@.len(),
        forall|i: int|
            0 <= i < moves@.len() ==> (#[trigger] positions@[i])@ == move_children(
                board@,
                moves@,
            )[i],
{
    let mut positions: Vec<CheckersController> = Vec::with_capacity(moves.len());
    let mut i: usize = 0;
    while i < moves.len()
        invariant
            i <= moves@.len(),
            positions@.len() == i,
            forall|k: int|
                0 <= k < i ==> (#[trigger] positions@[k])@ == move_children(board@, moves@)[k],
        decreases moves@.len() - i,
    {
        let mut controller = CheckersController::new(board);
        let _ = controller.execute_move(&moves[i]);
        positions.push(controller);
        i = i + 1;
    }
    positions
}

/// The positions after each of `captures`, each from `board` with both
/// idle counters at zero.
fn positions_after_captures(captures: &[JumpChain], board: Board) -> (positions: Vec<
    CheckersController,
>)
    ensures
        positions@.len() == captures@.len(),
        forall|i: int|
            0 <= i < captures@.len() ==> (#[trigger] positions@[i])@ == capture_children(
                board@,
                chain_views(captures@),
            )[i],
{
    let mut positions: Vec<CheckersController> = Vec::with_capacity(captures.len());
    let mut i: usize = 0;
    while i < captures.len()
        invariant
            i <= captures@.len(),
            positions@.len() == i,
            forall|k: int|
                0 <= k < i ==> (#[trigger] positions@[k])@ == capture_children(
                    board@,
                    chain_views(captures@),
                )[k],
        decreases captures@.len() - i,
    {
        let mut controller = CheckersController::new(board);
        let _ = controller.execute_capture(&captures[i]);
        positions.push(controller);
        i = i + 1;
    }
    positions
}

/// A player that values positions by searching the game tree.
pub trait Searcher {
    /// Whether the player can search: its depth is at least one turn.
    spec fn searches(&self) -> bool;

    /// The value that the player's search gives a position in which the
    /// other side is to move.
    spec fn value_of(&self, position: Position) -> int;

    /// The number `index` with the value of `position`.
    fn evaluate(&self, index: usize, position: &CheckersController) -> (eval: (usize, i64))
        requires
            self.searches(),
        ensures
            eval.0 == index,
            eval.1 == self.value_of(position@),
    ;
}

/// rayon's `par_iter`, `enumerate`, `map` and `collect`: the evaluation
/// of each position, computed by a pool of threads and collected in the
/// order of the positions.
#[verifier::external_body]
fn evaluate_all<S: Searcher + Sync>(searcher: &S, positions: &Vec<CheckersController>) -> (evals:
    Vec<(usize, i64)>)
    requires
        searcher.searches(),
    ensures
        evals@.len() == positions@.len(),
        forall|i: int|
            0 <= i < positions@.len() ==> (#[trigger] evals@[i]).0 == i && evals@[i].1
                == searcher.value_of(positions@[i]@),
{
    positions.par_iter().enumerate().map(|(i, position)| searcher.evaluate(i, position)).collect()
}

/// Whether `index` names one of `kids` whose minimax value, `depth` turns
/// deep with the other side to move, is the best for the side `color`
/// among all of them.
pub open spec fn is_best<E: BoardEstimator>(
    estimator: E,
    kids: Seq<Position>,
    depth: nat,
    color: CheckersColor,
    index: int,
) -> bool {
    0 <= index < kids.len() && minimax_value(
        estimator,
        kids[index],
        depth,
        color.spec_opposite(),
    ) == best_value(estimator, kids, kids.len(), depth, color)
}

/// Whether `index` names one of `kids` that a player may choose: the
/// only one, which is chosen without a search, or one that is best.
pub open spec fn is_best_choice<E: BoardEstimator>(
    estimator: E,
    kids: Seq<Position>,
    depth: nat,
    color: CheckersColor,
    index: int,
) -> bool {
    0 <= index < kids.len() && (kids.len() > 1 ==> is_best(estimator, kids, depth, color, index))
}

impl<T: BoardEstimator + Sync> Searcher for MinMaxBot<T> {
    open spec fn searches(&self) -> bool {
        self.depth >= 1
    }

    open spec fn value_of(&self, position: Position) -> int {
        minimax_value(
            self.estimator,
            position,
            (self.depth - 1) as nat,
            self.color.spec_opposite(),
        )
    }

    fn evaluate(&self, index: usize, position: &CheckersController) -> (eval: (usize, i64)) {
        (index, self.minmax(position, self.depth - 1, self.color.opposite()))
    }
}

impl<T: BoardEstimator + Sync> MinMaxBot<T> {
    /// The indices of the positions that are best for the bot's side.
    fn best_indices(&self, positions: &Vec<CheckersController>) -> (indices: Vec<usize>)
        requires
            self.depth >= 1,
            positions@.len() > 0,
        ensures
            indices@.len() > 0,
            forall|k: int|
                0 <= k < indices@.len() ==> (#[trigger] indices@[k]) < positions@.len()
                    && minimax_value(
                    self.estimator,
                    positions@[indices@[k] as int]@,
                    (self.depth - 1) as nat,
                    self.color.spec_opposite(),
                ) == best_value(
                    self.estimator,
                    Seq::new(positions@.len(), |i: int| positions@[i]@),
                    positions@.len(),
                    (self.depth - 1) as nat,
                    self.color,
                ),
            forall|i: int|
                0 <= i < positions@.len() && minimax_value(
                    self.estimator,
                    (#[trigger] positions@[i])@,
                    (self.depth - 1) as nat,
                    self.color.spec_opposite(),
                ) == best_value(
                    self.estimator,
                    Seq::new(positions@.len(), |i: int| positions@[i]@),
                    positions@.len(),
                    (self.depth - 1) as nat,
                    self.color,
                ) ==> indices@.contains(i as usize),
    {
        let evals = evaluate_all(self, positions);
        let best_eval = self.get_best_eval(&evals);
        let indices = self.get_best_indices(&evals, best_eval);
        proof {
            let kids = Seq::new(positions@.len(), |i: int| positions@[i]@);
            lemma_best_eval(self.color, evals@, evals@.len());
            lemma_indices_of(evals@, best_eval, evals@.len());
            lemma_best_eval_is_best_value(
                self.estimator,
                kids,
                evals@,
                evals@.len(),
                (self.depth - 1) as nat,
                self.color,
            );
            let i = choose|i: int|
                0 <= i < evals@.len() && (#[trigger] evals@[i]).1 == best_eval;
            assert(indices@.contains(evals@[i].0));
            assert forall|k: int| 0 <= k < indices@.len() implies (#[trigger] indices@[k])
                < positions@.len() && evals@[indices@[k] as int].1 == best_eval by {
                assert(scored(evals@, best_eval, evals@.len(), indices@[k]));
            }
            assert forall|i: int|
                0 <= i < positions@.len() && self.value_of((#[trigger] positions@[i])@)
                    == best_eval implies indices@.contains(i as usize) by {
                assert(evals@[i].0 == i && evals@[i].1 == best_eval);
            }
        }
        indices
    }
}

impl<T: BoardEstimator + Sync> MinMaxBot<T> {
    /// The indices of the moves that are best for the bot's side: those
    /// whose minimax value, searched to the bot's depth, no other
    /// surpasses. Nothing here is left to chance.
    pub fn best_moves(&self, moves: &[Move], board: Board) -> (indices: Vec<usize>)
        requires
            self.depth >= 1,
            moves@.len() > 0,
        ensures
            indices@.len() > 0,
            forall|k: int|
                0 <= k < indices@.len() ==> is_best(
                    self.estimator,
                    move_children(board@, moves@),
                    (self.depth - 1) as nat,
                    self.color,
                    (#[trigger] indices@[k]) as int,
                ),
            forall|i: int| #[trigger]
                is_best(
                    self.estimator,
                    move_children(board@, moves@),
                    (self.depth - 1) as nat,
                    self.color,
                    i,
                ) ==> indices@.contains(i as usize),
    {
        let positions = positions_after_moves(moves, board);
        let indices = self.best_indices(&positions);
        proof {
            let kids = move_children(board@, moves@);
            assert(Seq::new(positions@.len(), |i: int| positions@[i]@) =~= kids);
            assert forall|i: int| #[trigger]
                is_best(
                    self.estimator,
                    kids,
                    (self.depth - 1) as nat,
                    self.color,
                    i,
                ) implies indices@.contains(i as usize) by {
                assert(positions@[i]@ == kids[i]);
            }
        }
        indices
    }

    /// The indices of the capture chains that are best for the bot's
    /// side: those whose minimax value, searched to the bot's depth, no
    /// other surpasses. Nothing here is left to chance.
    pub fn best_captures(&self, captures: &[JumpChain], board: Board) -> (indices: Vec<usize>)
        requires
            self.depth >= 1,
            captures@.len() > 0,
        ensures
            indices@.len() > 0,
            forall|k: int|
                0 <= k < indices@.len() ==> is_best(
                    self.estimator,
                    capture_children(board@, chain_views(captures@)),
                    (self.depth - 1) as nat,
                    self.color,
                    (#[trigger] indices@[k]) as int,
                ),
            forall|i: int| #[trigger]
                is_best(
                    self.estimator,
                    capture_children(board@, chain_views(captures@)),
                    (self.depth - 1) as nat,
                    self.color,
                    i,
                ) ==> indices@.contains(i as usize),
    {
        let positions = positions_after_captures(captures, board);
        let indices = self.best_indices(&positions);
        proof {
            let kids = capture_children(board@, chain_views(captures@));
            assert(Seq::new(positions@.len(), |i: int| positions@[i]@) =~= kids);
            assert forall|i: int| #[trigger]
                is_best(
                    self.estimator,
                    kids,
                    (self.depth - 1) as nat,
                    self.color,
                    i,
                ) implies indices@.contains(i as usize) by {
                assert(positions@[i]@ == kids[i]);
            }
        }
        indices
    }
}

impl<T: BoardEstimator + Sync> Player for MinMaxBot<T> {
    open spec fn ready(&self) -> bool {
        self.depth >= 1
    }

    open spec fn side(&self) -> CheckersColor {
        self.color
    }

    /// One of the moves whose minimax value, searched to the bot's depth,
    /// is the best for its side, picked at random among them.
    fn choose_move<'a>(&'a self, moves: &'a [Move], board: Board) -> (chosen: &'a Move)
        ensures
            exists|i: int|
                moves@[i] == *chosen && #[trigger] is_best_choice(
                    self.estimator,
                    move_children(board@, moves@),
                    (self.depth - 1) as nat,
                    self.color,
                    i,
                ),
    {
        if moves.len() == 1 {
            assert(is_best_choice(
                self.estimator,
                move_children(board@, moves@),
                (self.depth - 1) as nat,
                self.color,
                0,
            ));
            return &moves[0];
        }
        let indices = self.best_moves(moves, board);
        let best_moves = self.get_at_indices(&indices, moves);
        let chosen = choose_one(best_moves.as_slice());
        proof {
            let kids = move_children(board@, moves@);
            let k = choose|k: int| 0 <= k < best_moves@.len() && best_moves@[k] == *chosen;
            assert(is_best_choice(
                self.estimator,
                kids,
                (self.depth - 1) as nat,
                self.color,
                indices@[k] as int,
            ));
        }
        *chosen
    }

    /// One of the capture chains whose minimax value, searched to the
    /// bot's depth, is the best for its side, picked at random among them.
    fn choose_capture<'a>(&'a self, captures: &'a [JumpChain], board: Board) -> (chosen:
        &'a JumpChain)
        ensures
            exists|i: int|
                captures@[i] == *chosen && #[trigger] is_best_choice(
                    self.estimator,
                    capture_children(board@, chain_views(captures@)),
                    (self.depth - 1) as nat,
                    self.color,
                    i,
                ),
    {
        if captures.len() == 1 {
            assert(is_best_choice(
                self.estimator,
                capture_children(board@, chain_views(captures@)),
                (self.depth - 1) as nat,
                self.color,
                0,
            ));
            return &captures[0];
        }
        let indices = self.best_captures(captures, board);
        let best_captures = self.get_at_indices(&indices, captures);
        let chosen = choose_one(best_captures.as_slice());
        proof {
            let kids = capture_children(board@, chain_views(captures@));
            let k = choose|k: int| 0 <= k < best_captures@.len() && best_captures@[k] == *chosen;
            assert(is_best_choice(
                self.estimator,
                kids,
                (self.depth - 1) as nat,
                self.color,
                indices@[k] as int,
            ));
        }
        *chosen
    }

    fn get_color(&self) -> (color: CheckersColor) {
        self.color
    }

    fn set_color(&mut self, color: CheckersColor) {
        self.color = color;
    }
}

/// A player that searches as `MinMaxBot` does, but passes a window of
/// values down the tree and looks no further at the options of a side
/// once one of them falls outside it.
pub struct AlphaBetaBot<T> {
    pub estimator: T,
    pub depth: usize,
    pub color: CheckersColor,
}

impl<T> AlphaBetaBot<T> {
    /// A player that searches `depth` turns deep, for White until told
    /// otherwise. To choose, it needs a depth of at least 1.
    pub fn new(estimator: T, depth: usize) -> (bot: Self)
        ensures
            bot.estimator == estimator,
            bot.depth == depth,
            bot.color == CheckersColor::White,
    {
        Self { estimator, depth, color: CheckersColor::White }
    }

    fn get_best_eval(&self, evals: &Vec<(usize, i64)>) -> (best: i64)
        ensures
            best == best_eval(self.color, evals@, evals@.len()),
    {
        best_of_evals(self.color, evals)
    }

    fn get_best_indices(&self, evals: &Vec<(usize, i64)>, best: i64) -> (indices: Vec<usize>)
        ensures
            indices@ == indices_of(evals@, best, evals@.len()),
    {
        indices_with(evals, best)
    }

    fn get_at_indices<'a, U>(&'a self, indices: &Vec<usize>, values: &'a [U]) -> (picked: Vec<
        &'a U,
    >)
        requires
            forall|k: int| 0 <= k < indices@.len() ==> (#[trigger] indices@[k]) < values@.len(),
        ensures
            picked@.len() == indices@.len(),
            forall|k: int|
                0 <= k < indices@.len() ==> *(#[trigger] picked@[k]) == values@[indices@[k] as int],
    {
        at_indices(indices, values)
    }
}

impl<T: BoardEstimator> AlphaBetaBot<T> {
    /// The value of a position with `current_color` to move, searched
    /// with the window from `alpha` to `beta`.
    fn minmax(
        &self,
        controller: &CheckersController,
        depth: usize,
        current_color: CheckersColor,
        alpha: i64,
        beta: i64,
    ) -> (value: i64)
        requires
        ensures
            value == alpha_beta_value(
                self.estimator,
                controller@,
                depth as nat,
                current_color,
                alpha as int,
                beta as int,
            ),
        decreases depth, 1nat,
    {
        if depth == 0 {
            return self.estimator.score(&controller.board);
        }
        let idle_moves = match current_color {
            CheckersColor::White => controller.get_white_queen_idle_moves(),
            CheckersColor::Black => controller.get_black_queen_idle_moves(),
        };
        if idle_moves > IDLE_LIMIT {
            return if current_color.is_white() {
                MIN_SCORE
            } else {
                MAX_SCORE
            };
        }
        let (jumps, moves) = controller.options(current_color);
        if jumps.len() > 0 {
            return self.minmax_jumps(controller, &jumps, depth, current_color, alpha, beta);
        }
        if moves.len() > 0 {
            return self.minmax_moves(controller, &moves, depth, current_color, alpha, beta);
        }
        if current_color.is_white() {
            MIN_SCORE
        } else {
            MAX_SCORE
        }
    }

    fn minmax_jumps(
        &self,
        controller: &CheckersController,
        captures: &Vec<JumpChain>,
        depth: usize,
        current_color: CheckersColor,
        alpha: i64,
        beta: i64,
    ) -> (value: i64)
        requires
            depth > 0,
            captures@.len() > 0,
            chain_views(captures@) == options(controller.board@, current_color).0,
        ensures
            value == alpha_beta_scan(
                self.estimator,
                children(controller@, current_color),
                0,
                (depth - 1) as nat,
                current_color,
                alpha as int,
                beta as int,
                worst_score(current_color),
            ),
            children(controller@, current_color).len() == captures@.len(),
        decreases depth, 0nat,
    {
        let ghost kids = children(controller@, current_color);
        let ghost whole = alpha_beta_scan(
            self.estimator,
            kids,
            0,
            (depth - 1) as nat,
            current_color,
            alpha as int,
            beta as int,
            worst_score(current_color),
        );
        let mut current = if current_color.is_white() {
            i64::MIN
        } else {
            i64::MAX
        };
        let mut new_cut = current;
        let mut i: usize = 0;
        let mut cut = false;
        while !cut && i < captures.len()
            invariant
                depth > 0,
                i <= captures@.len(),
                kids == children(controller@, current_color),
                kids.len() == captures@.len(),
                chain_views(captures@) == options(controller.board@, current_color).0,
                new_cut == current,
                cut ==> current == whole,
                !cut ==> whole == alpha_beta_scan(
                    self.estimator,
                    kids,
                    i as nat,
                    (depth - 1) as nat,
                    current_color,
                    alpha as int,
                    beta as int,
                    current as int,
                ),
            decreases captures@.len() - i + if cut { 0int } else { 1int },
        {
            let mut child = CheckersController::with_idle_moves(
                controller.board,
                controller.get_white_queen_idle_moves(),
                controller.get_black_queen_idle_moves(),
            );
            let _ = child.execute_capture(&captures[i]);
            assert(chain_views(captures@)[i as int] == captures@[i as int]@);
            assert(child@ == kids[i as int]);
            let est = self.minmax(
                &child,
                depth - 1,
                current_color.opposite(),
                if current_color.is_white() {
                    new_cut
                } else {
                    alpha
                },
                if current_color.is_white() {
                    beta
                } else {
                    new_cut
                },
            );
            if current_color.is_white() {
                if est > current {
                    current = est;
                }
                if est > new_cut {
                    new_cut = est;
                }
                if beta <= new_cut {
                    cut = true;
                }
            } else {
                if est < current {
                    current = est;
                }
                if est < new_cut {
                    new_cut = est;
                }
                if new_cut < alpha {
                    cut = true;
                }
            }
            i = i + 1;
        }
        current
    }

    fn minmax_moves(
        &self,
        controller: &CheckersController,
        moves: &Vec<Move>,
        depth: usize,
        current_color: CheckersColor,
        alpha: i64,
        beta: i64,
    ) -> (value: i64)
        requires
            depth > 0,
            moves@.len() > 0,
            options(controller.board@, current_color).0.len() == 0,
            moves@ == options(controller.board@, current_color).1,
            idle_of(controller@, current_color) <= IDLE_LIMIT,
        ensures
            value == alpha_beta_scan(
                self.estimator,
                children(controller@, current_color),
                0,
                (depth - 1) as nat,
                current_color,
                alpha as int,
                beta as int,
                worst_score(current_color),
            ),
            children(controller@, current_color).len() == moves@.len(),
        decreases depth, 0nat,
    {
        let ghost kids = children(controller@, current_color);
        let ghost whole = alpha_beta_scan(
            self.estimator,
            kids,
            0,
            (depth - 1) as nat,
            current_color,
            alpha as int,
            beta as int,
            worst_score(current_color),
        );
        let mut current = if current_color.is_white() {
            i64::MIN
        } else {
            i64::MAX
        };
        let mut new_cut = current;
        let mut i: usize = 0;
        let mut cut = false;
        while !cut && i < moves.len()
            invariant
                depth > 0,
                i <= moves@.len(),
                kids == children(controller@, current_color),
                kids.len() == moves@.len(),
                options(controller.board@, current_color).0.len() == 0,
                moves@ == options(controller.board@, current_color).1,
                idle_of(controller@, current_color) <= IDLE_LIMIT,
                new_cut == current,
                cut ==> current == whole,
                !cut ==> whole == alpha_beta_scan(
                    self.estimator,
                    kids,
                    i as nat,
                    (depth - 1) as nat,
                    current_color,
                    alpha as int,
                    beta as int,
                    current as int,
                ),
            decreases moves@.len() - i + if cut { 0int } else { 1int },
        {
            let mut child = CheckersController::with_idle_moves(
                controller.board,
                controller.get_white_queen_idle_moves(),
                controller.get_black_queen_idle_moves(),
            );
            proof {
                lemma_moves_upto_legal(controller.board@, current_color, 64);
                assert(moves_own_piece(controller.board@, current_color, moves@[i as int]));
            }
            let _ = child.execute_move(&moves[i]);
            assert(child@ == kids[i as int]);
            let est = self.minmax(
                &child,
                depth - 1,
                current_color.opposite(),
                if current_color.is_white() {
                    new_cut
                } else {
                    alpha
                },
                if current_color.is_white() {
                    beta
                } else {
                    new_cut
                },
            );
            if current_color.is_white() {
                if est > current {
                    current = est;
                }
                if est > new_cut {
                    new_cut = est;
                }
                if beta <= new_cut {
                    cut = true;
                }
            } else {
                if est < current {
                    current = est;
                }
                if est < new_cut {
                    new_cut = est;
                }
                if new_cut < alpha {
                    cut = true;
                }
            }
            i = i + 1;
        }
        current
    }
}


/// Whether `index` names one of `kids` whose value, found by the search
/// with cutoffs `depth` turns deep with the other side to move, is the
/// best for the side `color` among all of them.
pub open spec fn is_best_alpha_beta<E: BoardEstimator>(
    estimator: E,
    kids: Seq<Position>,
    depth: nat,
    color: CheckersColor,
    index: int,
) -> bool {
    0 <= index < kids.len() && alpha_beta_value(
        estimator,
        kids[index],
        depth,
        color.spec_opposite(),
        MIN_SCORE - 1,
        MAX_SCORE + 1,
    ) == best_alpha_beta_value(estimator, kids, kids.len(), depth, color)
}

/// Whether `index` names one of `kids` that a player who searches with
/// cutoffs may choose: the only one, which is chosen without a search, or
/// one that is best.
pub open spec fn is_best_alpha_beta_choice<E: BoardEstimator>(
    estimator: E,
    kids: Seq<Position>,
    depth: nat,
    color: CheckersColor,
    index: int,
) -> bool {
    0 <= index < kids.len() && (kids.len() > 1 ==> is_best_alpha_beta(
        estimator,
        kids,
        depth,
        color,
        index,
    ))
}

/// With a bounded evaluator, what is best by the search with cutoffs is
/// what is best by the minimax search.
pub proof fn lemma_alpha_beta_best_is_best<E: BoardEstimator>(
    estimator: E,
    kids: Seq<Position>,
    depth: nat,
    color: CheckersColor,
    index: int,
)
    requires
        bounded(estimator),
        0 <= index < kids.len(),
    ensures
        is_best_alpha_beta(estimator, kids, depth, color, index) == is_best(
            estimator,
            kids,
            depth,
            color,
            index,
        ),
{
    lemma_best_alpha_beta_is_best_value(estimator, kids, kids.len(), depth, color);
    lemma_alpha_beta_finds_minimax(estimator, kids[index], depth, color.spec_opposite());
}

/// With a bounded evaluator, what is a best choice by the search with
/// cutoffs is a best choice by the minimax search.
pub proof fn lemma_alpha_beta_choice_is_best<E: BoardEstimator>(
    estimator: E,
    kids: Seq<Position>,
    depth: nat,
    color: CheckersColor,
    index: int,
)
    requires
        bounded(estimator),
        is_best_alpha_beta_choice(estimator, kids, depth, color, index),
    ensures
        is_best_choice(estimator, kids, depth, color, index),
{
    lemma_best_alpha_beta_is_best_value(estimator, kids, kids.len(), depth, color);
    lemma_alpha_beta_finds_minimax(estimator, kids[index], depth, color.spec_opposite());
}

impl<T: BoardEstimator + Sync> Searcher for AlphaBetaBot<T> {
    open spec fn searches(&self) -> bool {
        self.depth >= 1
    }

    open spec fn value_of(&self, position: Position) -> int {
        alpha_beta_value(
            self.estimator,
            position,
            (self.depth - 1) as nat,
            self.color.spec_opposite(),
            MIN_SCORE - 1,
            MAX_SCORE + 1,
        )
    }

    fn evaluate(&self, index: usize, position: &CheckersController) -> (eval: (usize, i64)) {
        (
            index,
            self.minmax(
                position,
                self.depth - 1,
                self.color.opposite(),
                MIN_SCORE - 1,
                MAX_SCORE + 1,
            ),
        )
    }
}

impl<T: BoardEstimator + Sync> AlphaBetaBot<T> {
    /// The indices of the positions that are best for the bot's side.
    fn best_indices(&self, positions: &Vec<CheckersController>) -> (indices: Vec<usize>)
        requires
            self.depth >= 1,
            positions@.len() > 0,
        ensures
            indices@.len() > 0,
            forall|k: int|
                0 <= k < indices@.len() ==> (#[trigger] indices@[k]) < positions@.len()
                    && alpha_beta_value(
                    self.estimator,
                    positions@[indices@[k] as int]@,
                    (self.depth - 1) as nat,
                    self.color.spec_opposite(),
                    MIN_SCORE - 1,
                    MAX_SCORE + 1,
                ) == best_alpha_beta_value(
                    self.estimator,
                    Seq::new(positions@.len(), |i: int| positions@[i]@),
                    positions@.len(),
                    (self.depth - 1) as nat,
                    self.color,
                ),
            forall|i: int|
                0 <= i < positions@.len() && alpha_beta_value(
                    self.estimator,
                    (#[trigger] positions@[i])@,
                    (self.depth - 1) as nat,
                    self.color.spec_opposite(),
                    MIN_SCORE - 1,
                    MAX_SCORE + 1,
                ) == best_alpha_beta_value(
                    self.estimator,
                    Seq::new(positions@.len(), |i: int| positions@[i]@),
                    positions@.len(),
                    (self.depth - 1) as nat,
                    self.color,
                ) ==> indices@.contains(i as usize),
    {
        let evals = evaluate_all(self, positions);
        let best_eval = self.get_best_eval(&evals);
        let indices = self.get_best_indices(&evals, best_eval);
        proof {
            let kids = Seq::new(positions@.len(), |i: int| positions@[i]@);
            lemma_best_eval(self.color, evals@, evals@.len());
            lemma_indices_of(evals@, best_eval, evals@.len());
            lemma_best_eval_is_best_alpha_beta(
                self.estimator,
                kids,
                evals@,
                evals@.len(),
                (self.depth - 1) as nat,
                self.color,
            );
            let i = choose|i: int|
                0 <= i < evals@.len() && (#[trigger] evals@[i]).1 == best_eval;
            assert(indices@.contains(evals@[i].0));
            assert forall|k: int| 0 <= k < indices@.len() implies (#[trigger] indices@[k])
                < positions@.len() && evals@[indices@[k] as int].1 == best_eval by {
                assert(scored(evals@, best_eval, evals@.len(), indices@[k]));
            }
            assert forall|i: int|
                0 <= i < positions@.len() && self.value_of((#[trigger] positions@[i])@)
                    == best_eval implies indices@.contains(i as usize) by {
                assert(evals@[i].0 == i && evals@[i].1 == best_eval);
            }
        }
        indices
    }
}

impl<T: BoardEstimator + Sync> AlphaBetaBot<T> {
    /// The indices of the moves that are best for the bot's side: those
    /// whose value, found by the search with cutoffs to the bot's depth,
    /// no other surpasses. With a bounded evaluator these are the moves
    /// that are best by the minimax search. Nothing here is left to
    /// chance.
    pub fn best_moves(&self, moves: &[Move], board: Board) -> (indices: Vec<usize>)
        requires
            self.depth >= 1,
            moves@.len() > 0,
        ensures
            indices@.len() > 0,
            forall|k: int|
                0 <= k < indices@.len() ==> is_best_alpha_beta(
                    self.estimator,
                    move_children(board@, moves@),
                    (self.depth - 1) as nat,
                    self.color,
                    (#[trigger] indices@[k]) as int,
                ),
            forall|i: int| #[trigger]
                is_best_alpha_beta(
                    self.estimator,
                    move_children(board@, moves@),
                    (self.depth - 1) as nat,
                    self.color,
                    i,
                ) ==> indices@.contains(i as usize),
            bounded(self.estimator) ==> forall|i: int|
                0 <= i < moves@.len() ==> (#[trigger] is_best(
                    self.estimator,
                    move_children(board@, moves@),
                    (self.depth - 1) as nat,
                    self.color,
                    i,
                ) <==> indices@.contains(i as usize)),
    {
        let positions = positions_after_moves(moves, board);
        let indices = self.best_indices(&positions);
        proof {
            let kids = move_children(board@, moves@);
            let depth = (self.depth - 1) as nat;
            assert(Seq::new(positions@.len(), |i: int| positions@[i]@) =~= kids);
            assert forall|i: int| #[trigger]
                is_best_alpha_beta(self.estimator, kids, depth, self.color, i)
                    implies indices@.contains(i as usize) by {
                assert(positions@[i]@ == kids[i]);
            }
            if bounded(self.estimator) {
                assert forall|i: int| 0 <= i < moves@.len() implies (#[trigger] is_best(
                    self.estimator,
                    kids,
                    depth,
                    self.color,
                    i,
                ) <==> indices@.contains(i as usize)) by {
                    lemma_alpha_beta_best_is_best(self.estimator, kids, depth, self.color, i);
                    if indices@.contains(i as usize) {
                        let k = choose|k: int| 0 <= k < indices@.len() && indices@[k] == i as usize;
                        assert(is_best_alpha_beta(
                            self.estimator,
                            kids,
                            depth,
                            self.color,
                            indices@[k] as int,
                        ));
                    }
                }
            }
        }
        indices
    }

    /// The indices of the capture chains that are best for the bot's
    /// side: those whose value, found by the search with cutoffs to the
    /// bot's depth, no other surpasses. With a bounded evaluator these
    /// are the chains that are best by the minimax search. Nothing here
    /// is left to chance.
    pub fn best_captures(&self, captures: &[JumpChain], board: Board) -> (indices: Vec<usize>)
        requires
            self.depth >= 1,
            captures@.len() > 0,
        ensures
            indices@.len() > 0,
            forall|k: int|
                0 <= k < indices@.len() ==> is_best_alpha_beta(
                    self.estimator,
                    capture_children(board@, chain_views(captures@)),
                    (self.depth - 1) as nat,
                    self.color,
                    (#[trigger] indices@[k]) as int,
                ),
            forall|i: int| #[trigger]
                is_best_alpha_beta(
                    self.estimator,
                    capture_children(board@, chain_views(captures@)),
                    (self.depth - 1) as nat,
                    self.color,
                    i,
                ) ==> indices@.contains(i as usize),
            bounded(self.estimator) ==> forall|i: int|
                0 <= i < captures@.len() ==> (#[trigger] is_best(
                    self.estimator,
                    capture_children(board@, chain_views(captures@)),
                    (self.depth - 1) as nat,
                    self.color,
                    i,
                ) <==> indices@.contains(i as usize)),
    {
        let positions = positions_after_captures(captures, board);
        let indices = self.best_indices(&positions);
        proof {
            let kids = capture_children(board@, chain_views(captures@));
            let depth = (self.depth - 1) as nat;
            assert(Seq::new(positions@.len(), |i: int| positions@[i]@) =~= kids);
            assert forall|i: int| #[trigger]
                is_best_alpha_beta(self.estimator, kids, depth, self.color, i)
                    implies indices@.contains(i as usize) by {
                assert(positions@[i]@ == kids[i]);
            }
            if bounded(self.estimator) {
                assert forall|i: int| 0 <= i < captures@.len() implies (#[trigger] is_best(
                    self.estimator,
                    kids,
                    depth,
                    self.color,
                    i,
                ) <==> indices@.contains(i as usize)) by {
                    lemma_alpha_beta_best_is_best(self.estimator, kids, depth, self.color, i);
                    if indices@.contains(i as usize) {
                        let k = choose|k: int| 0 <= k < indices@.len() && indices@[k] == i as usize;
                        assert(is_best_alpha_beta(
                            self.estimator,
                            kids,
                            depth,
                            self.color,
                            indices@[k] as int,
                        ));
                    }
                }
            }
        }
        indices
    }
}

impl<T: BoardEstimator + Sync> Player for AlphaBetaBot<T> {
    open spec fn ready(&self) -> bool {
        self.depth >= 1
    }

    open spec fn side(&self) -> CheckersColor {
        self.color
    }

    /// One of the moves whose value, found by the search with cutoffs to
    /// the bot's depth, is the best for its side, picked at random among
    /// them. With a bounded evaluator it is a best choice of the minimax
    /// search too.
    fn choose_move<'a>(&'a self, moves: &'a [Move], board: Board) -> (chosen: &'a Move)
        ensures
            exists|i: int|
                moves@[i] == *chosen && #[trigger] is_best_alpha_beta_choice(
                    self.estimator,
                    move_children(board@, moves@),
                    (self.depth - 1) as nat,
                    self.color,
                    i,
                ),
            bounded(self.estimator) ==> exists|i: int|
                moves@[i] == *chosen && #[trigger] is_best_choice(
                    self.estimator,
                    move_children(board@, moves@),
                    (self.depth - 1) as nat,
                    self.color,
                    i,
                ),
    {
        let ghost kids = move_children(board@, moves@);
        if moves.len() == 1 {
            proof {
                assert(is_best_alpha_beta_choice(
                    self.estimator,
                    kids,
                    (self.depth - 1) as nat,
                    self.color,
                    0,
                ));
                assert(is_best_choice(
                    self.estimator,
                    kids,
                    (self.depth - 1) as nat,
                    self.color,
                    0,
                ));
            }
            return &moves[0];
        }
        let indices = self.best_moves(moves, board);
        let best_moves = self.get_at_indices(&indices, moves);
        let chosen = choose_one(best_moves.as_slice());
        proof {
            let k = choose|k: int| 0 <= k < best_moves@.len() && best_moves@[k] == *chosen;
            let index = indices@[k] as int;
            assert(is_best_alpha_beta_choice(
                self.estimator,
                kids,
                (self.depth - 1) as nat,
                self.color,
                index,
            ));
            if bounded(self.estimator) {
                lemma_alpha_beta_choice_is_best(
                    self.estimator,
                    kids,
                    (self.depth - 1) as nat,
                    self.color,
                    index,
                );
            }
        }
        *chosen
    }

    /// One of the capture chains whose value, found by the search with
    /// cutoffs to the bot's depth, is the best for its side, picked at
    /// random among them. With a bounded evaluator it is a best choice of
    /// the minimax search too.
    fn choose_capture<'a>(&'a self, captures: &'a [JumpChain], board: Board) -> (chosen:
        &'a JumpChain)
        ensures
            exists|i: int|
                captures@[i] == *chosen && #[trigger] is_best_alpha_beta_choice(
                    self.estimator,
                    capture_children(board@, chain_views(captures@)),
                    (self.depth - 1) as nat,
                    self.color,
                    i,
                ),
            bounded(self.estimator) ==> exists|i: int|
                captures@[i] == *chosen && #[trigger] is_best_choice(
                    self.estimator,
                    capture_children(board@, chain_views(captures@)),
                    (self.depth - 1) as nat,
                    self.color,
                    i,
                ),
    {
        let ghost kids = capture_children(board@, chain_views(captures@));
        if captures.len() == 1 {
            proof {
                assert(is_best_alpha_beta_choice(
                    self.estimator,
                    kids,
                    (self.depth - 1) as nat,
                    self.color,
                    0,
                ));
                assert(is_best_choice(
                    self.estimator,
                    kids,
                    (self.depth - 1) as nat,
                    self.color,
                    0,
                ));
            }
            return &captures[0];
        }
        let indices = self.best_captures(captures, board);
        let best_captures = self.get_at_indices(&indices, captures);
        let chosen = choose_one(best_captures.as_slice());
        proof {
            let k = choose|k: int| 0 <= k < best_captures@.len() && best_captures@[k] == *chosen;
            let index = indices@[k] as int;
            assert(is_best_alpha_beta_choice(
                self.estimator,
                kids,
                (self.depth - 1) as nat,
                self.color,
                index,
            ));
            if bounded(self.estimator) {
                lemma_alpha_beta_choice_is_best(
                    self.estimator,
                    kids,
                    (self.depth - 1) as nat,
                    self.color,
                    index,
                );
            }
        }
        *chosen
    }

    fn get_color(&self) -> (color: CheckersColor) {
        self.color
    }

    fn set_color(&mut self, color: CheckersColor) {
        self.color = color;
    }
}


} // verus!

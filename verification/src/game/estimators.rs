//! Scoring a board. A higher score is better for White.

use vstd::prelude::*;
use crate::board::{Board, count_figure, count_of, figure_on, Square};
use crate::controller::{CheckersColor, Figure};
use crate::game::search::{bounded, MAX_SCORE, MIN_SCORE};
use crate::rules::scan_square;

verus! {

/// Something that scores a board. The score is a function of what stands
/// on the squares, and of nothing else.
pub trait BoardEstimator {
    /// The score of the 32 squares.
    spec fn score_spec(&self, squares: Seq<Square>) -> int;

    /// The score of `board`.
    fn score(&self, board: &Board) -> (score: i64)
        ensures
            score == self.score_spec(board@),
    ;
}

/// Scores a board by material: White's men and kings, weighted, less
/// Black's.
#[derive(Copy, Clone)]
pub struct CountEstimator {
    pub pawn_weight: i32,
    pub queen_weight: i32,
}

impl CountEstimator {
    /// An evaluator that counts a man as `pawn_weight` and a king as
    /// `queen_weight`.
    pub fn new(pawn_weight: i32, queen_weight: i32) -> (estimator: Self)
        ensures
            estimator == (CountEstimator { pawn_weight, queen_weight }),
    {
        Self { pawn_weight, queen_weight }
    }
}

/// No more than 32 squares hold a given piece.
pub proof fn lemma_count_figure_bound(squares: Seq<Square>, figure: Figure, n: nat)
    ensures
        count_figure(squares, figure, n) <= n,
    decreases n,
{
    if n > 0 {
        lemma_count_figure_bound(squares, figure, (n - 1) as nat);
    }
}

impl BoardEstimator for CountEstimator {
    open spec fn score_spec(&self, squares: Seq<Square>) -> int {
        (count_of(squares, Figure::Pawn(CheckersColor::White)) * self.pawn_weight + count_of(
            squares,
            Figure::Queen(CheckersColor::White),
        ) * self.queen_weight) - (count_of(squares, Figure::Pawn(CheckersColor::Black))
            * self.pawn_weight + count_of(squares, Figure::Queen(CheckersColor::Black))
            * self.queen_weight)
    }

    fn score(&self, board: &Board) -> (score: i64) {
        let pawns = board.num_pawns(CheckersColor::White);
        let queens = board.num_queens(CheckersColor::White);
        let enemy_pawns = board.num_pawns(CheckersColor::Black);
        let enemy_queens = board.num_queens(CheckersColor::Black);
        proof {
            lemma_count_figure_bound(board@, Figure::Pawn(CheckersColor::White), 32);
            lemma_count_figure_bound(board@, Figure::Queen(CheckersColor::White), 32);
            lemma_count_figure_bound(board@, Figure::Pawn(CheckersColor::Black), 32);
            lemma_count_figure_bound(board@, Figure::Queen(CheckersColor::Black), 32);
        }
        let a = weighted(pawns, self.pawn_weight);
        let b = weighted(queens, self.queen_weight);
        let c = weighted(enemy_pawns, self.pawn_weight);
        let d = weighted(enemy_queens, self.queen_weight);
        let positive = a + b;
        let negative = c + d;
        positive - negative
    }
}

/// `count` pieces of weight `weight` each.
fn weighted(count: u32, weight: i32) -> (product: i64)
    requires
        count <= 32,
    ensures
        product == count * weight,
        -0x10_0000_0000 <= product <= 0x10_0000_0000,
{
    assert(-0x10_0000_0000 <= count * weight <= 0x10_0000_0000) by (nonlinear_arith)
        requires
            0 <= count <= 32,
            -0x8000_0000 <= weight <= 0x7fff_ffff,
    ;
    (count as i64) * (weight as i64)
}

/// Scores a board by where White's pieces stand: each counts the weight
/// of its square times the weight of its rank. Black's pieces count
/// nothing.
pub struct WeightMatrixEstimator {
    /// The weight of the square `(x, y)` is `board_weights[x][y]`.
    pub board_weights: [[i16; 8]; 8],
    pub pawn_weight: i32,
    pub queen_weight: i32,
}

impl WeightMatrixEstimator {
    /// An evaluator with the given weights of the squares and of the two
    /// ranks.
    pub fn new(board_weights: [[i16; 8]; 8], pawn_weight: i32, queen_weight: i32) -> (estimator:
        Self)
        ensures
            estimator.board_weights == board_weights,
            estimator.pawn_weight == pawn_weight,
            estimator.queen_weight == queen_weight,
    {
        Self { board_weights, pawn_weight, queen_weight }
    }

    /// What the piece on `(x, y)`, if any, adds to the score.
    pub open spec fn square_score(&self, squares: Seq<Square>, x: u8, y: u8) -> int {
        match figure_on(squares, x as int, y as int) {
            Some(Figure::Queen(CheckersColor::White)) => self.board_weights[x as int][y as int]
                * self.queen_weight,
            Some(Figure::Pawn(CheckersColor::White)) => self.board_weights[x as int][y as int]
                * self.pawn_weight,
            _ => 0,
        }
    }

    /// What the pieces on the first `n` squares scanned add to the score.
    pub open spec fn score_upto(&self, squares: Seq<Square>, n: nat) -> int
        decreases n,
    {
        if n == 0 {
            0
        } else {
            let (x, y) = scan_square(n - 1);
            self.score_upto(squares, (n - 1) as nat) + self.square_score(squares, x, y)
        }
    }
}

impl BoardEstimator for WeightMatrixEstimator {
    open spec fn score_spec(&self, squares: Seq<Square>) -> int {
        self.score_upto(squares, 64)
    }

    fn score(&self, board: &Board) -> (score: i64) {
        let mut white_score: i64 = 0;
        let mut n: u8 = 0;
        while n < 64
            invariant
                n <= 64,
                white_score == self.score_upto(board@, n as nat),
                -n * 0x8000_0000_0000 <= white_score <= n * 0x8000_0000_0000,
            decreases 64 - n,
        {
            let (x, y) = (n % 8, n / 8);
            if let Some(figure) = board.at(x, y) {
                if figure.is_white() {
                    let weight = self.board_weights[x as usize][y as usize];
                    let rank = if figure.is_queen() {
                        self.queen_weight
                    } else {
                        self.pawn_weight
                    };
                    assert(-0x8000_0000_0000 <= weight * rank <= 0x8000_0000_0000)
                        by (nonlinear_arith)
                        requires
                            -0x8000 <= weight <= 0x7fff,
                            -0x8000_0000 <= rank <= 0x7fff_ffff,
                    ;
                    white_score = white_score + (weight as i64) * (rank as i64);
                }
            }
            n = n + 1;
        }
        white_score
    }
}


/// A material evaluator with weights of at most 78 125 000 either way is
/// bounded: none of its scores is beyond the score of a lost or of a won
/// game.
pub proof fn lemma_count_estimator_bounded(estimator: CountEstimator)
    requires
        -78_125_000 <= estimator.pawn_weight <= 78_125_000,
        -78_125_000 <= estimator.queen_weight <= 78_125_000,
    ensures
        bounded(estimator),
{
    assert forall|squares: Seq<Square>|
        MIN_SCORE <= #[trigger] estimator.score_spec(squares) <= MAX_SCORE by {
        lemma_count_figure_bound(squares, Figure::Pawn(CheckersColor::White), 32);
        lemma_count_figure_bound(squares, Figure::Queen(CheckersColor::White), 32);
        lemma_count_figure_bound(squares, Figure::Pawn(CheckersColor::Black), 32);
        lemma_count_figure_bound(squares, Figure::Queen(CheckersColor::Black), 32);
        let a = count_of(squares, Figure::Pawn(CheckersColor::White)) as int;
        let b = count_of(squares, Figure::Queen(CheckersColor::White)) as int;
        let c = count_of(squares, Figure::Pawn(CheckersColor::Black)) as int;
        let d = count_of(squares, Figure::Queen(CheckersColor::Black)) as int;
        let p = estimator.pawn_weight as int;
        let q = estimator.queen_weight as int;
        assert(-2_500_000_000 <= a * p <= 2_500_000_000) by (nonlinear_arith)
            requires
                0 <= a <= 32,
                -78_125_000 <= p <= 78_125_000,
        ;
        assert(-2_500_000_000 <= b * q <= 2_500_000_000) by (nonlinear_arith)
            requires
                0 <= b <= 32,
                -78_125_000 <= q <= 78_125_000,
        ;
        assert(-2_500_000_000 <= c * p <= 2_500_000_000) by (nonlinear_arith)
            requires
                0 <= c <= 32,
                -78_125_000 <= p <= 78_125_000,
        ;
        assert(-2_500_000_000 <= d * q <= 2_500_000_000) by (nonlinear_arith)
            requires
                0 <= d <= 32,
                -78_125_000 <= q <= 78_125_000,
        ;
    }
}

/// Whether no product of a square's weight and a rank's weight is beyond
/// `limit` either way.
pub open spec fn weights_within(estimator: WeightMatrixEstimator, limit: int) -> bool {
    forall|x: int, y: int|
        0 <= x < 8 && 0 <= y < 8 ==> -limit <= (#[trigger] estimator.board_weights[x][y])
            * estimator.pawn_weight <= limit && -limit <= estimator.board_weights[x][y]
            * estimator.queen_weight <= limit
}

/// The score of the first `n` squares scanned is within `n` times the
/// limit.
proof fn lemma_score_upto_bound(
    estimator: WeightMatrixEstimator,
    squares: Seq<Square>,
    limit: int,
    n: nat,
)
    requires
        0 <= limit,
        n <= 64,
        weights_within(estimator, limit),
    ensures
        -(n * limit) <= estimator.score_upto(squares, n) <= n * limit,
    decreases n,
{
    if n > 0 {
        lemma_score_upto_bound(estimator, squares, limit, (n - 1) as nat);
        let (x, y) = scan_square(n - 1);
        let weight = estimator.board_weights[x as int][y as int];
        assert(-limit <= estimator.square_score(squares, x, y) <= limit);
        assert(n * limit == (n - 1) * limit + limit) by (nonlinear_arith);
    } else {
        assert(0 * limit == 0);
    }
}

/// A positional evaluator is bounded if no product of a square's weight
/// and a rank's weight is beyond 156 250 000 either way.
pub proof fn lemma_weight_matrix_estimator_bounded(estimator: WeightMatrixEstimator)
    requires
        weights_within(estimator, 156_250_000),
    ensures
        bounded(estimator),
{
    assert forall|squares: Seq<Square>|
        MIN_SCORE <= #[trigger] estimator.score_spec(squares) <= MAX_SCORE by {
        lemma_score_upto_bound(estimator, squares, 156_250_000, 64);
    }
}


} // verus!

//! What a depth-limited search of the game tree computes.

use vstd::prelude::*;
use crate::board::Square;
use crate::controller::{CheckersColor, Jump, Move, Position};
use crate::game::estimators::BoardEstimator;
use crate::rules::{after_chain, after_move, options};

verus! {

/// The score of a position that is lost for White.
pub const MIN_SCORE: i64 = -10_000_000_000;

/// The score of a position that is lost for Black.
pub const MAX_SCORE: i64 = 10_000_000_000;

/// After this many king moves in a row a side has stalled.
pub const IDLE_LIMIT: u8 = 8;

/// The idle counter of the side `color`.
pub open spec fn idle_of(position: Position, color: CheckersColor) -> int {
    if color == CheckersColor::White {
        position.white_idle
    } else {
        position.black_idle
    }
}

/// The score of a position in which the side `color` is to move and has
/// stalled or has nothing to do: the worst for that side.
pub open spec fn lost_score(color: CheckersColor) -> int {
    if color == CheckersColor::White {
        MIN_SCORE as int
    } else {
        MAX_SCORE as int
    }
}

/// A score below which, for White, or above which, for Black, no score
/// lies.
pub open spec fn worst_score(color: CheckersColor) -> int {
    if color == CheckersColor::White {
        i64::MIN as int
    } else {
        i64::MAX as int
    }
}

/// The one of two scores that the side `color` prefers: White the
/// higher, Black the lower.
pub open spec fn better(color: CheckersColor, a: int, b: int) -> int {
    if color == CheckersColor::White {
        if b > a {
            b
        } else {
            a
        }
    } else {
        if b < a {
            b
        } else {
            a
        }
    }
}

/// The position after a capture chain. The idle counters stay.
pub open spec fn after_capture(position: Position, chain: Seq<Jump>) -> Position {
    Position { squares: after_chain(position.squares, chain), ..position }
}

/// The positions that the side `color` can reach in one turn, in the
/// order of its options.
pub open spec fn children(position: Position, color: CheckersColor) -> Seq<Position> {
    let (chains, moves) = options(position.squares, color);
    if chains.len() > 0 {
        Seq::new(chains.len(), |i: int| after_capture(position, chains[i]))
    } else {
        Seq::new(moves.len(), |i: int| after_move(position, moves[i]))
    }
}

/// The minimax value of a position with the side `color` to move,
/// searched `depth` turns deep. At depth 0 it is the evaluator's score. A
/// side that has stalled or has no option has lost. Otherwise White takes
/// the highest, Black the lowest, of the values of the positions it can
/// reach.
pub open spec fn minimax_value<E: BoardEstimator>(
    estimator: E,
    position: Position,
    depth: nat,
    color: CheckersColor,
) -> int
    decreases depth, 0nat,
{
    if depth == 0 {
        estimator.score_spec(position.squares)
    } else if idle_of(position, color) > IDLE_LIMIT {
        lost_score(color)
    } else {
        let kids = children(position, color);
        if kids.len() == 0 {
            lost_score(color)
        } else {
            best_value(estimator, kids, kids.len(), (depth - 1) as nat, color)
        }
    }
}

/// What the side `color` prefers among the minimax values, `depth` turns
/// deep and with the other side to move, of the first `n` of `kids`.
pub open spec fn best_value<E: BoardEstimator>(
    estimator: E,
    kids: Seq<Position>,
    n: nat,
    depth: nat,
    color: CheckersColor,
) -> int
    decreases depth, n,
{
    if n == 0 {
        worst_score(color)
    } else {
        better(
            color,
            best_value(estimator, kids, (n - 1) as nat, depth, color),
            minimax_value(estimator, kids[n - 1], depth, color.spec_opposite()),
        )
    }
}

/// The position in which a player is asked to choose: the squares of the
/// board, with both idle counters at zero.
pub open spec fn root(squares: Seq<Square>) -> Position {
    Position { squares, white_idle: 0, black_idle: 0 }
}

/// The positions after each of `moves`, from the root position.
pub open spec fn move_children(squares: Seq<Square>, moves: Seq<Move>) -> Seq<Position> {
    Seq::new(moves.len(), |i: int| after_move(root(squares), moves[i]))
}

/// The positions after each of `chains`, from the root position.
pub open spec fn capture_children(squares: Seq<Square>, chains: Seq<Seq<Jump>>) -> Seq<Position> {
    Seq::new(chains.len(), |i: int| after_capture(root(squares), chains[i]))
}

/// What the side `color` prefers among the first `n` of `evals`.
pub open spec fn best_eval(color: CheckersColor, evals: Seq<(usize, i64)>, n: nat) -> int
    decreases n,
{
    if n == 0 {
        worst_score(color)
    } else {
        better(color, best_eval(color, evals, (n - 1) as nat), evals[n - 1].1 as int)
    }
}

/// The indices, among the first `n` of `evals`, of those with the score
/// `best`.
pub open spec fn indices_of(evals: Seq<(usize, i64)>, best: i64, n: nat) -> Seq<usize>
    decreases n,
{
    if n == 0 {
        Seq::empty()
    } else {
        let before = indices_of(evals, best, (n - 1) as nat);
        if evals[n - 1].1 == best {
            before.push(evals[n - 1].0)
        } else {
            before
        }
    }
}

/// The best of some evaluations, if there are any, is the score of one of
/// them, and none is better.
pub proof fn lemma_best_eval(color: CheckersColor, evals: Seq<(usize, i64)>, n: nat)
    requires
        0 < n <= evals.len(),
    ensures
        exists|i: int| 0 <= i < n && (#[trigger] evals[i]).1 == best_eval(color, evals, n),
        forall|i: int|
            0 <= i < n ==> better(color, best_eval(color, evals, n), (#[trigger] evals[i]).1 as int)
                == best_eval(color, evals, n),
    decreases n,
{
    if n > 1 {
        lemma_best_eval(color, evals, (n - 1) as nat);
        let before = best_eval(color, evals, (n - 1) as nat);
        let i = choose|i: int| 0 <= i < n - 1 && (#[trigger] evals[i]).1 == before;
        if best_eval(color, evals, n) == before {
            assert(evals[i].1 == best_eval(color, evals, n));
        } else {
            assert(evals[n - 1].1 == best_eval(color, evals, n));
        }
    } else {
        assert(best_eval(color, evals, 0) == worst_score(color));
        assert(evals[0].1 == best_eval(color, evals, n));
    }
}

/// Whether one of the first `n` of `evals` has the index `index` and the
/// score `best`.
pub open spec fn scored(evals: Seq<(usize, i64)>, best: i64, n: nat, index: usize) -> bool {
    exists|i: int| 0 <= i < n && (#[trigger] evals[i]).1 == best && evals[i].0 == index
}

/// An evaluation with the score `best` has its index among those of that
/// score, and each index among them belongs to such an evaluation.
pub proof fn lemma_indices_of(evals: Seq<(usize, i64)>, best: i64, n: nat)
    requires
        n <= evals.len(),
    ensures
        forall|i: int|
            0 <= i < n && (#[trigger] evals[i]).1 == best ==> indices_of(evals, best, n).contains(
                evals[i].0,
            ),
        forall|k: int|
            0 <= k < indices_of(evals, best, n).len() ==> scored(
                evals,
                best,
                n,
                #[trigger] indices_of(evals, best, n)[k],
            ),
    decreases n,
{
    if n > 0 {
        lemma_indices_of(evals, best, (n - 1) as nat);
        let before = indices_of(evals, best, (n - 1) as nat);
        let now = indices_of(evals, best, n);
        assert forall|i: int| 0 <= i < n && (#[trigger] evals[i]).1 == best implies now.contains(
            evals[i].0,
        ) by {
            if i == n - 1 {
                assert(now[now.len() - 1] == evals[i].0);
            } else {
                assert(before.contains(evals[i].0));
                let k = choose|k: int| 0 <= k < before.len() && before[k] == evals[i].0;
                assert(now[k] == evals[i].0);
            }
        }
        assert forall|k: int| 0 <= k < now.len() implies scored(
            evals,
            best,
            n,
            #[trigger] now[k],
        ) by {
            if k < before.len() {
                assert(now[k] == before[k]);
                assert(scored(evals, best, (n - 1) as nat, before[k]));
                let i = choose|i: int|
                    0 <= i < n - 1 && (#[trigger] evals[i]).1 == best && evals[i].0 == before[k];
                assert(evals[i].1 == best && evals[i].0 == now[k]);
            } else {
                assert(evals[n - 1].1 == best && evals[n - 1].0 == now[k]);
            }
        }
    } else {
        assert(indices_of(evals, best, n).len() == 0);
    }
}

/// Evaluations that hold the minimax values of the positions `kids` have
/// as their best the best of those values.
pub proof fn lemma_best_eval_is_best_value<E: BoardEstimator>(
    estimator: E,
    kids: Seq<Position>,
    evals: Seq<(usize, i64)>,
    n: nat,
    depth: nat,
    color: CheckersColor,
)
    requires
        n <= kids.len(),
        kids.len() == evals.len(),
        forall|i: int|
            0 <= i < kids.len() ==> (#[trigger] evals[i]).1 == minimax_value(
                estimator,
                kids[i],
                depth,
                color.spec_opposite(),
            ),
    ensures
        best_eval(color, evals, n) == best_value(estimator, kids, n, depth, color),
    decreases n,
{
    if n > 0 {
        lemma_best_eval_is_best_value(estimator, kids, evals, (n - 1) as nat, depth, color);
        assert(evals[n - 1].1 == minimax_value(
            estimator,
            kids[n - 1],
            depth,
            color.spec_opposite(),
        ));
    }
}


/// Whether the side `color`, holding `value`, stops looking at further
/// options: White once `beta` is reached, Black once it is below `alpha`.
pub open spec fn cuts(color: CheckersColor, value: int, alpha: int, beta: int) -> bool {
    if color == CheckersColor::White {
        beta <= value
    } else {
        value < alpha
    }
}

/// What the search with cutoffs returns for a position with the side
/// `color` to move: as the minimax search, but over the options one by
/// one, and no further once a value cuts. White passes the best value it
/// has found down as the `alpha` of the next option, Black as its `beta`.
pub open spec fn alpha_beta_value<E: BoardEstimator>(
    estimator: E,
    position: Position,
    depth: nat,
    color: CheckersColor,
    alpha: int,
    beta: int,
) -> int
    decreases depth, 0int,
{
    if depth == 0 {
        estimator.score_spec(position.squares)
    } else if idle_of(position, color) > IDLE_LIMIT {
        lost_score(color)
    } else {
        let kids = children(position, color);
        if kids.len() == 0 {
            lost_score(color)
        } else {
            alpha_beta_scan(
                estimator,
                kids,
                0,
                (depth - 1) as nat,
                color,
                alpha,
                beta,
                worst_score(color),
            )
        }
    }
}

/// What the search with cutoffs returns once the first `i` of `kids` are
/// searched and `current` is the best value found among them.
pub open spec fn alpha_beta_scan<E: BoardEstimator>(
    estimator: E,
    kids: Seq<Position>,
    i: nat,
    depth: nat,
    color: CheckersColor,
    alpha: int,
    beta: int,
    current: int,
) -> int
    decreases depth, kids.len() - i + 1,
{
    if i >= kids.len() {
        current
    } else {
        let value = alpha_beta_value(
            estimator,
            kids[i as int],
            depth,
            color.spec_opposite(),
            if color == CheckersColor::White {
                current
            } else {
                alpha
            },
            if color == CheckersColor::White {
                beta
            } else {
                current
            },
        );
        let next = better(color, current, value);
        if cuts(color, next, alpha, beta) {
            next
        } else {
            alpha_beta_scan(estimator, kids, i + 1, depth, color, alpha, beta, next)
        }
    }
}

/// How a value `found` by the search with cutoffs relates to the minimax
/// value `exact`. For White to move: below `beta` the two are equal, and
/// from `beta` on `found` lies between `beta` and `exact`. For Black to
/// move: from `alpha` on the two are equal, and below `alpha`, `found`
/// lies between `exact` and `alpha`.
pub open spec fn within_window(
    color: CheckersColor,
    exact: int,
    found: int,
    alpha: int,
    beta: int,
) -> bool {
    if color == CheckersColor::White {
        (exact < beta ==> found == exact) && (exact >= beta ==> beta <= found <= exact)
    } else {
        (exact >= alpha ==> found == exact) && (exact < alpha ==> exact <= found < alpha)
    }
}

/// With more options to choose from, the best value for a side can only
/// get better.
pub proof fn lemma_best_value_grows<E: BoardEstimator>(
    estimator: E,
    kids: Seq<Position>,
    i: nat,
    n: nat,
    depth: nat,
    color: CheckersColor,
)
    requires
        i <= n,
    ensures
        better(
            color,
            best_value(estimator, kids, i, depth, color),
            best_value(estimator, kids, n, depth, color),
        ) == best_value(estimator, kids, n, depth, color),
    decreases n - i,
{
    if i < n {
        lemma_best_value_grows(estimator, kids, i, (n - 1) as nat, depth, color);
    }
}

/// The search with cutoffs finds the minimax value of a position wherever
/// that value lies inside the window, and a bound on it elsewhere.
pub proof fn lemma_alpha_beta_window<E: BoardEstimator>(
    estimator: E,
    position: Position,
    depth: nat,
    color: CheckersColor,
    alpha: int,
    beta: int,
)
    ensures
        within_window(
            color,
            minimax_value(estimator, position, depth, color),
            alpha_beta_value(estimator, position, depth, color, alpha, beta),
            alpha,
            beta,
        ),
    decreases depth, 0int,
{
    if depth > 0 && idle_of(position, color) <= IDLE_LIMIT {
        let kids = children(position, color);
        if kids.len() > 0 {
            lemma_alpha_beta_scan(
                estimator,
                kids,
                0,
                (depth - 1) as nat,
                color,
                alpha,
                beta,
                worst_score(color),
            );
        }
    }
}

/// The same of a scan that has so far found the best value of the options
/// it has searched.
pub proof fn lemma_alpha_beta_scan<E: BoardEstimator>(
    estimator: E,
    kids: Seq<Position>,
    i: nat,
    depth: nat,
    color: CheckersColor,
    alpha: int,
    beta: int,
    current: int,
)
    requires
        i <= kids.len(),
        current == best_value(estimator, kids, i, depth, color),
    ensures
        within_window(
            color,
            best_value(estimator, kids, kids.len(), depth, color),
            alpha_beta_scan(estimator, kids, i, depth, color, alpha, beta, current),
            alpha,
            beta,
        ),
    decreases depth, kids.len() - i + 1,
{
    if i < kids.len() {
        let white = color == CheckersColor::White;
        let low = if white {
            current
        } else {
            alpha
        };
        let high = if white {
            beta
        } else {
            current
        };
        lemma_alpha_beta_window(estimator, kids[i as int], depth, color.spec_opposite(), low, high);
        let exact = minimax_value(estimator, kids[i as int], depth, color.spec_opposite());
        let value = alpha_beta_value(
            estimator,
            kids[i as int],
            depth,
            color.spec_opposite(),
            low,
            high,
        );
        let next = better(color, current, value);
        assert(next == better(color, current, exact));
        assert(next == best_value(estimator, kids, i + 1, depth, color));
        if cuts(color, next, alpha, beta) {
            lemma_best_value_grows(estimator, kids, i + 1, kids.len(), depth, color);
        } else {
            lemma_alpha_beta_scan(estimator, kids, i + 1, depth, color, alpha, beta, next);
        }
    }
}

/// Whether every score of the evaluator lies between the scores of a
/// lost and of a won game.
pub open spec fn bounded<E: BoardEstimator>(estimator: E) -> bool {
    forall|squares: Seq<Square>|
        MIN_SCORE <= #[trigger] estimator.score_spec(squares) <= MAX_SCORE
}

/// With a bounded evaluator every minimax value lies between the scores
/// of a lost and of a won game.
pub proof fn lemma_minimax_bounded<E: BoardEstimator>(
    estimator: E,
    position: Position,
    depth: nat,
    color: CheckersColor,
)
    requires
        bounded(estimator),
    ensures
        MIN_SCORE <= minimax_value(estimator, position, depth, color) <= MAX_SCORE,
    decreases depth, 0nat,
{
    if depth > 0 && idle_of(position, color) <= IDLE_LIMIT {
        let kids = children(position, color);
        if kids.len() > 0 {
            lemma_best_value_bounded(estimator, kids, kids.len(), (depth - 1) as nat, color);
        }
    }
}

/// With a bounded evaluator the best of some minimax values, if there are
/// any, lies between the scores of a lost and of a won game.
pub proof fn lemma_best_value_bounded<E: BoardEstimator>(
    estimator: E,
    kids: Seq<Position>,
    n: nat,
    depth: nat,
    color: CheckersColor,
)
    requires
        bounded(estimator),
        0 < n <= kids.len(),
    ensures
        MIN_SCORE <= best_value(estimator, kids, n, depth, color) <= MAX_SCORE,
    decreases depth, n,
{
    lemma_minimax_bounded(estimator, kids[n - 1], depth, color.spec_opposite());
    if n > 1 {
        lemma_best_value_bounded(estimator, kids, (n - 1) as nat, depth, color);
    } else {
        assert(best_value(estimator, kids, 0, depth, color) == worst_score(color));
    }
}

/// With a bounded evaluator, the search with cutoffs, started with the
/// window just outside the scores of a lost and of a won game, returns
/// the minimax value: the cutoffs save work and change no result.
pub proof fn lemma_alpha_beta_finds_minimax<E: BoardEstimator>(
    estimator: E,
    position: Position,
    depth: nat,
    color: CheckersColor,
)
    requires
        bounded(estimator),
    ensures
        alpha_beta_value(estimator, position, depth, color, MIN_SCORE - 1, MAX_SCORE + 1)
            == minimax_value(estimator, position, depth, color),
{
    lemma_minimax_bounded(estimator, position, depth, color);
    lemma_alpha_beta_window(estimator, position, depth, color, MIN_SCORE - 1, MAX_SCORE + 1);
}


/// What the side `color` prefers among the values that the search with
/// cutoffs, started with the full window, returns for the first `n` of
/// `kids`.
pub open spec fn best_alpha_beta_value<E: BoardEstimator>(
    estimator: E,
    kids: Seq<Position>,
    n: nat,
    depth: nat,
    color: CheckersColor,
) -> int
    decreases n,
{
    if n == 0 {
        worst_score(color)
    } else {
        better(
            color,
            best_alpha_beta_value(estimator, kids, (n - 1) as nat, depth, color),
            alpha_beta_value(
                estimator,
                kids[n - 1],
                depth,
                color.spec_opposite(),
                MIN_SCORE - 1,
                MAX_SCORE + 1,
            ),
        )
    }
}

/// Evaluations that hold the values found with cutoffs for the positions
/// `kids` have as their best the best of those values.
pub proof fn lemma_best_eval_is_best_alpha_beta<E: BoardEstimator>(
    estimator: E,
    kids: Seq<Position>,
    evals: Seq<(usize, i64)>,
    n: nat,
    depth: nat,
    color: CheckersColor,
)
    requires
        n <= kids.len(),
        kids.len() == evals.len(),
        forall|i: int|
            0 <= i < kids.len() ==> (#[trigger] evals[i]).1 == alpha_beta_value(
                estimator,
                kids[i],
                depth,
                color.spec_opposite(),
                MIN_SCORE - 1,
                MAX_SCORE + 1,
            ),
    ensures
        best_eval(color, evals, n) == best_alpha_beta_value(estimator, kids, n, depth, color),
    decreases n,
{
    if n > 0 {
        lemma_best_eval_is_best_alpha_beta(estimator, kids, evals, (n - 1) as nat, depth, color);
        assert(evals[n - 1].1 == alpha_beta_value(
            estimator,
            kids[n - 1],
            depth,
            color.spec_opposite(),
            MIN_SCORE - 1,
            MAX_SCORE + 1,
        ));
    }
}

/// With a bounded evaluator, the best of the values found with cutoffs is
/// the best of the minimax values.
pub proof fn lemma_best_alpha_beta_is_best_value<E: BoardEstimator>(
    estimator: E,
    kids: Seq<Position>,
    n: nat,
    depth: nat,
    color: CheckersColor,
)
    requires
        bounded(estimator),
        n <= kids.len(),
    ensures
        best_alpha_beta_value(estimator, kids, n, depth, color) == best_value(
            estimator,
            kids,
            n,
            depth,
            color,
        ),
    decreases n,
{
    if n > 0 {
        lemma_best_alpha_beta_is_best_value(estimator, kids, (n - 1) as nat, depth, color);
        lemma_alpha_beta_finds_minimax(estimator, kids[n - 1], depth, color.spec_opposite());
    }
}


} // verus!

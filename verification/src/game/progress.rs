//! Why a game comes to an end: every turn takes a piece, or brings a man
//! nearer to its last row, or uses up one of the king moves that a side
//! may make in a row.

use vstd::prelude::*;
use crate::board::{figure_on, mark, put, Square, square_index, unmarked, usable};
use crate::controller::{CheckersColor, Figure, Jump, Move, Position};
use crate::game::search::{children, IDLE_LIMIT, idle_of};
use crate::game::{reached_and_promoted, with_promotion};
use crate::rules::{
    after_jump, after_move, captures, check_move, lemma_moves_upto_forward, lemma_options_playable,
    man_steps_forward, moves_own_piece, options, playable_by, promoted, run_jumps, takes_each,
};

verus! {

/// What a square counts towards the number of pieces: one if it holds a
/// piece.
pub open spec fn piece_weight(i: int, square: Square) -> nat {
    if square.figure is Some {
        1
    } else {
        0
    }
}

/// What a square counts towards the way that the men have left: for a man
/// the number of rows up to and including its last row, for anything else
/// nothing. Square `i` lies on row `i / 4`.
pub open spec fn way_weight(i: int, square: Square) -> nat {
    match square.figure {
        Some(Figure::Pawn(CheckersColor::White)) => (8 - i / 4) as nat,
        Some(Figure::Pawn(CheckersColor::Black)) => (i / 4 + 1) as nat,
        _ => 0,
    }
}

/// The number of pieces on the first `n` squares.
pub open spec fn pieces_upto(squares: Seq<Square>, n: nat) -> nat
    decreases n,
{
    if n == 0 {
        0
    } else {
        pieces_upto(squares, (n - 1) as nat) + piece_weight(n - 1, squares[n - 1])
    }
}

/// The way that the men on the first `n` squares have left.
pub open spec fn way_upto(squares: Seq<Square>, n: nat) -> nat
    decreases n,
{
    if n == 0 {
        0
    } else {
        way_upto(squares, (n - 1) as nat) + way_weight(n - 1, squares[n - 1])
    }
}

/// The number of pieces on the board.
pub open spec fn pieces(squares: Seq<Square>) -> nat {
    pieces_upto(squares, 32)
}

/// The way that the men on the board have left.
pub open spec fn way_left(squares: Seq<Square>) -> nat {
    way_upto(squares, 32)
}

/// The king moves that a side with the idle counter `idle` may still
/// make in a row, and one more.
pub open spec fn room(idle: int) -> nat {
    if idle < 10 {
        (10 - idle) as nat
    } else {
        0
    }
}

/// The king moves that the two sides together may still make in a row.
pub open spec fn idle_room(position: Position) -> nat {
    room(position.white_idle) + room(position.black_idle)
}

/// Whether the position `after` is nearer to the end of the game than the
/// position `before`: it has fewer pieces, or as many and less way left
/// for the men, or as much and less room for king moves.
pub open spec fn nearer_the_end(after: Position, before: Position) -> bool {
    pieces(after.squares) < pieces(before.squares) || (pieces(after.squares) == pieces(
        before.squares,
    ) && (way_left(after.squares) < way_left(before.squares) || (way_left(after.squares)
        == way_left(before.squares) && idle_room(after) < idle_room(before))))
}

/// What replacing one square does to the two sums.
proof fn lemma_sums_update(squares: Seq<Square>, at: int, square: Square, n: nat)
    requires
        squares.len() == 32,
        0 <= at < 32,
        n <= 32,
    ensures
        pieces_upto(squares.update(at, square), n) + (if at < n {
            piece_weight(at, squares[at])
        } else {
            0
        }) == pieces_upto(squares, n) + (if at < n {
            piece_weight(at, square)
        } else {
            0
        }),
        way_upto(squares.update(at, square), n) + (if at < n {
            way_weight(at, squares[at])
        } else {
            0
        }) == way_upto(squares, n) + (if at < n {
            way_weight(at, square)
        } else {
            0
        }),
    decreases n,
{
    if n > 0 {
        lemma_sums_update(squares, at, square, (n - 1) as nat);
    }
}

/// Squares that hold the same pieces have the same sums.
proof fn lemma_sums_same_figures(a: Seq<Square>, b: Seq<Square>, n: nat)
    requires
        a.len() == 32,
        b.len() == 32,
        n <= 32,
        forall|i: int| 0 <= i < 32 ==> (#[trigger] a[i]).figure == b[i].figure,
    ensures
        pieces_upto(a, n) == pieces_upto(b, n),
        way_upto(a, n) == way_upto(b, n),
    decreases n,
{
    if n > 0 {
        lemma_sums_same_figures(a, b, (n - 1) as nat);
        assert(a[n - 1].figure == b[n - 1].figure);
    }
}

/// Promotion keeps the number of pieces and leaves the men no more way.
proof fn lemma_sums_promoted(squares: Seq<Square>, n: nat)
    requires
        squares.len() == 32,
        n <= 32,
    ensures
        pieces_upto(promoted(squares), n) == pieces_upto(squares, n),
        way_upto(promoted(squares), n) <= way_upto(squares, n),
    decreases n,
{
    if n > 0 {
        lemma_sums_promoted(squares, (n - 1) as nat);
    }
}

/// What putting a piece, or nothing, on a square does to the two sums.
proof fn lemma_sums_put(squares: Seq<Square>, x: int, y: int, figure: Option<Figure>)
    requires
        squares.len() == 32,
        usable(x, y),
    ensures
        put(squares, x, y, figure).len() == 32,
        pieces(put(squares, x, y, figure)) + piece_weight(
            square_index(x, y),
            squares[square_index(x, y)],
        ) == pieces(squares) + piece_weight(
            square_index(x, y),
            put(squares, x, y, figure)[square_index(x, y)],
        ),
        way_left(put(squares, x, y, figure)) + way_weight(
            square_index(x, y),
            squares[square_index(x, y)],
        ) == way_left(squares) + way_weight(
            square_index(x, y),
            put(squares, x, y, figure)[square_index(x, y)],
        ),
{
    let at = square_index(x, y);
    lemma_sums_update(
        squares,
        at,
        Square { figure, was_jumped_over: squares[at].was_jumped_over },
        32,
    );
}

/// A jump that takes a piece leaves fewer pieces.
proof fn lemma_jump_takes(squares: Seq<Square>, jump: Jump)
    requires
        squares.len() == 32,
        captures(squares, jump.x_start, jump.y_start, jump),
    ensures
        after_jump(squares, jump).len() == 32,
        pieces(after_jump(squares, jump)) < pieces(squares),
{
    let (xs, ys) = (jump.x_start as int, jump.y_start as int);
    let (xo, yo) = (jump.x_over as int, jump.y_over as int);
    let (xe, ye) = (jump.x_end as int, jump.y_end as int);
    let piece = figure_on(squares, xs, ys).unwrap();
    let lifted = put(squares, xs, ys, None);
    let taken = put(lifted, xo, yo, None);
    let marked = mark(taken, xo, yo, true);
    assert(usable(xs, ys) && usable(xo, yo));
    assert(square_index(xs, ys) != square_index(xo, yo));
    lemma_sums_put(squares, xs, ys, None);
    lemma_sums_put(lifted, xo, yo, None);
    lemma_sums_same_figures(marked, taken, 32);
    assert(pieces(marked) + 2 == pieces(squares));
    if usable(xe, ye) {
        lemma_sums_put(marked, xe, ye, Some(piece));
    }
}

/// A capture turn leaves fewer pieces.
proof fn lemma_chain_takes(squares: Seq<Square>, jumps: Seq<Jump>, n: nat)
    requires
        squares.len() == 32,
        n <= jumps.len(),
        run_jumps(squares, jumps, n) is Ok,
        takes_each(squares, jumps, n),
    ensures
        run_jumps(squares, jumps, n).unwrap().len() == 32,
        pieces(run_jumps(squares, jumps, n).unwrap()) + n <= pieces(squares),
    decreases n,
{
    if n > 0 {
        lemma_chain_takes(squares, jumps, (n - 1) as nat);
        let before = run_jumps(squares, jumps, (n - 1) as nat).unwrap();
        lemma_jump_takes(before, jumps[n - 1]);
    }
}

/// A move made by a king changes neither sum, unless the king is lost;
/// a move made by a man one row forward leaves the men less way.
proof fn lemma_move_sums(squares: Seq<Square>, m: Move)
    requires
        squares.len() == 32,
        check_move(squares, m) is Ok,
    ensures
        ({
            let after = put(
                put(squares, m.x_start as int, m.y_start as int, None),
                m.x_end as int,
                m.y_end as int,
                figure_on(squares, m.x_start as int, m.y_start as int),
            );
            let piece = figure_on(squares, m.x_start as int, m.y_start as int).unwrap();
            after.len() == 32 && pieces(after) <= pieces(squares) && (piece is Queen ==> way_left(
                after,
            ) == way_left(squares)) && (piece matches Figure::Pawn(color) && m.y_end
                == m.y_start + (if color == CheckersColor::White {
                1int
            } else {
                -1int
            }) ==> way_left(after) < way_left(squares))
        }),
{
    let (xs, ys) = (m.x_start as int, m.y_start as int);
    let (xe, ye) = (m.x_end as int, m.y_end as int);
    let piece = figure_on(squares, xs, ys);
    let lifted = put(squares, xs, ys, None);
    assert(usable(xs, ys));
    lemma_sums_put(squares, xs, ys, None);
    if usable(xe, ye) {
        assert(square_index(xs, ys) != square_index(xe, ye));
        lemma_sums_put(lifted, xe, ye, piece);
        assert(square_index(xs, ys) / 4 == ys);
        assert(square_index(xe, ye) / 4 == ye);
    }
}

/// Every turn brings the game nearer to its end.
pub proof fn lemma_turn_makes_progress(before: Position, color: CheckersColor, after: Position)
    requires
        before.squares.len() == 32,
        idle_of(before, color) <= IDLE_LIMIT,
        reached_and_promoted(before, color, after),
    ensures
        after.squares.len() == 32,
        nearer_the_end(after, before),
{
    let squares = before.squares;
    let kids = children(before, color);
    let i = choose|i: int| 0 <= i < kids.len() && after == with_promotion(#[trigger] kids[i]);
    let kid = kids[i];
    let (chains, moves) = options(squares, color);
    lemma_options_playable(squares, color);
    if chains.len() > 0 {
        let chain = chains[i];
        assert(playable_by(squares, color, chain));
        lemma_chain_takes(squares, chain, chain.len());
        let last = run_jumps(squares, chain, chain.len()).unwrap();
        lemma_sums_same_figures(unmarked(last), last, 32);
        assert(kid.squares == unmarked(last));
        lemma_sums_promoted(kid.squares, 32);
    } else {
        let m = moves[i];
        assert(moves_own_piece(squares, color, m));
        lemma_moves_upto_forward(squares, color, 64);
        assert(man_steps_forward(squares, m));
        lemma_move_sums(squares, m);
        assert(kid == after_move(before, m));
        lemma_sums_promoted(kid.squares, 32);
    }
}


} // verus!

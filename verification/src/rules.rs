//! What the pieces may do, stated over the 32 squares of a board.

use vstd::prelude::*;
use crate::board::{
    figure_on, flagged_on, mark, on_board, put, Square, square_index, start_squares, unmarked,
    usable,
};
use crate::controller::{CheckersAction, CheckersColor, Figure, Jump, Move, Position};
use crate::error::CheckersError;

verus! {

/// Whether `(x, y)` lies on the board and holds no piece.
pub open spec fn free(squares: Seq<Square>, x: int, y: int) -> bool {
    on_board(x, y) && figure_on(squares, x, y) is None
}

/// Whether a piece of the side `color` stands on `(x, y)`.
pub open spec fn side_on(squares: Seq<Square>, x: int, y: int, color: CheckersColor) -> bool {
    figure_on(squares, x, y) matches Some(figure) && figure.spec_color() == color
}

/// The squares of the board met by stepping from `(x, y)` by `(dx, dy)`,
/// nearest first, up to the edge. Each step is one column and one row.
pub open spec fn ray(x: int, y: int, dx: int, dy: int) -> Seq<(u8, u8)>
    decreases
            if dx > 0 {
                8 - x
            } else {
                x + 1
            },
{
    if (dx == 1 || dx == -1) && (dy == 1 || dy == -1) && on_board(x + dx, y + dy) {
        seq![((x + dx) as u8, (y + dy) as u8)] + ray(x + dx, y + dy, dx, dy)
    } else {
        Seq::empty()
    }
}

/// Whether each of `squares` lies on the board.
pub open spec fn all_on_board(squares: Seq<(u8, u8)>) -> bool {
    forall|i: int| 0 <= i < squares.len() ==> (#[trigger] squares[i]).0 <= 7 && squares[i].1 <= 7
}

/// The most squares that a ray from column `x` can have.
pub open spec fn ray_bound(x: int, dx: int) -> int {
    if dx > 0 {
        if x <= 7 {
            7 - x
        } else {
            0
        }
    } else {
        if x >= 0 {
            x
        } else {
            0
        }
    }
}

/// Whether square `k` of the ray from `(x, y)` lies `k + 1` steps from
/// there, on the board.
pub open spec fn ray_square_at(x: int, y: int, dx: int, dy: int, k: int) -> bool {
    let square = ray(x, y, dx, dy)[k];
    on_board(x + (k + 1) * dx, y + (k + 1) * dy) && square.0 == x + (k + 1) * dx && square.1 == y
        + (k + 1) * dy
}

/// Square `k` of a ray lies `k + 1` steps from its origin and on the
/// board.
pub proof fn lemma_ray_squares(x: int, y: int, dx: int, dy: int)
    ensures
        ray(x, y, dx, dy).len() <= ray_bound(x, dx),
        ray(x, y, dx, dy).len() > 0 <==> (dx == 1 || dx == -1) && (dy == 1 || dy == -1)
            && on_board(x + dx, y + dy),
        forall|k: int|
            0 <= k < ray(x, y, dx, dy).len() ==> #[trigger] ray_square_at(x, y, dx, dy, k),
    decreases
            if dx > 0 {
                8 - x
            } else {
                x + 1
            },
{
    let here = ray(x, y, dx, dy);
    if (dx == 1 || dx == -1) && (dy == 1 || dy == -1) && on_board(x + dx, y + dy) {
        lemma_ray_squares(x + dx, y + dy, dx, dy);
        let rest = ray(x + dx, y + dy, dx, dy);
        let first = seq![((x + dx) as u8, (y + dy) as u8)];
        assert(here == first + rest);
        assert forall|k: int| 0 <= k < here.len() implies #[trigger] ray_square_at(
            x,
            y,
            dx,
            dy,
            k,
        ) by {
            assert((k + 1) * dx == k * dx + dx) by (nonlinear_arith);
            assert((k + 1) * dy == k * dy + dy) by (nonlinear_arith);
            if k > 0 {
                assert(here[k] == rest[k - 1]);
                assert(ray_square_at(x + dx, y + dy, dx, dy, k - 1));
                assert(((k - 1) + 1) * dx == k * dx);
                assert(((k - 1) + 1) * dy == k * dy);
            } else {
                assert(here[0] == first[0]);
                assert(0 * dx == 0);
                assert(0 * dy == 0);
            }
        }
    } else {
        assert(here.len() == 0);
    }
}

/// The number of free squares of `ray` in a row, counted from index `from`.
pub open spec fn free_run(squares: Seq<Square>, ray: Seq<(u8, u8)>, from: int) -> nat
    decreases ray.len() - from,
{
    if 0 <= from < ray.len() && free(squares, ray[from].0 as int, ray[from].1 as int) {
        1 + free_run(squares, ray, from + 1)
    } else {
        0
    }
}

/// A run of free squares that starts at `from` and is stopped at `stop`,
/// by a square that is not free or by the end of the ray, has `stop - from`
/// squares.
pub proof fn lemma_free_run_stop(squares: Seq<Square>, ray: Seq<(u8, u8)>, from: int, stop: int)
    requires
        0 <= from <= stop <= ray.len(),
        forall|j: int|
            from <= j < stop ==> free(squares, #[trigger] ray[j].0 as int, ray[j].1 as int),
        stop == ray.len() || !free(squares, ray[stop].0 as int, ray[stop].1 as int),
    ensures
        free_run(squares, ray, from) == stop - from,
    decreases stop - from,
{
    if from < stop {
        assert(free(squares, ray[from].0 as int, ray[from].1 as int));
        lemma_free_run_stop(squares, ray, from + 1, stop);
    }
}

/// The free squares counted by a run are free, and the square that follows
/// the run, if any, is not.
pub proof fn lemma_free_run_squares(squares: Seq<Square>, ray: Seq<(u8, u8)>, from: int)
    requires
        0 <= from,
    ensures
        from + free_run(squares, ray, from) <= ray.len() || free_run(squares, ray, from) == 0,
        forall|j: int|
            from <= j < from + free_run(squares, ray, from) ==> free(
                squares,
                #[trigger] ray[j].0 as int,
                ray[j].1 as int,
            ),
        from + free_run(squares, ray, from) < ray.len() ==> !free(
            squares,
            ray[from + free_run(squares, ray, from)].0 as int,
            ray[from + free_run(squares, ray, from)].1 as int,
        ),
    decreases ray.len() - from,
{
    if from < ray.len() && free(squares, ray[from].0 as int, ray[from].1 as int) {
        lemma_free_run_squares(squares, ray, from + 1);
    }
}

/// The moves of a king at `(x, y)` along one ray: to each free square
/// before the first that is not.
pub open spec fn slide_moves(squares: Seq<Square>, x: u8, y: u8, ray: Seq<(u8, u8)>) -> Seq<Move> {
    Seq::new(
        free_run(squares, ray, 0),
        |k: int| Move { x_start: x, y_start: y, x_end: ray[k].0, y_end: ray[k].1 },
    )
}

/// The move of a man at `(x, y)` by one step `(dx, dy)`, if the square
/// there is free.
pub open spec fn step_moves(squares: Seq<Square>, x: u8, y: u8, dx: int, dy: int) -> Seq<Move> {
    if free(squares, x + dx, y + dy) {
        seq![Move { x_start: x, y_start: y, x_end: (x + dx) as u8, y_end: (y + dy) as u8 }]
    } else {
        Seq::empty()
    }
}

/// The row direction in which the men of a side move: White up, Black
/// down.
pub open spec fn forward(color: CheckersColor) -> int {
    if color == CheckersColor::White {
        1
    } else {
        -1
    }
}

/// The moves of a man of the side `color` at `(x, y)`: forward to the
/// left, then forward to the right.
pub open spec fn man_moves(squares: Seq<Square>, x: u8, y: u8, color: CheckersColor) -> Seq<Move> {
    step_moves(squares, x, y, -1, forward(color)) + step_moves(squares, x, y, 1, forward(color))
}

/// The moves of a king at `(x, y)`, ray by ray.
pub open spec fn king_moves(squares: Seq<Square>, x: u8, y: u8) -> Seq<Move> {
    slide_moves(squares, x, y, ray(x as int, y as int, 1, 1)) + slide_moves(
        squares,
        x,
        y,
        ray(x as int, y as int, -1, 1),
    ) + slide_moves(squares, x, y, ray(x as int, y as int, 1, -1)) + slide_moves(
        squares,
        x,
        y,
        ray(x as int, y as int, -1, -1),
    )
}

/// The moves of the piece at `(x, y)`, none if the square is empty.
pub open spec fn moves_at(squares: Seq<Square>, x: u8, y: u8) -> Seq<Move> {
    match figure_on(squares, x as int, y as int) {
        None => Seq::empty(),
        Some(Figure::Queen(_)) => king_moves(squares, x, y),
        Some(Figure::Pawn(color)) => man_moves(squares, x, y, color),
    }
}


/// The jump of a man at `(x, y)` along one ray: over the nearest square,
/// if an unmarked piece of the side `enemy` stands there, onto the next,
/// if that is free.
pub open spec fn hop_jumps(
    squares: Seq<Square>,
    x: u8,
    y: u8,
    enemy: CheckersColor,
    ray: Seq<(u8, u8)>,
) -> Seq<Jump> {
    if ray.len() >= 2 && free(squares, ray[1].0 as int, ray[1].1 as int) && side_on(
        squares,
        ray[0].0 as int,
        ray[0].1 as int,
        enemy,
    ) && !flagged_on(squares, ray[0].0 as int, ray[0].1 as int) {
        seq![
            Jump {
                x_start: x,
                y_start: y,
                x_over: ray[0].0,
                y_over: ray[0].1,
                x_end: ray[1].0,
                y_end: ray[1].1,
            },
        ]
    } else {
        Seq::empty()
    }
}

/// The index of the first square of `ray`, at or after `from`, that is
/// marked or holds a piece; the length of the ray if there is none.
pub open spec fn first_stop(squares: Seq<Square>, ray: Seq<(u8, u8)>, from: int) -> int
    decreases ray.len() - from,
{
    if 0 <= from < ray.len() && !flagged_on(squares, ray[from].0 as int, ray[from].1 as int)
        && free(squares, ray[from].0 as int, ray[from].1 as int) {
        first_stop(squares, ray, from + 1)
    } else {
        from
    }
}

/// A scan that starts at `from` and is stopped at `stop`, by a square that
/// is marked or holds a piece or by the end of the ray, has its first stop
/// there.
pub proof fn lemma_first_stop(squares: Seq<Square>, ray: Seq<(u8, u8)>, from: int, stop: int)
    requires
        0 <= from <= stop <= ray.len(),
        forall|j: int|
            from <= j < stop ==> !flagged_on(squares, #[trigger] ray[j].0 as int, ray[j].1 as int)
                && free(squares, ray[j].0 as int, ray[j].1 as int),
        stop == ray.len() || flagged_on(squares, ray[stop].0 as int, ray[stop].1 as int) || !free(
            squares,
            ray[stop].0 as int,
            ray[stop].1 as int,
        ),
    ensures
        first_stop(squares, ray, from) == stop,
    decreases stop - from,
{
    if from < stop {
        assert(!flagged_on(squares, ray[from].0 as int, ray[from].1 as int) && free(
            squares,
            ray[from].0 as int,
            ray[from].1 as int,
        ));
        lemma_first_stop(squares, ray, from + 1, stop);
    }
}

/// The first stop lies at or after the start of the scan and within the
/// ray or at its end.
pub proof fn lemma_first_stop_range(squares: Seq<Square>, ray: Seq<(u8, u8)>, from: int)
    requires
        0 <= from <= ray.len(),
    ensures
        from <= first_stop(squares, ray, from) <= ray.len(),
    decreases ray.len() - from,
{
    if from < ray.len() && !flagged_on(squares, ray[from].0 as int, ray[from].1 as int) && free(
        squares,
        ray[from].0 as int,
        ray[from].1 as int,
    ) {
        lemma_first_stop_range(squares, ray, from + 1);
    }
}

/// The jumps of a king at `(x, y)` along one ray. The king slides over
/// free, unmarked squares. If the first other square holds an unmarked
/// piece of the side `enemy`, the king may jump over it onto each free
/// square behind it, up to the next that is not free.
pub open spec fn fly_jumps(
    squares: Seq<Square>,
    x: u8,
    y: u8,
    enemy: CheckersColor,
    ray: Seq<(u8, u8)>,
) -> Seq<Jump> {
    let i = first_stop(squares, ray, 0);
    if i < ray.len() && !flagged_on(squares, ray[i].0 as int, ray[i].1 as int) && side_on(
        squares,
        ray[i].0 as int,
        ray[i].1 as int,
        enemy,
    ) {
        Seq::new(
            free_run(squares, ray, i + 1),
            |k: int|
                Jump {
                    x_start: x,
                    y_start: y,
                    x_over: ray[i].0,
                    y_over: ray[i].1,
                    x_end: ray[i + 1 + k].0,
                    y_end: ray[i + 1 + k].1,
                },
        )
    } else {
        Seq::empty()
    }
}

/// The jumps of a man at `(x, y)`, in the order of the four rays: upper
/// right, upper left, lower right, lower left. Nothing if no man stands
/// there.
pub open spec fn man_jumps_at(squares: Seq<Square>, x: u8, y: u8) -> Seq<Jump> {
    match figure_on(squares, x as int, y as int) {
        Some(Figure::Pawn(color)) => {
            let enemy = color.spec_opposite();
            hop_jumps(squares, x, y, enemy, ray(x as int, y as int, 1, 1)) + hop_jumps(
                squares,
                x,
                y,
                enemy,
                ray(x as int, y as int, -1, 1),
            ) + hop_jumps(squares, x, y, enemy, ray(x as int, y as int, 1, -1)) + hop_jumps(
                squares,
                x,
                y,
                enemy,
                ray(x as int, y as int, -1, -1),
            )
        },
        _ => Seq::empty(),
    }
}

/// The jumps of a king at `(x, y)`, ray by ray. Nothing if no king stands
/// there.
pub open spec fn king_jumps_at(squares: Seq<Square>, x: u8, y: u8) -> Seq<Jump> {
    match figure_on(squares, x as int, y as int) {
        Some(Figure::Queen(color)) => {
            let enemy = color.spec_opposite();
            fly_jumps(squares, x, y, enemy, ray(x as int, y as int, 1, 1)) + fly_jumps(
                squares,
                x,
                y,
                enemy,
                ray(x as int, y as int, -1, 1),
            ) + fly_jumps(squares, x, y, enemy, ray(x as int, y as int, 1, -1)) + fly_jumps(
                squares,
                x,
                y,
                enemy,
                ray(x as int, y as int, -1, -1),
            )
        },
        _ => Seq::empty(),
    }
}

/// The single jumps open to the piece at `(x, y)`.
pub open spec fn jumps_at(squares: Seq<Square>, x: u8, y: u8) -> Seq<Jump> {
    match figure_on(squares, x as int, y as int) {
        None => Seq::empty(),
        Some(Figure::Pawn(_)) => man_jumps_at(squares, x, y),
        Some(Figure::Queen(_)) => king_jumps_at(squares, x, y),
    }
}

/// Whether a move can be executed, and if not, why.
pub open spec fn check_move(squares: Seq<Square>, m: Move) -> Result<(), CheckersError> {
    if m.x_start > 7 || m.y_start > 7 || m.x_end > 7 || m.y_end > 7 {
        Err(CheckersError::OutOfBounds)
    } else if figure_on(squares, m.x_start as int, m.y_start as int) is None || !free(
        squares,
        m.x_end as int,
        m.y_end as int,
    ) {
        Err(CheckersError::IllegalAction)
    } else {
        Ok(())
    }
}

/// The position after a move: the piece stands on the end square, and a
/// king's move adds one to the idle counter of its side while a man's move
/// sets it to zero. A move that cannot be executed changes nothing.
pub open spec fn after_move(position: Position, m: Move) -> Position {
    if check_move(position.squares, m) is Ok {
        let piece = figure_on(position.squares, m.x_start as int, m.y_start as int).unwrap();
        Position {
            squares: put(
                put(position.squares, m.x_start as int, m.y_start as int, None),
                m.x_end as int,
                m.y_end as int,
                Some(piece),
            ),
            white_idle: match piece {
                Figure::Queen(CheckersColor::White) => position.white_idle + 1,
                Figure::Pawn(CheckersColor::White) => 0,
                _ => position.white_idle,
            },
            black_idle: match piece {
                Figure::Queen(CheckersColor::Black) => position.black_idle + 1,
                Figure::Pawn(CheckersColor::Black) => 0,
                _ => position.black_idle,
            },
        }
    } else {
        position
    }
}

/// Whether a jump can be executed, and if not, why.
pub open spec fn check_jump(squares: Seq<Square>, jump: Jump) -> Result<(), CheckersError> {
    if jump.x_start > 7 || jump.y_start > 7 || jump.x_over > 7 || jump.y_over > 7 || jump.x_end > 7
        || jump.y_end > 7 {
        Err(CheckersError::OutOfBounds)
    } else if figure_on(squares, jump.x_start as int, jump.y_start as int) is None || !free(
        squares,
        jump.x_end as int,
        jump.y_end as int,
    ) {
        Err(CheckersError::IllegalAction)
    } else {
        Ok(())
    }
}

/// The squares after a jump: the piece stands on the end square, and the
/// square jumped over is empty and marked. A jump that cannot be executed
/// changes nothing.
pub open spec fn after_jump(squares: Seq<Square>, jump: Jump) -> Seq<Square> {
    if check_jump(squares, jump) is Ok {
        let piece = figure_on(squares, jump.x_start as int, jump.y_start as int).unwrap();
        let lifted = put(squares, jump.x_start as int, jump.y_start as int, None);
        let taken = put(lifted, jump.x_over as int, jump.y_over as int, None);
        let marked = mark(taken, jump.x_over as int, jump.y_over as int, true);
        put(marked, jump.x_end as int, jump.y_end as int, Some(piece))
    } else {
        squares
    }
}

/// The squares after the first `n` of `jumps` are executed in order, or
/// the error of the first that cannot be.
pub open spec fn run_jumps(squares: Seq<Square>, jumps: Seq<Jump>, n: nat) -> Result<
    Seq<Square>,
    CheckersError,
>
    decreases n,
{
    if n == 0 {
        Ok(squares)
    } else {
        match run_jumps(squares, jumps, (n - 1) as nat) {
            Err(e) => Err(e),
            Ok(before) => match check_jump(before, jumps[n - 1]) {
                Err(e) => Err(e),
                Ok(_) => Ok(after_jump(before, jumps[n - 1])),
            },
        }
    }
}

/// The squares after a whole capture chain: every jump executed, then
/// every mark cleared. A chain with a jump that cannot be executed changes
/// nothing.
pub open spec fn after_chain(squares: Seq<Square>, jumps: Seq<Jump>) -> Seq<Square> {
    match run_jumps(squares, jumps, jumps.len()) {
        Ok(last) => unmarked(last),
        Err(_) => squares,
    }
}

/// Whether a capture chain can be executed, and if not, why: the error
/// of its first jump that cannot be.
pub open spec fn check_chain(squares: Seq<Square>, jumps: Seq<Jump>) -> Result<(), CheckersError> {
    match run_jumps(squares, jumps, jumps.len()) {
        Ok(_) => Ok(()),
        Err(e) => Err(e),
    }
}

/// Whether an action can be executed, and if not, why.
pub open spec fn check_action(squares: Seq<Square>, action: CheckersAction) -> Result<
    (),
    CheckersError,
> {
    match action {
        CheckersAction::Move(m) => check_move(squares, m),
        CheckersAction::Jump(jump) => check_jump(squares, jump),
        CheckersAction::JumpChain(chain) => check_chain(squares, chain@),
    }
}

/// The position after an action. Only a move touches the idle counters.
pub open spec fn after_action(position: Position, action: CheckersAction) -> Position {
    match action {
        CheckersAction::Move(m) => after_move(position, m),
        CheckersAction::Jump(jump) => Position {
            squares: after_jump(position.squares, jump),
            ..position
        },
        CheckersAction::JumpChain(chain) => Position {
            squares: after_chain(position.squares, chain@),
            ..position
        },
    }
}

/// The squares after promotion: a white man on the highest row and a black
/// man on the lowest become kings.
pub open spec fn promoted(squares: Seq<Square>) -> Seq<Square> {
    Seq::new(
        squares.len(),
        |i: int|
            if i / 4 == 7 && squares[i].figure == Some(Figure::Pawn(CheckersColor::White)) {
                Square {
                    figure: Some(Figure::Queen(CheckersColor::White)),
                    was_jumped_over: squares[i].was_jumped_over,
                }
            } else if i / 4 == 0 && squares[i].figure == Some(Figure::Pawn(CheckersColor::Black)) {
                Square {
                    figure: Some(Figure::Queen(CheckersColor::Black)),
                    was_jumped_over: squares[i].was_jumped_over,
                }
            } else {
                squares[i]
            },
    )
}


/// Whether `jump` is a jump of the piece at `(x, y)` that can be executed
/// and takes an unmarked piece of the other side.
pub open spec fn captures(squares: Seq<Square>, x: u8, y: u8, jump: Jump) -> bool {
    jump.x_start == x && jump.y_start == y && check_jump(squares, jump) is Ok && (figure_on(
        squares,
        x as int,
        y as int,
    ) matches Some(piece) && side_on(
        squares,
        jump.x_over as int,
        jump.y_over as int,
        piece.spec_enemy_color(),
    )) && !flagged_on(squares, jump.x_over as int, jump.y_over as int)
}

/// The jump of a man along a ray takes a piece.
proof fn lemma_hop_jumps_capture(
    squares: Seq<Square>,
    x: u8,
    y: u8,
    enemy: CheckersColor,
    dx: int,
    dy: int,
)
    requires
        figure_on(squares, x as int, y as int) matches Some(piece) && piece.spec_enemy_color()
            == enemy,
    ensures
        forall|i: int|
            0 <= i < hop_jumps(squares, x, y, enemy, ray(x as int, y as int, dx, dy)).len()
                ==> captures(
                squares,
                x,
                y,
                #[trigger] hop_jumps(squares, x, y, enemy, ray(x as int, y as int, dx, dy))[i],
            ),
{
    let line = ray(x as int, y as int, dx, dy);
    lemma_ray_squares(x as int, y as int, dx, dy);
    if line.len() >= 2 {
        assert(ray_square_at(x as int, y as int, dx, dy, 0));
        assert(ray_square_at(x as int, y as int, dx, dy, 1));
    }
}

/// The jumps of a king along a ray take a piece.
proof fn lemma_fly_jumps_capture(
    squares: Seq<Square>,
    x: u8,
    y: u8,
    enemy: CheckersColor,
    dx: int,
    dy: int,
)
    requires
        figure_on(squares, x as int, y as int) matches Some(piece) && piece.spec_enemy_color()
            == enemy,
    ensures
        forall|i: int|
            0 <= i < fly_jumps(squares, x, y, enemy, ray(x as int, y as int, dx, dy)).len()
                ==> captures(
                squares,
                x,
                y,
                #[trigger] fly_jumps(squares, x, y, enemy, ray(x as int, y as int, dx, dy))[i],
            ),
{
    let line = ray(x as int, y as int, dx, dy);
    let jumps = fly_jumps(squares, x, y, enemy, line);
    lemma_ray_squares(x as int, y as int, dx, dy);
    lemma_first_stop_range(squares, line, 0);
    let stop = first_stop(squares, line, 0);
    if stop < line.len() {
        lemma_free_run_squares(squares, line, stop + 1);
        assert forall|i: int| 0 <= i < jumps.len() implies captures(
            squares,
            x,
            y,
            #[trigger] jumps[i],
        ) by {
            assert(ray_square_at(x as int, y as int, dx, dy, stop));
            assert(ray_square_at(x as int, y as int, dx, dy, stop + 1 + i));
            assert(free(squares, line[stop + 1 + i].0 as int, line[stop + 1 + i].1 as int));
        }
    }
}

/// Every jump open to a piece can be executed and takes an unmarked piece
/// of the other side.
pub proof fn lemma_jumps_capture(squares: Seq<Square>, x: u8, y: u8)
    ensures
        forall|i: int|
            0 <= i < jumps_at(squares, x, y).len() ==> captures(
                squares,
                x,
                y,
                #[trigger] jumps_at(squares, x, y)[i],
            ),
{
    match figure_on(squares, x as int, y as int) {
        None => {},
        Some(piece) => {
            let enemy = piece.spec_enemy_color();
            if piece is Pawn {
                lemma_hop_jumps_capture(squares, x, y, enemy, 1, 1);
                lemma_hop_jumps_capture(squares, x, y, enemy, -1, 1);
                lemma_hop_jumps_capture(squares, x, y, enemy, 1, -1);
                lemma_hop_jumps_capture(squares, x, y, enemy, -1, -1);
            } else {
                lemma_fly_jumps_capture(squares, x, y, enemy, 1, 1);
                lemma_fly_jumps_capture(squares, x, y, enemy, -1, 1);
                lemma_fly_jumps_capture(squares, x, y, enemy, 1, -1);
                lemma_fly_jumps_capture(squares, x, y, enemy, -1, -1);
            }
        },
    }
}

/// The number of marked squares among the first `n`.
pub open spec fn marks(squares: Seq<Square>, n: nat) -> nat
    decreases n,
{
    if n == 0 {
        0
    } else {
        marks(squares, (n - 1) as nat) + if squares[n - 1].was_jumped_over {
            1nat
        } else {
            0nat
        }
    }
}

/// The number of squares, of the 32, that are not marked.
pub open spec fn unmarked_count(squares: Seq<Square>) -> nat {
    (32 - marks(squares, 32)) as nat
}

/// No more than `n` of the first `n` squares are marked.
proof fn lemma_marks_bound(squares: Seq<Square>, n: nat)
    ensures
        marks(squares, n) <= n,
    decreases n,
{
    if n > 0 {
        lemma_marks_bound(squares, (n - 1) as nat);
    }
}

/// Marking one unmarked square adds one to the number of marks.
proof fn lemma_marks_one_more(before: Seq<Square>, after: Seq<Square>, at: int, n: nat)
    requires
        before.len() == 32,
        after.len() == 32,
        n <= 32,
        0 <= at < 32,
        !before[at].was_jumped_over,
        after[at].was_jumped_over,
        forall|i: int|
            0 <= i < 32 && i != at ==> before[i].was_jumped_over == (
            #[trigger] after[i]).was_jumped_over,
    ensures
        marks(after, n) == marks(before, n) + if at < n {
            1nat
        } else {
            0nat
        },
    decreases n,
{
    if n > 0 {
        lemma_marks_one_more(before, after, at, (n - 1) as nat);
        if n - 1 != at {
            assert(before[n - 1].was_jumped_over == after[n - 1].was_jumped_over);
        }
    }
}

/// A jump that takes an unmarked piece leaves one unmarked square fewer.
pub proof fn lemma_jump_marks(squares: Seq<Square>, x: u8, y: u8, jump: Jump)
    requires
        squares.len() == 32,
        captures(squares, x, y, jump),
    ensures
        unmarked_count(after_jump(squares, jump)) < unmarked_count(squares),
        after_jump(squares, jump).len() == 32,
{
    let after = after_jump(squares, jump);
    let at = square_index(jump.x_over as int, jump.y_over as int);
    assert(usable(jump.x_over as int, jump.y_over as int));
    lemma_marks_one_more(squares, after, at, 32);
    lemma_marks_bound(after, 32);
}

/// The capture paths of the piece at `(x, y)` that go on from the jumps
/// `prefix` made so far: each is `prefix` followed by jumps, one after
/// the other on the squares as the jumps before it left them, until the
/// piece has no jump left. Of the jumps open at `(x, y)`, only those from
/// index `i` on are taken first. A piece with no jump open has the one
/// path `prefix`, unless that is empty.
#[verifier::opaque]
pub open spec fn paths(squares: Seq<Square>, x: u8, y: u8, i: nat, prefix: Seq<Jump>) -> Seq<
    Seq<Jump>,
>
    decreases unmarked_count(squares), jumps_at(squares, x, y).len() - i,
    when squares.len() == 32
{
    let jumps = jumps_at(squares, x, y);
    if jumps.len() == 0 {
        if prefix.len() > 0 {
            seq![prefix]
        } else {
            Seq::empty()
        }
    } else if i >= jumps.len() {
        Seq::empty()
    } else {
        let jump = jumps[i as int];
        let onward = {
            proof {
                lemma_jumps_capture(squares, x, y);
                lemma_jump_marks(squares, x, y, jump);
            }
            paths(after_jump(squares, jump), jump.x_end, jump.y_end, 0, prefix.push(jump))
        };
        onward + paths(squares, x, y, i + 1, prefix)
    }
}

/// The paths of a piece that has no jump open: the jumps made so far,
/// if any.
pub proof fn lemma_paths_end(squares: Seq<Square>, x: u8, y: u8, i: nat, prefix: Seq<Jump>)
    requires
        squares.len() == 32,
        jumps_at(squares, x, y).len() == 0,
    ensures
        paths(squares, x, y, i, prefix) == if prefix.len() > 0 {
            seq![prefix]
        } else {
            Seq::<Seq<Jump>>::empty()
        },
{
    reveal(paths);
}

/// The paths of a piece that has jumps open: those that go on with the
/// jump of index `i`, then those that go on with a later one.
pub proof fn lemma_paths_step(squares: Seq<Square>, x: u8, y: u8, i: nat, prefix: Seq<Jump>)
    requires
        squares.len() == 32,
        jumps_at(squares, x, y).len() > 0,
    ensures
        i >= jumps_at(squares, x, y).len() ==> paths(squares, x, y, i, prefix) == Seq::<
            Seq<Jump>,
        >::empty(),
        i < jumps_at(squares, x, y).len() ==> paths(squares, x, y, i, prefix) == paths(
            after_jump(squares, jumps_at(squares, x, y)[i as int]),
            jumps_at(squares, x, y)[i as int].x_end,
            jumps_at(squares, x, y)[i as int].y_end,
            0,
            prefix.push(jumps_at(squares, x, y)[i as int]),
        ) + paths(squares, x, y, i + 1, prefix),
{
    reveal(paths);
}

/// The greatest length among the first `n` of `chains`, 0 if there is
/// none.
pub open spec fn max_len(chains: Seq<Seq<Jump>>, n: nat) -> nat
    decreases n,
{
    if n == 0 {
        0
    } else {
        let before = max_len(chains, (n - 1) as nat);
        if chains[n - 1].len() > before {
            chains[n - 1].len()
        } else {
            before
        }
    }
}

/// Those of the first `n` of `chains` that have `len` jumps, in order.
pub open spec fn of_length(chains: Seq<Seq<Jump>>, len: nat, n: nat) -> Seq<Seq<Jump>>
    decreases n,
{
    if n == 0 {
        Seq::empty()
    } else {
        let before = of_length(chains, len, (n - 1) as nat);
        if chains[n - 1].len() == len {
            before.push(chains[n - 1])
        } else {
            before
        }
    }
}

/// The longest of `chains`, in order.
pub open spec fn longest(chains: Seq<Seq<Jump>>) -> Seq<Seq<Jump>> {
    of_length(chains, max_len(chains, chains.len()), chains.len())
}

/// The capture chains of the piece at `(x, y)`: the longest of its
/// capture paths.
pub open spec fn captures_at(squares: Seq<Square>, x: u8, y: u8) -> Seq<Seq<Jump>> {
    longest(paths(squares, x, y, 0, Seq::empty()))
}

/// The square with number `n` in the order in which a board is scanned:
/// row by row from row 0, each row from column 0.
pub open spec fn scan_square(n: int) -> (u8, u8) {
    ((n % 8) as u8, (n / 8) as u8)
}

/// The squares, among the first `n` scanned, on which a piece of the side
/// `color` stands.
pub open spec fn positions(squares: Seq<Square>, color: CheckersColor, n: nat) -> Seq<(u8, u8)>
    decreases n,
{
    if n == 0 {
        Seq::empty()
    } else {
        let before = positions(squares, color, (n - 1) as nat);
        let (x, y) = scan_square(n - 1);
        if side_on(squares, x as int, y as int, color) {
            before.push((x, y))
        } else {
            before
        }
    }
}

/// The moves of the pieces of the side `color` that stand on the first `n`
/// squares scanned.
pub open spec fn moves_upto(squares: Seq<Square>, color: CheckersColor, n: nat) -> Seq<Move>
    decreases n,
{
    if n == 0 {
        Seq::empty()
    } else {
        let before = moves_upto(squares, color, (n - 1) as nat);
        let (x, y) = scan_square(n - 1);
        if side_on(squares, x as int, y as int, color) {
            before + moves_at(squares, x, y)
        } else {
            before
        }
    }
}

/// Every move of the side `color`.
pub open spec fn all_moves(squares: Seq<Square>, color: CheckersColor) -> Seq<Move> {
    moves_upto(squares, color, 64)
}

/// The capture chains of the pieces of the side `color` that stand on the
/// first `n` squares scanned.
pub open spec fn captures_upto(squares: Seq<Square>, color: CheckersColor, n: nat) -> Seq<
    Seq<Jump>,
>
    decreases n,
{
    if n == 0 {
        Seq::empty()
    } else {
        let before = captures_upto(squares, color, (n - 1) as nat);
        let (x, y) = scan_square(n - 1);
        if side_on(squares, x as int, y as int, color) {
            before + captures_at(squares, x, y)
        } else {
            before
        }
    }
}

/// Every capture chain of the side `color`: for each of its pieces, the
/// longest chains of that piece.
pub open spec fn all_captures(squares: Seq<Square>, color: CheckersColor) -> Seq<Seq<Jump>> {
    captures_upto(squares, color, 64)
}

/// What the side `color` may do: if any of its pieces can capture, the
/// longest of all its capture chains and no move; otherwise every move.
pub open spec fn options(squares: Seq<Square>, color: CheckersColor) -> (
    Seq<Seq<Jump>>,
    Seq<Move>,
) {
    let chains = all_captures(squares, color);
    if chains.len() > 0 {
        (longest(chains), Seq::empty())
    } else {
        (Seq::empty(), all_moves(squares, color))
    }
}


/// Whether `m` can be executed and moves a king of the side `color`.
pub open spec fn moves_king(squares: Seq<Square>, color: CheckersColor, m: Move) -> bool {
    check_move(squares, m) is Ok && figure_on(squares, m.x_start as int, m.y_start as int) == Some(
        Figure::Queen(color),
    )
}

/// Whether `m` can be executed and moves a piece of the side `color`.
pub open spec fn moves_own_piece(squares: Seq<Square>, color: CheckersColor, m: Move) -> bool {
    check_move(squares, m) is Ok && side_on(squares, m.x_start as int, m.y_start as int, color)
}

/// Every move of a king along a ray starts at the king and can be executed.
proof fn lemma_slide_moves_legal(squares: Seq<Square>, x: u8, y: u8, dx: int, dy: int)
    requires
        x <= 7,
        y <= 7,
        figure_on(squares, x as int, y as int) is Some,
    ensures
        forall|i: int|
            0 <= i < slide_moves(squares, x, y, ray(x as int, y as int, dx, dy)).len() ==> {
                let m = #[trigger] slide_moves(squares, x, y, ray(x as int, y as int, dx, dy))[i];
                m.x_start == x && m.y_start == y && check_move(squares, m) is Ok
            },
{
    let line = ray(x as int, y as int, dx, dy);
    let moves = slide_moves(squares, x, y, line);
    lemma_ray_squares(x as int, y as int, dx, dy);
    lemma_free_run_squares(squares, line, 0);
    assert forall|i: int| 0 <= i < moves.len() implies ({
        let m = #[trigger] moves[i];
        m.x_start == x && m.y_start == y && check_move(squares, m) is Ok
    }) by {
        assert(ray_square_at(x as int, y as int, dx, dy, i));
        assert(free(squares, line[i].0 as int, line[i].1 as int));
    }
}

/// Every move of the piece at `(x, y)` starts there and can be executed.
pub proof fn lemma_moves_at_legal(squares: Seq<Square>, x: u8, y: u8)
    requires
        x <= 7,
        y <= 7,
    ensures
        forall|i: int|
            0 <= i < moves_at(squares, x, y).len() ==> {
                let m = #[trigger] moves_at(squares, x, y)[i];
                m.x_start == x && m.y_start == y && check_move(squares, m) is Ok
            },
{
    match figure_on(squares, x as int, y as int) {
        None => {},
        Some(Figure::Queen(_)) => {
            lemma_slide_moves_legal(squares, x, y, 1, 1);
            lemma_slide_moves_legal(squares, x, y, -1, 1);
            lemma_slide_moves_legal(squares, x, y, 1, -1);
            lemma_slide_moves_legal(squares, x, y, -1, -1);
        },
        Some(Figure::Pawn(color)) => {},
    }
}

/// Every move generated for a side can be executed and moves a piece of
/// that side.
pub proof fn lemma_moves_upto_legal(squares: Seq<Square>, color: CheckersColor, n: nat)
    requires
        n <= 64,
    ensures
        forall|i: int|
            0 <= i < moves_upto(squares, color, n).len() ==> moves_own_piece(
                squares,
                color,
                #[trigger] moves_upto(squares, color, n)[i],
            ),
    decreases n,
{
    if n > 0 {
        lemma_moves_upto_legal(squares, color, (n - 1) as nat);
        let (x, y) = scan_square(n - 1);
        lemma_moves_at_legal(squares, x, y);
        let before = moves_upto(squares, color, (n - 1) as nat);
        assert forall|i: int| 0 <= i < moves_upto(squares, color, n).len() implies moves_own_piece(
            squares,
            color,
            #[trigger] moves_upto(squares, color, n)[i],
        ) by {
            if i >= before.len() {
                let m = moves_at(squares, x, y)[i - before.len()];
                assert(moves_upto(squares, color, n)[i] == m);
            } else {
                assert(moves_upto(squares, color, n)[i] == before[i]);
            }
        }
    }
}


/// Promotion makes a king of each white man on row 7 and of each black
/// man on row 0, and changes nothing else.
pub proof fn lemma_promoted_squares(squares: Seq<Square>, x: int, y: int)
    requires
        squares.len() == 32,
    ensures
        flagged_on(promoted(squares), x, y) == flagged_on(squares, x, y),
        figure_on(promoted(squares), x, y) == if y == 7 && figure_on(squares, x, y) == Some(
            Figure::Pawn(CheckersColor::White),
        ) {
            Some(Figure::Queen(CheckersColor::White))
        } else if y == 0 && figure_on(squares, x, y) == Some(Figure::Pawn(CheckersColor::Black)) {
            Some(Figure::Queen(CheckersColor::Black))
        } else {
            figure_on(squares, x, y)
        },
{
}

/// Whether none of the jumps of `jumps` from index `k` up to, but not
/// including, index `n` ends on the square that jump `k` goes over.
pub open spec fn never_landed_on(jumps: Seq<Jump>, k: int, n: int) -> bool {
    forall|j: int|
        k <= j < n ==> ((#[trigger] jumps[j]).x_end, jumps[j].y_end) != (
            jumps[k].x_over,
            jumps[k].y_over,
        )
}

/// A square jumped over is empty after the first `n` jumps, if none of
/// them ended on it.
proof fn lemma_taken_square_stays_empty(squares: Seq<Square>, jumps: Seq<Jump>, k: int, n: nat)
    requires
        squares.len() == 32,
        0 <= k < n <= jumps.len(),
        run_jumps(squares, jumps, n) is Ok,
        never_landed_on(jumps, k, n as int),
    ensures
        run_jumps(squares, jumps, n).unwrap().len() == 32,
        figure_on(
            run_jumps(squares, jumps, n).unwrap(),
            jumps[k].x_over as int,
            jumps[k].y_over as int,
        ) is None,
    decreases n,
{
    lemma_run_jumps_len(squares, jumps, (n - 1) as nat);
    let before = run_jumps(squares, jumps, (n - 1) as nat).unwrap();
    let jump = jumps[n - 1];
    assert((jump.x_end, jump.y_end) != (jumps[k].x_over, jumps[k].y_over));
    if k < n - 1 {
        assert(never_landed_on(jumps, k, n - 1));
        lemma_taken_square_stays_empty(squares, jumps, k, (n - 1) as nat);
    }
    if usable(jumps[k].x_over as int, jumps[k].y_over as int) && usable(
        jump.x_end as int,
        jump.y_end as int,
    ) {
        assert(square_index(jump.x_end as int, jump.y_end as int) != square_index(
            jumps[k].x_over as int,
            jumps[k].y_over as int,
        ));
    }
}

/// Jumps that can be executed leave 32 squares.
proof fn lemma_run_jumps_len(squares: Seq<Square>, jumps: Seq<Jump>, n: nat)
    requires
        squares.len() == 32,
        run_jumps(squares, jumps, n + 1) is Ok,
    ensures
        run_jumps(squares, jumps, n) is Ok,
        run_jumps(squares, jumps, n).unwrap().len() == 32,
        run_jumps(squares, jumps, n + 1).unwrap().len() == 32,
    decreases n,
{
    if n > 0 {
        lemma_run_jumps_len(squares, jumps, (n - 1) as nat);
    }
}

/// After a capture chain, each square that a jump of the chain went over
/// is empty, unless that jump or a later one ended on that very square.
pub proof fn lemma_taken_squares_are_empty(squares: Seq<Square>, jumps: Seq<Jump>, k: int)
    requires
        squares.len() == 32,
        0 <= k < jumps.len(),
        run_jumps(squares, jumps, jumps.len()) is Ok,
        never_landed_on(jumps, k, jumps.len() as int),
    ensures
        figure_on(after_chain(squares, jumps), jumps[k].x_over as int, jumps[k].y_over as int)
            is None,
        !flagged_on(after_chain(squares, jumps), jumps[k].x_over as int, jumps[k].y_over as int),
{
    lemma_taken_square_stays_empty(squares, jumps, k, jumps.len());
}


/// Whether each of the first `n` of `jumps`, executed in order, can be
/// executed and takes an unmarked piece of the other side.
pub open spec fn takes_each(squares: Seq<Square>, jumps: Seq<Jump>, n: nat) -> bool
    decreases n,
{
    n == 0 || (takes_each(squares, jumps, (n - 1) as nat) && (run_jumps(
        squares,
        jumps,
        (n - 1) as nat,
    ) matches Ok(before) && captures(
        before,
        jumps[n - 1].x_start,
        jumps[n - 1].y_start,
        jumps[n - 1],
    )))
}

/// Whether `jumps` is a capture turn of the piece at `(x, y)` that can be
/// executed on `squares`: at least one jump, the first from `(x, y)`, each
/// from where the one before ended, and each taking a piece.
pub open spec fn playable(squares: Seq<Square>, x: u8, y: u8, jumps: Seq<Jump>) -> bool {
    jumps.len() > 0 && jumps[0].x_start == x && jumps[0].y_start == y && run_jumps(
        squares,
        jumps,
        jumps.len(),
    ) is Ok && takes_each(squares, jumps, jumps.len()) && forall|i: int|
        0 < i < jumps.len() ==> (#[trigger] jumps[i]).x_start == jumps[i - 1].x_end
            && jumps[i].y_start == jumps[i - 1].y_end
}

/// Whether the piece that made the jumps `jumps` has no jump left where it
/// stands, on the squares as those jumps left them.
pub open spec fn exhausted(squares: Seq<Square>, jumps: Seq<Jump>) -> bool {
    jumps.len() > 0 && (run_jumps(squares, jumps, jumps.len()) matches Ok(last) && jumps_at(
        last,
        jumps.last().x_end,
        jumps.last().y_end,
    ).len() == 0)
}

/// What the first `n` jumps do does not depend on the jumps that follow.
proof fn lemma_run_jumps_prefix(squares: Seq<Square>, a: Seq<Jump>, b: Seq<Jump>, n: nat)
    requires
        n <= a.len(),
        n <= b.len(),
        forall|i: int| 0 <= i < n ==> a[i] == b[i],
    ensures
        run_jumps(squares, a, n) == run_jumps(squares, b, n),
        takes_each(squares, a, n) == takes_each(squares, b, n),
    decreases n,
{
    if n > 0 {
        lemma_run_jumps_prefix(squares, a, b, (n - 1) as nat);
    }
}

/// Every capture path found for a piece is a capture turn that can be
/// executed on the squares on which the search began.
proof fn lemma_paths_playable(
    origin: Seq<Square>,
    x0: u8,
    y0: u8,
    squares: Seq<Square>,
    x: u8,
    y: u8,
    i: nat,
    prefix: Seq<Jump>,
)
    requires
        origin.len() == 32,
        squares.len() == 32,
        run_jumps(origin, prefix, prefix.len()) == Ok::<Seq<Square>, CheckersError>(squares),
        prefix.len() == 0 ==> x == x0 && y == y0,
        prefix.len() > 0 ==> playable(origin, x0, y0, prefix) && prefix.last().x_end == x
            && prefix.last().y_end == y,
    ensures
        forall|k: int|
            0 <= k < paths(squares, x, y, i, prefix).len() ==> playable(
                origin,
                x0,
                y0,
                #[trigger] paths(squares, x, y, i, prefix)[k],
            ) && exhausted(origin, paths(squares, x, y, i, prefix)[k]),
    decreases unmarked_count(squares), jumps_at(squares, x, y).len() - i,
{
    let jumps = jumps_at(squares, x, y);
    if jumps.len() == 0 {
        lemma_paths_end(squares, x, y, i, prefix);
    } else {
        lemma_paths_step(squares, x, y, i, prefix);
    }
    if jumps.len() > 0 && i < jumps.len() {
        let jump = jumps[i as int];
        lemma_jumps_capture(squares, x, y);
        lemma_jump_marks(squares, x, y, jump);
        let longer = prefix.push(jump);
        let next = after_jump(squares, jump);
        lemma_run_jumps_prefix(origin, prefix, longer, prefix.len());
        assert(run_jumps(origin, longer, longer.len()) == Ok::<Seq<Square>, CheckersError>(next));
        assert(takes_each(origin, prefix, prefix.len())) by {
            if prefix.len() == 0 {
            }
        }
        assert(takes_each(origin, longer, longer.len()));
        assert(playable(origin, x0, y0, longer)) by {
            assert forall|i: int| 0 < i < longer.len() implies (#[trigger] longer[i]).x_start
                == longer[i - 1].x_end && longer[i].y_start == longer[i - 1].y_end by {
                if i < prefix.len() {
                    assert(longer[i] == prefix[i]);
                    assert(longer[i - 1] == prefix[i - 1]);
                }
            }
        }
        lemma_paths_playable(origin, x0, y0, next, jump.x_end, jump.y_end, 0, longer);
        lemma_paths_playable(origin, x0, y0, squares, x, y, i + 1, prefix);
        let onward = paths(next, jump.x_end, jump.y_end, 0, longer);
        let rest = paths(squares, x, y, i + 1, prefix);
        assert(paths(squares, x, y, i, prefix) == onward + rest);
        assert forall|k: int| 0 <= k < (onward + rest).len() implies playable(
            origin,
            x0,
            y0,
            #[trigger] (onward + rest)[k],
        ) && exhausted(origin, (onward + rest)[k]) by {
            if k < onward.len() {
                assert((onward + rest)[k] == onward[k]);
            } else {
                assert((onward + rest)[k] == rest[k - onward.len()]);
            }
        }
    }
}

/// No chain is longer than the greatest length, and the longest chains
/// are those of the chains that have it.
pub proof fn lemma_longest(chains: Seq<Seq<Jump>>)
    ensures
        forall|i: int|
            0 <= i < chains.len() ==> (#[trigger] chains[i]).len() <= max_len(chains, chains.len()),
        forall|k: int|
            0 <= k < longest(chains).len() ==> chains.contains(#[trigger] longest(chains)[k])
                && longest(chains)[k].len() == max_len(chains, chains.len()),
        forall|i: int|
            0 <= i < chains.len() && (#[trigger] chains[i]).len() == max_len(chains, chains.len())
                ==> longest(chains).contains(chains[i]),
        chains.len() > 0 ==> longest(chains).len() > 0,
{
    lemma_max_len(chains, chains.len());
    lemma_of_length(chains, max_len(chains, chains.len()), chains.len());
    if chains.len() > 0 {
        let i = choose|i: int|
            0 <= i < chains.len() && (#[trigger] chains[i]).len() == max_len(chains, chains.len());
        assert(longest(chains).contains(chains[i]));
    }
}

/// The greatest length is the length of a chain, and no chain is longer.
proof fn lemma_max_len(chains: Seq<Seq<Jump>>, n: nat)
    requires
        n <= chains.len(),
    ensures
        forall|i: int| 0 <= i < n ==> (#[trigger] chains[i]).len() <= max_len(chains, n),
        n > 0 ==> exists|i: int| 0 <= i < n && (#[trigger] chains[i]).len() == max_len(chains, n),
    decreases n,
{
    if n > 0 {
        lemma_max_len(chains, (n - 1) as nat);
        if n > 1 {
            let before = max_len(chains, (n - 1) as nat);
            let i = choose|i: int| 0 <= i < n - 1 && (#[trigger] chains[i]).len() == before;
            if max_len(chains, n) == before {
                assert(chains[i].len() == max_len(chains, n));
            } else {
                assert(chains[n - 1].len() == max_len(chains, n));
            }
        } else {
            assert(max_len(chains, 0) == 0);
            assert(chains[0].len() == max_len(chains, n));
        }
    }
}

/// The chains kept for a length are the chains of that length.
proof fn lemma_of_length(chains: Seq<Seq<Jump>>, len: nat, n: nat)
    requires
        n <= chains.len(),
    ensures
        forall|k: int|
            0 <= k < of_length(chains, len, n).len() ==> chains.contains(
                #[trigger] of_length(chains, len, n)[k],
            ) && of_length(chains, len, n)[k].len() == len,
        forall|i: int|
            0 <= i < n && (#[trigger] chains[i]).len() == len ==> of_length(
                chains,
                len,
                n,
            ).contains(chains[i]),
    decreases n,
{
    if n > 0 {
        lemma_of_length(chains, len, (n - 1) as nat);
        let before = of_length(chains, len, (n - 1) as nat);
        let now = of_length(chains, len, n);
        assert forall|k: int| 0 <= k < now.len() implies chains.contains(#[trigger] now[k])
            && now[k].len() == len by {
            if k < before.len() {
                assert(now[k] == before[k]);
            } else {
                assert(now[k] == chains[n - 1]);
            }
        }
        assert forall|i: int|
            0 <= i < n && (#[trigger] chains[i]).len() == len implies now.contains(chains[i]) by {
            if i < n - 1 {
                assert(before.contains(chains[i]));
                let k = choose|k: int| 0 <= k < before.len() && before[k] == chains[i];
                assert(now[k] == chains[i]);
            } else {
                assert(now[now.len() - 1] == chains[i]);
            }
        }
    } else {
        assert(of_length(chains, len, n).len() == 0);
    }
}

/// Every capture chain of the piece at `(x, y)` is a capture turn of that
/// piece that can be executed, and after it the piece has no jump left.
pub proof fn lemma_captures_at_playable(squares: Seq<Square>, x: u8, y: u8)
    requires
        squares.len() == 32,
    ensures
        forall|k: int|
            0 <= k < captures_at(squares, x, y).len() ==> playable(
                squares,
                x,
                y,
                #[trigger] captures_at(squares, x, y)[k],
            ) && exhausted(squares, captures_at(squares, x, y)[k]),
{
    let all = paths(squares, x, y, 0, Seq::empty());
    lemma_paths_playable(squares, x, y, squares, x, y, 0, Seq::empty());
    lemma_longest(all);
    assert forall|k: int| 0 <= k < captures_at(squares, x, y).len() implies playable(
        squares,
        x,
        y,
        #[trigger] captures_at(squares, x, y)[k],
    ) && exhausted(squares, captures_at(squares, x, y)[k]) by {
        let chain = longest(all)[k];
        assert(all.contains(chain));
        let i = choose|i: int| 0 <= i < all.len() && all[i] == chain;
        assert(playable(squares, x, y, all[i]) && exhausted(squares, all[i]));
    }
}

/// Whether `jumps` is a capture turn of a piece of the side `color` that
/// can be executed on `squares`, and after which the piece has no jump
/// left.
pub open spec fn playable_by(squares: Seq<Square>, color: CheckersColor, jumps: Seq<Jump>) -> bool {
    jumps.len() > 0 && side_on(squares, jumps[0].x_start as int, jumps[0].y_start as int, color)
        && playable(squares, jumps[0].x_start, jumps[0].y_start, jumps) && exhausted(
        squares,
        jumps,
    )
}

/// Every capture chain generated for a side can be executed by a piece of
/// that side.
proof fn lemma_captures_upto_playable(squares: Seq<Square>, color: CheckersColor, n: nat)
    requires
        squares.len() == 32,
        n <= 64,
    ensures
        forall|k: int|
            0 <= k < captures_upto(squares, color, n).len() ==> playable_by(
                squares,
                color,
                #[trigger] captures_upto(squares, color, n)[k],
            ),
    decreases n,
{
    if n > 0 {
        lemma_captures_upto_playable(squares, color, (n - 1) as nat);
        let (x, y) = scan_square(n - 1);
        lemma_captures_at_playable(squares, x, y);
        let before = captures_upto(squares, color, (n - 1) as nat);
        let now = captures_upto(squares, color, n);
        assert forall|k: int| 0 <= k < now.len() implies playable_by(
            squares,
            color,
            #[trigger] now[k],
        ) by {
            if k < before.len() {
                assert(now[k] == before[k]);
            } else {
                assert(now[k] == captures_at(squares, x, y)[k - before.len()]);
            }
        }
    }
}

/// What a side is offered can be executed. Each capture chain is a
/// capture turn of one of its pieces, and all have the same length, the
/// greatest among the chains of all its pieces. Each move moves one of
/// its pieces. Captures and moves are never offered together.
pub proof fn lemma_options_playable(squares: Seq<Square>, color: CheckersColor)
    requires
        squares.len() == 32,
    ensures
        forall|k: int|
            0 <= k < options(squares, color).0.len() ==> playable_by(
                squares,
                color,
                #[trigger] options(squares, color).0[k],
            ) && options(squares, color).0[k].len() == max_len(
                all_captures(squares, color),
                all_captures(squares, color).len(),
            ),
        forall|k: int|
            0 <= k < options(squares, color).1.len() ==> moves_own_piece(
                squares,
                color,
                #[trigger] options(squares, color).1[k],
            ),
        options(squares, color).0.len() == 0 || options(squares, color).1.len() == 0,
        options(squares, color).0.len() == 0 <==> all_captures(squares, color).len() == 0,
{
    let chains = all_captures(squares, color);
    lemma_captures_upto_playable(squares, color, 64);
    lemma_moves_upto_legal(squares, color, 64);
    lemma_longest(chains);
    assert forall|k: int| 0 <= k < options(squares, color).0.len() implies playable_by(
        squares,
        color,
        #[trigger] options(squares, color).0[k],
    ) by {
        let chain = longest(chains)[k];
        assert(chains.contains(chain));
        let i = choose|i: int| 0 <= i < chains.len() && chains[i] == chain;
        assert(playable_by(squares, color, chains[i]));
    }
}


/// Whether `m`, if it moves a man, takes it one row forward.
pub open spec fn man_steps_forward(squares: Seq<Square>, m: Move) -> bool {
    figure_on(squares, m.x_start as int, m.y_start as int) matches Some(Figure::Pawn(color))
        ==> m.y_end == m.y_start + forward(color)
}

/// Every move generated for a man takes it one row forward.
pub proof fn lemma_moves_upto_forward(squares: Seq<Square>, color: CheckersColor, n: nat)
    requires
        n <= 64,
    ensures
        forall|i: int|
            0 <= i < moves_upto(squares, color, n).len() ==> man_steps_forward(
                squares,
                #[trigger] moves_upto(squares, color, n)[i],
            ),
    decreases n,
{
    if n > 0 {
        lemma_moves_upto_forward(squares, color, (n - 1) as nat);
        let (x, y) = scan_square(n - 1);
        lemma_moves_at_legal(squares, x, y);
        let before = moves_upto(squares, color, (n - 1) as nat);
        let now = moves_upto(squares, color, n);
        assert forall|i: int| 0 <= i < now.len() implies man_steps_forward(
            squares,
            #[trigger] now[i],
        ) by {
            if i >= before.len() {
                let m = moves_at(squares, x, y)[i - before.len()];
                assert(moves_upto(squares, color, n)[i] == m);
                assert(m.x_start == x && m.y_start == y);
            } else {
                assert(moves_upto(squares, color, n)[i] == before[i]);
            }
        }
    }
}


/// At the start no piece can jump: next to a man there is no man of the
/// other side.
proof fn lemma_start_has_no_jump(x: u8, y: u8)
    ensures
        jumps_at(start_squares(), x, y).len() == 0,
{
    let squares = start_squares();
    assert forall|a: int, b: int| usable(a, b) implies #[trigger] figure_on(squares, a, b) == if b
        <= 2 {
        Some(Figure::Pawn(CheckersColor::White))
    } else if b >= 5 {
        Some(Figure::Pawn(CheckersColor::Black))
    } else {
        None::<Figure>
    } by {
        assert(0 <= square_index(a, b) < 32);
    }
    if figure_on(squares, x as int, y as int) is Some {
        assert(usable(x as int, y as int));
        lemma_ray_squares(x as int, y as int, 1, 1);
        lemma_ray_squares(x as int, y as int, -1, 1);
        lemma_ray_squares(x as int, y as int, 1, -1);
        lemma_ray_squares(x as int, y as int, -1, -1);
        if ray(x as int, y as int, 1, 1).len() > 0 {
            assert(ray_square_at(x as int, y as int, 1, 1, 0));
        }
        if ray(x as int, y as int, -1, 1).len() > 0 {
            assert(ray_square_at(x as int, y as int, -1, 1, 0));
        }
        if ray(x as int, y as int, 1, -1).len() > 0 {
            assert(ray_square_at(x as int, y as int, 1, -1, 0));
        }
        if ray(x as int, y as int, -1, -1).len() > 0 {
            assert(ray_square_at(x as int, y as int, -1, -1, 0));
        }
    }
}

/// At the start no capture chain is found on the first `n` squares
/// scanned.
proof fn lemma_start_captures_upto(color: CheckersColor, n: nat)
    requires
        n <= 64,
    ensures
        captures_upto(start_squares(), color, n).len() == 0,
    decreases n,
{
    if n > 0 {
        lemma_start_captures_upto(color, (n - 1) as nat);
        let (x, y) = scan_square(n - 1);
        lemma_start_has_no_jump(x, y);
        lemma_paths_end(start_squares(), x, y, 0, Seq::empty());
        assert(max_len(Seq::<Seq<Jump>>::empty(), 0) == 0);
        assert(captures_at(start_squares(), x, y).len() == 0);
    }
}

/// At the start a side is offered its moves and no capture.
pub proof fn lemma_start_offers_moves_only(color: CheckersColor)
    ensures
        options(start_squares(), color).0.len() == 0,
        options(start_squares(), color).1 == all_moves(start_squares(), color),
{
    lemma_start_captures_upto(color, 64);
}


/// Every square before the first stop of a scan is free and unmarked.
pub proof fn lemma_first_stop_squares(squares: Seq<Square>, ray: Seq<(u8, u8)>, from: int)
    requires
        0 <= from <= ray.len(),
    ensures
        forall|j: int|
            from <= j < first_stop(squares, ray, from) ==> free(
                squares,
                #[trigger] ray[j].0 as int,
                ray[j].1 as int,
            ) && !flagged_on(squares, ray[j].0 as int, ray[j].1 as int),
    decreases ray.len() - from,
{
    if from < ray.len() && !flagged_on(squares, ray[from].0 as int, ray[from].1 as int) && free(
        squares,
        ray[from].0 as int,
        ray[from].1 as int,
    ) {
        lemma_first_stop_squares(squares, ray, from + 1);
    }
}

/// Whether the squares of `ray` from index `from` up to, but not
/// including, index `to` are all free.
pub open spec fn all_free(squares: Seq<Square>, ray: Seq<(u8, u8)>, from: int, to: int) -> bool {
    forall|j: int| from <= j < to ==> free(squares, #[trigger] ray[j].0 as int, ray[j].1 as int)
}

/// A king jumps over one piece only, an unmarked piece of the other side:
/// every square of the ray before that piece is free and unmarked, and
/// every square after it, up to and including the square on which the
/// king lands, is free.
pub proof fn lemma_fly_jumps_path(
    squares: Seq<Square>,
    x: u8,
    y: u8,
    enemy: CheckersColor,
    ray: Seq<(u8, u8)>,
    k: int,
)
    requires
        0 <= k < fly_jumps(squares, x, y, enemy, ray).len(),
    ensures
        ({
            let over = first_stop(squares, ray, 0);
            let end = over + 1 + k;
            let jump = fly_jumps(squares, x, y, enemy, ray)[k];
            0 <= over < end < ray.len() && (jump.x_over, jump.y_over) == ray[over] && (
                jump.x_end,
                jump.y_end,
            ) == ray[end] && side_on(squares, ray[over].0 as int, ray[over].1 as int, enemy)
                && !flagged_on(squares, ray[over].0 as int, ray[over].1 as int) && all_free(
                squares,
                ray,
                0,
                over,
            ) && all_free(squares, ray, over + 1, end + 1)
        }),
{
    let over = first_stop(squares, ray, 0);
    lemma_first_stop_range(squares, ray, 0);
    lemma_first_stop_squares(squares, ray, 0);
    lemma_free_run_squares(squares, ray, over + 1);
}


} // verus!

//! What a piece may do, said of a single move or jump without regard to
//! how the moves and jumps are found, and the proof that these are the
//! moves and jumps that are found.

use vstd::prelude::*;
use crate::board::{figure_on, flagged_on, on_board, Square};
use crate::controller::{CheckersColor, Figure, Jump, Move};
use crate::rules::{
    after_jump, all_captures, all_free, all_moves, captures_at, captures_upto, first_stop,
    fly_jumps, forward, free, free_run, hop_jumps, jumps_at, lemma_captures_at_playable,
    lemma_first_stop, lemma_first_stop_squares, lemma_fly_jumps_path, lemma_free_run_squares,
    lemma_jump_marks, lemma_jumps_capture, lemma_longest, lemma_paths_end, lemma_paths_step,
    lemma_ray_squares, longest, max_len, moves_at, moves_upto, paths, playable, positions, ray,
    ray_square_at, scan_square, side_on, slide_moves, step_moves, unmarked_count,
};

verus! {

/// Whether `(dx, dy)` is one diagonal step.
pub open spec fn diagonal_step(dx: int, dy: int) -> bool {
    (dx == 1 || dx == -1) && (dy == 1 || dy == -1)
}

/// Whether each of the squares from `from` to `to` steps away from
/// `(x, y)` in the direction `(dx, dy)` is free.
pub open spec fn free_between(
    squares: Seq<Square>,
    x: int,
    y: int,
    dx: int,
    dy: int,
    from: int,
    to: int,
) -> bool {
    forall|j: int| from <= j <= to ==> #[trigger] free(squares, x + j * dx, y + j * dy)
}

/// Whether the move `m` goes `k` steps in the direction `(dx, dy)` over
/// free squares onto a free square.
pub open spec fn slides(squares: Seq<Square>, m: Move, dx: int, dy: int, k: int) -> bool {
    k >= 1 && diagonal_step(dx, dy) && m.x_end == m.x_start + k * dx && m.y_end == m.y_start + k
        * dy && free_between(squares, m.x_start as int, m.y_start as int, dx, dy, 1, k)
}

/// Whether `m` is a legal move: a man goes one step forward, to the left
/// or to the right, onto a free square; a king goes any number of steps
/// along a diagonal over free squares.
pub open spec fn legal_move(squares: Seq<Square>, m: Move) -> bool {
    match figure_on(squares, m.x_start as int, m.y_start as int) {
        None => false,
        Some(Figure::Pawn(color)) => m.y_end == m.y_start + forward(color) && (m.x_end == m.x_start
            - 1 || m.x_end == m.x_start + 1) && free(squares, m.x_end as int, m.y_end as int),
        Some(Figure::Queen(_)) => exists|dx: int, dy: int, k: int|
            #[trigger] slides(squares, m, dx, dy, k),
    }
}

/// Something is in two sequences joined if it is in one of them.
proof fn lemma_contains_joined<A>(a: Seq<A>, b: Seq<A>, e: A)
    ensures
        (a + b).contains(e) <==> a.contains(e) || b.contains(e),
{
    if a.contains(e) {
        let i = choose|i: int| 0 <= i < a.len() && a[i] == e;
        assert((a + b)[i] == e);
    }
    if b.contains(e) {
        let i = choose|i: int| 0 <= i < b.len() && b[i] == e;
        assert((a + b)[a.len() + i] == e);
    }
    if (a + b).contains(e) {
        let i = choose|i: int| 0 <= i < (a + b).len() && (a + b)[i] == e;
        if i < a.len() {
            assert(a[i] == e);
        } else {
            assert(b[i - a.len()] == e);
        }
    }
}

/// A ray has at least `k` squares if the squares up to `k` steps away
/// lie on the board.
proof fn lemma_ray_reaches(x: int, y: int, dx: int, dy: int, k: int)
    requires
        diagonal_step(dx, dy),
        k >= 0,
        forall|j: int| 1 <= j <= k ==> #[trigger] on_board(x + j * dx, y + j * dy),
    ensures
        ray(x, y, dx, dy).len() >= k,
    decreases k,
{
    if k >= 1 {
        assert(on_board(x + 1 * dx, y + 1 * dy));
        assert forall|j: int| 1 <= j <= k - 1 implies #[trigger] on_board(
            (x + dx) + j * dx,
            (y + dy) + j * dy,
        ) by {
            assert(on_board(x + (j + 1) * dx, y + (j + 1) * dy));
            assert((j + 1) * dx == j * dx + dx) by (nonlinear_arith);
            assert((j + 1) * dy == j * dy + dy) by (nonlinear_arith);
        }
        lemma_ray_reaches(x + dx, y + dy, dx, dy, k - 1);
    }
}

/// A run of free squares has at least `k` squares if the `k` squares from
/// its start on are free.
proof fn lemma_free_run_reaches(squares: Seq<Square>, ray: Seq<(u8, u8)>, from: int, k: int)
    requires
        0 <= from,
        0 <= k,
        from + k <= ray.len(),
        forall|j: int|
            from <= j < from + k ==> free(squares, #[trigger] ray[j].0 as int, ray[j].1 as int),
    ensures
        free_run(squares, ray, from) >= k,
    decreases k,
{
    if k >= 1 {
        assert(free(squares, ray[from].0 as int, ray[from].1 as int));
        lemma_free_run_reaches(squares, ray, from + 1, k - 1);
    }
}

/// The moves found for a king along a ray are the moves that slide along
/// it.
proof fn lemma_slide_moves_are_the_slides(
    squares: Seq<Square>,
    x: u8,
    y: u8,
    dx: int,
    dy: int,
    m: Move,
)
    requires
        x <= 7,
        y <= 7,
        diagonal_step(dx, dy),
    ensures
        slide_moves(squares, x, y, ray(x as int, y as int, dx, dy)).contains(m) <==> m.x_start == x
            && m.y_start == y && exists|k: int| #[trigger] slides(squares, m, dx, dy, k),
{
    let line = ray(x as int, y as int, dx, dy);
    let found = slide_moves(squares, x, y, line);
    lemma_ray_squares(x as int, y as int, dx, dy);
    lemma_free_run_squares(squares, line, 0);
    if found.contains(m) {
        let i = choose|i: int| 0 <= i < found.len() && found[i] == m;
        assert(ray_square_at(x as int, y as int, dx, dy, i));
        assert forall|j: int| 1 <= j <= i + 1 implies #[trigger] free(
            squares,
            x + j * dx,
            y + j * dy,
        ) by {
            assert(ray_square_at(x as int, y as int, dx, dy, j - 1));
            assert(free(squares, line[j - 1].0 as int, line[j - 1].1 as int));
            assert(((j - 1) + 1) * dx == j * dx);
            assert(((j - 1) + 1) * dy == j * dy);
        }
        assert(slides(squares, m, dx, dy, i + 1));
    }
    if m.x_start == x && m.y_start == y && exists|k: int| #[trigger] slides(squares, m, dx, dy, k) {
        let k = choose|k: int| #[trigger] slides(squares, m, dx, dy, k);
        assert forall|j: int| 1 <= j <= k implies #[trigger] on_board(x + j * dx, y + j * dy) by {
            assert(free(squares, x + j * dx, y + j * dy));
        }
        lemma_ray_reaches(x as int, y as int, dx, dy, k);
        assert forall|j: int| 0 <= j < k implies free(
            squares,
            #[trigger] line[j].0 as int,
            line[j].1 as int,
        ) by {
            assert(ray_square_at(x as int, y as int, dx, dy, j));
            assert(free(squares, x + (j + 1) * dx, y + (j + 1) * dy));
        }
        lemma_free_run_reaches(squares, line, 0, k);
        assert(ray_square_at(x as int, y as int, dx, dy, k - 1));
        assert(((k - 1) + 1) * dx == k * dx);
        assert(((k - 1) + 1) * dy == k * dy);
        assert(found[k - 1] == m);
    }
}

/// The moves found for the piece at `(x, y)` are the legal moves that
/// start there.
pub proof fn lemma_moves_at_are_the_legal_moves(squares: Seq<Square>, x: u8, y: u8, m: Move)
    requires
        x <= 7,
        y <= 7,
    ensures
        moves_at(squares, x, y).contains(m) <==> m.x_start == x && m.y_start == y && legal_move(
            squares,
            m,
        ),
{
    match figure_on(squares, x as int, y as int) {
        None => {},
        Some(Figure::Pawn(color)) => {
            let left = step_moves(squares, x, y, -1, forward(color));
            let right = step_moves(squares, x, y, 1, forward(color));
            lemma_contains_joined(left, right, m);
            if m.x_start == x && m.y_start == y && legal_move(squares, m) {
                if m.x_end == m.x_start - 1 {
                    assert(left[0] == m);
                } else {
                    assert(right[0] == m);
                }
            }
        },
        Some(Figure::Queen(_)) => {
            let a = slide_moves(squares, x, y, ray(x as int, y as int, 1, 1));
            let b = slide_moves(squares, x, y, ray(x as int, y as int, -1, 1));
            let c = slide_moves(squares, x, y, ray(x as int, y as int, 1, -1));
            let d = slide_moves(squares, x, y, ray(x as int, y as int, -1, -1));
            lemma_contains_joined(a, b, m);
            lemma_contains_joined(a + b, c, m);
            lemma_contains_joined(a + b + c, d, m);
            lemma_slide_moves_are_the_slides(squares, x, y, 1, 1, m);
            lemma_slide_moves_are_the_slides(squares, x, y, -1, 1, m);
            lemma_slide_moves_are_the_slides(squares, x, y, 1, -1, m);
            lemma_slide_moves_are_the_slides(squares, x, y, -1, -1, m);
            if m.x_start == x && m.y_start == y && legal_move(squares, m) {
                let (dx, dy, k) = choose|dx: int, dy: int, k: int|
                    #[trigger] slides(squares, m, dx, dy, k);
                assert(slides(squares, m, dx, dy, k));
            }
        },
    }
}

/// Whether the jump `jump` of a man goes in the direction `(dx, dy)` over
/// the next square, on which an unmarked piece of the side `enemy`
/// stands, onto the square after it, which is free.
pub open spec fn hops(
    squares: Seq<Square>,
    jump: Jump,
    enemy: CheckersColor,
    dx: int,
    dy: int,
) -> bool {
    diagonal_step(dx, dy) && jump.x_over == jump.x_start + dx && jump.y_over == jump.y_start + dy
        && jump.x_end == jump.x_start + 2 * dx && jump.y_end == jump.y_start + 2 * dy && side_on(
        squares,
        jump.x_over as int,
        jump.y_over as int,
        enemy,
    ) && !flagged_on(squares, jump.x_over as int, jump.y_over as int) && free(
        squares,
        jump.x_end as int,
        jump.y_end as int,
    )
}

/// Whether each of the squares from 1 to `to` steps away from `(x, y)` in
/// the direction `(dx, dy)` is free and unmarked.
pub open spec fn clear_before(
    squares: Seq<Square>,
    x: int,
    y: int,
    dx: int,
    dy: int,
    to: int,
) -> bool {
    forall|j: int|
        1 <= j <= to ==> #[trigger] free(squares, x + j * dx, y + j * dy) && !flagged_on(
            squares,
            x + j * dx,
            y + j * dy,
        )
}

/// Whether the jump `jump` of a king goes in the direction `(dx, dy)`:
/// over free, unmarked squares to the square `i` steps away, on which an
/// unmarked piece of the side `enemy` stands, over it, and `k` steps
/// further over free squares onto a free square.
pub open spec fn flies(
    squares: Seq<Square>,
    jump: Jump,
    enemy: CheckersColor,
    dx: int,
    dy: int,
    i: int,
    k: int,
) -> bool {
    diagonal_step(dx, dy) && i >= 1 && k >= 1 && jump.x_over == jump.x_start + i * dx
        && jump.y_over == jump.y_start + i * dy && jump.x_end == jump.x_start + (i + k) * dx
        && jump.y_end == jump.y_start + (i + k) * dy && clear_before(
        squares,
        jump.x_start as int,
        jump.y_start as int,
        dx,
        dy,
        i - 1,
    ) && side_on(squares, jump.x_over as int, jump.y_over as int, enemy) && !flagged_on(
        squares,
        jump.x_over as int,
        jump.y_over as int,
    ) && free_between(squares, jump.x_start as int, jump.y_start as int, dx, dy, i + 1, i + k)
}

/// Whether `jump` is a legal jump: a man jumps over a piece of the other
/// side that stands next to it, in any of the four directions; a king
/// jumps over the first piece on a diagonal, from any distance and onto
/// any of the free squares behind it. The piece taken is not marked, and
/// a king does not pass a marked square on its way to it.
pub open spec fn legal_jump(squares: Seq<Square>, jump: Jump) -> bool {
    match figure_on(squares, jump.x_start as int, jump.y_start as int) {
        None => false,
        Some(Figure::Pawn(color)) => exists|dx: int, dy: int| #[trigger]
            hops(squares, jump, color.spec_opposite(), dx, dy),
        Some(Figure::Queen(color)) => exists|dx: int, dy: int, i: int, k: int| #[trigger]
            flies(squares, jump, color.spec_opposite(), dx, dy, i, k),
    }
}

/// The jump found for a man along a ray is the jump that hops along it.
proof fn lemma_hop_jumps_are_the_hops(
    squares: Seq<Square>,
    x: u8,
    y: u8,
    enemy: CheckersColor,
    dx: int,
    dy: int,
    jump: Jump,
)
    requires
        x <= 7,
        y <= 7,
        diagonal_step(dx, dy),
    ensures
        hop_jumps(squares, x, y, enemy, ray(x as int, y as int, dx, dy)).contains(jump)
            <==> jump.x_start == x && jump.y_start == y && hops(squares, jump, enemy, dx, dy),
{
    let line = ray(x as int, y as int, dx, dy);
    let found = hop_jumps(squares, x, y, enemy, line);
    lemma_ray_squares(x as int, y as int, dx, dy);
    if line.len() >= 2 {
        assert(ray_square_at(x as int, y as int, dx, dy, 0));
        assert(ray_square_at(x as int, y as int, dx, dy, 1));
    }
    if found.contains(jump) {
        assert(found[0] == jump);
    }
    if jump.x_start == x && jump.y_start == y && hops(squares, jump, enemy, dx, dy) {
        assert forall|j: int| 1 <= j <= 2 implies #[trigger] on_board(x + j * dx, y + j * dy) by {
            if j == 1 {
                assert(on_board(x + 2 * dx, y + 2 * dy));
            }
        }
        lemma_ray_reaches(x as int, y as int, dx, dy, 2);
        assert(found[0] == jump);
    }
}

/// The jumps found for a king along a ray are the jumps that fly along
/// it.
proof fn lemma_fly_jumps_are_the_flights(
    squares: Seq<Square>,
    x: u8,
    y: u8,
    enemy: CheckersColor,
    dx: int,
    dy: int,
    jump: Jump,
)
    requires
        x <= 7,
        y <= 7,
        diagonal_step(dx, dy),
    ensures
        fly_jumps(squares, x, y, enemy, ray(x as int, y as int, dx, dy)).contains(jump)
            <==> jump.x_start == x && jump.y_start == y && exists|i: int, k: int| #[trigger]
            flies(squares, jump, enemy, dx, dy, i, k),
{
    let (a, b) = (x as int, y as int);
    let line = ray(a, b, dx, dy);
    let found = fly_jumps(squares, x, y, enemy, line);
    lemma_ray_squares(a, b, dx, dy);
    if found.contains(jump) {
        let n = choose|n: int| 0 <= n < found.len() && found[n] == jump;
        lemma_fly_jumps_path(squares, x, y, enemy, line, n);
        lemma_first_stop_squares(squares, line, 0);
        let over = first_stop(squares, line, 0);
        let end = over + 1 + n;
        assert(ray_square_at(a, b, dx, dy, over));
        assert(ray_square_at(a, b, dx, dy, end));
        assert(((over + 1) + (n + 1)) * dx == (end + 1) * dx);
        assert(((over + 1) + (n + 1)) * dy == (end + 1) * dy);
        assert forall|j: int| 1 <= j <= over implies #[trigger] free(
            squares,
            a + j * dx,
            b + j * dy,
        ) && !flagged_on(squares, a + j * dx, b + j * dy) by {
            assert(ray_square_at(a, b, dx, dy, j - 1));
            assert(free(squares, line[j - 1].0 as int, line[j - 1].1 as int));
            assert(((j - 1) + 1) * dx == j * dx);
            assert(((j - 1) + 1) * dy == j * dy);
        }
        assert forall|j: int| over + 2 <= j <= end + 1 implies #[trigger] free(
            squares,
            a + j * dx,
            b + j * dy,
        ) by {
            assert(ray_square_at(a, b, dx, dy, j - 1));
            assert(all_free(squares, line, over + 1, end + 1));
            assert(free(squares, line[j - 1].0 as int, line[j - 1].1 as int));
            assert(((j - 1) + 1) * dx == j * dx);
            assert(((j - 1) + 1) * dy == j * dy);
        }
        assert(flies(squares, jump, enemy, dx, dy, over + 1, n + 1));
    }
    if jump.x_start == x && jump.y_start == y && exists|i: int, k: int| #[trigger]
        flies(squares, jump, enemy, dx, dy, i, k) {
        let (i, k) = choose|i: int, k: int| #[trigger] flies(squares, jump, enemy, dx, dy, i, k);
        assert forall|j: int| 1 <= j <= i + k implies #[trigger] on_board(
            a + j * dx,
            b + j * dy,
        ) by {
            if j < i {
                assert(free(squares, a + j * dx, b + j * dy));
            } else if j > i {
                assert(free(squares, a + j * dx, b + j * dy));
            }
        }
        lemma_ray_reaches(a, b, dx, dy, i + k);
        assert forall|j: int| 0 <= j < i - 1 implies !flagged_on(
            squares,
            #[trigger] line[j].0 as int,
            line[j].1 as int,
        ) && free(squares, line[j].0 as int, line[j].1 as int) by {
            assert(ray_square_at(a, b, dx, dy, j));
            assert(free(squares, a + (j + 1) * dx, b + (j + 1) * dy));
        }
        assert(ray_square_at(a, b, dx, dy, i - 1));
        assert(((i - 1) + 1) * dx == i * dx);
        assert(((i - 1) + 1) * dy == i * dy);
        lemma_first_stop(squares, line, 0, i - 1);
        assert forall|j: int| i <= j < i + k implies free(
            squares,
            #[trigger] line[j].0 as int,
            line[j].1 as int,
        ) by {
            assert(ray_square_at(a, b, dx, dy, j));
            assert(free(squares, a + (j + 1) * dx, b + (j + 1) * dy));
        }
        lemma_free_run_reaches(squares, line, i, k);
        assert(ray_square_at(a, b, dx, dy, i + k - 1));
        assert(((i + k - 1) + 1) * dx == (i + k) * dx);
        assert(((i + k - 1) + 1) * dy == (i + k) * dy);
        assert(found[k - 1] == jump);
    }
}

/// The jumps found for the piece at `(x, y)` are the legal jumps that
/// start there.
pub proof fn lemma_jumps_at_are_the_legal_jumps(squares: Seq<Square>, x: u8, y: u8, jump: Jump)
    requires
        x <= 7,
        y <= 7,
    ensures
        jumps_at(squares, x, y).contains(jump) <==> jump.x_start == x && jump.y_start == y
            && legal_jump(squares, jump),
{
    let (p, q) = (x as int, y as int);
    match figure_on(squares, p, q) {
        None => {},
        Some(Figure::Pawn(color)) => {
            let enemy = color.spec_opposite();
            let a = hop_jumps(squares, x, y, enemy, ray(p, q, 1, 1));
            let b = hop_jumps(squares, x, y, enemy, ray(p, q, -1, 1));
            let c = hop_jumps(squares, x, y, enemy, ray(p, q, 1, -1));
            let d = hop_jumps(squares, x, y, enemy, ray(p, q, -1, -1));
            lemma_contains_joined(a, b, jump);
            lemma_contains_joined(a + b, c, jump);
            lemma_contains_joined(a + b + c, d, jump);
            lemma_hop_jumps_are_the_hops(squares, x, y, enemy, 1, 1, jump);
            lemma_hop_jumps_are_the_hops(squares, x, y, enemy, -1, 1, jump);
            lemma_hop_jumps_are_the_hops(squares, x, y, enemy, 1, -1, jump);
            lemma_hop_jumps_are_the_hops(squares, x, y, enemy, -1, -1, jump);
            if jump.x_start == x && jump.y_start == y && legal_jump(squares, jump) {
                let (dx, dy) = choose|dx: int, dy: int| #[trigger]
                    hops(squares, jump, enemy, dx, dy);
                assert(hops(squares, jump, enemy, dx, dy));
            }
        },
        Some(Figure::Queen(color)) => {
            let enemy = color.spec_opposite();
            let a = fly_jumps(squares, x, y, enemy, ray(p, q, 1, 1));
            let b = fly_jumps(squares, x, y, enemy, ray(p, q, -1, 1));
            let c = fly_jumps(squares, x, y, enemy, ray(p, q, 1, -1));
            let d = fly_jumps(squares, x, y, enemy, ray(p, q, -1, -1));
            lemma_contains_joined(a, b, jump);
            lemma_contains_joined(a + b, c, jump);
            lemma_contains_joined(a + b + c, d, jump);
            lemma_fly_jumps_are_the_flights(squares, x, y, enemy, 1, 1, jump);
            lemma_fly_jumps_are_the_flights(squares, x, y, enemy, -1, 1, jump);
            lemma_fly_jumps_are_the_flights(squares, x, y, enemy, 1, -1, jump);
            lemma_fly_jumps_are_the_flights(squares, x, y, enemy, -1, -1, jump);
            if jump.x_start == x && jump.y_start == y && legal_jump(squares, jump) {
                let (dx, dy, i, k) = choose|dx: int, dy: int, i: int, k: int| #[trigger]
                    flies(squares, jump, enemy, dx, dy, i, k);
                assert(flies(squares, jump, enemy, dx, dy, i, k));
            }
        },
    }
}


/// The squares listed among the first `n` scanned are those of them on
/// which pieces of the side stand.
proof fn lemma_positions_members(
    squares: Seq<Square>,
    color: CheckersColor,
    n: nat,
    x: u8,
    y: u8,
)
    requires
        n <= 64,
    ensures
        positions(squares, color, n).contains((x, y)) <==> x <= 7 && y <= 7 && y * 8 + x < n
            && side_on(squares, x as int, y as int, color),
    decreases n,
{
    if n > 0 {
        lemma_positions_members(squares, color, (n - 1) as nat, x, y);
        let before = positions(squares, color, (n - 1) as nat);
        let now = positions(squares, color, n);
        let square = scan_square(n - 1);
        if side_on(squares, square.0 as int, square.1 as int, color) {
            assert(now == before + seq![square]);
            lemma_contains_joined(before, seq![square], (x, y));
            assert(seq![square][0] == square);
        }
    }
}

/// The squares listed for a side are the squares of the board on which
/// its pieces stand.
pub proof fn lemma_positions_are_the_pieces(
    squares: Seq<Square>,
    color: CheckersColor,
    x: u8,
    y: u8,
)
    ensures
        positions(squares, color, 64).contains((x, y)) <==> x <= 7 && y <= 7 && side_on(
            squares,
            x as int,
            y as int,
            color,
        ),
{
    lemma_positions_members(squares, color, 64, x, y);
}

/// The moves found on the first `n` squares scanned are the legal moves
/// of the pieces of the side that stand there.
proof fn lemma_moves_upto_members(squares: Seq<Square>, color: CheckersColor, n: nat, m: Move)
    requires
        n <= 64,
    ensures
        moves_upto(squares, color, n).contains(m) <==> m.x_start <= 7 && m.y_start <= 7
            && m.y_start * 8 + m.x_start < n && side_on(
            squares,
            m.x_start as int,
            m.y_start as int,
            color,
        ) && legal_move(squares, m),
    decreases n,
{
    if n > 0 {
        lemma_moves_upto_members(squares, color, (n - 1) as nat, m);
        let before = moves_upto(squares, color, (n - 1) as nat);
        let (x, y) = scan_square(n - 1);
        lemma_moves_at_are_the_legal_moves(squares, x, y, m);
        if side_on(squares, x as int, y as int, color) {
            lemma_contains_joined(before, moves_at(squares, x, y), m);
        }
    }
}

/// The moves found for a side are the legal moves of its pieces.
pub proof fn lemma_all_moves_are_the_legal_moves(
    squares: Seq<Square>,
    color: CheckersColor,
    m: Move,
)
    ensures
        all_moves(squares, color).contains(m) <==> m.x_start <= 7 && m.y_start <= 7 && side_on(
            squares,
            m.x_start as int,
            m.y_start as int,
            color,
        ) && legal_move(squares, m),
{
    lemma_moves_upto_members(squares, color, 64, m);
}

/// The capture chains found on the first `n` squares scanned are the
/// capture chains of the pieces of the side that stand there.
proof fn lemma_captures_upto_members(
    squares: Seq<Square>,
    color: CheckersColor,
    n: nat,
    chain: Seq<Jump>,
)
    requires
        squares.len() == 32,
        n <= 64,
    ensures
        captures_upto(squares, color, n).contains(chain) <==> chain.len() > 0 && chain[0].x_start
            <= 7 && chain[0].y_start <= 7 && chain[0].y_start * 8 + chain[0].x_start < n
            && side_on(squares, chain[0].x_start as int, chain[0].y_start as int, color)
            && captures_at(squares, chain[0].x_start, chain[0].y_start).contains(chain),
    decreases n,
{
    if n > 0 {
        lemma_captures_upto_members(squares, color, (n - 1) as nat, chain);
        let before = captures_upto(squares, color, (n - 1) as nat);
        let (x, y) = scan_square(n - 1);
        let here = captures_at(squares, x, y);
        lemma_captures_at_playable(squares, x, y);
        if here.contains(chain) {
            let k = choose|k: int| 0 <= k < here.len() && here[k] == chain;
            assert(playable(squares, x, y, here[k]));
        }
        if side_on(squares, x as int, y as int, color) {
            lemma_contains_joined(before, here, chain);
        }
    }
}

/// The capture chains found for a side are the capture chains of its
/// pieces.
pub proof fn lemma_all_captures_are_the_chains(
    squares: Seq<Square>,
    color: CheckersColor,
    chain: Seq<Jump>,
)
    requires
        squares.len() == 32,
    ensures
        all_captures(squares, color).contains(chain) <==> chain.len() > 0 && chain[0].x_start <= 7
            && chain[0].y_start <= 7 && side_on(
            squares,
            chain[0].x_start as int,
            chain[0].y_start as int,
            color,
        ) && captures_at(squares, chain[0].x_start, chain[0].y_start).contains(chain),
{
    lemma_captures_upto_members(squares, color, 64, chain);
}


/// Whether `jumps` is what is left of a complete capture turn of the
/// piece at `(x, y)`: legal jumps, each on the squares as the jumps
/// before it left them and from where the one before ended, until the
/// piece has no jump left.
#[verifier::opaque]
pub open spec fn completes_turn(squares: Seq<Square>, x: u8, y: u8, jumps: Seq<Jump>) -> bool
    decreases jumps.len(),
{
    if jumps.len() == 0 {
        jumps_at(squares, x, y).len() == 0
    } else {
        jumps_at(squares, x, y).contains(jumps[0]) && completes_turn(
            after_jump(squares, jumps[0]),
            jumps[0].x_end,
            jumps[0].y_end,
            jumps.drop_first(),
        )
    }
}

/// Whether `jump` is one of `jumps` with an index of at least `i`.
pub open spec fn among_from(jumps: Seq<Jump>, i: nat, jump: Jump) -> bool {
    exists|n: int| i <= n < jumps.len() && #[trigger] jumps[n] == jump
}

/// Whether `whole` begins with `prefix` and goes on with what completes
/// the turn of the piece at `(x, y)`, the first jump being one of those
/// open there that have an index of at least `i`.
pub open spec fn goes_on(
    squares: Seq<Square>,
    x: u8,
    y: u8,
    i: nat,
    prefix: Seq<Jump>,
    whole: Seq<Jump>,
) -> bool {
    let rest = whole.skip(prefix.len() as int);
    whole.len() > 0 && prefix.len() <= whole.len() && whole.take(prefix.len() as int) == prefix
        && if jumps_at(squares, x, y).len() == 0 {
        rest.len() == 0
    } else {
        rest.len() > 0 && among_from(jumps_at(squares, x, y), i, rest[0]) && completes_turn(
            after_jump(squares, rest[0]),
            rest[0].x_end,
            rest[0].y_end,
            rest.drop_first(),
        )
    }
}

/// A sequence that begins with a prefix and one more jump begins with the
/// prefix and goes on with that jump.
proof fn lemma_begins_with_one_more(whole: Seq<Jump>, prefix: Seq<Jump>, jump: Jump)
    ensures
        (prefix.len() + 1 <= whole.len() && whole.take(prefix.len() as int + 1) == prefix.push(
            jump,
        )) <==> (prefix.len() <= whole.len() && whole.take(prefix.len() as int) == prefix
            && whole.skip(prefix.len() as int).len() > 0 && whole.skip(prefix.len() as int)[0]
            == jump),
        prefix.len() + 1 <= whole.len() ==> whole.skip(prefix.len() as int).drop_first()
            == whole.skip(prefix.len() as int + 1),
{
    let n = prefix.len() as int;
    if n + 1 <= whole.len() {
        assert(whole.skip(n).drop_first() =~= whole.skip(n + 1));
        assert(whole.skip(n)[0] == whole[n]);
        if whole.take(n + 1) == prefix.push(jump) {
            assert(whole.take(n + 1)[n] == jump);
            assert forall|j: int| 0 <= j < n implies whole.take(n)[j] == prefix[j] by {
                assert(whole.take(n + 1)[j] == prefix.push(jump)[j]);
            }
            assert(whole.take(n) =~= prefix);
        }
        if whole.take(n) == prefix && whole[n] == jump {
            assert forall|j: int| 0 <= j < n + 1 implies whole.take(n + 1)[j] == prefix.push(
                jump,
            )[j] by {
                if j < n {
                    assert(whole.take(n)[j] == prefix[j]);
                }
            }
            assert(whole.take(n + 1) =~= prefix.push(jump));
        }
    }
}

/// Unfolds `completes_turn` once.
proof fn lemma_completes_turn(squares: Seq<Square>, x: u8, y: u8, jumps: Seq<Jump>)
    ensures
        completes_turn(squares, x, y, jumps) == if jumps.len() == 0 {
            jumps_at(squares, x, y).len() == 0
        } else {
            jumps_at(squares, x, y).contains(jumps[0]) && completes_turn(
                after_jump(squares, jumps[0]),
                jumps[0].x_end,
                jumps[0].y_end,
                jumps.drop_first(),
            )
        },
{
    reveal(completes_turn);
}

/// A turn goes on with the open jump of index `i` or with a later one.
proof fn lemma_goes_on_step(
    jumps: Seq<Jump>,
    i: nat,
    jump: Jump,
)
    requires
        i < jumps.len(),
    ensures
        among_from(jumps, i, jump) <==> jumps[i as int] == jump || among_from(jumps, i + 1, jump),
{
    if among_from(jumps, i, jump) {
        let n = choose|n: int| i <= n < jumps.len() && #[trigger] jumps[n] == jump;
        if n > i {
            assert(jumps[n] == jump);
        }
    }
    if among_from(jumps, i + 1, jump) {
        let n = choose|n: int| i + 1 <= n < jumps.len() && #[trigger] jumps[n] == jump;
        assert(jumps[n] == jump);
    }
    if jumps[i as int] == jump {
        assert(among_from(jumps, i, jump));
    }
}

/// With every open jump allowed for the first, to go on from nothing is
/// to complete the turn.
proof fn lemma_goes_on_from_nothing(squares: Seq<Square>, x: u8, y: u8, whole: Seq<Jump>)
    ensures
        goes_on(squares, x, y, 0, Seq::empty(), whole) <==> whole.len() > 0 && completes_turn(
            squares,
            x,
            y,
            whole,
        ),
{
    let open = jumps_at(squares, x, y);
    assert(whole.skip(0) =~= whole);
    assert(whole.take(0) =~= Seq::<Jump>::empty());
    lemma_completes_turn(squares, x, y, whole);
    if whole.len() > 0 {
        if open.contains(whole[0]) {
            let n = choose|n: int| 0 <= n < open.len() && open[n] == whole[0];
            assert(open[n] == whole[0]);
        }
    }
}

/// The capture paths that go on from `prefix` are the jump sequences
/// that begin with `prefix` and go on with what completes the turn.
proof fn lemma_paths_members(
    squares: Seq<Square>,
    x: u8,
    y: u8,
    i: nat,
    prefix: Seq<Jump>,
    whole: Seq<Jump>,
)
    requires
        squares.len() == 32,
    ensures
        paths(squares, x, y, i, prefix).contains(whole) <==> goes_on(
            squares,
            x,
            y,
            i,
            prefix,
            whole,
        ),
    decreases unmarked_count(squares), jumps_at(squares, x, y).len() - i,
{
    let jumps = jumps_at(squares, x, y);
    let found = paths(squares, x, y, i, prefix);
    let n = prefix.len() as int;
    if jumps.len() == 0 {
        lemma_paths_end(squares, x, y, i, prefix);
        if prefix.len() > 0 {
            assert(seq![prefix][0] == prefix);
        }
        if goes_on(squares, x, y, i, prefix, whole) {
            assert(whole.take(n) =~= whole);
            assert(found[0] == whole);
        }
        if found.contains(whole) {
            assert(whole == prefix);
            assert(whole.take(n) =~= whole);
        }
    } else if i >= jumps.len() {
        lemma_paths_step(squares, x, y, i, prefix);
    } else {
        lemma_paths_step(squares, x, y, i, prefix);
        let jump = jumps[i as int];
        lemma_jumps_capture(squares, x, y);
        lemma_jump_marks(squares, x, y, jump);
        let next = after_jump(squares, jump);
        let longer = prefix.push(jump);
        let onward = paths(next, jump.x_end, jump.y_end, 0, longer);
        let later = paths(squares, x, y, i + 1, prefix);
        lemma_paths_members(next, jump.x_end, jump.y_end, 0, longer, whole);
        lemma_paths_members(squares, x, y, i + 1, prefix, whole);
        lemma_contains_joined(onward, later, whole);
        lemma_goes_on_link(squares, x, y, i, prefix, whole);
    }
}

/// To go on from `prefix` with an open jump of index at least `i` is to
/// go on from `prefix` and the jump of index `i`, or from `prefix` with
/// an open jump of a greater index.
proof fn lemma_goes_on_link(
    squares: Seq<Square>,
    x: u8,
    y: u8,
    i: nat,
    prefix: Seq<Jump>,
    whole: Seq<Jump>,
)
    requires
        i < jumps_at(squares, x, y).len(),
    ensures
        goes_on(squares, x, y, i, prefix, whole) <==> goes_on(
            after_jump(squares, jumps_at(squares, x, y)[i as int]),
            jumps_at(squares, x, y)[i as int].x_end,
            jumps_at(squares, x, y)[i as int].y_end,
            0,
            prefix.push(jumps_at(squares, x, y)[i as int]),
            whole,
        ) || goes_on(squares, x, y, i + 1, prefix, whole),
{
    let jumps = jumps_at(squares, x, y);
    let jump = jumps[i as int];
    let next = after_jump(squares, jump);
    let longer = prefix.push(jump);
    let rest = whole.skip(prefix.len() as int);
    let tail = whole.skip(longer.len() as int);
    lemma_begins_with_one_more(whole, prefix, jump);
    if rest.len() > 0 {
        lemma_goes_on_step(jumps, i, rest[0]);
    }
    lemma_completes_turn(next, jump.x_end, jump.y_end, tail);
    let open = jumps_at(next, jump.x_end, jump.y_end);
    if tail.len() > 0 {
        if open.contains(tail[0]) {
            let n = choose|n: int| 0 <= n < open.len() && open[n] == tail[0];
            assert(among_from(open, 0, tail[0]));
        }
        if among_from(open, 0, tail[0]) {
            let n = choose|n: int| 0 <= n < open.len() && #[trigger] open[n] == tail[0];
            assert(open.contains(tail[0]));
        }
    }
}

/// The capture paths of the piece at `(x, y)` are its complete capture
/// turns.
pub proof fn lemma_paths_are_the_complete_turns(
    squares: Seq<Square>,
    x: u8,
    y: u8,
    chain: Seq<Jump>,
)
    requires
        squares.len() == 32,
    ensures
        paths(squares, x, y, 0, Seq::empty()).contains(chain) <==> chain.len() > 0
            && completes_turn(squares, x, y, chain),
{
    lemma_paths_members(squares, x, y, 0, Seq::empty(), chain);
    lemma_goes_on_from_nothing(squares, x, y, chain);
}

/// A capture chain of the piece at `(x, y)` is a complete capture turn of
/// that piece, and none of its complete capture turns is longer.
pub proof fn lemma_captures_at_are_longest(
    squares: Seq<Square>,
    x: u8,
    y: u8,
    chain: Seq<Jump>,
    other: Seq<Jump>,
)
    requires
        squares.len() == 32,
        captures_at(squares, x, y).contains(chain),
    ensures
        chain.len() > 0,
        completes_turn(squares, x, y, chain),
        other.len() > 0 && completes_turn(squares, x, y, other) ==> other.len() <= chain.len(),
{
    let all = paths(squares, x, y, 0, Seq::empty());
    lemma_longest(all);
    let k = choose|k: int| 0 <= k < longest(all).len() && longest(all)[k] == chain;
    assert(all.contains(longest(all)[k]));
    lemma_paths_are_the_complete_turns(squares, x, y, chain);
    lemma_paths_are_the_complete_turns(squares, x, y, other);
    if other.len() > 0 && completes_turn(squares, x, y, other) {
        let n = choose|n: int| 0 <= n < all.len() && all[n] == other;
        assert(all[n].len() <= max_len(all, all.len()));
    }
}

/// A complete capture turn of the piece at `(x, y)` that is as long as
/// one of its capture chains is one of its capture chains.
pub proof fn lemma_longest_turns_are_captures_at(
    squares: Seq<Square>,
    x: u8,
    y: u8,
    chain: Seq<Jump>,
    found: Seq<Jump>,
)
    requires
        squares.len() == 32,
        chain.len() > 0,
        completes_turn(squares, x, y, chain),
        captures_at(squares, x, y).contains(found),
        found.len() <= chain.len(),
    ensures
        captures_at(squares, x, y).contains(chain),
{
    let all = paths(squares, x, y, 0, Seq::empty());
    lemma_longest(all);
    lemma_paths_are_the_complete_turns(squares, x, y, chain);
    let k = choose|k: int| 0 <= k < longest(all).len() && longest(all)[k] == found;
    assert(longest(all)[k].len() == max_len(all, all.len()));
    let n = choose|n: int| 0 <= n < all.len() && all[n] == chain;
    assert(all[n].len() <= max_len(all, all.len()));
    assert(longest(all).contains(all[n]));
}

} // verus!

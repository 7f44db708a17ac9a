use checkers::board::Board;
use checkers::controller::{
    CheckersAct, CheckersAction, CheckersColor, CheckersController, Figure, Jump, JumpChain, Move,
};
use checkers::error::CheckersError;

const WP: Figure = Figure::Pawn(CheckersColor::White);
const WQ: Figure = Figure::Queen(CheckersColor::White);
const BP: Figure = Figure::Pawn(CheckersColor::Black);
const BQ: Figure = Figure::Queen(CheckersColor::Black);

fn controller(positions: &[(u8, u8, Figure)]) -> CheckersController {
    CheckersController::new(Board::from_positions(positions))
}

fn chains(found: &[JumpChain]) -> Vec<Vec<Jump>> {
    found.iter().map(|chain| chain.0.clone()).collect()
}

#[test]
fn actions_tell_their_squares() {
    let m = Move::new(1, 2, 3, 4);
    assert_eq!(m.start_position(), (1, 2));
    assert_eq!(m.end_position(), (3, 4));
    assert_eq!(m.start_end(), ((1, 2), (3, 4)));
    let jump = Jump::new(0, 0, 1, 1, 2, 2);
    assert_eq!(jump.start_position(), (0, 0));
    assert_eq!(jump.over_position(), (1, 1));
    assert_eq!(jump.end_position(), (2, 2));
    assert_eq!(jump.start_end(), ((0, 0), (2, 2)));
    let chain = JumpChain(vec![jump, Jump::new(2, 2, 3, 3, 4, 4)]);
    assert_eq!(chain.len(), 2);
    assert_eq!(chain.start_position(), (0, 0));
    assert_eq!(chain.end_position(), (4, 4));
    assert_eq!(CheckersAction::Move(m).start_position(), (1, 2));
    assert_eq!(CheckersAction::Move(m).end_position(), (3, 4));
    assert_eq!(CheckersAction::Jump(jump).start_position(), (0, 0));
    assert_eq!(CheckersAction::Jump(jump).end_position(), (2, 2));
    assert_eq!(CheckersAction::JumpChain(chain).end_position(), (4, 4));
    let action: CheckersAction = m.into();
    assert!(matches!(action, CheckersAction::Move(inner) if inner == m));
}

#[test]
fn diagonals_run_to_the_edge() {
    let (ru, lu, rd, ld) = CheckersController::diagonals(2, 4);
    assert_eq!(ru, vec![(3, 5), (4, 6), (5, 7)]);
    assert_eq!(lu, vec![(1, 5), (0, 6)]);
    assert_eq!(rd, vec![(3, 3), (4, 2), (5, 1), (6, 0)]);
    assert_eq!(ld, vec![(1, 3), (0, 2)]);
    let (ru, lu, rd, ld) = CheckersController::diagonals(0, 0);
    assert_eq!(ru.len(), 7);
    assert_eq!(ru[6], (7, 7));
    assert!(lu.is_empty() && rd.is_empty() && ld.is_empty());
}

#[test]
fn diagonals_from_off_the_board() {
    let (ru, lu, rd, ld) = CheckersController::diagonals(-1, -1);
    assert_eq!(ru.len(), 8);
    assert_eq!(ru[0], (0, 0));
    assert!(lu.is_empty() && rd.is_empty() && ld.is_empty());
    let (ru, lu, rd, ld) = CheckersController::diagonals(127, -128);
    assert!(ru.is_empty() && lu.is_empty() && rd.is_empty() && ld.is_empty());
    let (ru, lu, rd, ld) = CheckersController::diagonals(8, 3);
    assert!(ru.is_empty() && rd.is_empty());
    assert_eq!(lu, vec![(7, 4), (6, 5), (5, 6), (4, 7)]);
    assert_eq!(ld, vec![(7, 2), (6, 1), (5, 0)]);
}

#[test]
fn squares_are_free_or_held() {
    let c = controller(&[(2, 2, WP), (3, 3, BQ)]);
    assert!(!c.is_square_free(2, 2));
    assert!(c.is_square_free(4, 4));
    assert!(c.is_square_free(1, 2));
    assert!(!c.is_square_free(8, 0));
    assert!(!c.is_square_free(0, 8));
    assert!(!c.is_square_free(255, 255));
    assert!(c.is_enemy_on_square(3, 3, CheckersColor::Black));
    assert!(!c.is_enemy_on_square(3, 3, CheckersColor::White));
    assert!(c.is_enemy_on_square(2, 2, CheckersColor::White));
    assert!(!c.is_enemy_on_square(4, 4, CheckersColor::Black));
    assert!(!c.was_jumped_over(3, 3));
}

#[test]
fn white_man_moves_up() {
    let c = controller(&[(2, 2, WP)]);
    assert_eq!(c.moves_at(2, 2), vec![Move::new(2, 2, 1, 3), Move::new(2, 2, 3, 3)]);
    assert!(c.can_move(2, 2));
    assert!(c.moves_at(3, 3).is_empty());
    assert!(!c.can_move(3, 3));
}

#[test]
fn black_man_moves_down() {
    let c = controller(&[(2, 2, BP)]);
    assert_eq!(c.moves_at(2, 2), vec![Move::new(2, 2, 1, 1), Move::new(2, 2, 3, 1)]);
    assert!(c.can_move(2, 2));
}

#[test]
fn men_stop_at_edges_and_pieces() {
    let c = controller(&[(0, 2, WP), (1, 3, WP), (7, 7, WP), (0, 0, BP), (6, 6, BP), (5, 5, WP)]);
    assert!(c.moves_at(0, 2).is_empty());
    assert!(!c.can_move(0, 2));
    assert!(c.moves_at(7, 7).is_empty());
    assert!(!c.can_move(7, 7));
    assert!(c.moves_at(0, 0).is_empty());
    assert!(!c.can_move(0, 0));
    assert_eq!(c.moves_at(6, 6), vec![Move::new(6, 6, 7, 5)]);
    assert!(c.can_move(6, 6));
}

#[test]
fn king_slides_until_blocked() {
    let c = controller(&[(2, 2, WQ), (4, 4, WP), (0, 4, BP)]);
    assert_eq!(
        c.moves_at(2, 2),
        vec![
            Move::new(2, 2, 3, 3),
            Move::new(2, 2, 1, 3),
            Move::new(2, 2, 3, 1),
            Move::new(2, 2, 4, 0),
            Move::new(2, 2, 1, 1),
            Move::new(2, 2, 0, 0),
        ]
    );
    assert!(c.can_move(2, 2));
}

#[test]
fn hemmed_in_king_cannot_move() {
    let c = controller(&[(0, 0, BQ), (1, 1, WP)]);
    assert!(c.moves_at(0, 0).is_empty());
    assert!(!c.can_move(0, 0));
}

#[test]
fn man_jumps_an_enemy_with_a_free_landing() {
    let c = controller(&[(2, 2, WP), (3, 3, BP)]);
    assert_eq!(c.possible_pawn_jumps_at(2, 2), vec![Jump::new(2, 2, 3, 3, 4, 4)]);
    assert_eq!(c.possible_captures_at(2, 2), vec![Jump::new(2, 2, 3, 3, 4, 4)]);
    assert_eq!(c.tuple_pawn_captures_at((2, 2)), vec![Jump::new(2, 2, 3, 3, 4, 4)]);
    assert!(c.can_capture(2, 2));
    assert!(c.possible_queen_jumps_at(2, 2).is_empty());
    assert!(c.tuple_queen_captures_at((2, 2)).is_empty());
    // The black man can jump the white one the other way.
    assert_eq!(c.possible_pawn_jumps_at(3, 3), vec![Jump::new(3, 3, 2, 2, 1, 1)]);
}

#[test]
fn man_cannot_jump_onto_a_held_square() {
    let c = controller(&[(2, 2, WP), (3, 3, BP), (4, 4, BP)]);
    assert!(c.possible_pawn_jumps_at(2, 2).is_empty());
    assert!(c.possible_captures_at(2, 2).is_empty());
    assert!(!c.can_capture(2, 2));
    let c = controller(&[(2, 2, WP), (3, 3, BP), (4, 4, WP)]);
    assert!(c.possible_pawn_jumps_at(2, 2).is_empty());
}

#[test]
fn man_does_not_jump_its_own_side_or_off_the_board() {
    let c = controller(&[(2, 2, WP), (3, 3, WP), (6, 6, WP), (7, 7, BP), (1, 1, BP)]);
    assert!(c.possible_pawn_jumps_at(6, 6).is_empty());
    // Backwards over (1, 1) onto (0, 0).
    assert_eq!(c.possible_pawn_jumps_at(2, 2), vec![Jump::new(2, 2, 1, 1, 0, 0)]);
}

#[test]
fn man_jumps_in_all_four_directions() {
    let c = controller(&[(4, 4, BP), (5, 5, WP), (3, 5, WP), (5, 3, WQ), (3, 3, WP)]);
    assert_eq!(
        c.possible_pawn_jumps_at(4, 4),
        vec![
            Jump::new(4, 4, 5, 5, 6, 6),
            Jump::new(4, 4, 3, 5, 2, 6),
            Jump::new(4, 4, 5, 3, 6, 2),
            Jump::new(4, 4, 3, 3, 2, 2),
        ]
    );
}

#[test]
fn man_does_not_jump_a_marked_piece() {
    let mut board = Board::from_positions(&[(2, 2, WP), (3, 3, BP)]);
    board.set_flag(3, 3, true);
    let c = CheckersController::new(board);
    assert!(c.was_jumped_over(3, 3));
    assert!(!c.was_jumped_over(2, 2));
    assert!(!c.was_jumped_over(3, 2));
    assert!(c.possible_pawn_jumps_at(2, 2).is_empty());
    assert!(!c.can_capture(2, 2));
}

#[test]
fn king_jumps_from_afar_onto_each_free_square() {
    let c = controller(&[(0, 0, WQ), (2, 2, BP), (6, 6, BP)]);
    assert_eq!(
        c.possible_queen_jumps_at(0, 0),
        vec![
            Jump::new(0, 0, 2, 2, 3, 3),
            Jump::new(0, 0, 2, 2, 4, 4),
            Jump::new(0, 0, 2, 2, 5, 5),
        ]
    );
    assert!(c.can_capture(0, 0));
    assert!(c.possible_pawn_jumps_at(0, 0).is_empty());
}

#[test]
fn king_does_not_jump_two_pieces_or_its_own() {
    let c = controller(&[(0, 0, WQ), (2, 2, BP), (3, 3, BP)]);
    assert!(c.possible_queen_jumps_at(0, 0).is_empty());
    let c = controller(&[(0, 0, WQ), (1, 1, WP), (2, 2, BP)]);
    assert!(c.possible_queen_jumps_at(0, 0).is_empty());
    let c = controller(&[(0, 0, WQ), (7, 7, BP)]);
    assert!(c.possible_queen_jumps_at(0, 0).is_empty());
    assert!(!c.can_capture(0, 0));
}

#[test]
fn king_stops_at_a_marked_square() {
    let mut board = Board::from_positions(&[(0, 0, BQ), (3, 3, WP)]);
    board.set_flag(1, 1, true);
    let c = CheckersController::new(board);
    assert!(c.possible_queen_jumps_at(0, 0).is_empty());
    let mut board = Board::from_positions(&[(0, 0, BQ), (3, 3, WP)]);
    board.set_flag(5, 5, true);
    let c = CheckersController::new(board);
    // A mark behind the piece does not stop the landing.
    assert_eq!(c.possible_queen_jumps_at(0, 0).len(), 4);
}

#[test]
fn capture_chain_goes_on_until_no_jump_is_left() {
    let c = controller(&[(0, 0, WP), (1, 1, BP), (3, 3, BP)]);
    let found = c.captures_at(0, 0);
    assert_eq!(
        chains(&found),
        vec![vec![Jump::new(0, 0, 1, 1, 2, 2), Jump::new(2, 2, 3, 3, 4, 4)]]
    );
    assert_eq!(found[0].start_position(), (0, 0));
    assert_eq!(found[0].end_position(), (4, 4));
    assert!(c.captures_at(1, 1).is_empty());
    assert!(c.captures_at(5, 5).is_empty());
}

#[test]
fn only_the_longest_chains_of_a_piece_are_kept() {
    // From (2, 2): over (3, 3) to (4, 4) and on over (5, 5) to (6, 6), or
    // over (1, 3) to (0, 4) and no further.
    let c = controller(&[(2, 2, WP), (3, 3, BP), (5, 5, BP), (1, 3, BP)]);
    assert_eq!(c.possible_pawn_jumps_at(2, 2).len(), 2);
    assert_eq!(
        chains(&c.captures_at(2, 2)),
        vec![vec![Jump::new(2, 2, 3, 3, 4, 4), Jump::new(4, 4, 5, 5, 6, 6)]]
    );
}

#[test]
fn chains_of_equal_length_are_all_kept() {
    let c = controller(&[(2, 2, WP), (3, 3, BP), (1, 3, BP)]);
    assert_eq!(
        chains(&c.captures_at(2, 2)),
        vec![vec![Jump::new(2, 2, 3, 3, 4, 4)], vec![Jump::new(2, 2, 1, 3, 0, 4)]]
    );
}

#[test]
fn a_piece_is_not_taken_twice_in_a_chain() {
    // The king takes (2, 2), lands beyond, and cannot come back over it.
    let c = controller(&[(0, 0, WQ), (2, 2, BP)]);
    let found = chains(&c.captures_at(0, 0));
    assert_eq!(found.len(), 5);
    for chain in &found {
        assert_eq!(chain.len(), 1);
    }
}

#[test]
fn start_position_offers_moves_only() {
    let c = CheckersController::new(Board::default());
    let (captures, moves) = c.options(CheckersColor::White);
    assert!(captures.is_empty());
    assert_eq!(
        moves,
        vec![
            Move::new(0, 2, 1, 3),
            Move::new(2, 2, 1, 3),
            Move::new(2, 2, 3, 3),
            Move::new(4, 2, 3, 3),
            Move::new(4, 2, 5, 3),
            Move::new(6, 2, 5, 3),
            Move::new(6, 2, 7, 3),
        ]
    );
    let (captures, moves) = c.options(CheckersColor::Black);
    assert!(captures.is_empty());
    assert_eq!(
        moves,
        vec![
            Move::new(1, 5, 0, 4),
            Move::new(1, 5, 2, 4),
            Move::new(3, 5, 2, 4),
            Move::new(3, 5, 4, 4),
            Move::new(5, 5, 4, 4),
            Move::new(5, 5, 6, 4),
            Move::new(7, 5, 6, 4),
        ]
    );
    assert_eq!(c.all_moves(CheckersColor::White), c.options(CheckersColor::White).1);
    assert!(c.all_captures(CheckersColor::White).is_empty());
    assert!(c.all_captures(CheckersColor::Black).is_empty());
}

#[test]
fn captures_are_mandatory_and_the_longest_wins() {
    // The man on (0, 0) can take two, the man on (7, 5) one.
    // The man on (6, 0) has two quiet moves and no capture.
    let c = controller(&[(0, 0, WP), (1, 1, BP), (3, 3, BP), (7, 5, WP), (6, 6, BP), (6, 0, WP)]);
    let all = c.all_captures(CheckersColor::White);
    assert_eq!(
        chains(&all),
        vec![
            vec![Jump::new(0, 0, 1, 1, 2, 2), Jump::new(2, 2, 3, 3, 4, 4)],
            vec![Jump::new(7, 5, 6, 6, 5, 7)],
        ]
    );
    assert_eq!(
        c.all_moves(CheckersColor::White),
        vec![Move::new(6, 0, 5, 1), Move::new(6, 0, 7, 1)]
    );
    let (captures, moves) = c.options(CheckersColor::White);
    assert_eq!(
        chains(&captures),
        vec![vec![Jump::new(0, 0, 1, 1, 2, 2), Jump::new(2, 2, 3, 3, 4, 4)]]
    );
    assert!(moves.is_empty());
}

#[test]
fn a_side_without_pieces_has_no_option() {
    let c = controller(&[(0, 0, WP)]);
    let (captures, moves) = c.options(CheckersColor::Black);
    assert!(captures.is_empty());
    assert!(moves.is_empty());
    let c = controller(&[(0, 0, BP)]);
    let (captures, moves) = c.options(CheckersColor::Black);
    assert!(captures.is_empty());
    assert!(moves.is_empty());
}

#[test]
fn pieces_are_listed_row_by_row() {
    let c = controller(&[(4, 4, WQ), (2, 0, WP), (0, 0, WP), (1, 1, BP), (7, 7, BQ)]);
    assert_eq!(c.get_white_pieces_position(), vec![(0, 0), (2, 0), (4, 4)]);
    assert_eq!(c.get_black_pieces_position(), vec![(1, 1), (7, 7)]);
    let c = CheckersController::new(Board::default());
    assert_eq!(c.get_white_pieces_position().len(), 12);
    assert_eq!(c.get_black_pieces_position().len(), 12);
}

#[test]
fn execute_move_moves_and_counts() {
    let mut c = controller(&[(2, 2, WP), (4, 4, WQ), (5, 5, BQ), (7, 7, BP)]);
    assert_eq!(c.get_white_queen_idle_moves(), 0);
    assert_eq!(c.execute_move(&Move::new(4, 4, 6, 2)), Ok(()));
    assert_eq!(c.board.at(4, 4), None);
    assert_eq!(c.board.at(6, 2), Some(WQ));
    assert_eq!(c.get_white_queen_idle_moves(), 1);
    assert_eq!(c.execute_move(&Move::new(6, 2, 7, 1)), Ok(()));
    assert_eq!(c.get_white_queen_idle_moves(), 2);
    assert_eq!(c.get_black_queen_idle_moves(), 0);
    assert_eq!(c.execute_move(&Move::new(5, 5, 4, 4)), Ok(()));
    assert_eq!(c.get_black_queen_idle_moves(), 1);
    assert_eq!(c.get_white_queen_idle_moves(), 2);
    assert_eq!(c.execute_move(&Move::new(2, 2, 3, 3)), Ok(()));
    assert_eq!(c.get_white_queen_idle_moves(), 0);
    assert_eq!(c.get_black_queen_idle_moves(), 1);
    assert_eq!(c.execute_move(&Move::new(7, 7, 6, 6)), Ok(()));
    assert_eq!(c.get_black_queen_idle_moves(), 0);
    assert_eq!(c.board.at(3, 3), Some(WP));
    assert_eq!(c.board.at(2, 2), None);
}

#[test]
fn execute_move_refuses_what_is_illegal() {
    let mut c = CheckersController::with_idle_moves(
        Board::from_positions(&[(2, 2, WQ), (3, 3, BP)]),
        3,
        4,
    );
    assert_eq!(c.execute_move(&Move::new(4, 4, 5, 5)), Err(CheckersError::IllegalAction));
    assert_eq!(c.execute_move(&Move::new(2, 2, 3, 3)), Err(CheckersError::IllegalAction));
    assert_eq!(c.execute_move(&Move::new(2, 2, 2, 2)), Err(CheckersError::IllegalAction));
    assert_eq!(c.execute_move(&Move::new(2, 3, 3, 4)), Err(CheckersError::IllegalAction));
    assert_eq!(c.execute_move(&Move::new(2, 2, 8, 8)), Err(CheckersError::OutOfBounds));
    assert_eq!(c.execute_move(&Move::new(9, 2, 1, 1)), Err(CheckersError::OutOfBounds));
    assert_eq!(c.board.at(2, 2), Some(WQ));
    assert_eq!(c.board.at(3, 3), Some(BP));
    assert_eq!(c.get_white_queen_idle_moves(), 3);
    assert_eq!(c.get_black_queen_idle_moves(), 4);
}

#[test]
fn execute_jump_takes_and_marks() {
    let mut c = CheckersController::with_idle_moves(
        Board::from_positions(&[(2, 2, WQ), (3, 3, BP)]),
        3,
        4,
    );
    assert_eq!(c.execute_jump(&Jump::new(2, 2, 3, 3, 4, 4)), Ok(()));
    assert_eq!(c.board.at(2, 2), None);
    assert_eq!(c.board.at(3, 3), None);
    assert_eq!(c.board.at(4, 4), Some(WQ));
    assert!(c.was_jumped_over(3, 3));
    assert_eq!(c.board.flags, 1 << 13);
    assert_eq!(c.get_white_queen_idle_moves(), 3);
    assert_eq!(c.get_black_queen_idle_moves(), 4);
}

#[test]
fn execute_jump_refuses_what_is_illegal() {
    let mut c = controller(&[(2, 2, WP), (3, 3, BP), (4, 4, BP)]);
    assert_eq!(c.execute_jump(&Jump::new(2, 2, 3, 3, 4, 4)), Err(CheckersError::IllegalAction));
    assert_eq!(c.execute_jump(&Jump::new(0, 0, 1, 1, 2, 2)), Err(CheckersError::IllegalAction));
    assert_eq!(c.execute_jump(&Jump::new(2, 2, 3, 3, 8, 4)), Err(CheckersError::OutOfBounds));
    assert_eq!(c.execute_jump(&Jump::new(2, 2, 3, 8, 4, 4)), Err(CheckersError::OutOfBounds));
    assert_eq!(c.board.num_figures(CheckersColor::Black), 2);
    assert_eq!(c.board.at(2, 2), Some(WP));
    assert_eq!(c.board.flags, 0);
}

#[test]
fn execute_capture_empties_the_taken_squares_and_clears_the_marks() {
    let mut c = controller(&[(0, 0, WP), (1, 1, BP), (3, 3, BP), (7, 7, BQ)]);
    let (captures, _) = c.options(CheckersColor::White);
    assert_eq!(captures.len(), 1);
    assert_eq!(c.execute_capture(&captures[0]), Ok(()));
    assert_eq!(c.board.at(0, 0), None);
    assert_eq!(c.board.at(1, 1), None);
    assert_eq!(c.board.at(2, 2), None);
    assert_eq!(c.board.at(3, 3), None);
    assert_eq!(c.board.at(4, 4), Some(WP));
    assert_eq!(c.board.at(7, 7), Some(BQ));
    assert_eq!(c.board.flags, 0);
    assert_eq!(c.board.num_figures(CheckersColor::Black), 1);
    assert_eq!(c.board.num_figures(CheckersColor::White), 1);
}

#[test]
fn execute_capture_changes_nothing_when_a_jump_fails() {
    let mut c = controller(&[(0, 0, WP), (1, 1, BP), (3, 3, BP), (4, 4, BP)]);
    let chain = JumpChain(vec![Jump::new(0, 0, 1, 1, 2, 2), Jump::new(2, 2, 3, 3, 4, 4)]);
    assert_eq!(c.execute_capture(&chain), Err(CheckersError::IllegalAction));
    assert_eq!(c.board.at(0, 0), Some(WP));
    assert_eq!(c.board.at(1, 1), Some(BP));
    assert_eq!(c.board.at(2, 2), None);
    assert_eq!(c.board.flags, 0);
    let chain = JumpChain(vec![Jump::new(0, 0, 1, 1, 2, 2), Jump::new(2, 2, 3, 3, 4, 9)]);
    assert_eq!(c.execute_capture(&chain), Err(CheckersError::OutOfBounds));
    assert_eq!(c.board.at(0, 0), Some(WP));
}

#[test]
fn execute_capture_of_an_empty_chain_clears_the_marks() {
    let mut board = Board::from_positions(&[(0, 0, WP)]);
    board.set_flag(2, 2, true);
    let mut c = CheckersController::new(board);
    assert_eq!(c.execute_capture(&JumpChain(Vec::new())), Ok(()));
    assert_eq!(c.board.flags, 0);
    assert_eq!(c.board.at(0, 0), Some(WP));
}

#[test]
fn execute_action_runs_each_kind() {
    let mut c = controller(&[(0, 0, WP), (1, 1, BP), (3, 3, BP), (6, 6, BQ)]);
    assert_eq!(c.execute_action(&CheckersAction::Move(Move::new(6, 6, 7, 7))), Ok(()));
    assert_eq!(c.get_black_queen_idle_moves(), 1);
    assert_eq!(c.execute_action(&CheckersAction::Jump(Jump::new(0, 0, 1, 1, 2, 2))), Ok(()));
    assert_eq!(c.board.flags, 1 << 4);
    let chain = JumpChain(vec![Jump::new(2, 2, 3, 3, 4, 4)]);
    assert_eq!(c.execute_action(&CheckersAction::JumpChain(chain)), Ok(()));
    assert_eq!(c.board.flags, 0);
    assert_eq!(c.board.at(4, 4), Some(WP));
    assert_eq!(c.board.num_figures(CheckersColor::Black), 1);
    assert_eq!(
        c.execute_action(&CheckersAction::Move(Move::new(0, 0, 1, 1))),
        Err(CheckersError::IllegalAction)
    );
}

#[test]
fn promote_crowns_men_on_the_far_row_only() {
    let mut c = controller(&[
        (1, 7, WP),
        (3, 7, BP),
        (5, 7, WQ),
        (7, 7, WP),
        (0, 0, BP),
        (2, 0, WP),
        (4, 0, BQ),
        (6, 0, BP),
        (0, 6, WP),
        (1, 1, BP),
    ]);
    c.board.set_flag(1, 7, true);
    c.promote();
    assert_eq!(c.board.at(1, 7), Some(WQ));
    assert_eq!(c.board.at(3, 7), Some(BP));
    assert_eq!(c.board.at(5, 7), Some(WQ));
    assert_eq!(c.board.at(7, 7), Some(WQ));
    assert_eq!(c.board.at(0, 0), Some(BQ));
    assert_eq!(c.board.at(2, 0), Some(WP));
    assert_eq!(c.board.at(4, 0), Some(BQ));
    assert_eq!(c.board.at(6, 0), Some(BQ));
    assert_eq!(c.board.at(0, 6), Some(WP));
    assert_eq!(c.board.at(1, 1), Some(BP));
    assert_eq!(c.board.flags, 1 << 28);
    assert_eq!(c.board.num_figures(CheckersColor::White), 5);
    assert_eq!(c.board.num_figures(CheckersColor::Black), 5);
}

#[test]
fn controllers_start_with_the_given_counters() {
    let c = CheckersController::new(Board::default());
    assert_eq!(c.get_white_queen_idle_moves(), 0);
    assert_eq!(c.get_black_queen_idle_moves(), 0);
    let c = CheckersController::with_idle_moves(Board::default(), 5, 9);
    assert_eq!(c.get_white_queen_idle_moves(), 5);
    assert_eq!(c.get_black_queen_idle_moves(), 9);
    assert_eq!(c.board.occupation, Board::default().occupation);
}

#[test]
fn actions_are_written_by_their_aliases() {
    assert_eq!(Move::new(2, 2, 3, 3).to_text(), "C3 -> D4");
    assert_eq!(Move::new(0, 0, 7, 7).to_text(), "A1 -> H8");
    assert_eq!(Jump::new(2, 2, 3, 3, 4, 4).to_text(), "C3 --|D4|-> E5");
    let chain = JumpChain(vec![Jump::new(0, 0, 1, 1, 2, 2), Jump::new(2, 2, 3, 3, 4, 4)]);
    assert_eq!(chain.to_text(), "A1 -> C3 -> E5");
    let chain = JumpChain(vec![Jump::new(0, 0, 1, 1, 2, 2)]);
    assert_eq!(chain.to_text(), "A1 -> C3");
    assert_eq!(JumpChain(Vec::new()).to_text(), "[]");
}

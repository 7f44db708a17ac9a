use checkers::board::Board;
use checkers::controller::{CheckersColor, CheckersController, Figure, Jump, JumpChain, Move};
use checkers::game::estimators::{BoardEstimator, CountEstimator, WeightMatrixEstimator};
use checkers::game::player::{
    decide_choice, read_choice, AlphaBetaBot, Choice, DummyBot, MinMaxBot, Player,
};
use checkers::game::search::{IDLE_LIMIT, MAX_SCORE, MIN_SCORE};
use checkers::game::{Game, GameState};

const WP: Figure = Figure::Pawn(CheckersColor::White);
const WQ: Figure = Figure::Queen(CheckersColor::White);
const BP: Figure = Figure::Pawn(CheckersColor::Black);
const BQ: Figure = Figure::Queen(CheckersColor::Black);

fn weights() -> [[i16; 8]; 8] {
    let mut w = [[1i16; 8]; 8];
    for i in 0..8 {
        w[i][0] = 3;
        w[i][7] = 3;
        w[0][i] = 3;
        w[7][i] = 3;
    }
    for i in 1..7 {
        if w[i][1] == 1 {
            w[i][1] = 2;
        }
        w[i][6] = 2;
        w[1][i] = 2;
        w[6][i] = 2;
    }
    w
}

#[test]
fn constants_are_the_extremes() {
    assert_eq!(MIN_SCORE, -10_000_000_000);
    assert_eq!(MAX_SCORE, 10_000_000_000);
    assert_eq!(IDLE_LIMIT, 8);
}

#[test]
fn count_estimator_weighs_material() {
    let estimator = CountEstimator::new(1, 3);
    assert_eq!(estimator.score(&Board::default()), 0);
    assert_eq!(estimator.score(&Board::empty()), 0);
    let board = Board::from_positions(&[
        (0, 0, WP),
        (2, 0, WP),
        (4, 0, WQ),
        (1, 1, BP),
        (3, 1, BQ),
        (5, 1, BQ),
    ]);
    // (2 * 1 + 1 * 3) - (1 * 1 + 2 * 3)
    assert_eq!(estimator.score(&board), -2);
    let estimator = CountEstimator::new(-5, 100);
    assert_eq!(estimator.score(&board), (-10 + 100) - (-5 + 200));
}

#[test]
fn count_estimator_takes_extreme_weights() {
    let mut positions = Vec::new();
    for y in 0..8u8 {
        for x in 0..8u8 {
            positions.push((x, y, WQ));
        }
    }
    let board = Board::from_positions(&positions);
    let estimator = CountEstimator::new(i32::MIN, i32::MAX);
    assert_eq!(estimator.score(&board), 32 * (i32::MAX as i64));
    let estimator = CountEstimator::new(i32::MAX, i32::MIN);
    assert_eq!(estimator.score(&board), 32 * (i32::MIN as i64));
}

#[test]
fn weight_matrix_estimator_weighs_white_squares_only() {
    let estimator = WeightMatrixEstimator::new(weights(), 1, 3);
    assert_eq!(estimator.score(&Board::empty()), 0);
    // (0, 0) weighs 3, (1, 1) weighs 2, (2, 2) weighs 1.
    let board =
        Board::from_positions(&[(0, 0, WP), (1, 1, WQ), (2, 2, WP), (3, 3, BP), (7, 7, BQ)]);
    assert_eq!(estimator.score(&board), 3 * 1 + 2 * 3 + 1 * 1);
    let only_black = Board::from_positions(&[(3, 3, BP), (7, 7, BQ)]);
    assert_eq!(estimator.score(&only_black), 0);
    // Row 0: four squares of weight 3. Row 1: 2, 2, 2, 3. Row 2: 3, 1, 1, 2.
    assert_eq!(estimator.score(&Board::default()), 12 + 9 + 7);
}

#[test]
fn weight_matrix_is_read_by_column_then_row() {
    let mut w = [[0i16; 8]; 8];
    w[2][0] = 7;
    w[0][2] = 11;
    let estimator = WeightMatrixEstimator::new(w, 1, 10);
    let board = Board::from_positions(&[(2, 0, WP)]);
    assert_eq!(estimator.score(&board), 7);
    let board = Board::from_positions(&[(0, 2, WQ)]);
    assert_eq!(estimator.score(&board), 110);
}

#[test]
fn weight_matrix_estimator_takes_extreme_weights() {
    let mut positions = Vec::new();
    for y in 0..8u8 {
        for x in 0..8u8 {
            positions.push((x, y, WQ));
        }
    }
    let board = Board::from_positions(&positions);
    let estimator = WeightMatrixEstimator::new([[i16::MIN; 8]; 8], 0, i32::MIN);
    assert_eq!(estimator.score(&board), 32 * (i16::MIN as i64) * (i32::MIN as i64));
}

#[test]
fn scoring_twice_gives_the_same_score() {
    let board = Board::from_positions(&[(0, 0, WP), (1, 1, WQ), (3, 3, BP), (7, 7, BQ)]);
    let copy = board;
    let count = CountEstimator::new(1, 3);
    let first = count.score(&board);
    assert_eq!(count.score(&board), first);
    let matrix = WeightMatrixEstimator::new(weights(), 1, 3);
    let first = matrix.score(&board);
    assert_eq!(matrix.score(&board), first);
    assert_eq!(board.occupation, copy.occupation);
    assert_eq!(board.color, copy.color);
    assert_eq!(board.figure, copy.figure);
    assert_eq!(board.flags, copy.flags);
}

#[test]
fn dummy_bot_picks_one_of_the_candidates() {
    let mut bot = DummyBot::new();
    assert_eq!(bot.get_color(), CheckersColor::White);
    bot.set_color(CheckersColor::Black);
    assert_eq!(bot.get_color(), CheckersColor::Black);
    let controller = CheckersController::new(Board::default());
    let (_, moves) = controller.options(CheckersColor::Black);
    for _ in 0..50 {
        let chosen = bot.choose_move(&moves, controller.board);
        assert!(moves.contains(chosen));
    }
    let one = [Move::new(0, 0, 1, 1)];
    assert_eq!(*bot.choose_move(&one, controller.board), one[0]);
    let chains = [
        JumpChain(vec![Jump::new(0, 0, 1, 1, 2, 2)]),
        JumpChain(vec![Jump::new(4, 4, 5, 5, 6, 6)]),
    ];
    for _ in 0..20 {
        let chosen = bot.choose_capture(&chains, controller.board);
        assert!(chosen.0 == chains[0].0 || chosen.0 == chains[1].0);
    }
}

#[test]
fn dummy_bot_reaches_every_candidate() {
    let bot = DummyBot::new();
    let controller = CheckersController::new(Board::default());
    let (_, moves) = controller.options(CheckersColor::White);
    let mut seen = vec![false; moves.len()];
    for _ in 0..2000 {
        let chosen = bot.choose_move(&moves, controller.board);
        let index = moves.iter().position(|m| m == chosen).unwrap();
        seen[index] = true;
    }
    assert!(seen.iter().all(|s| *s));
}

#[test]
fn minmax_bot_keeps_its_man_out_of_reach() {
    // White to move. On (3, 3) the man would be taken by the man on (4, 4).
    let board = Board::from_positions(&[(2, 2, WP), (4, 4, BP)]);
    let controller = CheckersController::new(board);
    let (captures, moves) = controller.options(CheckersColor::White);
    assert!(captures.is_empty());
    assert_eq!(moves, vec![Move::new(2, 2, 1, 3), Move::new(2, 2, 3, 3)]);
    let bot = MinMaxBot::new(CountEstimator::new(1, 3), 2);
    for _ in 0..10 {
        assert_eq!(*bot.choose_move(&moves, board), Move::new(2, 2, 1, 3));
    }
}

#[test]
fn minmax_bot_plays_for_black_too() {
    // Black to move. On (3, 3) the man would be taken by the man on (2, 2).
    let board = Board::from_positions(&[(2, 2, WP), (4, 4, BP)]);
    let controller = CheckersController::new(board);
    let (_, moves) = controller.options(CheckersColor::Black);
    assert_eq!(moves, vec![Move::new(4, 4, 3, 3), Move::new(4, 4, 5, 3)]);
    let mut bot = MinMaxBot::new(CountEstimator::new(1, 3), 2);
    bot.set_color(CheckersColor::Black);
    assert_eq!(bot.get_color(), CheckersColor::Black);
    for _ in 0..10 {
        assert_eq!(*bot.choose_move(&moves, board), Move::new(4, 4, 5, 3));
    }
}

#[test]
fn minmax_bot_at_depth_one_scores_the_position_after_its_move() {
    // With the positional evaluator the edge square (0, 4) is worth more
    // than (2, 4).
    let board = Board::from_positions(&[(1, 3, WP), (7, 7, BP)]);
    let moves = [Move::new(1, 3, 0, 4), Move::new(1, 3, 2, 4)];
    let bot = MinMaxBot::new(WeightMatrixEstimator::new(weights(), 1, 3), 1);
    for _ in 0..10 {
        assert_eq!(*bot.choose_move(&moves, board), moves[0]);
    }
    let mut bot = MinMaxBot::new(WeightMatrixEstimator::new(weights(), 1, 3), 1);
    bot.set_color(CheckersColor::Black);
    for _ in 0..10 {
        assert_eq!(*bot.choose_move(&moves, board), moves[1]);
    }
}

#[test]
fn bots_take_a_single_candidate_without_search() {
    let board = Board::from_positions(&[(2, 2, WP), (4, 4, BP)]);
    let one = [Move::new(2, 2, 3, 3)];
    let minmax = MinMaxBot::new(CountEstimator::new(1, 3), 3);
    assert_eq!(*minmax.choose_move(&one, board), one[0]);
    let alpha_beta = AlphaBetaBot::new(CountEstimator::new(1, 3), 3);
    assert_eq!(*alpha_beta.choose_move(&one, board), one[0]);
    let chain = [JumpChain(vec![Jump::new(2, 2, 3, 3, 4, 4)])];
    assert_eq!(minmax.choose_capture(&chain, board).0, chain[0].0);
    assert_eq!(alpha_beta.choose_capture(&chain, board).0, chain[0].0);
}

#[test]
fn bots_choose_the_capture_that_leaves_them_safe() {
    // White must capture over (3, 3): from (2, 2) onto (4, 4), where the
    // man on (5, 5) takes it back, or from (4, 2) onto (2, 4), where
    // nothing can.
    let board =
        Board::from_positions(&[(2, 2, WP), (4, 2, WP), (3, 3, BP), (5, 5, BP), (6, 6, BP)]);
    let controller = CheckersController::new(board);
    let (captures, moves) = controller.options(CheckersColor::White);
    assert!(moves.is_empty());
    assert_eq!(captures.len(), 2);
    assert_eq!(captures[0].0, vec![Jump::new(2, 2, 3, 3, 4, 4)]);
    assert_eq!(captures[1].0, vec![Jump::new(4, 2, 3, 3, 2, 4)]);
    let minmax = MinMaxBot::new(CountEstimator::new(1, 3), 2);
    let alpha_beta = AlphaBetaBot::new(CountEstimator::new(1, 3), 2);
    for _ in 0..10 {
        assert_eq!(minmax.choose_capture(&captures, board).0, captures[1].0);
        assert_eq!(alpha_beta.choose_capture(&captures, board).0, captures[1].0);
    }
}

#[test]
fn alpha_beta_bot_agrees_with_minmax_bot() {
    let board = Board::from_positions(&[(2, 2, WP), (4, 4, BP)]);
    let controller = CheckersController::new(board);
    let (_, white_moves) = controller.options(CheckersColor::White);
    let (_, black_moves) = controller.options(CheckersColor::Black);
    for depth in [2usize, 3, 4, 5] {
        let minmax = MinMaxBot::new(CountEstimator::new(1, 3), depth);
        let alpha_beta = AlphaBetaBot::new(CountEstimator::new(1, 3), depth);
        assert_eq!(*minmax.choose_move(&white_moves, board), Move::new(2, 2, 1, 3));
        assert_eq!(*alpha_beta.choose_move(&white_moves, board), Move::new(2, 2, 1, 3));
        let mut minmax = MinMaxBot::new(CountEstimator::new(1, 3), depth);
        let mut alpha_beta = AlphaBetaBot::new(CountEstimator::new(1, 3), depth);
        minmax.set_color(CheckersColor::Black);
        alpha_beta.set_color(CheckersColor::Black);
        assert_eq!(alpha_beta.get_color(), CheckersColor::Black);
        assert_eq!(*minmax.choose_move(&black_moves, board), Move::new(4, 4, 5, 3));
        assert_eq!(*alpha_beta.choose_move(&black_moves, board), Move::new(4, 4, 5, 3));
    }
}

#[test]
fn bots_choose_among_the_candidates_from_the_start() {
    let board = Board::default();
    let controller = CheckersController::new(board);
    let (_, moves) = controller.options(CheckersColor::White);
    let minmax = MinMaxBot::new(CountEstimator::new(1, 3), 4);
    let alpha_beta = AlphaBetaBot::new(CountEstimator::new(1, 3), 4);
    assert!(moves.contains(minmax.choose_move(&moves, board)));
    assert!(moves.contains(alpha_beta.choose_move(&moves, board)));
}

#[test]
fn game_ends_at_once_for_a_side_without_options() {
    let board = Board::from_positions(&[(4, 4, BP)]);
    let mut game = Game::new(CheckersController::new(board), DummyBot::new(), DummyBot::new());
    assert_eq!(game.current_player, CheckersColor::White);
    assert_eq!(game.white_player.get_color(), CheckersColor::White);
    assert_eq!(game.black_player.get_color(), CheckersColor::Black);
    assert_eq!(game.step(), None);
    assert_eq!(game.current_player, CheckersColor::White);
    assert_eq!(game.play_turn(), GameState::Decided(CheckersColor::Black));
    assert_eq!(game.controller.board.at(4, 4), Some(BP));
}

#[test]
fn game_ends_for_a_side_that_has_stalled() {
    let board = Board::from_positions(&[(0, 0, WQ), (7, 7, BQ)]);
    let controller = CheckersController::with_idle_moves(board, 9, 0);
    let mut game = Game::new(controller, DummyBot::new(), DummyBot::new());
    assert_eq!(game.step(), None);
    assert_eq!(game.play_turn(), GameState::Decided(CheckersColor::Black));
    let controller = CheckersController::with_idle_moves(board, 8, 0);
    let mut game = Game::new(controller, DummyBot::new(), DummyBot::new());
    assert_eq!(game.step(), Some(()));
    assert_eq!(game.controller.get_white_queen_idle_moves(), 9);
    assert_eq!(game.current_player, CheckersColor::Black);
}

#[test]
fn game_takes_turns() {
    let mut game = Game::new(
        CheckersController::new(Board::default()),
        DummyBot::new(),
        MinMaxBot::new(CountEstimator::new(1, 3), 2),
    );
    assert_eq!(game.play_turn(), GameState::InProgress);
    assert_eq!(game.current_player, CheckersColor::Black);
    assert_eq!(game.controller.board.num_figures(CheckersColor::White), 12);
    assert_eq!(game.play_turn(), GameState::InProgress);
    assert_eq!(game.current_player, CheckersColor::White);
    assert_eq!(game.controller.board.num_figures(CheckersColor::Black), 12);
    assert_ne!(game.controller.board.occupation, Board::default().occupation);
}

#[test]
fn game_captures_promotes_and_decides() {
    // White's only option takes Black's last man and lands on the far row.
    let board = Board::from_positions(&[(5, 5, WP), (6, 6, BP)]);
    let mut game = Game::new(
        CheckersController::new(board),
        AlphaBetaBot::new(CountEstimator::new(1, 3), 2),
        DummyBot::new(),
    );
    assert_eq!(game.play_turn(), GameState::Decided(CheckersColor::White));
    assert_eq!(game.controller.board.at(7, 7), Some(WQ));
    assert_eq!(game.controller.board.at(6, 6), None);
    assert_eq!(game.controller.board.at(5, 5), None);
    assert_eq!(game.controller.board.flags, 0);
    assert_eq!(game.current_player, CheckersColor::Black);
}

#[test]
fn game_between_bots_comes_to_an_end() {
    let mut game = Game::new(
        CheckersController::new(Board::default()),
        AlphaBetaBot::new(CountEstimator::new(1, 3), 2),
        MinMaxBot::new(CountEstimator::new(1, 3), 2),
    );
    let mut turns = 0;
    let winner = loop {
        match game.play_turn() {
            GameState::Decided(winner) => break winner,
            GameState::InProgress => {
                turns += 1;
                assert!(turns < 2000);
            }
        }
    };
    assert!(winner == CheckersColor::White || winner == CheckersColor::Black);
    let _ = BQ;
}

#[test]
fn a_line_of_input_is_read_as_a_choice() {
    assert_eq!(read_choice("3\n", 5), Choice::Index(3));
    assert_eq!(read_choice("  4  \r\n", 5), Choice::Index(4));
    assert_eq!(read_choice("0", 1), Choice::Index(0));
    assert_eq!(read_choice("+2", 3), Choice::Index(2));
    assert_eq!(read_choice("\n", 5), Choice::Index(0));
    assert_eq!(read_choice("", 5), Choice::Index(0));
    assert_eq!(read_choice("   ", 5), Choice::Index(0));
    assert_eq!(read_choice("5\n", 5), Choice::OutOfRange(5));
    assert_eq!(read_choice("77", 5), Choice::OutOfRange(77));
    assert_eq!(read_choice("abc\n", 5), Choice::Unrecognised);
    assert_eq!(read_choice("-1", 5), Choice::Unrecognised);
    assert_eq!(read_choice("1 2", 5), Choice::Unrecognised);
    assert_eq!(read_choice("99999999999999999999999999", 5), Choice::Unrecognised);
    assert_eq!(decide_choice(true, None, 3), Choice::Index(0));
    assert_eq!(decide_choice(true, Some(9), 3), Choice::Index(0));
    assert_eq!(decide_choice(false, None, 3), Choice::Unrecognised);
    assert_eq!(decide_choice(false, Some(2), 3), Choice::Index(2));
    assert_eq!(decide_choice(false, Some(3), 3), Choice::OutOfRange(3));
}

#[test]
fn run_plays_to_the_end() {
    let mut game = Game::new(
        CheckersController::new(Board::default()),
        DummyBot::new(),
        MinMaxBot::new(CountEstimator::new(1, 3), 2),
    );
    let winner = game.run();
    let position = &game.controller;
    let (captures, moves) = position.options(game.current_player);
    let idle = match game.current_player {
        CheckersColor::White => position.get_white_queen_idle_moves(),
        CheckersColor::Black => position.get_black_queen_idle_moves(),
    };
    let stuck = idle > IDLE_LIMIT || (captures.is_empty() && moves.is_empty());
    if position.board.num_white_figures() == 0 {
        assert!(winner == CheckersColor::Black || stuck);
    } else if position.board.num_black_figures() == 0 {
        assert!(winner == CheckersColor::White || stuck);
    } else {
        assert!(stuck);
        assert_eq!(winner, game.current_player.opposite());
    }
}

#[test]
fn run_ends_at_once_when_a_side_is_stuck() {
    let board = Board::from_positions(&[(0, 0, BP), (4, 4, BP)]);
    let mut game = Game::new(CheckersController::new(board), DummyBot::new(), DummyBot::new());
    assert_eq!(game.run(), CheckersColor::Black);
    assert_eq!(game.current_player, CheckersColor::White);
    assert_eq!(game.controller.board.num_figures(CheckersColor::Black), 2);
}

#[test]
fn best_moves_are_found_without_chance() {
    let board = Board::from_positions(&[(2, 2, WP), (4, 4, BP)]);
    let controller = CheckersController::new(board);
    let (_, white_moves) = controller.options(CheckersColor::White);
    let (_, black_moves) = controller.options(CheckersColor::Black);
    let mut minmax = MinMaxBot::new(CountEstimator::new(1, 3), 2);
    let mut alpha_beta = AlphaBetaBot::new(CountEstimator::new(1, 3), 2);
    assert_eq!(minmax.best_moves(&white_moves, board), vec![0]);
    assert_eq!(alpha_beta.best_moves(&white_moves, board), vec![0]);
    minmax.set_color(CheckersColor::Black);
    alpha_beta.set_color(CheckersColor::Black);
    assert_eq!(minmax.best_moves(&black_moves, board), vec![1]);
    assert_eq!(alpha_beta.best_moves(&black_moves, board), vec![1]);
}

#[test]
fn all_moves_are_best_when_all_are_equal() {
    let board = Board::default();
    let controller = CheckersController::new(board);
    let (_, moves) = controller.options(CheckersColor::White);
    let minmax = MinMaxBot::new(CountEstimator::new(1, 3), 1);
    let alpha_beta = AlphaBetaBot::new(CountEstimator::new(1, 3), 1);
    assert_eq!(minmax.best_moves(&moves, board), vec![0, 1, 2, 3, 4, 5, 6]);
    assert_eq!(alpha_beta.best_moves(&moves, board), vec![0, 1, 2, 3, 4, 5, 6]);
    // With the positional evaluator the moves from a square of weight 1
    // onto one of weight 2, and from weight 2 onto the edge, are best.
    let minmax = MinMaxBot::new(WeightMatrixEstimator::new(weights(), 1, 3), 1);
    assert_eq!(minmax.best_moves(&moves, board), vec![1, 6]);
}

#[test]
fn best_captures_are_found_without_chance() {
    let board =
        Board::from_positions(&[(2, 2, WP), (4, 2, WP), (3, 3, BP), (5, 5, BP), (6, 6, BP)]);
    let controller = CheckersController::new(board);
    let (captures, _) = controller.options(CheckersColor::White);
    let minmax = MinMaxBot::new(CountEstimator::new(1, 3), 2);
    let alpha_beta = AlphaBetaBot::new(CountEstimator::new(1, 3), 2);
    assert_eq!(minmax.best_captures(&captures, board), vec![1]);
    assert_eq!(alpha_beta.best_captures(&captures, board), vec![1]);
    let minmax = MinMaxBot::new(CountEstimator::new(1, 3), 1);
    assert_eq!(minmax.best_captures(&captures, board), vec![0, 1]);
}

#[test]
fn cutoffs_change_no_result() {
    let mut game =
        Game::new(CheckersController::new(Board::default()), DummyBot::new(), DummyBot::new());
    for _ in 0..60 {
        let board = game.controller.board;
        let side = game.current_player;
        let (captures, moves) = game.controller.options(side);
        for depth in [1usize, 2, 3] {
            let mut minmax = MinMaxBot::new(CountEstimator::new(1, 3), depth);
            let mut alpha_beta = AlphaBetaBot::new(CountEstimator::new(1, 3), depth);
            minmax.set_color(side);
            alpha_beta.set_color(side);
            if !captures.is_empty() {
                assert_eq!(
                    minmax.best_captures(&captures, board),
                    alpha_beta.best_captures(&captures, board)
                );
            }
            if !moves.is_empty() {
                assert_eq!(
                    minmax.best_moves(&moves, board),
                    alpha_beta.best_moves(&moves, board)
                );
            }
        }
        if game.play_turn() != GameState::InProgress {
            break;
        }
    }
}

#[test]
fn cutoffs_change_no_result_with_the_positional_evaluator() {
    let mut game =
        Game::new(CheckersController::new(Board::default()), DummyBot::new(), DummyBot::new());
    for _ in 0..40 {
        let board = game.controller.board;
        let side = game.current_player;
        let (captures, moves) = game.controller.options(side);
        let mut minmax = MinMaxBot::new(WeightMatrixEstimator::new(weights(), 1, 3), 3);
        let mut alpha_beta = AlphaBetaBot::new(WeightMatrixEstimator::new(weights(), 1, 3), 3);
        minmax.set_color(side);
        alpha_beta.set_color(side);
        if !captures.is_empty() {
            assert_eq!(
                minmax.best_captures(&captures, board),
                alpha_beta.best_captures(&captures, board)
            );
        }
        if !moves.is_empty() {
            assert_eq!(minmax.best_moves(&moves, board), alpha_beta.best_moves(&moves, board));
        }
        if game.play_turn() != GameState::InProgress {
            break;
        }
    }
}

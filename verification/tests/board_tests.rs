use checkers::board::{alias, Board, coords_from_alias, Square};
use checkers::controller::{CheckersColor, Figure};
use checkers::error::CheckersError;

const WP: Figure = Figure::Pawn(CheckersColor::White);
const WQ: Figure = Figure::Queen(CheckersColor::White);
const BP: Figure = Figure::Pawn(CheckersColor::Black);
const BQ: Figure = Figure::Queen(CheckersColor::Black);

#[test]
fn alias_names_the_corners() {
    assert_eq!(alias(0, 0), "A1");
    assert_eq!(alias(7, 7), "H8");
    assert_eq!(alias(2, 5), "C6");
    assert_eq!(alias(7, 0), "H1");
}

#[test]
fn coords_from_alias_reads_both_cases() {
    assert_eq!(coords_from_alias("A1"), Ok((0, 0)));
    assert_eq!(coords_from_alias("h8"), Ok((7, 7)));
    assert_eq!(coords_from_alias("c6"), Ok((2, 5)));
    assert_eq!(coords_from_alias("H1"), Ok((7, 0)));
}

#[test]
fn coords_from_alias_refuses_bad_text() {
    for text in ["", "A", "A10", "I1", "A9", "A0", "1A", "@1", "i8", "`1", "A:", "é1", "Aé"] {
        assert_eq!(coords_from_alias(text), Err(CheckersError::InvalidAlias));
    }
}

#[test]
fn alias_and_coords_are_inverse() {
    for y in 0..8u8 {
        for x in 0..8u8 {
            let text = alias(x, y);
            assert_eq!(coords_from_alias(&text), Ok((x, y)));
            let lower = text.to_lowercase();
            assert_eq!(coords_from_alias(&lower), Ok((x, y)));
        }
    }
}

#[test]
fn set_then_at_returns_the_piece() {
    for piece in [WP, BP, WQ, BQ] {
        for y in 0..8u8 {
            for x in 0..8u8 {
                let mut board = Board::empty();
                board.set(x, y, Some(piece));
                if x % 2 == y % 2 {
                    assert_eq!(board.at(x, y), Some(piece));
                } else {
                    assert_eq!(board.at(x, y), None);
                }
                board.set(x, y, None);
                assert_eq!(board.at(x, y), None);
            }
        }
    }
}

#[test]
fn set_replaces_and_leaves_other_squares() {
    let mut board = Board::default();
    board.set(2, 2, Some(BQ));
    assert_eq!(board.at(2, 2), Some(BQ));
    assert_eq!(board.at(0, 2), Some(WP));
    assert_eq!(board.at(4, 2), Some(WP));
    board.set(2, 2, Some(WP));
    assert_eq!(board.at(2, 2), Some(WP));
    assert_eq!(board.occupation, Board::default().occupation);
    assert_eq!(board.color, Board::default().color);
    assert_eq!(board.figure, Board::default().figure);
}

#[test]
fn set_on_an_unusable_square_stores_nothing() {
    let mut board = Board::empty();
    board.set(1, 0, Some(WP));
    board.set_flag(1, 0, true);
    assert_eq!(board.occupation, 0);
    assert_eq!(board.color, 0);
    assert_eq!(board.figure, 0);
    assert_eq!(board.flags, 0);
}

#[test]
fn empty_board_has_nothing() {
    let board = Board::empty();
    for y in 0..8u8 {
        for x in 0..8u8 {
            assert_eq!(board.at(x, y), None);
        }
    }
    assert_eq!(board.num_figures(CheckersColor::White), 0);
    assert_eq!(board.num_figures(CheckersColor::Black), 0);
}

#[test]
fn start_layout_has_twelve_men_a_side() {
    let board = Board::default();
    assert_eq!(board.num_pawns(CheckersColor::White), 12);
    assert_eq!(board.num_pawns(CheckersColor::Black), 12);
    assert_eq!(board.num_queens(CheckersColor::White), 0);
    assert_eq!(board.num_queens(CheckersColor::Black), 0);
    assert_eq!(board.num_figures(CheckersColor::White), 12);
    assert_eq!(board.num_figures(CheckersColor::Black), 12);
    assert_eq!(board.num_white_figures(), 12);
    assert_eq!(board.num_black_figures(), 12);
    for y in 0..8u8 {
        for x in 0..8u8 {
            let expected = if x % 2 != y % 2 {
                None
            } else if y <= 2 {
                Some(WP)
            } else if y >= 5 {
                Some(BP)
            } else {
                None
            };
            assert_eq!(board.at(x, y), expected);
        }
    }
}

#[test]
fn counts_tell_sides_and_ranks_apart() {
    let board = Board::from_positions(&[
        (0, 0, WP),
        (2, 0, WP),
        (4, 0, WQ),
        (1, 1, BP),
        (3, 1, BQ),
        (5, 1, BQ),
        (7, 1, BQ),
    ]);
    assert_eq!(board.num_white_pawns(), 2);
    assert_eq!(board.num_white_queens(), 1);
    assert_eq!(board.num_white_figures(), 3);
    assert_eq!(board.num_black_pawns(), 1);
    assert_eq!(board.num_black_queens(), 3);
    assert_eq!(board.num_black_figures(), 4);
    assert_eq!(board.num_pawns(CheckersColor::White), 2);
    assert_eq!(board.num_queens(CheckersColor::White), 1);
    assert_eq!(board.num_figures(CheckersColor::White), 3);
    assert_eq!(board.num_pawns(CheckersColor::Black), 1);
    assert_eq!(board.num_queens(CheckersColor::Black), 3);
    assert_eq!(board.num_figures(CheckersColor::Black), 4);
}

#[test]
fn counts_ignore_the_bits_of_empty_squares() {
    let board = Board { occupation: 0b1, color: 0b110, figure: 0b1010, flags: 0 };
    assert_eq!(board.at(0, 0), Some(WP));
    assert_eq!(board.at(2, 0), None);
    assert_eq!(board.num_white_figures(), 1);
    assert_eq!(board.num_black_figures(), 0);
    assert_eq!(board.num_white_queens(), 0);
    assert_eq!(board.num_black_queens(), 0);
}

#[test]
fn calculate_shift_numbers_the_usable_squares() {
    assert_eq!(Board::calculate_shift(0, 0), 0);
    assert_eq!(Board::calculate_shift(6, 0), 3);
    assert_eq!(Board::calculate_shift(1, 1), 4);
    assert_eq!(Board::calculate_shift(7, 7), 31);
    assert_eq!(Board::calculate_shift(4, 6), 26);
}

#[test]
fn from_positions_lets_the_last_entry_win() {
    let board = Board::from_positions(&[(2, 2, WP), (2, 2, BQ), (3, 2, WP)]);
    assert_eq!(board.at(2, 2), Some(BQ));
    assert_eq!(board.at(3, 2), None);
    assert_eq!(board.num_figures(CheckersColor::White), 0);
    assert_eq!(board.num_figures(CheckersColor::Black), 1);
}

#[test]
fn from_alias_positions_places_by_alias() {
    let board = Board::from_alias_positions(&[("A1", WP), ("c3", WQ), ("H8", BP)]).unwrap();
    assert_eq!(board.at(0, 0), Some(WP));
    assert_eq!(board.at(2, 2), Some(WQ));
    assert_eq!(board.at(7, 7), Some(BP));
    assert_eq!(board.num_figures(CheckersColor::White), 2);
    assert_eq!(board.num_figures(CheckersColor::Black), 1);
    assert_eq!(board.at_alias("C3"), Ok(Some(WQ)));
    assert_eq!(board.at_alias("a1"), Ok(Some(WP)));
    assert_eq!(board.at_alias("E5"), Ok(None));
    assert_eq!(board.at_alias("B1"), Ok(None));
}

#[test]
fn from_alias_positions_refuses_a_bad_alias() {
    let result = Board::from_alias_positions(&[("A1", WP), ("Z3", WQ)]);
    assert_eq!(result.err(), Some(CheckersError::InvalidAlias));
    let board = Board::default();
    assert_eq!(board.at_alias("A9"), Err(CheckersError::InvalidAlias));
    assert_eq!(board.at_alias("A"), Err(CheckersError::InvalidAlias));
}

#[test]
fn from_str_repr_reads_a_grid() {
    let text = "w.W.....\n.b.B....\n\n...x";
    let board = Board::from_str_repr(text, '.', ('w', 'W'), ('b', 'B')).unwrap();
    assert_eq!(board.at(0, 0), Some(WP));
    assert_eq!(board.at(2, 0), Some(WQ));
    assert_eq!(board.at(1, 1), Some(BP));
    assert_eq!(board.at(3, 1), Some(BQ));
    // An unknown symbol stands for a black king.
    assert_eq!(board.at(3, 3), Some(BQ));
    assert_eq!(board.num_figures(CheckersColor::White), 2);
    assert_eq!(board.num_figures(CheckersColor::Black), 3);
}

#[test]
fn from_str_repr_ignores_the_unusable_squares() {
    let board = Board::from_str_repr(".w", '.', ('w', 'W'), ('b', 'B')).unwrap();
    assert_eq!(board.occupation, 0);
    let board = Board::from_str_repr("", '.', ('w', 'W'), ('b', 'B')).unwrap();
    assert_eq!(board.occupation, 0);
    let board = Board::from_str_repr("\n\n\n\n\n\n\n\n\n\n", '.', ('w', 'W'), ('b', 'B')).unwrap();
    assert_eq!(board.occupation, 0);
}

#[test]
fn from_str_repr_refuses_what_is_off_the_board() {
    let wide = Board::from_str_repr(".........", '.', ('w', 'W'), ('b', 'B'));
    assert_eq!(wide.err(), Some(CheckersError::OutOfBounds));
    let tall = Board::from_str_repr("\n\n\n\n\n\n\n\n.", '.', ('w', 'W'), ('b', 'B'));
    assert_eq!(tall.err(), Some(CheckersError::OutOfBounds));
    let full = Board::from_str_repr("........\n........", '.', ('w', 'W'), ('b', 'B'));
    assert!(full.is_ok());
}

#[test]
fn flags_are_set_and_cleared() {
    let mut board = Board::default();
    board.set_flag(2, 2, true);
    board.set_flag(7, 7, true);
    assert_eq!(board.flags, (1 << 9) | (1 << 31));
    assert_eq!(board.at(2, 2), Some(WP));
    board.set_flag(2, 2, false);
    assert_eq!(board.flags, 1 << 31);
    board.set(7, 7, None);
    assert_eq!(board.flags, 1 << 31);
    board.reset_flags();
    assert_eq!(board.flags, 0);
    assert_eq!(board.at(2, 2), Some(WP));
}

#[test]
fn square_holds_a_piece_or_not() {
    let square = Square::new(Some(WP), true);
    assert!(square.has_figure());
    assert!(square.was_jumped_over);
    assert_eq!(square.figure, Some(WP));
    let square = Square::new(None, false);
    assert!(!square.has_figure());
    assert!(!square.was_jumped_over);
}

#[test]
fn figure_bits_and_properties() {
    assert_eq!(WP.bits(), (1, 0, 0, 0));
    assert_eq!(BP.bits(), (1, 1, 0, 0));
    assert_eq!(WQ.bits(), (1, 0, 1, 0));
    assert_eq!(BQ.bits(), (1, 1, 1, 0));
    assert!(WP.is_white() && WQ.is_white());
    assert!(!BP.is_white() && !BQ.is_white());
    assert!(WQ.is_queen() && BQ.is_queen());
    assert!(!WP.is_queen() && !BP.is_queen());
    assert_eq!(WP.color(), CheckersColor::White);
    assert_eq!(BQ.color(), CheckersColor::Black);
    assert_eq!(WP.enemy_color(), CheckersColor::Black);
    assert_eq!(BQ.enemy_color(), CheckersColor::White);
    assert_eq!(CheckersColor::White.opposite(), CheckersColor::Black);
    assert_eq!(CheckersColor::Black.opposite(), CheckersColor::White);
    assert!(CheckersColor::White.is_white());
    assert!(!CheckersColor::Black.is_white());
}

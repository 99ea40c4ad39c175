use takuzu::count::count_empties;
use takuzu::gen_board::{inverse_state, symbol_for, BoardGenerator, BoardState};

fn cells(codes: &[i8]) -> Vec<BoardState> {
    let mut board = Vec::new();
    for code in codes {
        board.push(match code {
            1 => BoardState::PRIMARY,
            2 => BoardState::SECONDARY,
            _ => BoardState::EMPTY,
        });
    }
    board
}

#[test]
fn inverse_state_swaps_the_symbols() {
    assert_eq!(BoardState::SECONDARY, inverse_state(BoardState::PRIMARY));
    assert_eq!(BoardState::PRIMARY, inverse_state(BoardState::SECONDARY));
    assert_eq!(BoardState::EMPTY, inverse_state(BoardState::EMPTY));
}

#[test]
fn nth_empty_finds_the_empty_cells_in_order() {
    let generator = BoardGenerator { size: 2 };
    let board = cells(&[1, 0, 0, 2]);
    assert_eq!(Some(1), generator.nth_empty(&board, 0));
    assert_eq!(Some(2), generator.nth_empty(&board, 1));
    assert_eq!(None, generator.nth_empty(&board, 2));
    assert_eq!(None, generator.nth_empty(&board, usize::MAX));
}

#[test]
fn nth_empty_of_a_full_board_is_none() {
    let generator = BoardGenerator { size: 2 };
    let board = cells(&[1, 2, 2, 1]);
    assert_eq!(None, generator.nth_empty(&board, 0));
}

#[test]
fn count_empties_counts() {
    assert_eq!(0, count_empties(&cells(&[])));
    assert_eq!(2, count_empties(&cells(&[1, 0, 0, 2])));
    assert_eq!(4, count_empties(&cells(&[0, 0, 0, 0])));
}

#[test]
fn a_full_valid_board_counts_one() {
    let generator = BoardGenerator { size: 4 };
    let board = cells(&[
        2, 1, 2, 1, //
        1, 1, 2, 2, //
        2, 2, 1, 1, //
        1, 2, 1, 2, //
    ]);
    assert!(generator.validate_board(&board));
    assert_eq!(1, generator.count_solutions(&board));
}

#[test]
fn a_full_board_counts_one_without_being_validated() {
    let generator = BoardGenerator { size: 2 };
    let board = cells(&[1, 1, 1, 1]);
    assert!(!generator.validate_board(&board));
    assert_eq!(1, generator.count_solutions(&board));
}

#[test]
fn the_blank_board_of_side_two_has_two_completions() {
    let generator = BoardGenerator { size: 2 };
    assert_eq!(2, generator.count_solutions(&cells(&[0, 0, 0, 0])));
    assert_eq!(1, generator.count_solutions(&cells(&[1, 0, 0, 0])));
    assert_eq!(0, generator.count_solutions(&cells(&[1, 1, 0, 0])));
}

#[test]
fn the_blank_board_of_odd_side_has_no_completion() {
    let generator = BoardGenerator { size: 3 };
    assert_eq!(0, generator.count_solutions(&cells(&[0, 0, 0, 0, 0, 0, 0, 0, 0])));
}

#[test]
fn the_count_stops_at_two() {
    let generator = BoardGenerator { size: 4 };
    assert_eq!(2, generator.count_solutions(&cells(&[0; 16])));
}

#[test]
fn a_partial_board_that_breaks_a_rule_counts_none() {
    let generator = BoardGenerator { size: 4 };
    let board = cells(&[
        1, 1, 1, 0, //
        0, 0, 0, 0, //
        0, 0, 0, 0, //
        0, 0, 0, 0, //
    ]);
    assert_eq!(0, generator.count_solutions(&board));
}

#[test]
fn counting_leaves_the_board_as_it_was() {
    let generator = BoardGenerator { size: 4 };
    let board = cells(&[
        0, 1, 2, 0, //
        1, 1, 2, 2, //
        2, 2, 1, 1, //
        0, 2, 1, 0, //
    ]);
    let copy = board.clone();
    generator.count_solutions(&board);
    assert_eq!(copy, board);
}

#[test]
fn a_coin_picks_a_symbol() {
    assert_eq!(BoardState::PRIMARY, symbol_for(true));
    assert_eq!(BoardState::SECONDARY, symbol_for(false));
}

use takuzu::gen_board::{BoardGenerator, BoardState};
use takuzu::grid::copy_board;

fn grid(codes: &[i8]) -> Vec<BoardState> {
    let mut board = Vec::new();
    for code in codes {
        board.push(match code {
            1 => BoardState::PRIMARY,
            2 => BoardState::SECONDARY,
            _ => BoardState::EMPTY,
        });
    }
    board
}

#[test]
fn doubles_force_their_neighbours_in_rows() {
    let generator = BoardGenerator { size: 4 };
    let mut board = grid(&[
        1, 1, 0, 0, //
        0, 2, 2, 0, //
        0, 0, 0, 0, //
        1, 0, 1, 0, //
    ]);
    let mut pruned = false;
    let mut err = false;
    generator.has_doubles(&mut board, true, &mut pruned, &mut err);
    let expected = grid(&[
        1, 1, 2, 0, //
        1, 2, 2, 1, //
        0, 0, 0, 0, //
        1, 0, 1, 0, //
    ]);
    assert_eq!(expected, board);
    assert!(pruned);
    assert!(!err);
}

#[test]
fn doubles_force_their_neighbours_in_columns() {
    let generator = BoardGenerator { size: 4 };
    let mut board = grid(&[
        1, 0, 0, 0, //
        1, 2, 0, 0, //
        0, 2, 0, 0, //
        0, 0, 0, 0, //
    ]);
    let mut pruned = false;
    let mut err = false;
    generator.has_doubles(&mut board, false, &mut pruned, &mut err);
    let expected = grid(&[
        1, 1, 0, 0, //
        1, 2, 0, 0, //
        2, 2, 0, 0, //
        0, 1, 0, 0, //
    ]);
    assert_eq!(expected, board);
    assert!(pruned);
    assert!(!err);
}

#[test]
fn doubles_report_a_run_of_three() {
    let generator = BoardGenerator { size: 4 };
    let mut board = grid(&[
        0, 0, 0, 0, //
        2, 2, 2, 0, //
        0, 0, 0, 0, //
        0, 0, 0, 0, //
    ]);
    let before = board.clone();
    let mut pruned = false;
    let mut err = false;
    generator.has_doubles(&mut board, true, &mut pruned, &mut err);
    assert!(err);
    assert!(!pruned);
    assert_eq!(before, board);
}

#[test]
fn doubles_leave_a_resolved_board_alone() {
    let generator = BoardGenerator { size: 4 };
    let mut board = grid(&[
        2, 1, 1, 2, //
        0, 0, 0, 0, //
        0, 1, 0, 1, //
        0, 0, 0, 0, //
    ]);
    let before = board.clone();
    let mut pruned = false;
    let mut err = false;
    generator.has_doubles(&mut board, true, &mut pruned, &mut err);
    generator.has_doubles(&mut board, false, &mut pruned, &mut err);
    assert_eq!(before, board);
    assert!(!pruned);
    assert!(!err);
}

#[test]
fn a_rule_called_with_the_error_set_does_nothing() {
    let generator = BoardGenerator { size: 4 };
    let mut board = grid(&[
        1, 1, 0, 0, //
        1, 0, 1, 0, //
        0, 0, 0, 0, //
        0, 0, 0, 0, //
    ]);
    let before = board.clone();
    let mut pruned = false;
    let mut err = true;
    generator.has_doubles(&mut board, true, &mut pruned, &mut err);
    generator.has_empty_middles(&mut board, true, &mut pruned, &mut err);
    generator.has_exhausted_states(&mut board, true, &mut pruned, &mut err);
    assert_eq!(before, board);
    assert!(!pruned);
    assert!(err);
}

#[test]
fn a_rule_keeps_the_pruned_flag_that_it_was_given() {
    let generator = BoardGenerator { size: 4 };
    let mut board = grid(&[0; 16]);
    let mut pruned = true;
    let mut err = false;
    generator.has_doubles(&mut board, true, &mut pruned, &mut err);
    generator.has_empty_middles(&mut board, false, &mut pruned, &mut err);
    generator.has_exhausted_states(&mut board, true, &mut pruned, &mut err);
    assert!(pruned);
    assert!(!err);
    assert_eq!(grid(&[0; 16]), board);
}

#[test]
fn empty_middles_are_filled_in_rows_and_columns() {
    let generator = BoardGenerator { size: 4 };
    let mut board = grid(&[
        1, 0, 1, 0, //
        0, 0, 0, 2, //
        0, 0, 0, 0, //
        0, 0, 0, 2, //
    ]);
    let mut pruned = false;
    let mut err = false;
    generator.has_empty_middles(&mut board, true, &mut pruned, &mut err);
    assert_eq!(
        grid(&[
            1, 2, 1, 0, //
            0, 0, 0, 2, //
            0, 0, 0, 0, //
            0, 0, 0, 2, //
        ]),
        board
    );
    generator.has_empty_middles(&mut board, false, &mut pruned, &mut err);
    assert_eq!(
        grid(&[
            1, 2, 1, 0, //
            0, 0, 0, 2, //
            0, 0, 0, 1, //
            0, 0, 0, 2, //
        ]),
        board
    );
    assert!(pruned);
    assert!(!err);
}

#[test]
fn empty_middles_report_a_run_of_three() {
    let generator = BoardGenerator { size: 4 };
    let mut board = grid(&[
        0, 1, 0, 0, //
        0, 1, 0, 0, //
        0, 1, 0, 0, //
        0, 0, 0, 0, //
    ]);
    let mut pruned = false;
    let mut err = false;
    generator.has_empty_middles(&mut board, true, &mut pruned, &mut err);
    assert!(!err);
    generator.has_empty_middles(&mut board, false, &mut pruned, &mut err);
    assert!(err);
    assert!(!pruned);
}

#[test]
fn empty_middles_do_nothing_on_a_board_of_side_two() {
    let generator = BoardGenerator { size: 2 };
    let mut board = grid(&[1, 0, 1, 0]);
    let mut pruned = false;
    let mut err = false;
    generator.has_empty_middles(&mut board, true, &mut pruned, &mut err);
    generator.has_empty_middles(&mut board, false, &mut pruned, &mut err);
    assert_eq!(grid(&[1, 0, 1, 0]), board);
    assert!(!pruned);
    assert!(!err);
}

#[test]
fn exhausted_lines_are_filled_with_the_other_symbol() {
    let generator = BoardGenerator { size: 4 };
    let mut board = grid(&[
        1, 0, 1, 0, //
        0, 2, 0, 2, //
        1, 0, 0, 0, //
        2, 1, 2, 1, //
    ]);
    let mut pruned = false;
    let mut err = false;
    generator.has_exhausted_states(&mut board, true, &mut pruned, &mut err);
    assert_eq!(
        grid(&[
            1, 2, 1, 2, //
            1, 2, 1, 2, //
            1, 0, 0, 0, //
            2, 1, 2, 1, //
        ]),
        board
    );
    assert!(pruned);
    assert!(!err);
}

#[test]
fn exhausted_columns_are_filled_with_the_other_symbol() {
    let generator = BoardGenerator { size: 4 };
    let mut board = grid(&[
        2, 0, 0, 0, //
        0, 0, 0, 0, //
        2, 0, 0, 0, //
        0, 0, 0, 0, //
    ]);
    let mut pruned = false;
    let mut err = false;
    generator.has_exhausted_states(&mut board, false, &mut pruned, &mut err);
    assert_eq!(
        grid(&[
            2, 0, 0, 0, //
            1, 0, 0, 0, //
            2, 0, 0, 0, //
            1, 0, 0, 0, //
        ]),
        board
    );
    assert!(pruned);
    assert!(!err);
}

#[test]
fn a_line_above_its_quota_is_reported() {
    let generator = BoardGenerator { size: 4 };
    let mut board = grid(&[
        0, 0, 0, 0, //
        2, 2, 0, 2, //
        0, 0, 0, 0, //
        0, 0, 0, 0, //
    ]);
    let mut pruned = false;
    let mut err = false;
    generator.has_exhausted_states(&mut board, true, &mut pruned, &mut err);
    assert!(err);
    assert!(!pruned);
}

#[test]
fn propagation_runs_to_the_fixpoint_and_lists_what_it_filled() {
    let generator = BoardGenerator { size: 4 };
    let mut board = grid(&[
        1, 1, 0, 0, //
        0, 0, 0, 0, //
        0, 0, 0, 0, //
        0, 0, 0, 0, //
    ]);
    let (derived, contradiction) = generator.prune_empty_tiles(&mut board);
    assert_eq!(
        grid(&[
            1, 1, 2, 2, //
            0, 0, 0, 0, //
            0, 0, 0, 0, //
            0, 0, 0, 0, //
        ]),
        board
    );
    assert_eq!(vec![2usize, 3], derived);
    assert!(!contradiction);
}

#[test]
fn propagation_works_down_the_columns() {
    let generator = BoardGenerator { size: 4 };
    let mut board = grid(&[
        1, 0, 0, 0, //
        1, 0, 0, 0, //
        0, 0, 0, 0, //
        0, 0, 0, 0, //
    ]);
    let (derived, contradiction) = generator.prune_empty_tiles(&mut board);
    assert_eq!(
        grid(&[
            1, 0, 0, 0, //
            1, 0, 0, 0, //
            2, 0, 0, 0, //
            2, 0, 0, 0, //
        ]),
        board
    );
    assert_eq!(vec![8usize, 12], derived);
    assert!(!contradiction);
}

#[test]
fn propagation_chains_one_deduction_into_the_next() {
    let generator = BoardGenerator { size: 6 };
    let mut board = grid(&[
        1, 1, 0, 1, 0, 0, //
        0, 0, 0, 0, 0, 0, //
        0, 0, 0, 0, 0, 0, //
        0, 0, 0, 0, 0, 0, //
        0, 0, 0, 0, 0, 0, //
        0, 0, 0, 0, 0, 0, //
    ]);
    let (derived, contradiction) = generator.prune_empty_tiles(&mut board);
    assert_eq!(
        grid(&[
            1, 1, 2, 1, 2, 2, //
            0, 0, 0, 0, 0, 0, //
            0, 0, 0, 0, 0, 0, //
            0, 0, 0, 0, 0, 0, //
            0, 0, 0, 0, 0, 0, //
            0, 0, 0, 0, 0, 0, //
        ]),
        board
    );
    assert_eq!(vec![2usize, 4, 5], derived);
    assert!(!contradiction);
}

#[test]
fn propagation_finds_nothing_where_only_uniqueness_decides() {
    let generator = BoardGenerator { size: 4 };
    let start = grid(&[
        0, 1, 2, 0, //
        1, 1, 2, 2, //
        2, 2, 1, 1, //
        0, 2, 1, 0, //
    ]);
    let mut board = copy_board(&start);
    let (derived, contradiction) = generator.prune_empty_tiles(&mut board);
    assert_eq!(start, board);
    assert!(derived.is_empty());
    assert!(!contradiction);
}

#[test]
fn propagation_reports_a_contradiction() {
    let generator = BoardGenerator { size: 4 };
    let mut board = grid(&[
        1, 1, 1, 0, //
        0, 0, 0, 0, //
        0, 0, 0, 0, //
        0, 0, 0, 0, //
    ]);
    let (_, contradiction) = generator.prune_empty_tiles(&mut board);
    assert!(contradiction);
}

#[test]
fn propagation_reports_a_contradiction_that_only_deduction_reveals() {
    let generator = BoardGenerator { size: 4 };
    let start = grid(&[
        1, 1, 0, 0, //
        0, 0, 0, 2, //
        0, 0, 0, 2, //
        0, 0, 0, 0, //
    ]);
    assert!(generator.validate_board(&start));
    let mut board = copy_board(&start);
    let (derived, contradiction) = generator.prune_empty_tiles(&mut board);
    assert!(contradiction);
    assert!(!generator.validate_board(&board));
    assert_eq!(vec![2usize, 3], derived);
    for tile in derived {
        assert_eq!(BoardState::EMPTY, start[tile]);
        assert_ne!(BoardState::EMPTY, board[tile]);
        board[tile] = BoardState::EMPTY;
    }
    assert_eq!(start, board);
}

#[test]
fn emptying_the_derived_tiles_restores_the_board() {
    let generator = BoardGenerator { size: 6 };
    let start = grid(&[
        1, 1, 0, 0, 0, 0, //
        0, 0, 0, 0, 0, 0, //
        0, 0, 0, 0, 2, 0, //
        0, 0, 0, 0, 0, 0, //
        0, 0, 0, 0, 2, 0, //
        0, 0, 0, 0, 0, 0, //
    ]);
    let mut board = copy_board(&start);
    let (derived, contradiction) = generator.prune_empty_tiles(&mut board);
    assert!(!contradiction);
    assert_eq!(vec![2usize, 22], derived);
    assert_eq!(BoardState::SECONDARY, board[2]);
    assert_eq!(BoardState::PRIMARY, board[22]);
    assert!(generator.validate_board(&board));
    let mut changed = Vec::new();
    for tile in 0..36 {
        if board[tile] != start[tile] {
            changed.push(tile);
        }
    }
    assert_eq!(changed, derived);
    let (again, contradiction_again) = generator.prune_empty_tiles(&mut board);
    assert!(again.is_empty());
    assert!(!contradiction_again);
    for tile in derived {
        board[tile] = BoardState::EMPTY;
    }
    assert_eq!(start, board);
}

#[test]
fn copy_board_copies() {
    let board = grid(&[1, 0, 2, 0]);
    assert_eq!(board, copy_board(&board));
    assert_eq!(Vec::<BoardState>::new(), copy_board(&Vec::new()));
}

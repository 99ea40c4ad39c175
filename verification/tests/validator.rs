use takuzu::gen_board::{BoardGenerator, BoardState};

fn to_board(board: &Vec<i8>) -> Vec<BoardState> {
    let mut cells = Vec::new();
    for state in board {
        cells.push(match state {
            1 => BoardState::PRIMARY,
            2 => BoardState::SECONDARY,
            _ => BoardState::EMPTY,
        });
    }
    cells
}

#[test]
fn empty() {
    let validator = BoardGenerator { size: 6 };

    let empty: Vec<i8> = vec![
        0, 0, 0, 0, 0, 0, //
        0, 0, 0, 0, 0, 0, //
        0, 0, 0, 0, 0, 0, //
        0, 0, 0, 0, 0, 0, //
        0, 0, 0, 0, 0, 0, //
        0, 0, 0, 0, 0, 0, //
    ];
    let board = to_board(&empty);

    assert_eq!(true, validator.validate_board(&board));
}

#[test]
fn three_in_a_row() {
    let validator = BoardGenerator { size: 6 };

    let three_row: Vec<i8> = vec![
        1, 1, 1, 0, 0, 0, //
        0, 0, 0, 0, 0, 0, //
        0, 0, 0, 0, 0, 0, //
        0, 0, 0, 0, 0, 0, //
        0, 0, 0, 0, 0, 0, //
        0, 0, 0, 0, 0, 0, //
    ];

    let three_col: Vec<i8> = vec![
        2, 0, 0, 0, 0, 0, //
        2, 0, 0, 0, 0, 0, //
        2, 0, 0, 0, 0, 0, //
        0, 0, 0, 0, 0, 0, //
        0, 0, 0, 0, 0, 0, //
        0, 0, 0, 0, 0, 0, //
    ];
    let board_row = to_board(&three_row);
    let board_col = to_board(&three_col);

    assert_eq!(false, validator.validate_board(&board_row));
    assert_eq!(false, validator.validate_board(&board_col));
}

#[test]
fn too_many_in_row() {
    let validator = BoardGenerator { size: 6 };

    let too_many_in_row: Vec<i8> = vec![
        1, 1, 2, 1, 1, 2, //
        0, 0, 0, 0, 0, 0, //
        0, 0, 0, 0, 0, 0, //
        0, 0, 0, 0, 0, 0, //
        0, 0, 0, 0, 0, 0, //
        0, 0, 0, 0, 0, 0, //
    ];

    let too_many_in_col: Vec<i8> = vec![
        2, 0, 0, 0, 0, 0, //
        2, 0, 0, 0, 0, 0, //
        1, 0, 0, 0, 0, 0, //
        2, 0, 0, 0, 0, 0, //
        2, 0, 0, 0, 0, 0, //
        1, 0, 0, 0, 0, 0, //
    ];
    let board_row = to_board(&too_many_in_row);
    let board_col = to_board(&too_many_in_col);

    assert_eq!(false, validator.validate_board(&board_row));
    assert_eq!(false, validator.validate_board(&board_col));
}

#[test]
fn identicals() {
    let validator = BoardGenerator { size: 6 };

    let same_rows: Vec<i8> = vec![
        2, 2, 1, 1, 2, 1, //
        0, 0, 0, 0, 0, 0, //
        0, 0, 0, 0, 0, 0, //
        2, 2, 1, 2, 1, 1, //
        0, 0, 0, 0, 0, 0, //
        2, 2, 1, 1, 2, 1, //
    ];

    let same_rows_with_empties: Vec<i8> = vec![
        1, 1, 2, 2, 1, 0, //
        0, 0, 0, 0, 0, 0, //
        0, 0, 0, 0, 0, 0, //
        1, 1, 2, 2, 1, 0, //
        0, 0, 0, 0, 0, 0, //
        0, 0, 0, 0, 0, 0, //
    ];

    let same_cols: Vec<i8> = vec![
        1, 1, 0, 1, 0, 0, //
        1, 1, 0, 1, 0, 0, //
        2, 2, 0, 2, 0, 0, //
        2, 1, 0, 2, 0, 0, //
        1, 2, 0, 1, 0, 0, //
        2, 2, 0, 2, 0, 0, //
    ];

    let same_cols_with_empties: Vec<i8> = vec![
        2, 0, 2, 0, 0, 0, //
        2, 0, 2, 0, 0, 0, //
        1, 0, 1, 0, 0, 0, //
        1, 0, 1, 0, 0, 0, //
        2, 0, 2, 0, 0, 0, //
        0, 0, 0, 0, 0, 0, //
    ];

    let board_row = to_board(&same_rows);
    let board_row_with_empties = to_board(&same_rows_with_empties);
    let board_col = to_board(&same_cols);
    let board_col_with_empties = to_board(&same_cols_with_empties);

    assert_eq!(false, validator.validate_board(&board_row));
    assert_eq!(true, validator.validate_board(&board_row_with_empties));
    assert_eq!(false, validator.validate_board(&board_col));
    assert_eq!(true, validator.validate_board(&board_col_with_empties));
}

#[test]
fn valid() {
    let validator = BoardGenerator { size: 6 };

    let valid: Vec<i8> = vec![
        1, 1, 2, 2, 1, 2, //
        1, 1, 2, 1, 2, 2, //
        2, 2, 1, 1, 2, 1, //
        2, 1, 1, 2, 1, 2, //
        1, 2, 2, 1, 2, 1, //
        2, 2, 1, 2, 1, 1, //
    ];
    let board = to_board(&valid);

    assert_eq!(true, validator.validate_board(&board));
}

#[test]
fn many_solutions() {
    let generator = BoardGenerator { size: 4 };
    let two_solutions: Vec<i8> = vec![
        0, 2, 1, 0, //
        1, 1, 2, 2, //
        2, 1, 2, 1, //
        0, 2, 1, 0, //
    ];
    let board = to_board(&two_solutions);
    assert_eq!(2, generator.count_solutions(&board));
}

#[test]
fn one_solutions() {
    let generator = BoardGenerator { size: 4 };
    let two_solutions: Vec<i8> = vec![
        0, 1, 2, 0, //
        1, 1, 2, 2, //
        2, 2, 1, 1, //
        0, 2, 1, 0, //
    ];
    let board = to_board(&two_solutions);
    assert_eq!(1, generator.count_solutions(&board));
}

#[test]
fn no_solutions() {
    let generator = BoardGenerator { size: 4 };
    let two_solutions: Vec<i8> = vec![
        0, 2, 2, 0, //
        0, 0, 0, 0, //
        0, 0, 0, 0, //
        0, 2, 2, 0, //
    ];
    let board = to_board(&two_solutions);
    assert_eq!(0, generator.count_solutions(&board));
}

#[test]
fn validator_accepts_boards_of_side_zero_and_two() {
    assert!(BoardGenerator { size: 0 }.validate_board(&vec![]));
    let two = BoardGenerator { size: 2 };
    assert!(two.validate_board(&to_board(&vec![1, 2, 2, 1])));
    assert!(!two.validate_board(&to_board(&vec![1, 2, 1, 2])));
    assert!(!two.validate_board(&to_board(&vec![1, 1, 0, 0])));
    assert!(two.validate_board(&to_board(&vec![1, 0, 0, 0])));
}

#[test]
fn validator_allows_two_in_a_row_and_exact_quota() {
    let validator = BoardGenerator { size: 6 };
    let board = to_board(&vec![
        1, 1, 2, 1, 2, 2, //
        0, 0, 0, 0, 0, 0, //
        0, 0, 0, 0, 0, 0, //
        0, 0, 0, 0, 0, 0, //
        0, 0, 0, 0, 0, 0, //
        0, 0, 0, 0, 0, 0, //
    ]);
    assert!(validator.validate_board(&board));
}

#[test]
fn validator_rejects_a_run_at_the_end_of_a_line() {
    let validator = BoardGenerator { size: 4 };
    let row = to_board(&vec![
        0, 0, 0, 0, //
        0, 2, 2, 2, //
        0, 0, 0, 0, //
        0, 0, 0, 0, //
    ]);
    let col = to_board(&vec![
        0, 0, 0, 0, //
        0, 0, 0, 1, //
        0, 0, 0, 1, //
        0, 0, 0, 1, //
    ]);
    assert!(!validator.validate_board(&row));
    assert!(!validator.validate_board(&col));
}

#[test]
fn validator_counts_a_run_across_an_empty_cell_as_broken() {
    let validator = BoardGenerator { size: 6 };
    let board = to_board(&vec![
        1, 1, 0, 1, 0, 0, //
        0, 0, 0, 0, 0, 0, //
        0, 0, 0, 0, 0, 0, //
        0, 0, 0, 0, 0, 0, //
        0, 0, 0, 0, 0, 0, //
        0, 0, 0, 0, 0, 0, //
    ]);
    assert!(validator.validate_board(&board));
}

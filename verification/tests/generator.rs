use rand::rngs::StdRng;
use rand::SeedableRng;
use takuzu::gen_board::{inverse_state, tile_code, BoardError, BoardGenerator, BoardState};
use takuzu::grid::copy_board;

fn board_of(codes: &[i8]) -> Vec<BoardState> {
    let mut board = Vec::new();
    for code in codes {
        board.push(match code {
            1 => BoardState::PRIMARY,
            2 => BoardState::SECONDARY,
            _ => BoardState::EMPTY,
        });
    }
    board
}

fn count_in(board: &[BoardState], size: usize, horizontal: bool, line: usize, state: BoardState) -> usize {
    let mut count = 0;
    for j in 0..size {
        let index = if horizontal { line * size + j } else { j * size + line };
        if board[index] == state {
            count += 1;
        }
    }
    count
}

fn assert_solved(board: &[BoardState], size: usize) {
    assert_eq!(size * size, board.len());
    for horizontal in [true, false] {
        for line in 0..size {
            assert_eq!(size / 2, count_in(board, size, horizontal, line, BoardState::PRIMARY));
            assert_eq!(size / 2, count_in(board, size, horizontal, line, BoardState::SECONDARY));
            for j in 0..size - 2 {
                let at = |k: usize| {
                    if horizontal {
                        board[line * size + k]
                    } else {
                        board[k * size + line]
                    }
                };
                assert!(!(at(j) == at(j + 1) && at(j) == at(j + 2)));
            }
            for other in line + 1..size {
                let mut same = true;
                for j in 0..size {
                    let (a, b) = if horizontal {
                        (board[line * size + j], board[other * size + j])
                    } else {
                        (board[j * size + line], board[j * size + other])
                    };
                    if a != b {
                        same = false;
                    }
                }
                assert!(!same);
            }
        }
    }
}

#[test]
fn seeded_search_completes_the_blank_board() {
    for size in [2usize, 4, 6, 8] {
        let generator = BoardGenerator { size };
        let blank = vec![BoardState::EMPTY; size * size];
        for seed in 0..5u64 {
            let mut rng = StdRng::seed_from_u64(seed);
            let solution = generator.gen_seeded_board(&blank, &mut rng).unwrap();
            assert_solved(&solution, size);
            assert!(generator.validate_board(&solution));
        }
    }
}

#[test]
fn seeded_search_keeps_the_given_cells() {
    let generator = BoardGenerator { size: 4 };
    let base = board_of(&[
        0, 1, 2, 0, //
        1, 1, 2, 2, //
        2, 2, 1, 1, //
        0, 2, 1, 0, //
    ]);
    let expected = board_of(&[
        2, 1, 2, 1, //
        1, 1, 2, 2, //
        2, 2, 1, 1, //
        1, 2, 1, 2, //
    ]);
    for seed in 0..20u64 {
        let mut rng = StdRng::seed_from_u64(seed);
        assert_eq!(Ok(copy_board(&expected)), generator.gen_seeded_board(&base, &mut rng));
    }
}

#[test]
fn seeded_search_finds_either_of_two_completions() {
    let generator = BoardGenerator { size: 4 };
    let base = board_of(&[
        0, 2, 1, 0, //
        1, 1, 2, 2, //
        2, 1, 2, 1, //
        0, 2, 1, 0, //
    ]);
    let first = board_of(&[
        1, 2, 1, 2, //
        1, 1, 2, 2, //
        2, 1, 2, 1, //
        2, 2, 1, 1, //
    ]);
    let second = board_of(&[
        2, 2, 1, 1, //
        1, 1, 2, 2, //
        2, 1, 2, 1, //
        1, 2, 1, 2, //
    ]);
    let mut seen_first = false;
    let mut seen_second = false;
    for seed in 0..40u64 {
        let mut rng = StdRng::seed_from_u64(seed);
        let solution = generator.gen_seeded_board(&base, &mut rng).unwrap();
        if solution == first {
            seen_first = true;
        } else {
            assert_eq!(second, solution);
            seen_second = true;
        }
    }
    assert!(seen_first);
    assert!(seen_second);
}

#[test]
fn seeded_search_reports_an_unsatisfiable_board() {
    let generator = BoardGenerator { size: 4 };
    let base = board_of(&[
        0, 2, 2, 0, //
        0, 0, 0, 0, //
        0, 0, 0, 0, //
        0, 2, 2, 0, //
    ]);
    for seed in 0..10u64 {
        let mut rng = StdRng::seed_from_u64(seed);
        assert_eq!(Err(BoardError::UnsatisfiableError), generator.gen_seeded_board(&base, &mut rng));
    }
}

#[test]
fn seeded_search_validates_a_full_board() {
    let generator = BoardGenerator { size: 2 };
    let mut rng = StdRng::seed_from_u64(1);
    let good = board_of(&[1, 2, 2, 1]);
    let bad = board_of(&[1, 1, 2, 2]);
    assert_eq!(Ok(copy_board(&good)), generator.gen_seeded_board(&good, &mut rng));
    assert_eq!(Err(BoardError::UnsatisfiableError), generator.gen_seeded_board(&bad, &mut rng));
}

#[test]
fn seeded_search_fails_on_a_blank_board_of_odd_side() {
    let generator = BoardGenerator { size: 3 };
    let mut rng = StdRng::seed_from_u64(5);
    let blank = vec![BoardState::EMPTY; 9];
    assert_eq!(Err(BoardError::UnsatisfiableError), generator.gen_seeded_board(&blank, &mut rng));
}

#[test]
fn seeded_search_is_repeatable_under_one_seed() {
    let generator = BoardGenerator { size: 6 };
    let blank = vec![BoardState::EMPTY; 36];
    let mut first = StdRng::seed_from_u64(99);
    let mut second = StdRng::seed_from_u64(99);
    assert_eq!(
        generator.gen_seeded_board(&blank, &mut first),
        generator.gen_seeded_board(&blank, &mut second)
    );
}

#[test]
fn the_minimizer_erases_what_propagation_puts_back() {
    let generator = BoardGenerator { size: 2 };
    let mut board = board_of(&[1, 2, 2, 1]);
    generator.prune_unnecessary_tiles(&mut board);
    assert_eq!(board_of(&[0, 0, 0, 1]), board);
}

#[test]
fn the_minimizer_keeps_what_propagation_cannot_derive() {
    let generator = BoardGenerator { size: 4 };
    let start = board_of(&[
        0, 1, 2, 0, //
        1, 0, 0, 2, //
        2, 0, 0, 1, //
        0, 2, 1, 0, //
    ]);
    let mut board = copy_board(&start);
    generator.prune_unnecessary_tiles(&mut board);
    assert_eq!(start, board);
}

#[test]
fn the_minimizer_is_idempotent_on_solved_boards() {
    for size in [2usize, 4, 6] {
        let generator = BoardGenerator { size };
        let blank = vec![BoardState::EMPTY; size * size];
        for seed in 0..8u64 {
            let mut rng = StdRng::seed_from_u64(seed);
            let solution = generator.gen_seeded_board(&blank, &mut rng).unwrap();
            let mut once = copy_board(&solution);
            generator.prune_unnecessary_tiles(&mut once);
            let mut twice = copy_board(&once);
            generator.prune_unnecessary_tiles(&mut twice);
            assert_eq!(once, twice);
            for tile in 0..size * size {
                assert!(once[tile] == BoardState::EMPTY || once[tile] == solution[tile]);
            }
            let mut derived = copy_board(&once);
            let (_, contradiction) = generator.prune_empty_tiles(&mut derived);
            assert!(!contradiction);
            let mut again = StdRng::seed_from_u64(seed + 100);
            assert_eq!(Ok(solution), generator.gen_seeded_board(&once, &mut again));
        }
    }
}

#[test]
fn the_finisher_erases_clues_that_the_rest_implies() {
    let generator = BoardGenerator { size: 4 };
    let solution = board_of(&[
        2, 1, 2, 1, //
        1, 1, 2, 2, //
        2, 2, 1, 1, //
        1, 2, 1, 2, //
    ]);
    for seed in 0..10u64 {
        let mut rng = StdRng::seed_from_u64(seed);
        let mut board = copy_board(&solution);
        generator.prune_implied_tiles(&mut board, &mut rng);
        assert_eq!(1, generator.count_solutions(&board));
        for tile in 0..16 {
            assert!(board[tile] == BoardState::EMPTY || board[tile] == solution[tile]);
            if board[tile] != BoardState::EMPTY {
                let mut inverted = copy_board(&board);
                inverted[tile] = inverse_state(board[tile]);
                assert!(generator.gen_seeded_board(&inverted, &mut rng).is_ok());
                let mut erased = copy_board(&board);
                erased[tile] = BoardState::EMPTY;
                assert_eq!(2, generator.count_solutions(&erased));
            }
        }
    }
}

#[test]
fn the_finisher_visits_the_clues_in_an_order_that_the_seed_decides() {
    let generator = BoardGenerator { size: 4 };
    let solution = board_of(&[
        2, 1, 2, 1, //
        1, 1, 2, 2, //
        2, 2, 1, 1, //
        1, 2, 1, 2, //
    ]);
    let mut results: Vec<Vec<BoardState>> = Vec::new();
    for seed in 0..30u64 {
        let mut rng = StdRng::seed_from_u64(seed);
        let mut board = copy_board(&solution);
        generator.prune_implied_tiles(&mut board, &mut rng);
        if !results.contains(&board) {
            results.push(board);
        }
    }
    assert!(results.len() > 1);
}

#[test]
fn the_finisher_leaves_a_blank_board_blank() {
    let generator = BoardGenerator { size: 4 };
    let mut rng = StdRng::seed_from_u64(3);
    let mut board = vec![BoardState::EMPTY; 16];
    generator.prune_implied_tiles(&mut board, &mut rng);
    assert_eq!(vec![BoardState::EMPTY; 16], board);
}

#[test]
fn generated_pairs_are_solved_and_uniquely_solvable() {
    for size in [2usize, 4, 6] {
        let generator = BoardGenerator { size };
        for seed in 0..6u64 {
            let mut rng = StdRng::seed_from_u64(seed);
            let (puzzle, solution) = generator.gen_board_optimized(&mut rng).unwrap();
            assert_solved(&solution, size);
            assert!(generator.validate_board(&solution));
            assert_eq!(size * size, puzzle.len());
            for tile in 0..size * size {
                assert!(puzzle[tile] == BoardState::EMPTY || puzzle[tile] == solution[tile]);
            }
            assert_eq!(1, generator.count_solutions(&puzzle));
            for again in 0..4u64 {
                let mut other = StdRng::seed_from_u64(1000 + again);
                assert_eq!(Ok(copy_board(&solution)), generator.gen_seeded_board(&puzzle, &mut other));
            }
        }
    }
}

#[test]
fn generated_puzzles_have_no_clue_to_spare() {
    let generator = BoardGenerator { size: 4 };
    for seed in 0..6u64 {
        let mut rng = StdRng::seed_from_u64(seed);
        let (puzzle, _) = generator.gen_board_optimized(&mut rng).unwrap();
        assert!(puzzle.contains(&BoardState::EMPTY));
        for tile in 0..16 {
            if puzzle[tile] != BoardState::EMPTY {
                let mut erased = copy_board(&puzzle);
                erased[tile] = BoardState::EMPTY;
                assert_eq!(2, generator.count_solutions(&erased));
            }
        }
    }
}

#[test]
fn generation_of_side_eight_terminates() {
    let generator = BoardGenerator { size: 8 };
    let mut rng = StdRng::seed_from_u64(7);
    let (puzzle, solution) = generator.gen_board_optimized(&mut rng).unwrap();
    assert_solved(&solution, 8);
    let mut other = StdRng::seed_from_u64(8);
    assert_eq!(Ok(solution), generator.gen_seeded_board(&puzzle, &mut other));
}

#[test]
fn generation_refuses_an_odd_or_small_side() {
    let mut rng = StdRng::seed_from_u64(0);
    for size in [0usize, 1, 3, 5, 7] {
        let generator = BoardGenerator { size };
        assert_eq!(Err(BoardError::ConfigurationError), generator.gen_board_optimized(&mut rng));
        assert_eq!(Err(BoardError::ConfigurationError), generator.gen_board(&mut rng));
    }
}

#[test]
fn counting_generator_gives_a_board_with_one_completion() {
    for size in [2usize, 4, 6] {
        let generator = BoardGenerator { size };
        for seed in 0..4u64 {
            let mut rng = StdRng::seed_from_u64(seed);
            let puzzle = generator.gen_board(&mut rng).unwrap();
            assert_eq!(size * size, puzzle.len());
            assert!(generator.validate_board(&puzzle));
            assert_eq!(1, generator.count_solutions(&puzzle));
            let solution = generator.gen_seeded_board(&puzzle, &mut rng).unwrap();
            assert_solved(&solution, size);
        }
    }
}

#[test]
fn generators_are_repeatable_under_one_seed() {
    let generator = BoardGenerator { size: 6 };
    let mut first = StdRng::seed_from_u64(42);
    let mut second = StdRng::seed_from_u64(42);
    assert_eq!(generator.gen_board_optimized(&mut first), generator.gen_board_optimized(&mut second));
    assert_eq!(generator.gen_board(&mut first), generator.gen_board(&mut second));
}

#[test]
fn tile_codes_are_none_zero_and_one() {
    assert_eq!(None, tile_code(BoardState::EMPTY));
    assert_eq!(Some(0), tile_code(BoardState::PRIMARY));
    assert_eq!(Some(1), tile_code(BoardState::SECONDARY));
}

#[test]
fn the_minimizer_can_erase_more_on_a_board_that_deduction_refutes() {
    let generator = BoardGenerator { size: 4 };
    let start = board_of(&[
        2, 0, 0, 0, //
        0, 1, 0, 2, //
        2, 0, 0, 2, //
        0, 0, 1, 1, //
    ]);
    assert!(generator.validate_board(&start));
    let mut scratch = copy_board(&start);
    let (_, contradiction) = generator.prune_empty_tiles(&mut scratch);
    assert!(contradiction);
    let mut once = copy_board(&start);
    generator.prune_unnecessary_tiles(&mut once);
    assert_eq!(
        board_of(&[
            2, 0, 0, 0, //
            0, 1, 0, 2, //
            2, 0, 0, 2, //
            0, 0, 1, 0, //
        ]),
        once
    );
    let mut twice = copy_board(&once);
    generator.prune_unnecessary_tiles(&mut twice);
    assert_eq!(
        board_of(&[
            2, 0, 0, 0, //
            0, 0, 0, 2, //
            2, 0, 0, 2, //
            0, 0, 1, 0, //
        ]),
        twice
    );
}

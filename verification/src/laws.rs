//! What holds between the parts of the generator: laws that relate the
//! contracts of several functions.

use vstd::prelude::*;
use crate::deduction::{deduced, saturable, saturated};
use crate::gen_board::{generated, BoardError, BoardState};
use crate::grid::{extends, is_full, lemma_extends_trans};
use crate::minimize::{minimized, stage};
use crate::rules::{
    counted, has_two_solutions, is_solution, only_solution, satisfiable, solutions_up_to_two,
    valid_board,
};
use crate::search::search_outcome;

verus! {

/// Solving a generated puzzle again yields its solution.
///
/// Whatever the seeded search returns on the puzzle of a generated pair, it is
/// the solution of that pair: the search cannot fail, and it can find no other
/// board.
pub proof fn lemma_generated_puzzle_resolves(
    n: int,
    puzzle: Seq<BoardState>,
    solution: Seq<BoardState>,
    res: Result<Vec<BoardState>, BoardError>,
)
    requires
        generated(n, puzzle, solution),
        search_outcome(n, puzzle, res),
    ensures
        res matches Ok(again) && again@ == solution,
{
    assert(is_solution(n, puzzle, solution));
}

/// The exhaustive counter finds one completion of a generated puzzle, and no
/// second one.
pub proof fn lemma_generated_puzzle_counts_one(
    n: int,
    puzzle: Seq<BoardState>,
    solution: Seq<BoardState>,
)
    requires
        generated(n, puzzle, solution),
    ensures
        counted(n, puzzle) == 1,
        solutions_up_to_two(n, puzzle) == 1,
{
    if has_two_solutions(n, puzzle) {
        let (s, t) = choose|s: Seq<BoardState>, t: Seq<BoardState>|
            #![trigger is_solution(n, puzzle, s), is_solution(n, puzzle, t)]
            is_solution(n, puzzle, s) && is_solution(n, puzzle, t) && s != t;
        assert(s == solution && t == solution);
    }
}

/// On a completely filled valid board the exhaustive counter returns 1, and
/// rightly so: the board is its own and only valid completion.
pub proof fn lemma_solved_board_counts_one(n: int, board: Seq<BoardState>)
    requires
        board.len() == n * n,
        is_full(board),
        valid_board(n, board),
    ensures
        counted(n, board) == 1,
        only_solution(n, board, board),
        solutions_up_to_two(n, board) == 1,
{
    assert(is_solution(n, board, board));
    assert forall|t: Seq<BoardState>| #[trigger] is_solution(n, board, t) implies t == board by {}
    if has_two_solutions(n, board) {
        let (s, t) = choose|s: Seq<BoardState>, t: Seq<BoardState>|
            #![trigger is_solution(n, board, s), is_solution(n, board, t)]
            is_solution(n, board, s) && is_solution(n, board, t) && s != t;
        assert(s == board && t == board);
    }
}

/// The minimizer is idempotent: run on its own result, it erases nothing more.
///
/// This holds of every board from which deduction meets no contradiction;
/// such is every board that has a valid completion, and so every solved board.
pub proof fn lemma_minimizer_idempotent(
    n: int,
    start: Seq<BoardState>,
    once: Seq<BoardState>,
    twice: Seq<BoardState>,
)
    requires
        start.len() == n * n,
        saturable(n, start),
        minimized(n, start, once),
        minimized(n, once, twice),
    ensures
        twice == once,
{
    assert forall|t: int| 0 <= t < once.len() implies twice[t] == once[t] by {
        if once[t] != BoardState::EMPTY {
            // The first pass kept this clue: deduction from its scratch board
            // meets no contradiction and does not put the symbol back.
            let first = stage(start, once, t).update(t, BoardState::EMPTY);
            let above = choose|c: Seq<BoardState>| extends(start, c) && #[trigger] saturated(n, c);
            assert(extends(first, start));
            lemma_extends_trans(first, start, above);
            let other = choose|c: Seq<BoardState>|
                extends(first, c) && #[trigger] saturated(n, c) && c[t] != once[t];
            // The scratch board of the second pass holds no symbol that the one
            // of the first pass did not hold, so the same goes for it.
            let second = stage(once, twice, t).update(t, BoardState::EMPTY);
            assert(extends(second, first));
            lemma_extends_trans(second, first, other);
            assert(!deduced(n, second, t, once[t]));
        }
    }
}

/// A board that has a valid completion can be saturated.
pub proof fn lemma_satisfiable_is_saturable(n: int, base: Seq<BoardState>)
    requires
        satisfiable(n, base),
    ensures
        saturable(n, base),
{
    if !saturable(n, base) {
        crate::deduction::lemma_unsaturable_unsatisfiable(n, base);
    }
}

} // verus!

//! The cell type, the generator handle and the two puzzle generators.

use rand::rngs::StdRng;
use vstd::prelude::*;
use crate::existence::lemma_blank_is_satisfiable;
use crate::grid::{
    copy_board, count_empty, extends, is_full, lemma_count_empty_full, lemma_count_empty_update,
};
use crate::minimize::every_clue_needed;
use crate::random::random_bool;
use crate::rules::{
    blank, has_one_solution, has_two_solutions, is_solution, lemma_both_refuted,
    lemma_full_valid_is_solved, only_solution, solved,
};

verus! {

/// What a cell of the grid holds: nothing yet, or one of the two symbols.
#[allow(non_camel_case_types)]
#[derive(PartialEq, Eq, Copy, Clone, Debug, Structural)]
pub enum BoardState {
    EMPTY,
    PRIMARY,
    SECONDARY,
}

/// A generator for square boards with `size` cells per side.
///
/// A board is a `Vec<BoardState>` of `size * size` cells in row-major order.
pub struct BoardGenerator {
    pub size: usize,
}

/// Why no board could be produced.
#[derive(PartialEq, Eq, Copy, Clone, Debug, Structural)]
pub enum BoardError {
    /// The side length is odd or below 2.
    ConfigurationError,
    /// The search ran out of choices: the given cells have no valid completion.
    UnsatisfiableError,
}

/// The other symbol; an empty cell stays empty.
pub open spec fn inverse(state: BoardState) -> BoardState {
    match state {
        BoardState::PRIMARY => BoardState::SECONDARY,
        BoardState::SECONDARY => BoardState::PRIMARY,
        BoardState::EMPTY => BoardState::EMPTY,
    }
}

/// Swaps the two symbols and leaves an empty cell empty.
pub fn inverse_state(state: BoardState) -> (res: BoardState)
    ensures
        res == inverse(state),
{
    match state {
        BoardState::PRIMARY => BoardState::SECONDARY,
        BoardState::SECONDARY => BoardState::PRIMARY,
        BoardState::EMPTY => BoardState::EMPTY,
    }
}

/// The symbol that a coin toss picks: the first symbol for `true`, the second
/// for `false`.
pub fn symbol_for(coin: bool) -> (symbol: BoardState)
    ensures
        symbol == if coin {
            BoardState::PRIMARY
        } else {
            BoardState::SECONDARY
        },
{
    if coin {
        BoardState::PRIMARY
    } else {
        BoardState::SECONDARY
    }
}

/// The number under which a cell is shown: none for an empty cell, 0 for the
/// first symbol, 1 for the second.
pub fn tile_code(state: BoardState) -> (code: Option<i32>)
    ensures
        code == match state {
            BoardState::EMPTY => None::<i32>,
            BoardState::PRIMARY => Some(0i32),
            BoardState::SECONDARY => Some(1i32),
        },
{
    match state {
        BoardState::EMPTY => None,
        BoardState::PRIMARY => Some(0),
        BoardState::SECONDARY => Some(1),
    }
}

/// `(puzzle, solution)` is a generated pair of side `n`: the solution is a
/// solved board, the puzzle holds some of its symbols and no other, the
/// solution is the one and only valid completion of the puzzle, and the puzzle
/// has no clue that its other clues imply.
pub open spec fn generated(n: int, puzzle: Seq<BoardState>, solution: Seq<BoardState>) -> bool {
    &&& solved(n, solution)
    &&& extends(puzzle, solution)
    &&& only_solution(n, puzzle, solution)
    &&& every_clue_needed(n, puzzle)
}

impl BoardGenerator {
    /// The side length is even and at least 2.
    pub open spec fn size_ok(&self) -> bool {
        self.size >= 2 && self.size % 2 == 0
    }

    /// A board of this generator without any symbol.
    fn blank_board(&self) -> (board: Vec<BoardState>)
        requires
            self.size * self.size <= usize::MAX,
        ensures
            board@ == blank(self.size as int),
    {
        let cells = self.size * self.size;
        let mut board: Vec<BoardState> = Vec::with_capacity(cells);
        let mut p: usize = 0;
        while p < cells
            invariant
                p <= cells,
                board.len() == p,
                forall|q: int| 0 <= q < p ==> board[q] == BoardState::EMPTY,
            decreases cells - p,
        {
            board.push(BoardState::EMPTY);
            p += 1;
        }
        board
    }

    /// Generates a puzzle and its solution.
    ///
    /// The seeded search completes the blank board to a solution; the minimizer
    /// erases from it the clues that deduction puts back; the finisher erases
    /// the clues whose other symbol leaves no completion. What is left is the
    /// puzzle.
    ///
    /// A side length that is odd or below 2 is refused with
    /// `ConfigurationError`. Every other side length gives a generated pair;
    /// which one depends on the random choices. A search that could not
    /// complete the blank board would be reported as `UnsatisfiableError`; as a
    /// solved board of every even side exists, this does not happen.
    pub fn gen_board_optimized(
        &self,
        rng: &mut StdRng,
    ) -> (res: Result<(Vec<BoardState>, Vec<BoardState>), BoardError>)
        requires
            self.size * self.size <= usize::MAX,
        ensures
            res is Ok <==> self.size_ok(),
            res matches Err(e) ==> e == BoardError::ConfigurationError,
            res matches Ok(pair) ==> generated(self.size as int, pair.0@, pair.1@),
    {
        let ghost n = self.size as int;
        if self.size < 2 || self.size % 2 != 0 {
            return Err(BoardError::ConfigurationError);
        }
        proof {
            lemma_blank_is_satisfiable(n);
        }
        let empty_board = self.blank_board();
        let solution = match self.gen_seeded_board(&empty_board, rng) {
            Ok(solution) => solution,
            Err(_) => {
                return Err(BoardError::UnsatisfiableError);
            },
        };
        let mut board = copy_board(&solution);
        self.prune_unnecessary_tiles(&mut board);
        self.prune_implied_tiles(&mut board, rng);
        proof {
            lemma_full_valid_is_solved(n, solution@);
            assert forall|t: Seq<BoardState>| #[trigger] is_solution(n, board@, t) implies t
                == solution@ by {}
        }
        Ok((board, solution))
    }

    /// Generates a puzzle with exactly one valid completion by counting.
    ///
    /// Starting from the blank board, a random empty cell is given a random
    /// symbol, or the other symbol where the first leaves no completion, until
    /// the exhaustive counter finds that exactly one completion is left.
    ///
    /// A side length that is odd or below 2 is refused with
    /// `ConfigurationError`. Every other side length gives a board with
    /// exactly one valid completion; which one depends on the random choices.
    /// A blank board without a completion would be reported as
    /// `UnsatisfiableError`; as a solved board of every even side exists, this
    /// does not happen.
    pub fn gen_board(&self, rng: &mut StdRng) -> (res: Result<Vec<BoardState>, BoardError>)
        requires
            self.size * self.size <= usize::MAX,
        ensures
            res is Ok <==> self.size_ok(),
            res matches Err(e) ==> e == BoardError::ConfigurationError,
            res matches Ok(puzzle) ==> puzzle@.len() == self.size * self.size && has_one_solution(
                self.size as int,
                puzzle@,
            ),
    {
        let ghost n = self.size as int;
        if self.size < 2 || self.size % 2 != 0 {
            return Err(BoardError::ConfigurationError);
        }
        let mut board = self.blank_board();
        let mut empty_count = crate::count::count_empties(&board);
        let ghost mut fresh = true;
        proof {
            assert(n * n >= 4) by (nonlinear_arith)
                requires
                    n >= 2,
            ;
        }
        loop
            invariant
                n == self.size,
                self.size_ok(),
                board.len() == n * n,
                empty_count == count_empty(board@),
                empty_count > 0,
                fresh ==> board@ == blank(n),
                !fresh ==> has_two_solutions(n, board@),
            decreases empty_count,
        {
            let ghost before = board@;
            let idx = self.random_empty(&board, rng, empty_count);
            let symbol = symbol_for(random_bool(rng));
            board.set(idx, symbol);
            empty_count -= 1;
            proof {
                lemma_count_empty_update(before, idx as int, symbol);
                lemma_count_empty_full(board@);
                lemma_last_cell(n, before, idx as int, symbol);
            }
            let mut solution_count = self.count_solutions(&board);
            if solution_count == 0 {
                // This symbol cannot stand here, so the other one must.
                let other = inverse_state(symbol);
                board.set(idx, other);
                proof {
                    assert(board@ =~= before.update(idx as int, other));
                    lemma_count_empty_update(before, idx as int, other);
                    lemma_last_cell(n, before, idx as int, other);
                }
                solution_count = self.count_solutions(&board);
                if solution_count == 0 {
                    proof {
                        lemma_both_refuted(n, before, idx as int, symbol);
                        if fresh {
                            lemma_blank_is_satisfiable(n);
                        }
                    }
                    return Err(BoardError::UnsatisfiableError);
                }
            }
            if solution_count == 1 {
                proof {
                    if !is_full(board@) {
                        lemma_counted_one(n, board@);
                    }
                }
                return Ok(board);
            }
            // More than one completion is left: another cell is fixed.
            proof {
                fresh = false;
            }
        }
    }
}

/// A board whose completions count as one has exactly one.
proof fn lemma_counted_one(n: int, base: Seq<BoardState>)
    requires
        crate::rules::solutions_up_to_two(n, base) == 1,
    ensures
        has_one_solution(n, base),
{
    let s = choose|s: Seq<BoardState>| is_solution(n, base, s);
    assert(only_solution(n, base, s));
}

/// A board with two completions and one empty cell: whichever symbol is
/// written there, the full board is one of the two, hence valid and its own
/// only completion.
proof fn lemma_last_cell(n: int, before: Seq<BoardState>, idx: int, v: BoardState)
    requires
        before.len() == n * n,
        0 <= idx < before.len(),
        before[idx] == BoardState::EMPTY,
        v == BoardState::PRIMARY || v == BoardState::SECONDARY,
        has_two_solutions(n, before) || (before == blank(n) && n >= 2),
    ensures
        is_full(before.update(idx, v)) ==> has_one_solution(n, before.update(idx, v)),
{
    let board = before.update(idx, v);
    if before == blank(n) && n >= 2 {
        assert(n * n >= 4) by (nonlinear_arith)
            requires
                n >= 2,
        ;
        let p = if idx == 0 {
            1int
        } else {
            0int
        };
        assert(board[p] == BoardState::EMPTY);
    } else if is_full(board) {
        let (s, t) = choose|s: Seq<BoardState>, t: Seq<BoardState>|
            #![trigger is_solution(n, before, s), is_solution(n, before, t)]
            is_solution(n, before, s) && is_solution(n, before, t) && s != t;
        assert forall|p: int| 0 <= p < before.len() && p != idx implies s[p] == board[p] && t[p]
            == board[p] by {}
        assert(s[idx] != t[idx]) by {
            if s[idx] == t[idx] {
                assert(s =~= t);
            }
        }
        if s[idx] == v {
            assert(s =~= board);
        } else {
            assert(t =~= board);
        }
        assert forall|u: Seq<BoardState>| #[trigger] is_solution(n, board, u) implies u == board by {}
        assert(only_solution(n, board, board));
    }
}

} // verus!

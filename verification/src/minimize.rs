//! Taking clues away from a board without changing its completions: the
//! minimizer, which uses deduction alone, and the finisher, which uses search.

use rand::rngs::StdRng;
use vstd::prelude::*;
use crate::deduction::{deduced, lemma_solved_is_saturated, saturable, saturated};
use crate::gen_board::{inverse, inverse_state, BoardGenerator, BoardState};
use crate::grid::{copy_board, extends};
use crate::random::shuffle_tiles;
use crate::rules::{is_solution, lemma_solution_below, lemma_solution_fixes_cell, satisfiable};

verus! {

/// The board of the minimizer when it comes to cell `t`: the cells before `t`
/// are as in `result`, the cells from `t` on are as in `start`.
pub open spec fn stage(start: Seq<BoardState>, result: Seq<BoardState>, t: int) -> Seq<BoardState> {
    Seq::new(
        start.len(),
        |p: int|
            if p < t {
                result[p]
            } else {
                start[p]
            },
    )
}

/// `result` is `start` with symbols taken away and none added.
pub open spec fn only_erased(start: Seq<BoardState>, result: Seq<BoardState>) -> bool {
    &&& result.len() == start.len()
    &&& forall|t: int|
        0 <= t < start.len() ==> #[trigger] result[t] == start[t] || result[t] == BoardState::EMPTY
}

/// `result` is what the minimizer makes of `start`.
///
/// The cells are visited in rising order. A clue is erased exactly if
/// deduction puts its symbol back once the cell is emptied, on the board as it
/// stands when the cell is visited. Where deduction from that board meets a
/// contradiction, the clue may stay or go.
pub open spec fn minimized(n: int, start: Seq<BoardState>, result: Seq<BoardState>) -> bool {
    &&& only_erased(start, result)
    &&& forall|t: int|
        #![trigger result[t]]
        0 <= t < start.len() && saturable(n, stage(start, result, t).update(t, BoardState::EMPTY))
            ==> (result[t] == BoardState::EMPTY <==> start[t] == BoardState::EMPTY || deduced(
            n,
            stage(start, result, t).update(t, BoardState::EMPTY),
            t,
            start[t],
        ))
}

/// `a` and `b` have the same valid completions.
pub open spec fn same_solutions(n: int, a: Seq<BoardState>, b: Seq<BoardState>) -> bool {
    forall|s: Seq<BoardState>|
        #![trigger is_solution(n, a, s)]
        #![trigger is_solution(n, b, s)]
        is_solution(n, a, s) <==> is_solution(n, b, s)
}

/// Every clue of `board` is needed: with the other symbol in its place the
/// board still has a valid completion.
pub open spec fn every_clue_needed(n: int, board: Seq<BoardState>) -> bool {
    forall|t: int|
        0 <= t < board.len() && #[trigger] board[t] != BoardState::EMPTY ==> satisfiable(
            n,
            board.update(t, inverse(board[t])),
        )
}

/// Erasing a clue that deduction puts back, or one whose removal leaves a
/// board on which deduction fails, loses no completion and gains none.
proof fn lemma_erase_deduced(n: int, board: Seq<BoardState>, t: int)
    requires
        board.len() == n * n,
        0 <= t < board.len(),
        !saturable(n, board.update(t, BoardState::EMPTY)) || deduced(
            n,
            board.update(t, BoardState::EMPTY),
            t,
            board[t],
        ),
    ensures
        same_solutions(n, board, board.update(t, BoardState::EMPTY)),
{
    let erased = board.update(t, BoardState::EMPTY);
    assert forall|s: Seq<BoardState>| is_solution(n, board, s) <==> is_solution(n, erased, s) by {
        if is_solution(n, erased, s) {
            lemma_solved_is_saturated(n, s);
            assert forall|p: int| 0 <= p < board.len() && #[trigger] board[p]
                != BoardState::EMPTY implies s[p] == board[p] by {}
        }
    }
}

/// Erasing a clue whose other symbol leaves no completion loses no completion
/// and gains none.
proof fn lemma_erase_refuted(n: int, board: Seq<BoardState>, t: int)
    requires
        board.len() == n * n,
        0 <= t < board.len(),
        !satisfiable(n, board.update(t, inverse(board[t]))),
    ensures
        same_solutions(n, board, board.update(t, BoardState::EMPTY)),
{
    let erased = board.update(t, BoardState::EMPTY);
    assert forall|s: Seq<BoardState>| is_solution(n, board, s) <==> is_solution(n, erased, s) by {
        if is_solution(n, erased, s) {
            lemma_solution_fixes_cell(n, erased, s, t);
            assert(erased.update(t, s[t]) =~= board.update(t, s[t]));
        }
    }
}

/// A board with fewer clues has every completion of a board with more.
proof fn lemma_satisfiable_below(n: int, a: Seq<BoardState>, b: Seq<BoardState>)
    requires
        extends(a, b),
        satisfiable(n, b),
    ensures
        satisfiable(n, a),
{
    let s = choose|s: Seq<BoardState>| is_solution(n, b, s);
    lemma_solution_below(n, a, b, s);
}

/// The positions of the clues of `board`, in rising order.
fn clue_tiles(board: &Vec<BoardState>) -> (tiles: Vec<usize>)
    ensures
        forall|k: int| 0 <= k < tiles.len() ==> (#[trigger] tiles[k]) < board.len(),
        forall|p: int|
            0 <= p < board.len() && #[trigger] board[p] != BoardState::EMPTY ==> tiles@.contains(
                p as usize,
            ),
{
    let mut tiles: Vec<usize> = Vec::new();
    let mut p: usize = 0;
    while p < board.len()
        invariant
            p <= board.len(),
            forall|k: int| 0 <= k < tiles.len() ==> (#[trigger] tiles[k]) < board.len(),
            forall|q: int|
                0 <= q < p && #[trigger] board[q] != BoardState::EMPTY ==> tiles@.contains(q as usize),
        decreases board.len() - p,
    {
        if board[p] != BoardState::EMPTY {
            let ghost earlier = tiles@;
            tiles.push(p);
            proof {
                assert(tiles@[earlier.len() as int] == p);
                assert forall|q: int|
                    0 <= q < p + 1 && #[trigger] board[q] != BoardState::EMPTY implies tiles@.contains(
                    q as usize,
                ) by {
                    if q < p {
                        let k = choose|k: int| 0 <= k < earlier.len() && earlier[k] == q as usize;
                        assert(tiles@[k] == q as usize);
                    }
                }
            }
        }
        p += 1;
    }
    tiles
}

impl BoardGenerator {
    /// Erases every clue whose other symbol leaves no valid completion.
    ///
    /// The clues are visited in random order. Each in turn is replaced by the
    /// other symbol and the seeded search is run on the board as it stands: if
    /// the search fails, the clue follows from the rest and is erased; if it
    /// succeeds, the clue is put back.
    ///
    /// No symbol is added, the board keeps its valid completions, and every
    /// clue that is left is needed. Which clues are left depends on the order.
    pub fn prune_implied_tiles(&self, board: &mut Vec<BoardState>, rng: &mut StdRng)
        requires
            old(board).len() == self.size * self.size,
        ensures
            only_erased(old(board)@, final(board)@),
            same_solutions(self.size as int, old(board)@, final(board)@),
            every_clue_needed(self.size as int, final(board)@),
    {
        let ghost n = self.size as int;
        let ghost start = board@;
        let mut tiles = clue_tiles(board);
        let ghost listed = tiles@;
        shuffle_tiles(&mut tiles, rng);
        proof {
            listed.to_multiset_ensures();
            tiles@.to_multiset_ensures();
            assert forall|k: int| 0 <= k < tiles.len() implies (#[trigger] tiles[k]) < board.len() by {
                assert(listed.to_multiset().count(tiles[k]) > 0);
            }
            assert forall|p: int|
                0 <= p < board.len() && #[trigger] start[p] != BoardState::EMPTY implies tiles@.contains(
                p as usize,
            ) by {
                assert(tiles@.to_multiset().count(p as usize) > 0);
            }
        }
        let mut k: usize = 0;
        while k < tiles.len()
            invariant
                n == self.size,
                start == old(board)@,
                board.len() == n * n,
                k <= tiles.len(),
                forall|j: int| 0 <= j < tiles.len() ==> (#[trigger] tiles[j]) < board.len(),
                forall|p: int|
                    0 <= p < board.len() && #[trigger] start[p] != BoardState::EMPTY
                        ==> tiles@.contains(p as usize),
                only_erased(start, board@),
                same_solutions(n, start, board@),
                forall|j: int|
                    0 <= j < k && board@[(#[trigger] tiles[j]) as int] != BoardState::EMPTY
                        ==> satisfiable(
                        n,
                        board@.update(tiles[j] as int, inverse(board@[tiles[j] as int])),
                    ),
            decreases tiles.len() - k,
        {
            let tile = tiles[k];
            let ghost before = board@;
            let last_state = board[tile];
            board.set(tile, inverse_state(last_state));
            let refuted = self.gen_seeded_board(board, rng).is_err();
            if refuted {
                // No completion holds the other symbol here, so the clue
                // follows from the rest and can go.
                proof {
                    lemma_erase_refuted(n, before, tile as int);
                }
                board.set(tile, BoardState::EMPTY);
                proof {
                    assert forall|j: int|
                        0 <= j < k && board@[(#[trigger] tiles[j]) as int]
                            != BoardState::EMPTY implies satisfiable(
                        n,
                        board@.update(tiles[j] as int, inverse(board@[tiles[j] as int])),
                    ) by {
                        let t = tiles[j] as int;
                        lemma_satisfiable_below(
                            n,
                            board@.update(t, inverse(board@[t])),
                            before.update(t, inverse(before[t])),
                        );
                    }
                }
            } else {
                // Without the clue the board would have a second completion.
                board.set(tile, last_state);
                proof {
                    assert(board@ =~= before);
                }
            }
            k += 1;
        }
        proof {
            assert forall|t: int|
                0 <= t < board.len() && #[trigger] board@[t] != BoardState::EMPTY implies satisfiable(
                n,
                board@.update(t, inverse(board@[t])),
            ) by {
                let j = choose|j: int| 0 <= j < tiles.len() && tiles@[j] == t as usize;
                assert(tiles[j] as int == t);
            }
        }
    }

    /// Erases every clue that the propagation engine alone puts back.
    ///
    /// The cells are visited in rising order. Each clue in turn is taken off a
    /// scratch copy of the board as it stands, the engine is run on the copy,
    /// and the clue is erased for good if the copy then holds its symbol
    /// again. No symbol is added, and the board keeps its valid completions.
    pub fn prune_unnecessary_tiles(&self, board: &mut Vec<BoardState>)
        requires
            old(board).len() == self.size * self.size,
        ensures
            minimized(self.size as int, old(board)@, final(board)@),
            same_solutions(self.size as int, old(board)@, final(board)@),
    {
        let ghost n = self.size as int;
        let ghost start = board@;
        let mut tile: usize = 0;
        while tile < board.len()
            invariant
                n == self.size,
                start == old(board)@,
                board.len() == n * n,
                tile <= board.len(),
                only_erased(start, board@),
                forall|p: int| tile <= p < board.len() ==> #[trigger] board[p] == start[p],
                same_solutions(n, start, board@),
                forall|t: int|
                    #![trigger board@[t]]
                    0 <= t < tile && saturable(
                        n,
                        stage(start, board@, t).update(t, BoardState::EMPTY),
                    ) ==> (board@[t] == BoardState::EMPTY <==> start[t] == BoardState::EMPTY || deduced(
                        n,
                        stage(start, board@, t).update(t, BoardState::EMPTY),
                        t,
                        start[t],
                    )),
            decreases board.len() - tile,
        {
            let ghost before = board@;
            let mut scrap_board = copy_board(board);
            scrap_board.set(tile, BoardState::EMPTY);
            let ghost scrap = scrap_board@;
            let (_, contradiction) = self.prune_empty_tiles(&mut scrap_board);
            proof {
                if !contradiction && before[tile as int] != BoardState::EMPTY {
                    if scrap_board@[tile as int] == before[tile as int] {
                        assert forall|c: Seq<BoardState>|
                            extends(scrap, c) && #[trigger] saturated(n, c) implies c[tile as int]
                            == before[tile as int] by {}
                    }
                }
            }
            if scrap_board[tile] == board[tile] {
                // Propagation has put the symbol back: the clue is redundant.
                proof {
                    if before[tile as int] != BoardState::EMPTY {
                        lemma_erase_deduced(n, before, tile as int);
                    }
                }
                board.set(tile, BoardState::EMPTY);
            }
            proof {
                assert forall|t: int|
                    #![trigger board@[t]]
                    0 <= t < tile + 1 && saturable(
                        n,
                        stage(start, board@, t).update(t, BoardState::EMPTY),
                    ) implies (board@[t] == BoardState::EMPTY <==> start[t] == BoardState::EMPTY
                    || deduced(
                    n,
                    stage(start, board@, t).update(t, BoardState::EMPTY),
                    t,
                    start[t],
                )) by {}
            }
            tile += 1;
        }
    }
}

} // verus!

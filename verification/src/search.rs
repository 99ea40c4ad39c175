//! The seeded search: backtracking over an explicit stack of decisions, with
//! the propagation engine run after every guess.

use rand::rngs::StdRng;
use vstd::pervasive::unreached;
use vstd::prelude::*;
use crate::count::count_empties;
use crate::deduction::{lemma_solved_is_saturated, saturated};
use crate::gen_board::{
    inverse, inverse_state, symbol_for, BoardError, BoardGenerator, BoardState,
};
use crate::grid::{
    copy_board, count_empty, extends, holds_position, lemma_changes_count, lemma_count_empty_bound,
    lemma_count_empty_full, lemma_count_empty_update, lemma_full_extends_eq, lemma_undo, lists_changes,
};
use crate::progress::{lemma_pow4_grows, pow4};
use crate::random::{random_below, random_bool};
use crate::rules::{
    is_solution, lemma_both_refuted, lemma_valid_below, satisfiable,
};

verus! {

/// What the seeded search may return on `base`: a valid completion if there
/// is one, the unsatisfiable error if there is none.
pub open spec fn search_outcome(
    n: int,
    base: Seq<BoardState>,
    res: Result<Vec<BoardState>, BoardError>,
) -> bool {
    match res {
        Ok(solution) => is_solution(n, base, solution@),
        Err(e) => e == BoardError::UnsatisfiableError && !satisfiable(n, base),
    }
}

/// How far the search has come with the cell of a decision.
#[derive(PartialEq, Eq, Copy, Clone, Debug, Structural)]
enum FrameState {
    /// No symbol has been tried.
    Pending,
    /// One symbol has been tried and stands on the board.
    FirstTried,
    /// The first symbol failed and the other one stands on the board.
    Exhausted,
}

/// One decision of the search: the guessed cell, the cells that propagation
/// filled after the guess, and how many symbols have been tried.
///
/// Propagation writes to empty cells only, so the list of the cells that it
/// filled is all that is needed to undo a decision exactly.
struct StackFrame {
    tile: usize,
    derived_tiles: Vec<usize>,
    state: FrameState,
}

/// What a decision still weighs: the symbols left to try, scaled by the size of
/// the search below a board with `e` empty cells.
spec fn weight(state: FrameState, e: nat) -> nat {
    match state {
        FrameState::Pending => 3 * pow4(e),
        FrameState::FirstTried => 2 * pow4(e),
        FrameState::Exhausted => pow4(e),
    }
}

/// The work left to the search; every step of the search lowers it.
spec fn potential(stack: Seq<StackFrame>, levels: Seq<Seq<BoardState>>) -> nat
    decreases stack.len(),
{
    if stack.len() == 0 {
        0
    } else {
        potential(stack.drop_last(), levels) + weight(
            stack.last().state,
            count_empty(levels[stack.len() - 1]),
        )
    }
}

/// `after` is what the decision `frame` made of `before`: nothing yet, or the
/// board with the guess placed and propagated.
spec fn link(n: int, before: Seq<BoardState>, frame: StackFrame, after: Seq<BoardState>) -> bool {
    let tile = frame.tile as int;
    let placed = before.update(tile, after[tile]);
    &&& before.len() == n * n
    &&& after.len() == n * n
    &&& tile < before.len()
    &&& before[tile] == BoardState::EMPTY
    &&& frame.state == FrameState::Pending ==> after == before
    &&& frame.state != FrameState::Pending ==> {
        &&& after[tile] != BoardState::EMPTY
        &&& extends(placed, after)
        &&& lists_changes(frame.derived_tiles@, placed, after)
        &&& satisfiable(n, placed) ==> satisfiable(n, after)
    }
    &&& frame.state == FrameState::Exhausted ==> !satisfiable(
        n,
        before.update(tile, inverse(after[tile])),
    )
}

/// Decision `i` leads from its level to the next, its level keeps the symbols
/// of `base`, and the decision is not pending unless it is the topmost.
spec fn level_ok(
    n: int,
    base: Seq<BoardState>,
    stack: Seq<StackFrame>,
    levels: Seq<Seq<BoardState>>,
    i: int,
) -> bool {
    &&& link(n, levels[i], stack[i], levels[i + 1])
    &&& extends(base, levels[i])
    &&& i + 1 < stack.len() ==> stack[i].state != FrameState::Pending
}

/// The decisions on the stack lead from `base` to `board`. `levels[i]` is the
/// board as it stood before decision `i`; the last level is the board as it
/// stands. Only the topmost decision can be pending.
spec fn chain(
    n: int,
    base: Seq<BoardState>,
    stack: Seq<StackFrame>,
    levels: Seq<Seq<BoardState>>,
    board: Seq<BoardState>,
) -> bool {
    &&& levels.len() == stack.len() + 1
    &&& levels[0] == base
    &&& levels.last() == board
    &&& board.len() == n * n
    &&& base.len() == n * n
    &&& forall|i: int| 0 <= i < stack.len() ==> #[trigger] level_ok(n, base, stack, levels, i)
}

/// What holds between two steps of the search: the chain of decisions, and
/// that a board whose topmost decision has been tried cannot be completed.
spec fn search_inv(
    n: int,
    base: Seq<BoardState>,
    stack: Seq<StackFrame>,
    levels: Seq<Seq<BoardState>>,
    board: Seq<BoardState>,
) -> bool {
    &&& chain(n, base, stack, levels, board)
    &&& stack.len() > 0 && stack.last().state != FrameState::Pending ==> !satisfiable(n, board)
    &&& stack.len() == 0 ==> !satisfiable(n, base)
}

/// Without its topmost decision the chain leads to the board before it.
proof fn lemma_chain_pop(
    n: int,
    base: Seq<BoardState>,
    stack: Seq<StackFrame>,
    levels: Seq<Seq<BoardState>>,
    board: Seq<BoardState>,
)
    requires
        chain(n, base, stack, levels, board),
        stack.len() > 0,
    ensures
        chain(n, base, stack.drop_last(), levels.drop_last(), levels[stack.len() - 1]),
        stack.len() > 1 ==> stack.drop_last().last().state != FrameState::Pending,
        potential(stack.drop_last(), levels.drop_last()) + weight(
            stack.last().state,
            count_empty(levels[stack.len() - 1]),
        ) == potential(stack, levels),
{
    let k = stack.len() as int;
    let stack1 = stack.drop_last();
    let levels1 = levels.drop_last();
    assert forall|i: int| 0 <= i < stack1.len() implies #[trigger] level_ok(
        n,
        base,
        stack1,
        levels1,
        i,
    ) by {
        assert(level_ok(n, base, stack, levels, i));
    }
    if k > 1 {
        assert(level_ok(n, base, stack, levels, k - 2));
    }
    lemma_potential_frame(stack1, levels, levels1);
}

/// With another outcome of its topmost decision the chain leads to that outcome.
proof fn lemma_chain_replace(
    n: int,
    base: Seq<BoardState>,
    stack: Seq<StackFrame>,
    levels: Seq<Seq<BoardState>>,
    board: Seq<BoardState>,
    frame: StackFrame,
    after: Seq<BoardState>,
)
    requires
        chain(n, base, stack, levels, board),
        stack.len() > 0,
        link(n, levels[stack.len() - 1], frame, after),
    ensures
        chain(n, base, stack.drop_last().push(frame), levels.drop_last().push(after), after),
        potential(stack.drop_last().push(frame), levels.drop_last().push(after)) + weight(
            stack.last().state,
            count_empty(levels[stack.len() - 1]),
        ) == potential(stack, levels) + weight(frame.state, count_empty(levels[stack.len() - 1])),
{
    let stack1 = stack.drop_last();
    let stack2 = stack1.push(frame);
    let levels2 = levels.drop_last().push(after);
    assert forall|i: int| 0 <= i < stack2.len() implies #[trigger] level_ok(
        n,
        base,
        stack2,
        levels2,
        i,
    ) by {
        assert(level_ok(n, base, stack, levels, i));
    }
    lemma_potential_push(stack1, levels2, frame);
    lemma_potential_frame(stack1, levels, levels2);
}

/// A pending decision on an empty cell of the board extends the chain.
proof fn lemma_chain_push(
    n: int,
    base: Seq<BoardState>,
    stack: Seq<StackFrame>,
    levels: Seq<Seq<BoardState>>,
    board: Seq<BoardState>,
    next: StackFrame,
)
    requires
        chain(n, base, stack, levels, board),
        stack.len() > 0 ==> stack.last().state != FrameState::Pending,
        extends(base, board),
        next.state == FrameState::Pending,
        next.tile < board.len(),
        board[next.tile as int] == BoardState::EMPTY,
    ensures
        chain(n, base, stack.push(next), levels.push(board), board),
        potential(stack.push(next), levels.push(board)) == potential(stack, levels) + weight(
            FrameState::Pending,
            count_empty(board),
        ),
{
    let stack2 = stack.push(next);
    let levels2 = levels.push(board);
    assert forall|i: int| 0 <= i < stack2.len() implies #[trigger] level_ok(
        n,
        base,
        stack2,
        levels2,
        i,
    ) by {
        if i < stack.len() {
            assert(level_ok(n, base, stack, levels, i));
        }
    }
    lemma_potential_push(stack, levels2, next);
    lemma_potential_frame(stack, levels, levels2);
}

/// What the release of a tried decision gives back: with the derived cells
/// emptied the board holds the guess alone, which cannot be completed.
proof fn lemma_release(
    n: int,
    base: Seq<BoardState>,
    stack: Seq<StackFrame>,
    levels: Seq<Seq<BoardState>>,
    board: Seq<BoardState>,
    cleared: Seq<BoardState>,
)
    requires
        search_inv(n, base, stack, levels, board),
        stack.len() > 0,
        stack.last().state != FrameState::Pending,
        cleared.len() == board.len(),
        forall|p: int|
            0 <= p < board.len() ==> #[trigger] cleared[p] == if holds_position(
                stack.last().derived_tiles@,
                p,
            ) {
                BoardState::EMPTY
            } else {
                board[p]
            },
    ensures
        ({
            let before = levels[stack.len() - 1];
            let tile = stack.last().tile as int;
            &&& 0 <= tile < board.len()
            &&& before.len() == n * n
            &&& before[tile] == BoardState::EMPTY
            &&& board[tile] != BoardState::EMPTY
            &&& cleared == before.update(tile, board[tile])
            &&& cleared.update(tile, BoardState::EMPTY) == before
            &&& count_empty(cleared) == count_empty(board) + stack.last().derived_tiles@.len()
            &&& count_empty(before) == count_empty(cleared) + 1
            &&& count_empty(before) <= board.len()
            &&& extends(base, before)
            &&& !satisfiable(n, cleared)
            &&& stack.last().state == FrameState::Exhausted ==> !satisfiable(n, before)
        }),
{
    let k = stack.len() as int;
    let before = levels[k - 1];
    let frame = stack.last();
    let tile = frame.tile as int;
    assert(level_ok(n, base, stack, levels, k - 1));
    let placed = before.update(tile, board[tile]);
    lemma_undo(frame.derived_tiles@, placed, board, cleared);
    lemma_changes_count(frame.derived_tiles@, placed, board);
    lemma_count_empty_update(before, tile, board[tile]);
    lemma_count_empty_bound(before);
    if frame.state == FrameState::Exhausted {
        lemma_both_refuted(n, before, tile, board[tile]);
    }
}

/// A board that propagation derived from `placed` has every completion of `placed`.
proof fn lemma_propagation_keeps_solutions(
    n: int,
    placed: Seq<BoardState>,
    after: Seq<BoardState>,
)
    requires
        placed.len() == n * n,
        extends(placed, after),
        forall|c: Seq<BoardState>| #[trigger] extends(placed, c) && saturated(n, c) ==> extends(after, c),
    ensures
        satisfiable(n, placed) ==> satisfiable(n, after),
        forall|s: Seq<BoardState>| #[trigger] is_solution(n, placed, s) ==> is_solution(n, after, s),
{
    assert forall|s: Seq<BoardState>| #[trigger] is_solution(n, placed, s) implies is_solution(
        n,
        after,
        s,
    ) by {
        lemma_solved_is_saturated(n, s);
    }
    if satisfiable(n, placed) {
        let s = choose|s: Seq<BoardState>| is_solution(n, placed, s);
    }
}

/// The work left depends on the levels of the decisions alone.
proof fn lemma_potential_frame(
    stack: Seq<StackFrame>,
    l1: Seq<Seq<BoardState>>,
    l2: Seq<Seq<BoardState>>,
)
    requires
        forall|i: int| 0 <= i < stack.len() ==> l1[i] == l2[i],
    ensures
        potential(stack, l1) == potential(stack, l2),
    decreases stack.len(),
{
    if stack.len() > 0 {
        lemma_potential_frame(stack.drop_last(), l1, l2);
    }
}

/// A further decision adds its own weight to the work left.
proof fn lemma_potential_push(
    stack: Seq<StackFrame>,
    levels: Seq<Seq<BoardState>>,
    frame: StackFrame,
)
    ensures
        potential(stack.push(frame), levels) == potential(stack, levels) + weight(
            frame.state,
            count_empty(levels[stack.len() as int]),
        ),
{
    assert(stack.push(frame).drop_last() =~= stack);
}

/// Empties the listed cells of `board`.
fn clear_tiles(board: &mut Vec<BoardState>, tiles: &Vec<usize>)
    requires
        forall|k: int| 0 <= k < tiles.len() ==> (#[trigger] tiles[k]) < old(board).len(),
    ensures
        final(board).len() == old(board).len(),
        forall|p: int|
            0 <= p < old(board).len() ==> #[trigger] final(board)[p] == if holds_position(tiles@, p) {
                BoardState::EMPTY
            } else {
                old(board)[p]
            },
{
    let mut k: usize = 0;
    while k < tiles.len()
        invariant
            k <= tiles.len(),
            board.len() == old(board).len(),
            forall|j: int| 0 <= j < tiles.len() ==> (#[trigger] tiles[j]) < board.len(),
            forall|p: int|
                0 <= p < board.len() ==> #[trigger] board[p] == if holds_position(
                    tiles@.take(k as int),
                    p,
                ) {
                    BoardState::EMPTY
                } else {
                    old(board)[p]
                },
        decreases tiles.len() - k,
    {
        let tile = tiles[k];
        board.set(tile, BoardState::EMPTY);
        assert(tiles@.take(k + 1)[k as int] == tile);
        k += 1;
    }
    assert(tiles@.take(tiles.len() as int) =~= tiles@);
}

impl BoardGenerator {
    /// Picks one of the empty cells of `board` at random.
    pub(crate) fn random_empty(
        &self,
        board: &Vec<BoardState>,
        rng: &mut StdRng,
        empty_count: usize,
    ) -> (p: usize)
        requires
            board.len() == self.size * self.size,
            empty_count == count_empty(board@),
            empty_count > 0,
        ensures
            p < board.len(),
            board[p as int] == BoardState::EMPTY,
    {
        let n = random_below(rng, empty_count);
        match self.nth_empty(board, n) {
            Some(p) => p,
            None => unreached(),
        }
    }

    /// Completes `base_board` to a valid board, or reports that it cannot be done.
    ///
    /// The search guesses the symbol of a random empty cell, lets the
    /// propagation engine fill what follows, and validates; a board that fails
    /// gets the other symbol, and a cell whose two symbols failed is released to
    /// the decision before it. Decisions are kept on an explicit stack.
    ///
    /// The search succeeds exactly when `base_board` has a valid completion,
    /// and then returns one. Which one depends on the random choices.
    pub fn gen_seeded_board(
        &self,
        base_board: &Vec<BoardState>,
        rng: &mut StdRng,
    ) -> (res: Result<Vec<BoardState>, BoardError>)
        requires
            base_board.len() == self.size * self.size,
        ensures
            res.is_ok() <==> satisfiable(self.size as int, base_board@),
            search_outcome(self.size as int, base_board@, res),
    {
        let ghost n = self.size as int;
        let ghost base = base_board@;
        let mut board = copy_board(base_board);
        let mut empty_count = count_empties(base_board);
        if empty_count == 0 {
            proof {
                lemma_count_empty_full(base);
            }
            if self.validate_board(&board) {
                assert(is_solution(n, base, board@));
                return Ok(board);
            }
            proof {
                assert forall|s: Seq<BoardState>| !#[trigger] is_solution(n, base, s) by {
                    if is_solution(n, base, s) {
                        lemma_full_extends_eq(base, s);
                    }
                }
            }
            return Err(BoardError::UnsatisfiableError);
        }
        let first = self.random_empty(&board, rng, empty_count);
        let mut stack: Vec<StackFrame> = Vec::new();
        stack.push(StackFrame { tile: first, derived_tiles: Vec::new(), state: FrameState::Pending });
        let ghost mut levels: Seq<Seq<BoardState>> = seq![base, base];
        loop
            invariant
                n == self.size,
                base == base_board@,
                board.len() == n * n,
                empty_count == count_empty(board@),
                search_inv(n, base, stack@, levels, board@),
            decreases potential(stack@, levels),
        {
            if stack.len() == 0 {
                // Every decision has been released: the given cells cannot be completed.
                return Err(BoardError::UnsatisfiableError);
            }
            let ghost old_stack = stack@;
            let ghost old_levels = levels;
            let ghost old_board = board@;
            let ghost before = levels[stack.len() - 1];
            let frame = stack.pop().unwrap();
            let tile = frame.tile;
            assert(level_ok(n, base, old_stack, old_levels, old_stack.len() - 1));
            if frame.state == FrameState::Exhausted {
                // Both symbols have failed here: the cell and what was derived
                // from it are released, and the decision before it is to blame.
                clear_tiles(&mut board, &frame.derived_tiles);
                proof {
                    lemma_release(n, base, old_stack, old_levels, old_board, board@);
                    lemma_chain_pop(n, base, old_stack, old_levels, old_board);
                    lemma_pow4_grows(count_empty(before), count_empty(before) + 1);
                }
                board.set(tile, BoardState::EMPTY);
                empty_count = empty_count + frame.derived_tiles.len() + 1;
                proof {
                    levels = old_levels.drop_last();
                }
            } else {
                let new_state;
                if frame.state == FrameState::FirstTried {
                    // The first symbol has failed: what was derived from it is
                    // released and the other symbol takes its place.
                    new_state = FrameState::Exhausted;
                    clear_tiles(&mut board, &frame.derived_tiles);
                    proof {
                        lemma_release(n, base, old_stack, old_levels, old_board, board@);
                    }
                    empty_count = empty_count + frame.derived_tiles.len();
                    let tried = board[tile];
                    board.set(tile, inverse_state(tried));
                    proof {
                        lemma_count_empty_update(
                            before.update(tile as int, tried),
                            tile as int,
                            inverse(tried),
                        );
                    }
                } else {
                    // A fresh decision: one of the two symbols, picked at random.
                    new_state = FrameState::FirstTried;
                    let symbol = symbol_for(random_bool(rng));
                    proof {
                        lemma_count_empty_update(before, tile as int, symbol);
                    }
                    empty_count = empty_count - 1;
                    board.set(tile, symbol);
                }
                let ghost placed = board@;
                proof {
                    assert(placed =~= before.update(tile as int, placed[tile as int]));
                }
                let (derived_tiles, contradiction) = self.prune_empty_tiles(&mut board);
                proof {
                    lemma_changes_count(derived_tiles@, placed, board@);
                    lemma_propagation_keeps_solutions(n, placed, board@);
                }
                empty_count = empty_count - derived_tiles.len();
                let new_frame = StackFrame { tile, derived_tiles, state: new_state };
                proof {
                    lemma_chain_replace(n, base, old_stack, old_levels, old_board, new_frame, board@);
                    lemma_pow4_grows(count_empty(before), count_empty(before) + 1);
                    levels = old_levels.drop_last().push(board@);
                }
                stack.push(new_frame);
                if !contradiction && self.validate_board(&board) {
                    if empty_count == 0 {
                        proof {
                            lemma_count_empty_full(board@);
                            assert(is_solution(n, base, board@));
                        }
                        return Ok(board);
                    }
                    // The board may be completed: the next decision is on a
                    // random empty cell.
                    let next = self.random_empty(&board, rng, empty_count);
                    let next_frame = StackFrame {
                        tile: next,
                        derived_tiles: Vec::new(),
                        state: FrameState::Pending,
                    };
                    proof {
                        lemma_chain_push(n, base, stack@, levels, board@, next_frame);
                        lemma_pow4_grows(count_empty(board@), count_empty(before));
                        levels = levels.push(board@);
                    }
                    stack.push(next_frame);
                } else {
                    // A contradiction or a broken rule: nothing valid lies above
                    // this board, and the decision is tried again or released.
                    proof {
                        if satisfiable(n, board@) {
                            let s = choose|s: Seq<BoardState>| is_solution(n, board@, s);
                            lemma_valid_below(n, board@, s);
                        }
                    }
                }
            }
        }
    }
}

} // verus!

//! Finding empty cells and counting the completions of a board exhaustively.

use vstd::prelude::*;
use crate::gen_board::{BoardGenerator, BoardState};
use crate::grid::{
    copy_board, count_empty, extends, is_full, lemma_count_empty_full, lemma_full_extends_eq,
};
use crate::progress::{lemma_pow4_grows, pow4};
use crate::rules::{counted, has_two_solutions, is_solution, lemma_valid_below, valid_board};

verus! {

/// The number of empty cells of `board`.
pub fn count_empties(board: &Vec<BoardState>) -> (count: usize)
    ensures
        count == count_empty(board@),
{
    let mut count: usize = 0;
    let mut p: usize = 0;
    while p < board.len()
        invariant
            p <= board.len(),
            count == count_empty(board@.take(p as int)),
            count <= p,
        decreases board.len() - p,
    {
        assert(board@.take(p + 1).drop_last() =~= board@.take(p as int));
        if board[p] == BoardState::EMPTY {
            count += 1;
        }
        p += 1;
    }
    assert(board@.take(board.len() as int) =~= board@);
    count
}

impl BoardGenerator {
    /// The position of the empty cell that has exactly `n` empty cells before
    /// it, or `None` if the board has no more than `n` empty cells.
    pub fn nth_empty(&self, board: &Vec<BoardState>, n: usize) -> (res: Option<usize>)
        requires
            board.len() == self.size * self.size,
        ensures
            match res {
                Some(p) => p < board.len() && board[p as int] == BoardState::EMPTY && count_empty(
                    board@.take(p as int),
                ) == n,
                None => count_empty(board@) <= n,
            },
    {
        let mut empty_count: usize = 0;
        let mut p: usize = 0;
        while p < board.len()
            invariant
                p <= board.len(),
                empty_count == count_empty(board@.take(p as int)),
                empty_count <= n,
            decreases board.len() - p,
        {
            assert(board@.take(p + 1).drop_last() =~= board@.take(p as int));
            if board[p] == BoardState::EMPTY {
                if empty_count == n {
                    return Some(p);
                }
                empty_count += 1;
            }
            p += 1;
        }
        assert(board@.take(board.len() as int) =~= board@);
        None
    }
}

/// The order in which the counter tries what a cell can hold.
spec fn rank(x: BoardState) -> int {
    match x {
        BoardState::EMPTY => 0,
        BoardState::PRIMARY => 1,
        BoardState::SECONDARY => 2,
    }
}

/// The cell of a stack entry; the mark for a full board stands behind the last cell.
spec fn cell_of(entry: Option<usize>, len: int) -> int {
    match entry {
        Some(p) => p as int,
        None => len,
    }
}

/// No cell before `e` is empty.
spec fn filled_before(board: Seq<BoardState>, e: int) -> bool {
    forall|p: int| 0 <= p < e ==> #[trigger] board[p] != BoardState::EMPTY
}

/// `p` is the cell of some stack entry.
spec fn on_stack(stack: Seq<Option<usize>>, p: int) -> bool {
    exists|i: int| 0 <= i < stack.len() && (#[trigger] stack[i]) is Some && cell_of(stack[i], 0) == p
}

/// Entry `i` is a cell that `base` leaves empty, with no empty cell before it,
/// and filled unless it is the topmost; or it is the topmost and marks a board
/// that is full and valid.
spec fn entry_ok(
    n: int,
    base: Seq<BoardState>,
    stack: Seq<Option<usize>>,
    board: Seq<BoardState>,
    i: int,
) -> bool {
    match stack[i] {
        Some(e) => {
            &&& e < board.len()
            &&& base[e as int] == BoardState::EMPTY
            &&& i + 1 < stack.len() ==> board[e as int] != BoardState::EMPTY
            &&& filled_before(board, e as int)
        },
        None => i == stack.len() - 1 && is_full(board) && valid_board(n, board),
    }
}

/// The stack holds, in rising order, cells that `base` leaves empty; each was
/// the first empty cell when it was entered, and all but the topmost are
/// filled. Off the stack the board is `base`.
spec fn walk(
    n: int,
    base: Seq<BoardState>,
    stack: Seq<Option<usize>>,
    board: Seq<BoardState>,
) -> bool {
    &&& board.len() == n * n
    &&& base.len() == n * n
    &&& forall|i: int| 0 <= i < stack.len() ==> #[trigger] entry_ok(n, base, stack, board, i)
    &&& forall|i: int, j: int|
        0 <= i < j < stack.len() ==> cell_of(#[trigger] stack[i], n * n) < cell_of(
            #[trigger] stack[j],
            n * n,
        )
    &&& forall|p: int|
        0 <= p < board.len() && !on_stack(stack, p) ==> #[trigger] board[p] == base[p]
}

/// `s` and the board hold the same at the cell of entry `j`.
spec fn cell_agrees(
    stack: Seq<Option<usize>>,
    board: Seq<BoardState>,
    s: Seq<BoardState>,
    j: int,
) -> bool {
    stack[j] is Some && s[cell_of(stack[j], 0)] == board[cell_of(stack[j], 0)]
}

/// `s` and the board hold the same at the cells of the first `i` entries.
spec fn agrees(
    stack: Seq<Option<usize>>,
    board: Seq<BoardState>,
    s: Seq<BoardState>,
    i: int,
) -> bool {
    forall|j: int| 0 <= j < i ==> #[trigger] cell_agrees(stack, board, s, j)
}

/// `s` leaves the path of the board at entry `i`, towards what is still to be tried.
spec fn pending_at(
    stack: Seq<Option<usize>>,
    board: Seq<BoardState>,
    s: Seq<BoardState>,
    i: int,
) -> bool {
    &&& agrees(stack, board, s, i)
    &&& match stack[i] {
        Some(e) => rank(s[e as int]) > rank(board[e as int]),
        None => s == board,
    }
}

/// The counter has yet to come to the board `s`.
spec fn pending(stack: Seq<Option<usize>>, board: Seq<BoardState>, s: Seq<BoardState>) -> bool {
    exists|i: int| 0 <= i < stack.len() && #[trigger] pending_at(stack, board, s, i)
}

/// What the counter has found so far accounts for every completion that it
/// has passed: a completion is still to come, or it is the one found.
spec fn cover(
    n: int,
    base: Seq<BoardState>,
    stack: Seq<Option<usize>>,
    board: Seq<BoardState>,
    solutions: int,
    found: Seq<BoardState>,
) -> bool {
    &&& 0 <= solutions <= 1
    &&& solutions == 1 ==> is_solution(n, base, found) && !pending(stack, board, found)
    &&& forall|s: Seq<BoardState>| #[trigger]
        is_solution(n, base, s) ==> pending(stack, board, s) || (solutions == 1 && s == found)
}

/// What an entry still weighs: the symbols left to try at its cell, scaled by
/// the cells that follow it.
spec fn entry_weight(entry: Option<usize>, board: Seq<BoardState>) -> nat {
    match entry {
        Some(e) => {
            let w = pow4((board.len() - e) as nat);
            match board[e as int] {
                BoardState::EMPTY => 3 * w,
                BoardState::PRIMARY => 2 * w,
                BoardState::SECONDARY => w,
            }
        },
        None => 1,
    }
}

/// The work left to the counter; every step lowers it.
spec fn count_potential(stack: Seq<Option<usize>>, board: Seq<BoardState>) -> nat
    decreases stack.len(),
{
    if stack.len() == 0 {
        0
    } else {
        count_potential(stack.drop_last(), board) + entry_weight(stack.last(), board)
    }
}

/// The work left depends on the board at the cells of the stack alone.
proof fn lemma_count_potential_frame(
    stack: Seq<Option<usize>>,
    b1: Seq<BoardState>,
    b2: Seq<BoardState>,
)
    requires
        b1.len() == b2.len(),
        forall|i: int|
            0 <= i < stack.len() && (#[trigger] stack[i]) is Some ==> b1[cell_of(stack[i], 0)]
                == b2[cell_of(stack[i], 0)],
    ensures
        count_potential(stack, b1) == count_potential(stack, b2),
    decreases stack.len(),
{
    if stack.len() > 0 {
        let rest = stack.drop_last();
        lemma_count_potential_frame(rest, b1, b2);
    }
}

/// Whether `s` is pending at an entry depends on the entries up to it and on
/// the board at their cells alone.
proof fn lemma_pending_at_frame(
    stack1: Seq<Option<usize>>,
    board1: Seq<BoardState>,
    stack2: Seq<Option<usize>>,
    board2: Seq<BoardState>,
    s: Seq<BoardState>,
    i: int,
)
    requires
        0 <= i < stack1.len(),
        i < stack2.len(),
        forall|j: int| 0 <= j <= i ==> #[trigger] stack1[j] == stack2[j],
        forall|j: int|
            0 <= j <= i && (#[trigger] stack1[j]) is Some ==> board1[cell_of(stack1[j], 0)]
                == board2[cell_of(stack1[j], 0)],
        stack1[i] is None ==> board1 == board2,
    ensures
        pending_at(stack1, board1, s, i) == pending_at(stack2, board2, s, i),
{
    if agrees(stack1, board1, s, i) {
        assert forall|j: int| 0 <= j < i implies #[trigger] cell_agrees(stack2, board2, s, j) by {
            assert(cell_agrees(stack1, board1, s, j));
        }
    }
    if agrees(stack2, board2, s, i) {
        assert forall|j: int| 0 <= j < i implies #[trigger] cell_agrees(stack1, board1, s, j) by {
            assert(cell_agrees(stack2, board2, s, j));
        }
    }
}

/// The board keeps the symbols of `base`.
proof fn lemma_walk_extends(
    n: int,
    base: Seq<BoardState>,
    stack: Seq<Option<usize>>,
    board: Seq<BoardState>,
)
    requires
        walk(n, base, stack, board),
    ensures
        extends(base, board),
{
    assert forall|p: int| 0 <= p < base.len() && #[trigger] base[p] != BoardState::EMPTY implies board[p]
        == base[p] by {
        if on_stack(stack, p) {
            let i = choose|i: int|
                0 <= i < stack.len() && (#[trigger] stack[i]) is Some && cell_of(stack[i], 0) == p;
            assert(entry_ok(n, base, stack, board, i));
        }
    }
}

/// A completion of `base` that holds what the board holds at every stack cell
/// is a completion of the board.
proof fn lemma_agreeing_extends(
    n: int,
    base: Seq<BoardState>,
    stack: Seq<Option<usize>>,
    board: Seq<BoardState>,
    s: Seq<BoardState>,
)
    requires
        walk(n, base, stack, board),
        is_solution(n, base, s),
        agrees(stack, board, s, stack.len() as int),
    ensures
        extends(board, s),
{
    assert forall|p: int| 0 <= p < board.len() && #[trigger] board[p] != BoardState::EMPTY implies s[p]
        == board[p] by {
        if on_stack(stack, p) {
            let i = choose|i: int|
                0 <= i < stack.len() && (#[trigger] stack[i]) is Some && cell_of(stack[i], 0) == p;
            assert(cell_agrees(stack, board, s, i));
        }
    }
}

/// The counter is at a full valid board: it is a completion, and none that was
/// found before.
proof fn lemma_found(
    n: int,
    base: Seq<BoardState>,
    stack: Seq<Option<usize>>,
    board: Seq<BoardState>,
    solutions: int,
    found: Seq<BoardState>,
)
    requires
        walk(n, base, stack, board),
        cover(n, base, stack, board, solutions, found),
        stack.len() > 0,
        stack.last() is None,
    ensures
        is_solution(n, base, board),
        solutions == 1 ==> is_solution(n, base, found) && found != board,
        walk(n, base, stack.drop_last(), board),
        solutions == 0 ==> cover(n, base, stack.drop_last(), board, 1, board),
        count_potential(stack.drop_last(), board) + 1 == count_potential(stack, board),
{
    let k = stack.len() as int;
    let rest = stack.drop_last();
    assert(entry_ok(n, base, stack, board, k - 1));
    lemma_walk_extends(n, base, stack, board);
    assert(pending_at(stack, board, board, k - 1));
    assert forall|i: int| 0 <= i < rest.len() implies #[trigger] entry_ok(n, base, rest, board, i) by {
        assert(entry_ok(n, base, stack, board, i));
    }
    assert forall|i: int, j: int| 0 <= i < j < rest.len() implies cell_of(#[trigger] rest[i], n * n)
        < cell_of(#[trigger] rest[j], n * n) by {}
    assert forall|p: int| 0 <= p < board.len() && !on_stack(rest, p) implies #[trigger] board[p]
        == base[p] by {
        if on_stack(stack, p) {
            let i = choose|i: int|
                0 <= i < stack.len() && (#[trigger] stack[i]) is Some && cell_of(stack[i], 0) == p;
            assert(rest[i] == stack[i]);
        }
    }
    if solutions == 0 {
        assert forall|s: Seq<BoardState>| #[trigger] is_solution(n, base, s) implies pending(
            rest,
            board,
            s,
        ) || s == board by {
            let i = choose|i: int| 0 <= i < stack.len() && #[trigger] pending_at(stack, board, s, i);
            if i < k - 1 {
                lemma_pending_at_frame(stack, board, rest, board, s, i);
            }
        }
    }
}

/// Both symbols have been tried at the topmost cell: the counter empties it and
/// steps back.
proof fn lemma_backtrack(
    n: int,
    base: Seq<BoardState>,
    stack: Seq<Option<usize>>,
    board: Seq<BoardState>,
    solutions: int,
    found: Seq<BoardState>,
    e: usize,
)
    requires
        walk(n, base, stack, board),
        cover(n, base, stack, board, solutions, found),
        stack.len() > 0,
        stack.last() == Some(e),
        board[e as int] == BoardState::SECONDARY,
    ensures
        walk(n, base, stack.drop_last(), board.update(e as int, BoardState::EMPTY)),
        cover(
            n,
            base,
            stack.drop_last(),
            board.update(e as int, BoardState::EMPTY),
            solutions,
            found,
        ),
        count_potential(stack.drop_last(), board.update(e as int, BoardState::EMPTY))
            < count_potential(stack, board),
{
    let k = stack.len() as int;
    let rest = stack.drop_last();
    let board2 = board.update(e as int, BoardState::EMPTY);
    assert(entry_ok(n, base, stack, board, k - 1));
    assert forall|i: int| 0 <= i < rest.len() implies #[trigger] entry_ok(n, base, rest, board2, i) by {
        assert(entry_ok(n, base, stack, board, i));
    }
    assert forall|i: int, j: int| 0 <= i < j < rest.len() implies cell_of(#[trigger] rest[i], n * n)
        < cell_of(#[trigger] rest[j], n * n) by {}
    assert forall|p: int| 0 <= p < board2.len() && !on_stack(rest, p) implies #[trigger] board2[p]
        == base[p] by {
        if p != e as int {
            if on_stack(stack, p) {
                let i = choose|i: int|
                    0 <= i < stack.len() && (#[trigger] stack[i]) is Some && cell_of(stack[i], 0) == p;
                assert(rest[i] == stack[i]);
            }
        }
    }
    assert forall|s: Seq<BoardState>, i: int| 0 <= i < rest.len() implies pending_at(
        stack,
        board,
        s,
        i,
    ) == #[trigger] pending_at(rest, board2, s, i) by {
        lemma_pending_at_frame(stack, board, rest, board2, s, i);
    }
    assert forall|s: Seq<BoardState>| #[trigger] is_solution(n, base, s) implies pending(
        rest,
        board2,
        s,
    ) || (solutions == 1 && s == found) by {
        if pending(stack, board, s) {
            let i = choose|i: int| 0 <= i < stack.len() && #[trigger] pending_at(stack, board, s, i);
            assert(pending_at(rest, board2, s, i));
        }
    }
    lemma_count_potential_frame(rest, board, board2);
    lemma_pow4_grows((board.len() - e) as nat, (board.len() - e + 1) as nat);
}

/// As [`cover`], while the counter stands at a board whose topmost cell has
/// just been given a symbol: a completion may also lie below this board.
spec fn cover_open(
    n: int,
    base: Seq<BoardState>,
    stack: Seq<Option<usize>>,
    board: Seq<BoardState>,
    solutions: int,
    found: Seq<BoardState>,
) -> bool {
    &&& 0 <= solutions <= 1
    &&& solutions == 1 ==> is_solution(n, base, found) && !pending(stack, board, found) && !agrees(
        stack,
        board,
        found,
        stack.len() as int,
    )
    &&& forall|s: Seq<BoardState>| #[trigger]
        is_solution(n, base, s) ==> pending(stack, board, s) || (solutions == 1 && s == found)
            || agrees(stack, board, s, stack.len() as int)
}

/// The counter writes the next symbol at the topmost cell.
proof fn lemma_advance(
    n: int,
    base: Seq<BoardState>,
    stack: Seq<Option<usize>>,
    board: Seq<BoardState>,
    solutions: int,
    found: Seq<BoardState>,
    e: usize,
    v: BoardState,
)
    requires
        walk(n, base, stack, board),
        cover(n, base, stack, board, solutions, found),
        stack.len() > 0,
        stack.last() == Some(e),
        rank(v) == rank(board[e as int]) + 1,
    ensures
        walk(n, base, stack, board.update(e as int, v)),
        cover_open(n, base, stack, board.update(e as int, v), solutions, found),
        count_potential(stack, board.update(e as int, v)) + pow4((board.len() - e) as nat)
            == count_potential(stack, board),
        forall|i: int| 0 <= i < stack.len() ==> (#[trigger] stack[i]) is Some,
{
    let k = stack.len() as int;
    let rest = stack.drop_last();
    let board2 = board.update(e as int, v);
    assert(entry_ok(n, base, stack, board, k - 1));
    assert forall|i: int| 0 <= i < stack.len() implies #[trigger] entry_ok(n, base, stack, board2, i) by {
        assert(entry_ok(n, base, stack, board, i));
    }
    assert forall|p: int| 0 <= p < board2.len() && !on_stack(stack, p) implies #[trigger] board2[p]
        == base[p] by {}
    assert forall|s: Seq<BoardState>, i: int| 0 <= i < k - 1 implies pending_at(stack, board, s, i)
        == #[trigger] pending_at(stack, board2, s, i) by {
        lemma_pending_at_frame(stack, board, stack, board2, s, i);
    }
    let below = k - 1;
    assert forall|s: Seq<BoardState>| #[trigger] agrees(stack, board, s, below) == agrees(
        stack,
        board2,
        s,
        below,
    ) by {
        if agrees(stack, board, s, k - 1) {
            assert forall|j: int| 0 <= j < k - 1 implies #[trigger] cell_agrees(stack, board2, s, j) by {
                assert(cell_agrees(stack, board, s, j));
            }
        }
        if agrees(stack, board2, s, k - 1) {
            assert forall|j: int| 0 <= j < k - 1 implies #[trigger] cell_agrees(stack, board, s, j) by {
                assert(cell_agrees(stack, board2, s, j));
            }
        }
    }
    if solutions == 1 {
        assert forall|i: int| 0 <= i < stack.len() implies !#[trigger] pending_at(
            stack,
            board2,
            found,
            i,
        ) by {
            assert(!pending_at(stack, board, found, i));
        }
        if agrees(stack, board2, found, k) {
            assert(cell_agrees(stack, board2, found, k - 1));
            assert(pending_at(stack, board, found, k - 1));
        }
    }
    assert forall|s: Seq<BoardState>| #[trigger] is_solution(n, base, s) implies pending(
        stack,
        board2,
        s,
    ) || (solutions == 1 && s == found) || agrees(stack, board2, s, k) by {
        if pending(stack, board, s) {
            let i = choose|i: int| 0 <= i < stack.len() && #[trigger] pending_at(stack, board, s, i);
            if i < k - 1 {
                assert(pending_at(stack, board2, s, i));
            } else {
                if rank(s[e as int]) > rank(v) {
                    assert(pending_at(stack, board2, s, k - 1));
                }
            }
        }
    }
    lemma_count_potential_frame(rest, board, board2);
}

/// The board below the topmost cell breaks a rule: no completion lies below it.
proof fn lemma_dead_end(
    n: int,
    base: Seq<BoardState>,
    stack: Seq<Option<usize>>,
    board: Seq<BoardState>,
    solutions: int,
    found: Seq<BoardState>,
)
    requires
        walk(n, base, stack, board),
        cover_open(n, base, stack, board, solutions, found),
        !valid_board(n, board),
    ensures
        cover(n, base, stack, board, solutions, found),
{
    assert forall|s: Seq<BoardState>| #[trigger] is_solution(n, base, s) implies pending(
        stack,
        board,
        s,
    ) || (solutions == 1 && s == found) by {
        if agrees(stack, board, s, stack.len() as int) {
            lemma_agreeing_extends(n, base, stack, board, s);
            lemma_valid_below(n, board, s);
        }
    }
}

/// The board is valid and `next` is its first empty cell: the counter enters it.
proof fn lemma_descend(
    n: int,
    base: Seq<BoardState>,
    stack: Seq<Option<usize>>,
    board: Seq<BoardState>,
    solutions: int,
    found: Seq<BoardState>,
    next: usize,
)
    requires
        walk(n, base, stack, board),
        cover_open(n, base, stack, board, solutions, found),
        stack.len() > 0,
        stack.last() is Some,
        board[cell_of(stack.last(), 0)] != BoardState::EMPTY,
        next < board.len(),
        board[next as int] == BoardState::EMPTY,
        filled_before(board, next as int),
    ensures
        walk(n, base, stack.push(Some(next)), board),
        cover(n, base, stack.push(Some(next)), board, solutions, found),
        count_potential(stack.push(Some(next)), board) == count_potential(stack, board) + 3 * pow4(
            (board.len() - next) as nat,
        ),
        cell_of(stack.last(), 0) < next,
{
    let k = stack.len() as int;
    let stack2 = stack.push(Some(next));
    assert(entry_ok(n, base, stack, board, k - 1));
    assert forall|i: int| 0 <= i < k implies (#[trigger] stack[i]) is Some && cell_of(stack[i], 0)
        < next && board[cell_of(stack[i], 0)] != BoardState::EMPTY by {}
    assert forall|i: int| 0 <= i < stack2.len() implies #[trigger] entry_ok(n, base, stack2, board, i) by {
        if i < k {
            assert(entry_ok(n, base, stack, board, i));
        }
    }
    assert forall|p: int| 0 <= p < board.len() && !on_stack(stack2, p) implies #[trigger] board[p]
        == base[p] by {
        if on_stack(stack, p) {
            let i = choose|i: int|
                0 <= i < stack.len() && (#[trigger] stack[i]) is Some && cell_of(stack[i], 0) == p;
            assert(stack2[i] == stack[i]);
        }
    }
    assert forall|s: Seq<BoardState>, i: int| 0 <= i < k implies pending_at(stack, board, s, i)
        == #[trigger] pending_at(stack2, board, s, i) by {
        lemma_pending_at_frame(stack, board, stack2, board, s, i);
    }
    assert forall|s: Seq<BoardState>| #[trigger] agrees(stack, board, s, k) == agrees(stack2, board, s, k) by {
        if agrees(stack, board, s, k) {
            assert forall|j: int| 0 <= j < k implies #[trigger] cell_agrees(stack2, board, s, j) by {
                assert(cell_agrees(stack, board, s, j));
            }
        }
        if agrees(stack2, board, s, k) {
            assert forall|j: int| 0 <= j < k implies #[trigger] cell_agrees(stack, board, s, j) by {
                assert(cell_agrees(stack2, board, s, j));
            }
        }
    }
    assert forall|s: Seq<BoardState>| #[trigger] is_solution(n, base, s) implies pending(
        stack2,
        board,
        s,
    ) || (solutions == 1 && s == found) by {
        if pending(stack, board, s) {
            let i = choose|i: int| 0 <= i < stack.len() && #[trigger] pending_at(stack, board, s, i);
            assert(pending_at(stack2, board, s, i));
        } else if agrees(stack, board, s, k) {
            assert(pending_at(stack2, board, s, k));
        }
    }
    assert(stack2.drop_last() =~= stack);
}

/// The board is valid and full: the counter marks it to be counted.
proof fn lemma_reach_full(
    n: int,
    base: Seq<BoardState>,
    stack: Seq<Option<usize>>,
    board: Seq<BoardState>,
    solutions: int,
    found: Seq<BoardState>,
)
    requires
        walk(n, base, stack, board),
        cover_open(n, base, stack, board, solutions, found),
        stack.len() > 0,
        stack.last() is Some,
        is_full(board),
        valid_board(n, board),
    ensures
        walk(n, base, stack.push(None), board),
        cover(n, base, stack.push(None), board, solutions, found),
        count_potential(stack.push(None), board) == count_potential(stack, board) + 1,
{
    let k = stack.len() as int;
    let stack2 = stack.push(None);
    assert forall|i: int| 0 <= i < k implies (#[trigger] stack[i]) is Some && cell_of(stack[i], 0)
        < n * n by {
        assert(entry_ok(n, base, stack, board, i));
    }
    assert forall|i: int| 0 <= i < stack2.len() implies #[trigger] entry_ok(n, base, stack2, board, i) by {
        if i < k {
            assert(entry_ok(n, base, stack, board, i));
        }
    }
    assert forall|p: int| 0 <= p < board.len() && !on_stack(stack2, p) implies #[trigger] board[p]
        == base[p] by {
        if on_stack(stack, p) {
            let i = choose|i: int|
                0 <= i < stack.len() && (#[trigger] stack[i]) is Some && cell_of(stack[i], 0) == p;
            assert(stack2[i] == stack[i]);
        }
    }
    assert forall|s: Seq<BoardState>, i: int| 0 <= i < k implies pending_at(stack, board, s, i)
        == #[trigger] pending_at(stack2, board, s, i) by {
        lemma_pending_at_frame(stack, board, stack2, board, s, i);
    }
    assert forall|s: Seq<BoardState>| #[trigger] is_solution(n, base, s) implies pending(
        stack2,
        board,
        s,
    ) || (solutions == 1 && s == found) by {
        if pending(stack, board, s) {
            let i = choose|i: int| 0 <= i < stack.len() && #[trigger] pending_at(stack, board, s, i);
            assert(pending_at(stack2, board, s, i));
        } else if agrees(stack, board, s, k) {
            lemma_agreeing_extends(n, base, stack, board, s);
            lemma_full_extends_eq(board, s);
            assert(pending_at(stack2, board, s, k));
        }
    }
    assert(stack2.drop_last() =~= stack);
}

impl BoardGenerator {
    /// Counts the valid completions of `base_board` by trying every symbol at
    /// every empty cell, as far as two.
    ///
    /// The first empty cell is tried with the first symbol, then with the
    /// second; the board is validated after each placement, and only a valid
    /// board is searched further. A board that has become full counts as one
    /// completion. The count stops at two, which already says that the
    /// completion is not unique.
    ///
    /// A board without an empty cell is not validated and counts as one.
    pub fn count_solutions(&self, base_board: &Vec<BoardState>) -> (count: usize)
        requires
            base_board.len() == self.size * self.size,
        ensures
            count == counted(self.size as int, base_board@),
    {
        let ghost n = self.size as int;
        let ghost base = base_board@;
        let mut board = copy_board(base_board);
        let mut idx_stack: Vec<Option<usize>> = Vec::new();
        proof {
            lemma_count_empty_full(base);
        }
        match self.nth_empty(&board, 0) {
            None => {
                // Nothing to try: a full board counts as one.
                return 1;
            },
            Some(first) => {
                proof {
                    lemma_count_empty_full(base.take(first as int));
                    assert forall|p: int| 0 <= p < first implies #[trigger] base[p]
                        != BoardState::EMPTY by {
                        assert(base.take(first as int)[p] == base[p]);
                    }
                }
                idx_stack.push(Some(first));
            },
        }
        let mut solutions: usize = 0;
        let ghost mut found: Seq<BoardState> = base;
        proof {
            let stack = idx_stack@;
            assert forall|s: Seq<BoardState>| #[trigger] is_solution(n, base, s) implies pending(
                stack,
                base,
                s,
            ) by {
                assert(pending_at(stack, base, s, 0));
            }
        }
        while idx_stack.len() > 0 && solutions < 2
            invariant
                n == self.size,
                base == base_board@,
                !is_full(base),
                solutions <= 2,
                walk(n, base, idx_stack@, board@),
                solutions <= 1 ==> cover(n, base, idx_stack@, board@, solutions as int, found),
                solutions == 2 ==> has_two_solutions(n, base),
            decreases count_potential(idx_stack@, board@),
        {
            let ghost stack = idx_stack@;
            let ghost held_board = board@;
            let idx = idx_stack.pop().unwrap();
            assert(entry_ok(n, base, stack, held_board, stack.len() - 1));
            match idx {
                None => {
                    // The board is full and valid: one more completion.
                    proof {
                        lemma_found(n, base, stack, held_board, solutions as int, found);
                        if solutions == 0 {
                            found = held_board;
                        }
                    }
                    solutions += 1;
                },
                Some(e) => {
                    let held = board[e];
                    if held == BoardState::SECONDARY {
                        // Both symbols have been tried here: the cell is emptied.
                        proof {
                            lemma_backtrack(n, base, stack, held_board, solutions as int, found, e);
                        }
                        board.set(e, BoardState::EMPTY);
                    } else {
                        // The next symbol is tried; the search goes on below
                        // it only if the board is still valid.
                        let v = if held == BoardState::EMPTY {
                            BoardState::PRIMARY
                        } else {
                            BoardState::SECONDARY
                        };
                        proof {
                            lemma_advance(n, base, stack, held_board, solutions as int, found, e, v);
                            lemma_pow4_grows(0, (board.len() - e) as nat);
                        }
                        board.set(e, v);
                        idx_stack.push(Some(e));
                        assert(idx_stack@ =~= stack);
                        if self.validate_board(&board) {
                            let next = self.nth_empty(&board, 0);
                            proof {
                                match next {
                                    Some(e2) => {
                                        lemma_count_empty_full(board@.take(e2 as int));
                                        assert forall|p: int| 0 <= p < e2 implies #[trigger] board@[p]
                                            != BoardState::EMPTY by {
                                            assert(board@.take(e2 as int)[p] == board@[p]);
                                        }
                                        lemma_descend(
                                            n,
                                            base,
                                            stack,
                                            board@,
                                            solutions as int,
                                            found,
                                            e2,
                                        );
                                        lemma_pow4_grows(
                                            (board.len() - e2) as nat,
                                            (board.len() - e) as nat,
                                        );
                                    },
                                    None => {
                                        lemma_count_empty_full(board@);
                                        lemma_reach_full(n, base, stack, board@, solutions as int, found);
                                    },
                                }
                            }
                            idx_stack.push(next);
                        } else {
                            proof {
                                lemma_dead_end(n, base, stack, board@, solutions as int, found);
                            }
                        }
                    }
                },
            }
        }
        proof {
            if solutions == 2 {
                let (s, t) = choose|s: Seq<BoardState>, t: Seq<BoardState>|
                    #![trigger is_solution(n, base, s), is_solution(n, base, t)]
                    is_solution(n, base, s) && is_solution(n, base, t) && s != t;
                assert(is_solution(n, base, s));
            } else {
                assert forall|s: Seq<BoardState>| #[trigger] is_solution(n, base, s) implies solutions
                    == 1 && s == found by {}
            }
        }
        solutions
    }
}

} // verus!

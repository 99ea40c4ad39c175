//! The rules of the puzzle, stated over the board model.
//!
//! A board is valid when, in every row and every column, no symbol stands three
//! times in a row, no symbol fills more than half of the line, and no two
//! completely filled lines of one orientation are equal.

use vstd::prelude::*;
use crate::gen_board::{inverse, BoardState};
use crate::grid::{
    at, cell_index, extends, is_full, lemma_cell_index_bounds, lemma_cell_index_injective,
};

verus! {

/// Cells `j`, `j + 1` and `j + 2` of line `i` hold one and the same symbol.
pub open spec fn triple_at(n: int, s: Seq<BoardState>, horizontal: bool, i: int, j: int) -> bool {
    &&& at(n, s, horizontal, i, j) != BoardState::EMPTY
    &&& at(n, s, horizontal, i, j) == at(n, s, horizontal, i, j + 1)
    &&& at(n, s, horizontal, i, j) == at(n, s, horizontal, i, j + 2)
}

/// How many of the first `k` cells of line `i` hold `x`.
pub open spec fn count_in_line(
    n: int,
    s: Seq<BoardState>,
    horizontal: bool,
    i: int,
    x: BoardState,
    k: int,
) -> int
    decreases k,
{
    if k <= 0 {
        0
    } else {
        count_in_line(n, s, horizontal, i, x, k - 1) + if at(n, s, horizontal, i, k - 1) == x {
            1int
        } else {
            0int
        }
    }
}

/// Line `i` holds no run of three equal symbols.
pub open spec fn no_triple(n: int, s: Seq<BoardState>, horizontal: bool, i: int) -> bool {
    forall|j: int| 0 <= j && j + 2 < n ==> !#[trigger] triple_at(n, s, horizontal, i, j)
}

/// Neither symbol fills more than half of line `i`.
pub open spec fn within_quota(n: int, s: Seq<BoardState>, horizontal: bool, i: int) -> bool {
    &&& count_in_line(n, s, horizontal, i, BoardState::PRIMARY, n) <= n / 2
    &&& count_in_line(n, s, horizontal, i, BoardState::SECONDARY, n) <= n / 2
}

/// Lines `i1` and `i2` are completely filled and equal cell by cell.
pub open spec fn same_full_lines(
    n: int,
    s: Seq<BoardState>,
    horizontal: bool,
    i1: int,
    i2: int,
) -> bool {
    forall|j: int|
        #![trigger at(n, s, horizontal, i1, j)]
        0 <= j < n ==> at(n, s, horizontal, i1, j) != BoardState::EMPTY && at(n, s, horizontal, i1, j)
            == at(n, s, horizontal, i2, j)
}

/// Every line of one orientation obeys the run and quota rules.
pub open spec fn lines_obey(n: int, s: Seq<BoardState>, horizontal: bool) -> bool {
    forall|i: int|
        #![trigger no_triple(n, s, horizontal, i)]
        #![trigger within_quota(n, s, horizontal, i)]
        0 <= i < n ==> no_triple(n, s, horizontal, i) && within_quota(n, s, horizontal, i)
}

/// No two completely filled lines of one orientation are equal.
pub open spec fn lines_differ(n: int, s: Seq<BoardState>, horizontal: bool) -> bool {
    forall|i1: int, i2: int|
        0 <= i1 < i2 < n ==> !#[trigger] same_full_lines(n, s, horizontal, i1, i2)
}

/// The three rules hold of the rows and of the columns of `s`.
///
/// Empty cells break no rule, so a partly filled board can be valid.
pub open spec fn valid_board(n: int, s: Seq<BoardState>) -> bool {
    &&& lines_obey(n, s, true)
    &&& lines_obey(n, s, false)
    &&& lines_differ(n, s, true)
    &&& lines_differ(n, s, false)
}

/// `s` is a completely filled valid board that keeps every symbol of `base`.
pub open spec fn is_solution(n: int, base: Seq<BoardState>, s: Seq<BoardState>) -> bool {
    &&& s.len() == n * n
    &&& extends(base, s)
    &&& is_full(s)
    &&& valid_board(n, s)
}

/// `base` can be completed to a valid board.
pub open spec fn satisfiable(n: int, base: Seq<BoardState>) -> bool {
    exists|s: Seq<BoardState>| #[trigger] is_solution(n, base, s)
}

/// `base` has exactly one valid completion, and it is `s`.
pub open spec fn only_solution(n: int, base: Seq<BoardState>, s: Seq<BoardState>) -> bool {
    &&& is_solution(n, base, s)
    &&& forall|t: Seq<BoardState>| #[trigger] is_solution(n, base, t) ==> t == s
}

/// `base` has exactly one valid completion.
pub open spec fn has_one_solution(n: int, base: Seq<BoardState>) -> bool {
    exists|s: Seq<BoardState>| #[trigger] only_solution(n, base, s)
}

/// Lines `i1` and `i2` differ in some cell.
pub open spec fn lines_unequal(
    n: int,
    s: Seq<BoardState>,
    horizontal: bool,
    i1: int,
    i2: int,
) -> bool {
    exists|j: int|
        0 <= j < n && #[trigger] at(n, s, horizontal, i1, j) != at(n, s, horizontal, i2, j)
}

/// `s` is a solved board of even side `n`: it is full, every row and every
/// column holds each symbol exactly `n / 2` times and none three times in a
/// row, and no two rows and no two columns are equal.
pub open spec fn solved(n: int, s: Seq<BoardState>) -> bool {
    &&& s.len() == n * n
    &&& is_full(s)
    &&& forall|horizontal: bool, i: int|
        0 <= i < n ==> #[trigger] count_in_line(n, s, horizontal, i, BoardState::PRIMARY, n) == n
            / 2
    &&& forall|horizontal: bool, i: int|
        0 <= i < n ==> #[trigger] count_in_line(n, s, horizontal, i, BoardState::SECONDARY, n)
            == n / 2
    &&& forall|horizontal: bool, i: int| 0 <= i < n ==> #[trigger] no_triple(n, s, horizontal, i)
    &&& forall|horizontal: bool, i1: int, i2: int|
        0 <= i1 < i2 < n ==> #[trigger] lines_unequal(n, s, horizontal, i1, i2)
}

/// The board of side `n` without any symbol.
pub open spec fn blank(n: int) -> Seq<BoardState> {
    Seq::new((n * n) as nat, |p: int| BoardState::EMPTY)
}

/// `base` has two different valid completions.
pub open spec fn has_two_solutions(n: int, base: Seq<BoardState>) -> bool {
    exists|s: Seq<BoardState>, t: Seq<BoardState>|
        #![trigger is_solution(n, base, s), is_solution(n, base, t)]
        is_solution(n, base, s) && is_solution(n, base, t) && s != t
}

/// The number of valid completions of `base`, counted no further than two.
pub open spec fn solutions_up_to_two(n: int, base: Seq<BoardState>) -> nat {
    if !satisfiable(n, base) {
        0
    } else if has_two_solutions(n, base) {
        2
    } else {
        1
    }
}

/// What the exhaustive counter finds on `base`: one for a board without empty
/// cells, which it takes as it is, and otherwise the number of valid
/// completions, counted no further than two.
pub open spec fn counted(n: int, base: Seq<BoardState>) -> nat {
    if is_full(base) {
        1
    } else {
        solutions_up_to_two(n, base)
    }
}

/// Line `i` has no empty cell.
pub open spec fn line_full(n: int, s: Seq<BoardState>, horizontal: bool, i: int) -> bool {
    forall|j: int| 0 <= j < n ==> #[trigger] at(n, s, horizontal, i, j) != BoardState::EMPTY
}

/// Where one line holds `x` at least wherever the other does, it holds at least as many.
pub proof fn lemma_count_le(
    n: int,
    b: Seq<BoardState>,
    c: Seq<BoardState>,
    horizontal: bool,
    i: int,
    x: BoardState,
    k: int,
)
    requires
        forall|j: int|
            0 <= j < k && #[trigger] at(n, b, horizontal, i, j) == x ==> at(n, c, horizontal, i, j)
                == x,
    ensures
        count_in_line(n, b, horizontal, i, x, k) <= count_in_line(n, c, horizontal, i, x, k),
    decreases k,
{
    if k > 0 {
        lemma_count_le(n, b, c, horizontal, i, x, k - 1);
    }
}

/// Where, besides, the second line holds `x` at a cell `w` at which the first does
/// not, it holds strictly more.
pub proof fn lemma_count_lt(
    n: int,
    b: Seq<BoardState>,
    c: Seq<BoardState>,
    horizontal: bool,
    i: int,
    x: BoardState,
    k: int,
    w: int,
)
    requires
        forall|j: int|
            0 <= j < k && #[trigger] at(n, b, horizontal, i, j) == x ==> at(n, c, horizontal, i, j)
                == x,
        0 <= w < k,
        at(n, b, horizontal, i, w) != x,
        at(n, c, horizontal, i, w) == x,
    ensures
        count_in_line(n, b, horizontal, i, x, k) < count_in_line(n, c, horizontal, i, x, k),
    decreases k,
{
    if w == k - 1 {
        lemma_count_le(n, b, c, horizontal, i, x, k - 1);
    } else {
        lemma_count_lt(n, b, c, horizontal, i, x, k - 1, w);
    }
}

/// A count over `k` cells lies between 0 and `k`.
pub proof fn lemma_count_bounds(
    n: int,
    s: Seq<BoardState>,
    horizontal: bool,
    i: int,
    x: BoardState,
    k: int,
)
    requires
        0 <= k,
    ensures
        0 <= count_in_line(n, s, horizontal, i, x, k) <= k,
    decreases k,
{
    if k > 0 {
        lemma_count_bounds(n, s, horizontal, i, x, k - 1);
    }
}

/// A board that keeps the symbols of `b` holds each symbol at least as often on each line.
pub proof fn lemma_count_extends(
    n: int,
    b: Seq<BoardState>,
    c: Seq<BoardState>,
    horizontal: bool,
    i: int,
    x: BoardState,
)
    requires
        b.len() == n * n,
        extends(b, c),
        0 <= i < n,
        x != BoardState::EMPTY,
    ensures
        count_in_line(n, b, horizontal, i, x, n) <= count_in_line(n, c, horizontal, i, x, n),
{
    assert forall|j: int|
        0 <= j < n && #[trigger] at(n, b, horizontal, i, j) == x implies at(n, c, horizontal, i, j)
        == x by {
        lemma_cell_index_bounds(n, horizontal, i, j);
    }
    lemma_count_le(n, b, c, horizontal, i, x, n);
}

/// A board that keeps the symbols of `b` and holds `x` at a cell `w` of the line
/// at which `b` does not, holds `x` more often on that line.
pub proof fn lemma_count_extends_strict(
    n: int,
    b: Seq<BoardState>,
    c: Seq<BoardState>,
    horizontal: bool,
    i: int,
    x: BoardState,
    w: int,
)
    requires
        b.len() == n * n,
        extends(b, c),
        0 <= i < n,
        0 <= w < n,
        x != BoardState::EMPTY,
        at(n, b, horizontal, i, w) != x,
        at(n, c, horizontal, i, w) == x,
    ensures
        count_in_line(n, b, horizontal, i, x, n) < count_in_line(n, c, horizontal, i, x, n),
{
    assert forall|j: int|
        0 <= j < n && #[trigger] at(n, b, horizontal, i, j) == x implies at(n, c, horizontal, i, j)
        == x by {
        lemma_cell_index_bounds(n, horizontal, i, j);
    }
    lemma_count_lt(n, b, c, horizontal, i, x, n, w);
}

/// A line that counts no `x` holds `x` nowhere.
pub proof fn lemma_count_zero(
    n: int,
    s: Seq<BoardState>,
    horizontal: bool,
    i: int,
    x: BoardState,
    k: int,
)
    requires
        0 <= k,
        count_in_line(n, s, horizontal, i, x, k) == 0,
    ensures
        forall|j: int| 0 <= j < k ==> #[trigger] at(n, s, horizontal, i, j) != x,
    decreases k,
{
    if k > 0 {
        lemma_count_bounds(n, s, horizontal, i, x, k - 1);
        lemma_count_zero(n, s, horizontal, i, x, k - 1);
    }
}

/// Writing one cell of a line changes that cell of the line and no other.
pub proof fn lemma_update_line(
    n: int,
    s: Seq<BoardState>,
    horizontal: bool,
    i: int,
    j: int,
    v: BoardState,
)
    requires
        s.len() == n * n,
        0 <= i < n,
        0 <= j < n,
    ensures
        forall|k: int|
            0 <= k < n ==> #[trigger] at(
                n,
                s.update(cell_index(n, horizontal, i, j), v),
                horizontal,
                i,
                k,
            ) == if k == j {
                v
            } else {
                at(n, s, horizontal, i, k)
            },
{
    lemma_cell_index_bounds(n, horizontal, i, j);
    assert forall|k: int| 0 <= k < n implies #[trigger] at(
        n,
        s.update(cell_index(n, horizontal, i, j), v),
        horizontal,
        i,
        k,
    ) == if k == j {
        v
    } else {
        at(n, s, horizontal, i, k)
    } by {
        lemma_cell_index_bounds(n, horizontal, i, k);
        if k != j {
            if cell_index(n, horizontal, i, k) == cell_index(n, horizontal, i, j) {
                lemma_cell_index_injective(n, horizontal, i, k, i, j);
            }
        }
    }
}

/// The cells of a line are empty, or hold the first symbol, or the second.
pub proof fn lemma_count_total(n: int, s: Seq<BoardState>, horizontal: bool, i: int, k: int)
    requires
        0 <= k,
    ensures
        count_in_line(n, s, horizontal, i, BoardState::EMPTY, k) + count_in_line(
            n,
            s,
            horizontal,
            i,
            BoardState::PRIMARY,
            k,
        ) + count_in_line(n, s, horizontal, i, BoardState::SECONDARY, k) == k,
    decreases k,
{
    if k > 0 {
        lemma_count_total(n, s, horizontal, i, k - 1);
    }
}

/// A line that holds `x` nowhere counts no `x`.
pub proof fn lemma_count_none(
    n: int,
    s: Seq<BoardState>,
    horizontal: bool,
    i: int,
    x: BoardState,
    k: int,
)
    requires
        forall|j: int| 0 <= j < k ==> #[trigger] at(n, s, horizontal, i, j) != x,
    ensures
        count_in_line(n, s, horizontal, i, x, k) == 0,
    decreases k,
{
    if k > 0 {
        lemma_count_none(n, s, horizontal, i, x, k - 1);
    }
}

/// On a board of even side, being full and valid is being solved.
pub proof fn lemma_full_valid_is_solved(n: int, s: Seq<BoardState>)
    requires
        0 <= n,
        n % 2 == 0,
        s.len() == n * n,
        is_full(s),
        valid_board(n, s),
    ensures
        solved(n, s),
{
    assert forall|horizontal: bool, i: int|
        #![trigger count_in_line(n, s, horizontal, i, BoardState::PRIMARY, n)]
        #![trigger count_in_line(n, s, horizontal, i, BoardState::SECONDARY, n)]
        #![trigger no_triple(n, s, horizontal, i)]
        0 <= i < n implies {
        &&& count_in_line(n, s, horizontal, i, BoardState::PRIMARY, n) == n / 2
        &&& count_in_line(n, s, horizontal, i, BoardState::SECONDARY, n) == n / 2
        &&& no_triple(n, s, horizontal, i)
    } by {
        assert(within_quota(n, s, horizontal, i));
        assert forall|j: int| 0 <= j < n implies #[trigger] at(n, s, horizontal, i, j)
            != BoardState::EMPTY by {
            lemma_cell_index_bounds(n, horizontal, i, j);
        }
        lemma_count_none(n, s, horizontal, i, BoardState::EMPTY, n);
        lemma_count_total(n, s, horizontal, i, n);
    }
    assert forall|horizontal: bool, i1: int, i2: int| 0 <= i1 < i2 < n implies #[trigger] lines_unequal(
        n,
        s,
        horizontal,
        i1,
        i2,
    ) by {
        assert(!same_full_lines(n, s, horizontal, i1, i2));
        let j = choose|j: int|
            0 <= j < n && !(#[trigger] at(n, s, horizontal, i1, j) != BoardState::EMPTY && at(
                n,
                s,
                horizontal,
                i1,
                j,
            ) == at(n, s, horizontal, i2, j));
        lemma_cell_index_bounds(n, horizontal, i1, j);
    }
}

/// Taking symbols away from a valid board leaves a valid board; so a board that
/// breaks a rule cannot be completed to a valid one.
pub proof fn lemma_valid_below(n: int, b: Seq<BoardState>, s: Seq<BoardState>)
    requires
        b.len() == n * n,
        extends(b, s),
        valid_board(n, s),
    ensures
        valid_board(n, b),
{
    assert forall|horizontal: bool, i: int| 0 <= i < n implies no_triple(n, b, horizontal, i)
        && within_quota(n, b, horizontal, i) by {
        assert(no_triple(n, s, horizontal, i) && within_quota(n, s, horizontal, i));
        assert forall|j: int| 0 <= j && j + 2 < n implies !#[trigger] triple_at(
            n,
            b,
            horizontal,
            i,
            j,
        ) by {
            lemma_cell_index_bounds(n, horizontal, i, j);
            lemma_cell_index_bounds(n, horizontal, i, j + 1);
            lemma_cell_index_bounds(n, horizontal, i, j + 2);
            assert(!triple_at(n, s, horizontal, i, j));
        }
        lemma_count_extends(n, b, s, horizontal, i, BoardState::PRIMARY);
        lemma_count_extends(n, b, s, horizontal, i, BoardState::SECONDARY);
    }
    assert forall|horizontal: bool, i1: int, i2: int| 0 <= i1 < i2 < n implies !#[trigger] same_full_lines(
        n,
        b,
        horizontal,
        i1,
        i2,
    ) by {
        assert(!same_full_lines(n, s, horizontal, i1, i2));
        if same_full_lines(n, b, horizontal, i1, i2) {
            assert forall|j: int| 0 <= j < n implies #[trigger] at(n, s, horizontal, i1, j)
                != BoardState::EMPTY && at(n, s, horizontal, i1, j) == at(n, s, horizontal, i2, j) by {
                lemma_cell_index_bounds(n, horizontal, i1, j);
                lemma_cell_index_bounds(n, horizontal, i2, j);
                assert(at(n, b, horizontal, i1, j) != BoardState::EMPTY);
            }
        }
    }
}

/// A completion of a board above `base` is a completion of `base`.
pub proof fn lemma_solution_below(
    n: int,
    base: Seq<BoardState>,
    mid: Seq<BoardState>,
    s: Seq<BoardState>,
)
    requires
        extends(base, mid),
        is_solution(n, mid, s),
    ensures
        is_solution(n, base, s),
{
}

/// A completion of `base` still is one after its own symbol is written at `p`.
pub proof fn lemma_solution_fixes_cell(n: int, base: Seq<BoardState>, s: Seq<BoardState>, p: int)
    requires
        is_solution(n, base, s),
        0 <= p < base.len(),
    ensures
        is_solution(n, base.update(p, s[p]), s),
        s[p] == BoardState::PRIMARY || s[p] == BoardState::SECONDARY,
{
    let b = base.update(p, s[p]);
    assert forall|q: int| 0 <= q < b.len() && #[trigger] b[q] != BoardState::EMPTY implies s[q]
        == b[q] by {}
}

/// A board with an empty cell that can be completed with neither symbol there
/// cannot be completed.
pub proof fn lemma_both_refuted(n: int, base: Seq<BoardState>, p: int, v: BoardState)
    requires
        0 <= p < base.len(),
        v != BoardState::EMPTY,
        !satisfiable(n, base.update(p, v)),
        !satisfiable(n, base.update(p, inverse(v))),
    ensures
        !satisfiable(n, base),
{
    if satisfiable(n, base) {
        let s = choose|s: Seq<BoardState>| is_solution(n, base, s);
        lemma_solution_fixes_cell(n, base, s, p);
    }
}

} // verus!

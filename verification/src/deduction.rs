//! What the three deduction rules ask of a board, and what follows from it.
//!
//! A rule is applied where the symbols of one board call for a cell to hold a
//! symbol and another board holds it there. A board on which every rule is
//! applied to itself is saturated. The propagation engine works towards the
//! least saturated board above its input; every completely filled valid board
//! is saturated, so what the engine fills in, every valid completion holds.

use vstd::prelude::*;
use crate::gen_board::{inverse, BoardState};
use crate::grid::{at, extends, is_full, lemma_cell_index_bounds};
use crate::rules::{
    count_in_line, is_solution, lemma_count_extends, line_full, no_triple, satisfiable,
    triple_at, valid_board, within_quota,
};

verus! {

/// Where cells `j`, `j + 1` of line `i` of `old` hold one symbol, the cells
/// next to the pair hold the other symbol on `new`: the adjacent-pair
/// deduction that `old` calls for there is made on `new`.
pub open spec fn pair_applied(
    n: int,
    old: Seq<BoardState>,
    new: Seq<BoardState>,
    horizontal: bool,
    i: int,
    j: int,
) -> bool {
    let x = at(n, old, horizontal, i, j);
    x != BoardState::EMPTY && x == at(n, old, horizontal, i, j + 1) ==> {
        &&& j >= 1 ==> at(n, new, horizontal, i, j - 1) == inverse(x)
        &&& j + 2 < n ==> at(n, new, horizontal, i, j + 2) == inverse(x)
    }
}

/// Where cells `j`, `j + 2` of line `i` of `old` hold one symbol, the cell
/// between them holds the other symbol on `new`: the sandwich deduction that
/// `old` calls for there is made on `new`.
pub open spec fn gap_applied(
    n: int,
    old: Seq<BoardState>,
    new: Seq<BoardState>,
    horizontal: bool,
    i: int,
    j: int,
) -> bool {
    let x = at(n, old, horizontal, i, j);
    x != BoardState::EMPTY && x == at(n, old, horizontal, i, j + 2) ==> at(
        n,
        new,
        horizontal,
        i,
        j + 1,
    ) == inverse(x)
}

/// No symbol is above its quota on line `i` of `old`, and if one has reached
/// it there, line `i` of `new` has no empty cell left: the exhaustion
/// deduction that `old` calls for on the line is made on `new`.
pub open spec fn quota_applied(
    n: int,
    old: Seq<BoardState>,
    new: Seq<BoardState>,
    horizontal: bool,
    i: int,
) -> bool {
    &&& within_quota(n, old, horizontal, i)
    &&& (count_in_line(n, old, horizontal, i, BoardState::PRIMARY, n) == n / 2 || count_in_line(
        n,
        old,
        horizontal,
        i,
        BoardState::SECONDARY,
        n,
    ) == n / 2) ==> line_full(n, new, horizontal, i)
}

/// Every adjacent-pair deduction that `old` calls for on the lines of one
/// orientation is made on `new`.
pub open spec fn pairs_applied(
    n: int,
    old: Seq<BoardState>,
    new: Seq<BoardState>,
    horizontal: bool,
) -> bool {
    forall|i: int, j: int|
        0 <= i < n && 0 <= j && j + 1 < n ==> #[trigger] pair_applied(n, old, new, horizontal, i, j)
}

/// Every sandwich deduction that `old` calls for on the lines of one
/// orientation is made on `new`.
pub open spec fn gaps_applied(
    n: int,
    old: Seq<BoardState>,
    new: Seq<BoardState>,
    horizontal: bool,
) -> bool {
    forall|i: int, j: int|
        0 <= i < n && 0 <= j && j + 2 < n ==> #[trigger] gap_applied(n, old, new, horizontal, i, j)
}

/// Every exhaustion deduction that `old` calls for on the lines of one
/// orientation is made on `new`.
pub open spec fn quotas_applied(
    n: int,
    old: Seq<BoardState>,
    new: Seq<BoardState>,
    horizontal: bool,
) -> bool {
    forall|i: int| 0 <= i < n ==> #[trigger] quota_applied(n, old, new, horizontal, i)
}

/// The adjacent-pair deduction is made at cells `j`, `j + 1` of line `i`: where
/// they hold one symbol, the cells next to the pair hold the other symbol.
pub open spec fn pair_resolved(
    n: int,
    s: Seq<BoardState>,
    horizontal: bool,
    i: int,
    j: int,
) -> bool {
    pair_applied(n, s, s, horizontal, i, j)
}

/// The sandwich deduction is made at cells `j`, `j + 2` of line `i`: where they
/// hold one symbol, the cell between them holds the other symbol.
pub open spec fn gap_resolved(
    n: int,
    s: Seq<BoardState>,
    horizontal: bool,
    i: int,
    j: int,
) -> bool {
    gap_applied(n, s, s, horizontal, i, j)
}

/// The exhaustion deduction is made on line `i`: no symbol is above its quota,
/// and once a symbol has reached it the line has no empty cell left.
pub open spec fn quota_resolved(n: int, s: Seq<BoardState>, horizontal: bool, i: int) -> bool {
    quota_applied(n, s, s, horizontal, i)
}

/// The adjacent-pair deduction is made everywhere on the lines of one orientation.
pub open spec fn pairs_resolved(n: int, s: Seq<BoardState>, horizontal: bool) -> bool {
    forall|i: int, j: int|
        0 <= i < n && 0 <= j && j + 1 < n ==> #[trigger] pair_resolved(n, s, horizontal, i, j)
}

/// The sandwich deduction is made everywhere on the lines of one orientation.
pub open spec fn gaps_resolved(n: int, s: Seq<BoardState>, horizontal: bool) -> bool {
    forall|i: int, j: int|
        0 <= i < n && 0 <= j && j + 2 < n ==> #[trigger] gap_resolved(n, s, horizontal, i, j)
}

/// The exhaustion deduction is made on every line of one orientation.
pub open spec fn quotas_resolved(n: int, s: Seq<BoardState>, horizontal: bool) -> bool {
    forall|i: int| 0 <= i < n ==> #[trigger] quota_resolved(n, s, horizontal, i)
}

/// Nothing is left to deduce on `s`, and no deduction is contradicted: each of
/// the three deduction rules is made on every row and every column.
pub open spec fn saturated(n: int, s: Seq<BoardState>) -> bool {
    &&& pairs_resolved(n, s, true)
    &&& pairs_resolved(n, s, false)
    &&& gaps_resolved(n, s, true)
    &&& gaps_resolved(n, s, false)
    &&& quotas_resolved(n, s, true)
    &&& quotas_resolved(n, s, false)
}

/// Some board that keeps the symbols of `base` is saturated: deduction from
/// `base` meets no contradiction.
pub open spec fn saturable(n: int, base: Seq<BoardState>) -> bool {
    exists|c: Seq<BoardState>| extends(base, c) && #[trigger] saturated(n, c)
}

/// Every saturated board that keeps the symbols of `base` holds `v` at `p`:
/// deduction alone puts `v` there.
pub open spec fn deduced(n: int, base: Seq<BoardState>, p: int, v: BoardState) -> bool {
    forall|c: Seq<BoardState>| extends(base, c) && #[trigger] saturated(n, c) ==> c[p] == v
}

/// A deduction that is made stays made when the board that calls for it loses
/// symbols and the board that it is made on gains some.
pub proof fn lemma_pair_applied_widens(
    n: int,
    old0: Seq<BoardState>,
    old1: Seq<BoardState>,
    new1: Seq<BoardState>,
    new2: Seq<BoardState>,
    horizontal: bool,
    i: int,
    j: int,
)
    requires
        old0.len() == n * n,
        extends(old0, old1),
        extends(new1, new2),
        new1.len() == n * n,
        0 <= i < n,
        0 <= j,
        j + 1 < n,
        pair_applied(n, old1, new1, horizontal, i, j),
    ensures
        pair_applied(n, old0, new2, horizontal, i, j),
{
    lemma_cell_index_bounds(n, horizontal, i, j);
    lemma_cell_index_bounds(n, horizontal, i, j + 1);
    if j >= 1 {
        lemma_cell_index_bounds(n, horizontal, i, j - 1);
    }
    if j + 2 < n {
        lemma_cell_index_bounds(n, horizontal, i, j + 2);
    }
}

/// As [`lemma_pair_applied_widens`], for the sandwich deduction.
pub proof fn lemma_gap_applied_widens(
    n: int,
    old0: Seq<BoardState>,
    old1: Seq<BoardState>,
    new1: Seq<BoardState>,
    new2: Seq<BoardState>,
    horizontal: bool,
    i: int,
    j: int,
)
    requires
        old0.len() == n * n,
        extends(old0, old1),
        extends(new1, new2),
        new1.len() == n * n,
        0 <= i < n,
        0 <= j,
        j + 2 < n,
        gap_applied(n, old1, new1, horizontal, i, j),
    ensures
        gap_applied(n, old0, new2, horizontal, i, j),
{
    lemma_cell_index_bounds(n, horizontal, i, j);
    lemma_cell_index_bounds(n, horizontal, i, j + 1);
    lemma_cell_index_bounds(n, horizontal, i, j + 2);
}

/// As [`lemma_pair_applied_widens`], for the exhaustion deduction.
pub proof fn lemma_quota_applied_widens(
    n: int,
    old0: Seq<BoardState>,
    old1: Seq<BoardState>,
    new1: Seq<BoardState>,
    new2: Seq<BoardState>,
    horizontal: bool,
    i: int,
)
    requires
        old0.len() == n * n,
        extends(old0, old1),
        extends(new1, new2),
        new1.len() == n * n,
        0 <= i < n,
        quota_applied(n, old1, new1, horizontal, i),
    ensures
        quota_applied(n, old0, new2, horizontal, i),
{
    lemma_count_extends(n, old0, old1, horizontal, i, BoardState::PRIMARY);
    lemma_count_extends(n, old0, old1, horizontal, i, BoardState::SECONDARY);
    if line_full(n, new1, horizontal, i) {
        assert forall|j: int| 0 <= j < n implies #[trigger] at(n, new2, horizontal, i, j)
            != BoardState::EMPTY by {
            lemma_cell_index_bounds(n, horizontal, i, j);
            assert(at(n, new1, horizontal, i, j) != BoardState::EMPTY);
        }
    }
}

/// A completely filled valid board is saturated: on it every deduction is made.
pub proof fn lemma_solved_is_saturated(n: int, s: Seq<BoardState>)
    requires
        s.len() == n * n,
        is_full(s),
        valid_board(n, s),
    ensures
        saturated(n, s),
{
    assert forall|horizontal: bool, i: int, j: int|
        0 <= i < n && 0 <= j && j + 1 < n implies #[trigger] pair_resolved(n, s, horizontal, i, j) by {
        assert(no_triple(n, s, horizontal, i));
        if j >= 1 {
            lemma_cell_index_bounds(n, horizontal, i, j - 1);
            assert(!triple_at(n, s, horizontal, i, j - 1));
        }
        if j + 2 < n {
            lemma_cell_index_bounds(n, horizontal, i, j + 2);
            assert(!triple_at(n, s, horizontal, i, j));
        }
    }
    assert forall|horizontal: bool, i: int, j: int|
        0 <= i < n && 0 <= j && j + 2 < n implies #[trigger] gap_resolved(n, s, horizontal, i, j) by {
        assert(no_triple(n, s, horizontal, i));
        lemma_cell_index_bounds(n, horizontal, i, j + 1);
        assert(!triple_at(n, s, horizontal, i, j));
    }
    assert forall|horizontal: bool, i: int| 0 <= i < n implies #[trigger] quota_resolved(
        n,
        s,
        horizontal,
        i,
    ) by {
        assert forall|j: int| 0 <= j < n implies #[trigger] at(n, s, horizontal, i, j)
            != BoardState::EMPTY by {
            lemma_cell_index_bounds(n, horizontal, i, j);
        }
    }
}

/// A board on which deduction meets a contradiction cannot be completed.
pub proof fn lemma_unsaturable_unsatisfiable(n: int, base: Seq<BoardState>)
    requires
        !saturable(n, base),
    ensures
        !satisfiable(n, base),
{
    if satisfiable(n, base) {
        let s = choose|s: Seq<BoardState>| is_solution(n, base, s);
        lemma_solved_is_saturated(n, s);
    }
}

} // verus!

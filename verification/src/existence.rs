//! A solved board for every even side: the blank board can always be completed.
//!
//! The board is built from one line, two equal symbols, then the two symbols in
//! turn, then two of the other symbol, which every following row repeats one
//! cell further to the left.

use vstd::arithmetic::div_mod::lemma_fundamental_div_mod_converse;
use vstd::prelude::*;
use crate::gen_board::BoardState;
use crate::grid::{at, cell_index, is_full, lemma_cell_index_bounds};
use crate::rules::{
    blank, count_in_line, is_solution, lemma_count_none, lemma_count_total, no_triple,
    same_full_lines, satisfiable, triple_at, valid_board, within_quota,
};

verus! {

/// Cell `k` of the line that the board is built from.
pub open spec fn pattern(n: int, k: int) -> BoardState {
    if n == 2 {
        if k == 0 {
            BoardState::PRIMARY
        } else {
            BoardState::SECONDARY
        }
    } else if k < 2 {
        BoardState::PRIMARY
    } else if k >= n - 2 {
        BoardState::SECONDARY
    } else if k % 2 == 0 {
        BoardState::SECONDARY
    } else {
        BoardState::PRIMARY
    }
}

/// A position past the end of the line, taken from its start again.
pub open spec fn wrap(n: int, k: int) -> int {
    if k < n {
        k
    } else {
        k - n
    }
}

/// The board whose row `i` is the pattern moved `i` cells to the left.
pub open spec fn pattern_board(n: int) -> Seq<BoardState> {
    Seq::new((n * n) as nat, |p: int| pattern(n, wrap(n, p / n + p % n)))
}

/// How many of the first `m` cells of the pattern hold the first symbol.
pub open spec fn pattern_count(n: int, m: int) -> int
    decreases m,
{
    if m <= 0 {
        0
    } else {
        pattern_count(n, m - 1) + if pattern(n, m - 1) == BoardState::PRIMARY {
            1int
        } else {
            0int
        }
    }
}

/// Rows and columns of the pattern board read the same: cell `j` of line `i`
/// is the pattern at `i + j`, wrapped.
proof fn lemma_pattern_cell(n: int, horizontal: bool, i: int, j: int)
    requires
        0 <= i < n,
        0 <= j < n,
    ensures
        at(n, pattern_board(n), horizontal, i, j) == pattern(n, wrap(n, i + j)),
{
    lemma_cell_index_bounds(n, horizontal, i, j);
    let p = cell_index(n, horizontal, i, j);
    if horizontal {
        lemma_fundamental_div_mod_converse(p, n, i, j);
    } else {
        lemma_fundamental_div_mod_converse(p, n, j, i);
    }
}

/// The first symbol stands in the first two cells of the pattern, then in
/// every second cell as far as the last two.
proof fn lemma_pattern_count(n: int, m: int)
    requires
        n >= 2,
        n % 2 == 0,
        0 <= m <= n,
    ensures
        n == 2 ==> pattern_count(n, m) == if m == 0 {
            0int
        } else {
            1int
        },
        n > 2 && m <= 2 ==> pattern_count(n, m) == m,
        n > 2 && 2 <= m <= n - 2 ==> pattern_count(n, m) == 2 + (m - 2) / 2,
        n > 2 && n - 2 <= m ==> pattern_count(n, m) == n / 2,
    decreases m,
{
    if m > 0 {
        lemma_pattern_count(n, m - 1);
    }
}

/// The count of the first symbol along line `i` follows the pattern from
/// cell `i` to its end and on from its start.
proof fn lemma_line_count(n: int, horizontal: bool, i: int, k: int)
    requires
        n >= 2,
        n % 2 == 0,
        0 <= i < n,
        0 <= k <= n,
    ensures
        count_in_line(n, pattern_board(n), horizontal, i, BoardState::PRIMARY, k) == if i + k <= n {
            pattern_count(n, i + k) - pattern_count(n, i)
        } else {
            pattern_count(n, n) - pattern_count(n, i) + pattern_count(n, i + k - n)
        },
    decreases k,
{
    if k > 0 {
        lemma_line_count(n, horizontal, i, k - 1);
        lemma_pattern_cell(n, horizontal, i, k - 1);
        let held = if pattern(n, wrap(n, i + k - 1)) == BoardState::PRIMARY {
            1int
        } else {
            0int
        };
        if i + k > n {
            assert(pattern_count(n, i + k - n) == pattern_count(n, i + k - n - 1) + held);
        }
    }
}

/// The pattern board is a solved board.
pub proof fn lemma_pattern_board_solved(n: int)
    requires
        n >= 2,
        n % 2 == 0,
    ensures
        pattern_board(n).len() == n * n,
        is_full(pattern_board(n)),
        valid_board(n, pattern_board(n)),
{
    let s = pattern_board(n);
    assert forall|horizontal: bool, i: int| 0 <= i < n implies no_triple(n, s, horizontal, i)
        && within_quota(n, s, horizontal, i) by {
        assert forall|j: int| 0 <= j && j + 2 < n implies !#[trigger] triple_at(
            n,
            s,
            horizontal,
            i,
            j,
        ) by {
            lemma_pattern_cell(n, horizontal, i, j);
            lemma_pattern_cell(n, horizontal, i, j + 1);
            lemma_pattern_cell(n, horizontal, i, j + 2);
        }
        assert forall|j: int| 0 <= j < n implies #[trigger] at(n, s, horizontal, i, j)
            != BoardState::EMPTY by {
            lemma_pattern_cell(n, horizontal, i, j);
        }
        lemma_count_none(n, s, horizontal, i, BoardState::EMPTY, n);
        lemma_count_total(n, s, horizontal, i, n);
        lemma_line_count(n, horizontal, i, n);
        lemma_pattern_count(n, n);
    }
    assert forall|horizontal: bool, i1: int, i2: int| 0 <= i1 < i2 < n implies !#[trigger] same_full_lines(
        n,
        s,
        horizontal,
        i1,
        i2,
    ) by {
        let d = i2 - i1;
        let k = if pattern(n, d) != BoardState::PRIMARY {
            0int
        } else {
            1int
        };
        let j = if k >= i1 {
            k - i1
        } else {
            k - i1 + n
        };
        lemma_pattern_cell(n, horizontal, i1, j);
        lemma_pattern_cell(n, horizontal, i2, j);
    }
}

/// The blank board of every even side from 2 on has a valid completion.
pub proof fn lemma_blank_is_satisfiable(n: int)
    requires
        n >= 2,
        n % 2 == 0,
    ensures
        satisfiable(n, blank(n)),
{
    lemma_pattern_board_solved(n);
    assert(is_solution(n, blank(n), pattern_board(n)));
}

} // verus!

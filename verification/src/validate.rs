//! The validator: the one oracle that says whether a board breaks a rule.

use vstd::prelude::*;
use crate::gen_board::{BoardGenerator, BoardState};
use crate::grid::{at, cell_index, lemma_cell_index_bounds};
use crate::rules::{
    count_in_line, lines_differ, lines_obey, no_triple, same_full_lines, triple_at, valid_board,
    within_quota,
};

verus! {

impl BoardGenerator {
    /// Index of cell `j` of line `i`: row `i` if `horizontal`, column `i` otherwise.
    pub(crate) fn index(&self, horizontal: bool, i: usize, j: usize) -> (p: usize)
        requires
            i < self.size,
            j < self.size,
            self.size * self.size <= usize::MAX,
        ensures
            p == cell_index(self.size as int, horizontal, i as int, j as int),
            p < self.size * self.size,
    {
        proof {
            lemma_cell_index_bounds(self.size as int, true, i as int, j as int);
            lemma_cell_index_bounds(self.size as int, false, i as int, j as int);
        }
        if horizontal {
            i * self.size + j
        } else {
            j * self.size + i
        }
    }

    /// Checks one line for a run of three and for a symbol above its quota.
    fn line_obeys(&self, board: &Vec<BoardState>, horizontal: bool, i: usize) -> (ok: bool)
        requires
            board.len() == self.size * self.size,
            i < self.size,
        ensures
            ok == (no_triple(self.size as int, board@, horizontal, i as int) && within_quota(
                self.size as int,
                board@,
                horizontal,
                i as int,
            )),
    {
        let n = self.size;
        let state_max = n / 2;
        let mut consecutive_count: usize = 0;
        let mut consecutive_state = BoardState::EMPTY;
        let mut primary_count: usize = 0;
        let mut secondary_count: usize = 0;
        let mut j: usize = 0;
        while j < n
            invariant
                n == self.size,
                board.len() == n * n,
                i < n,
                j <= n,
                primary_count == count_in_line(
                    n as int,
                    board@,
                    horizontal,
                    i as int,
                    BoardState::PRIMARY,
                    j as int,
                ),
                secondary_count == count_in_line(
                    n as int,
                    board@,
                    horizontal,
                    i as int,
                    BoardState::SECONDARY,
                    j as int,
                ),
                primary_count <= j,
                secondary_count <= j,
                forall|k: int|
                    0 <= k && k + 2 < j ==> !#[trigger] triple_at(
                        n as int,
                        board@,
                        horizontal,
                        i as int,
                        k,
                    ),
                j == 0 ==> consecutive_state == BoardState::EMPTY,
                j > 0 ==> consecutive_state == at(n as int, board@, horizontal, i as int, j - 1),
                consecutive_state == BoardState::EMPTY ==> consecutive_count == 0,
                consecutive_state != BoardState::EMPTY ==> consecutive_count == 1
                    || consecutive_count == 2,
                consecutive_count == 2 ==> j >= 2 && at(n as int, board@, horizontal, i as int, j - 2)
                    == at(n as int, board@, horizontal, i as int, j - 1),
                consecutive_count == 1 && j >= 2 ==> at(n as int, board@, horizontal, i as int, j - 2)
                    != at(n as int, board@, horizontal, i as int, j - 1),
            decreases n - j,
        {
            let cur_state = board[self.index(horizontal, i, j)];
            if cur_state == BoardState::EMPTY {
                consecutive_state = BoardState::EMPTY;
                consecutive_count = 0;
            } else {
                if cur_state == BoardState::PRIMARY {
                    primary_count += 1;
                } else {
                    secondary_count += 1;
                }
                if cur_state == consecutive_state {
                    consecutive_count += 1;
                } else {
                    consecutive_state = cur_state;
                    consecutive_count = 1;
                }
                if consecutive_count > 2 {
                    assert(triple_at(n as int, board@, horizontal, i as int, j - 2));
                    return false;
                }
            }
            j += 1;
        }
        primary_count <= state_max && secondary_count <= state_max
    }

    /// Tells whether two lines are completely filled and equal.
    fn lines_match(&self, board: &Vec<BoardState>, horizontal: bool, i1: usize, i2: usize) -> (same:
        bool)
        requires
            board.len() == self.size * self.size,
            i1 < self.size,
            i2 < self.size,
        ensures
            same == same_full_lines(self.size as int, board@, horizontal, i1 as int, i2 as int),
    {
        let n = self.size;
        let mut j: usize = 0;
        while j < n
            invariant
                n == self.size,
                board.len() == n * n,
                i1 < n,
                i2 < n,
                j <= n,
                forall|k: int|
                    #![trigger at(n as int, board@, horizontal, i1 as int, k)]
                    0 <= k < j ==> at(n as int, board@, horizontal, i1 as int, k)
                        != BoardState::EMPTY && at(n as int, board@, horizontal, i1 as int, k) == at(
                        n as int,
                        board@,
                        horizontal,
                        i2 as int,
                        k,
                    ),
            decreases n - j,
        {
            let first = board[self.index(horizontal, i1, j)];
            let second = board[self.index(horizontal, i2, j)];
            if first != second || first == BoardState::EMPTY {
                assert(at(n as int, board@, horizontal, i1 as int, j as int) == first);
                return false;
            }
            j += 1;
        }
        true
    }

    /// Checks the run and quota rules on every line of one orientation.
    fn all_lines_obey(&self, board: &Vec<BoardState>, horizontal: bool) -> (ok: bool)
        requires
            board.len() == self.size * self.size,
        ensures
            ok == lines_obey(self.size as int, board@, horizontal),
    {
        let n = self.size;
        let mut i: usize = 0;
        while i < n
            invariant
                n == self.size,
                board.len() == n * n,
                i <= n,
                forall|k: int|
                    #![trigger no_triple(n as int, board@, horizontal, k)]
                    #![trigger within_quota(n as int, board@, horizontal, k)]
                    0 <= k < i ==> no_triple(n as int, board@, horizontal, k) && within_quota(
                        n as int,
                        board@,
                        horizontal,
                        k,
                    ),
            decreases n - i,
        {
            if !self.line_obeys(board, horizontal, i) {
                return false;
            }
            i += 1;
        }
        true
    }

    /// Checks that no two filled lines of one orientation are equal.
    fn all_lines_differ(&self, board: &Vec<BoardState>, horizontal: bool) -> (ok: bool)
        requires
            board.len() == self.size * self.size,
        ensures
            ok == lines_differ(self.size as int, board@, horizontal),
    {
        let n = self.size;
        let mut i1: usize = 0;
        while i1 < n
            invariant
                n == self.size,
                board.len() == n * n,
                i1 <= n,
                forall|a: int, b: int|
                    0 <= a < b < n && a < i1 ==> !#[trigger] same_full_lines(
                        n as int,
                        board@,
                        horizontal,
                        a,
                        b,
                    ),
            decreases n - i1,
        {
            let mut i2: usize = i1 + 1;
            while i2 < n
                invariant
                    n == self.size,
                    board.len() == n * n,
                    i1 < n,
                    i1 < i2 <= n,
                    forall|a: int, b: int|
                        0 <= a < b < n && a < i1 ==> !#[trigger] same_full_lines(
                            n as int,
                            board@,
                            horizontal,
                            a,
                            b,
                        ),
                    forall|b: int|
                        i1 < b < i2 ==> !#[trigger] same_full_lines(
                            n as int,
                            board@,
                            horizontal,
                            i1 as int,
                            b,
                        ),
                decreases n - i2,
            {
                if self.lines_match(board, horizontal, i1, i2) {
                    return false;
                }
                i2 += 1;
            }
            i1 += 1;
        }
        true
    }

    /// Tells whether `board` breaks none of the three rules, on rows and on columns.
    ///
    /// Empty cells are allowed: a run or a quota counts symbols only, and a line
    /// with an empty cell is equal to no other line.
    pub fn validate_board(&self, board: &Vec<BoardState>) -> (ok: bool)
        requires
            board.len() == self.size * self.size,
        ensures
            ok == valid_board(self.size as int, board@),
    {
        self.all_lines_obey(board, true) && self.all_lines_obey(board, false)
            && self.all_lines_differ(board, true) && self.all_lines_differ(board, false)
    }
}

} // verus!

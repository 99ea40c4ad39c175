//! The propagation engine: three local deductions, applied until nothing changes.
//!
//! Each deduction fills empty cells only, and only with the symbol that every
//! saturated board above the current one holds there. A deduction that finds
//! its cell taken by the wrong symbol reports a contradiction.

use vstd::prelude::*;
use crate::deduction::{
    gap_applied, gap_resolved, gaps_applied, gaps_resolved, lemma_gap_applied_widens,
    lemma_pair_applied_widens, lemma_quota_applied_widens, pair_applied, pair_resolved,
    pairs_applied, pairs_resolved, quota_applied, quota_resolved, quotas_applied, quotas_resolved,
    saturable, saturated,
};
use crate::gen_board::{inverse, inverse_state, BoardGenerator, BoardState};
use crate::grid::{
    at, copy_board, count_empty, extends, holds_position, lemma_cell_index_bounds,
    lemma_extends_between, lemma_extends_count_empty, lists_changes,
};
use crate::rules::{
    count_in_line, lemma_count_extends, lemma_count_extends_strict, lemma_count_le,
    lemma_count_zero, lemma_update_line, no_triple, triple_at, valid_board,
    within_quota,
};

verus! {

impl BoardGenerator {
    /// Fills cell `j` of line `i` with `v` if it is empty; reports a contradiction
    /// if it holds the other symbol.
    fn force_cell(
        &self,
        board: &mut Vec<BoardState>,
        horizontal: bool,
        i: usize,
        j: usize,
        v: BoardState,
        pruned: &mut bool,
        err: &mut bool,
    )
        requires
            old(board).len() == self.size * self.size,
            i < self.size,
            j < self.size,
            v != BoardState::EMPTY,
            !*old(err),
        ensures
            final(board).len() == old(board).len(),
            extends(old(board)@, final(board)@),
            *final(pruned) == (*old(pruned) || final(board)@ != old(board)@),
            *final(err) <==> at(self.size as int, old(board)@, horizontal, i as int, j as int)
                == inverse(v),
            *final(err) ==> final(board)@ == old(board)@,
            !*final(err) ==> final(board)@ == old(board)@.update(
                crate::grid::cell_index(self.size as int, horizontal, i as int, j as int),
                v,
            ),
    {
        let q = self.index(horizontal, i, j);
        let held = board[q];
        if held != v {
            if held != BoardState::EMPTY {
                *err = true;
                return ;
            }
            board.set(q, v);
            *pruned = true;
        }
    }

    /// Applies the adjacent-pair deduction along one line.
    fn line_pairs(
        &self,
        board: &mut Vec<BoardState>,
        horizontal: bool,
        i: usize,
        pruned: &mut bool,
        err: &mut bool,
    )
        requires
            old(board).len() == self.size * self.size,
            i < self.size,
            !*old(err),
        ensures
            final(board).len() == old(board).len(),
            extends(old(board)@, final(board)@),
            *final(pruned) == (*old(pruned) || final(board)@ != old(board)@),
            forall|c: Seq<BoardState>|
                #[trigger] extends(old(board)@, c) && pairs_resolved(self.size as int, c, horizontal)
                    ==> extends(final(board)@, c),
            *final(err) ==> forall|c: Seq<BoardState>|
                #[trigger] extends(old(board)@, c) ==> !pairs_resolved(
                    self.size as int,
                    c,
                    horizontal,
                ),
            *final(err) ==> !no_triple(self.size as int, final(board)@, horizontal, i as int),
            !*final(err) ==> forall|j: int|
                0 <= j && j + 1 < self.size ==> #[trigger] pair_applied(
                    self.size as int,
                    old(board)@,
                    final(board)@,
                    horizontal,
                    i as int,
                    j,
                ),
    {
        let n = self.size;
        let ghost start = board@;
        let ghost pruned0 = *pruned;
        let mut last_state = BoardState::EMPTY;
        let mut j: usize = 0;
        while j < n
            invariant
                n == self.size,
                i < n,
                j <= n,
                board.len() == n * n,
                start == old(board)@,
                pruned0 == *old(pruned),
                !*err,
                extends(start, board@),
                *pruned == (pruned0 || board@ != start),
                forall|c: Seq<BoardState>|
                    #[trigger] extends(start, c) && pairs_resolved(n as int, c, horizontal)
                        ==> extends(board@, c),
                j == 0 ==> last_state == BoardState::EMPTY,
                j > 0 ==> last_state == at(n as int, board@, horizontal, i as int, j - 1),
                forall|k: int|
                    0 <= k && k + 1 < j ==> #[trigger] pair_applied(
                        n as int,
                        start,
                        board@,
                        horizontal,
                        i as int,
                        k,
                    ),
            decreases n - j,
        {
            let p = self.index(horizontal, i, j);
            if board[p] == last_state && last_state != BoardState::EMPTY {
                let new_state = inverse_state(last_state);
                proof {
                    lemma_cell_index_bounds(n as int, horizontal, i as int, j - 1);
                }
                if j > 1 {
                    let ghost before = board@;
                    proof {
                        lemma_cell_index_bounds(n as int, horizontal, i as int, j - 2);
                    }
                    self.force_cell(board, horizontal, i, j - 2, new_state, pruned, err);
                    proof {
                        if board@ == start {
                            lemma_extends_between(start, before, board@);
                        }
                        if *err {
                            assert(triple_at(n as int, board@, horizontal, i as int, j - 2));
                        }
                        assert forall|k: int| 0 <= k && k + 1 < j implies #[trigger] pair_applied(
                            n as int,
                            start,
                            board@,
                            horizontal,
                            i as int,
                            k,
                        ) by {
                            lemma_pair_applied_widens(
                                n as int,
                                start,
                                start,
                                before,
                                board@,
                                horizontal,
                                i as int,
                                k,
                            );
                        }
                        assert forall|c: Seq<BoardState>|
                            #[trigger] extends(start, c) && pairs_resolved(
                                n as int,
                                c,
                                horizontal,
                            ) implies extends(board@, c) && !*err by {
                            assert(pair_resolved(n as int, c, horizontal, i as int, j - 1));
                        }
                    }
                    if *err {
                        return ;
                    }
                }
                if j < n - 1 {
                    let ghost before = board@;
                    proof {
                        lemma_cell_index_bounds(n as int, horizontal, i as int, j + 1);
                    }
                    self.force_cell(board, horizontal, i, j + 1, new_state, pruned, err);
                    proof {
                        if board@ == start {
                            lemma_extends_between(start, before, board@);
                        }
                        if *err {
                            assert(triple_at(n as int, board@, horizontal, i as int, j - 1));
                        }
                        assert forall|k: int| 0 <= k && k + 1 < j implies #[trigger] pair_applied(
                            n as int,
                            start,
                            board@,
                            horizontal,
                            i as int,
                            k,
                        ) by {
                            lemma_pair_applied_widens(
                                n as int,
                                start,
                                start,
                                before,
                                board@,
                                horizontal,
                                i as int,
                                k,
                            );
                        }
                        assert forall|c: Seq<BoardState>|
                            #[trigger] extends(start, c) && pairs_resolved(
                                n as int,
                                c,
                                horizontal,
                            ) implies extends(board@, c) && !*err by {
                            assert(pair_resolved(n as int, c, horizontal, i as int, j - 1));
                        }
                    }
                    if *err {
                        return ;
                    }
                }
            }
            proof {
                if j > 0 {
                    lemma_cell_index_bounds(n as int, horizontal, i as int, j - 1);
                }
            }
            last_state = board[p];
            j += 1;
        }
    }

    /// Applies the adjacent-pair deduction to every line of one orientation:
    /// two equal neighbours force the cells before and after them to the other
    /// symbol.
    ///
    /// A call with `err` set does nothing. Otherwise:
    /// - only empty cells are written, each with the symbol that every board
    ///   above the input on which this deduction is made everywhere holds there;
    /// - `pruned` is set if a cell was written and keeps its value if none was;
    /// - `err` is set if a forced cell is found to hold the symbol of its pair.
    ///   No board above the input has the deduction made everywhere then, and
    ///   the board is left with a run of three;
    /// - without `err`, every deduction that the input calls for is made on the
    ///   result. Whether those that the written cells call for are made too is
    ///   left open: the engine runs the rules until nothing changes.
    pub fn has_doubles(
        &self,
        board: &mut Vec<BoardState>,
        horizontal: bool,
        pruned: &mut bool,
        err: &mut bool,
    )
        requires
            old(board).len() == self.size * self.size,
        ensures
            final(board).len() == old(board).len(),
            extends(old(board)@, final(board)@),
            *old(err) ==> *final(err) && final(board)@ == old(board)@,
            *final(pruned) == (*old(pruned) || final(board)@ != old(board)@),
            forall|c: Seq<BoardState>|
                #[trigger] extends(old(board)@, c) && pairs_resolved(self.size as int, c, horizontal)
                    ==> extends(final(board)@, c),
            *final(err) && !*old(err) ==> forall|c: Seq<BoardState>|
                #[trigger] extends(old(board)@, c) ==> !pairs_resolved(
                    self.size as int,
                    c,
                    horizontal,
                ),
            *final(err) && !*old(err) ==> !valid_board(self.size as int, final(board)@),
            !*final(err) ==> pairs_applied(
                self.size as int,
                old(board)@,
                final(board)@,
                horizontal,
            ),
    {
        if *err {
            return ;
        }
        let n = self.size;
        let ghost start = board@;
        let ghost pruned0 = *pruned;
        let mut i: usize = 0;
        while i < n
            invariant
                n == self.size,
                i <= n,
                board.len() == n * n,
                start == old(board)@,
                pruned0 == *old(pruned),
                !*old(err),
                !*err,
                extends(start, board@),
                *pruned == (pruned0 || board@ != start),
                forall|c: Seq<BoardState>|
                    #[trigger] extends(start, c) && pairs_resolved(n as int, c, horizontal)
                        ==> extends(board@, c),
                forall|a: int, k: int|
                    0 <= a < i && 0 <= k && k + 1 < n ==> #[trigger] pair_applied(
                        n as int,
                        start,
                        board@,
                        horizontal,
                        a,
                        k,
                    ),
            decreases n - i,
        {
            let ghost before = board@;
            self.line_pairs(board, horizontal, i, pruned, err);
            proof {
                if board@ == start {
                    lemma_extends_between(start, before, board@);
                }
                assert forall|a: int, k: int|
                    0 <= a < i + 1 && 0 <= k && k + 1 < n && !*err implies #[trigger] pair_applied(
                    n as int,
                    start,
                    board@,
                    horizontal,
                    a,
                    k,
                ) by {
                    if a < i {
                        lemma_pair_applied_widens(
                            n as int,
                            start,
                            start,
                            before,
                            board@,
                            horizontal,
                            a,
                            k,
                        );
                    } else {
                        lemma_pair_applied_widens(
                            n as int,
                            start,
                            before,
                            board@,
                            board@,
                            horizontal,
                            a,
                            k,
                        );
                    }
                }
            }
            if *err {
                return ;
            }
            i += 1;
        }
    }

    /// Applies the sandwich deduction along one line.
    fn line_gaps(
        &self,
        board: &mut Vec<BoardState>,
        horizontal: bool,
        i: usize,
        pruned: &mut bool,
        err: &mut bool,
    )
        requires
            old(board).len() == self.size * self.size,
            i < self.size,
            !*old(err),
        ensures
            final(board).len() == old(board).len(),
            extends(old(board)@, final(board)@),
            *final(pruned) == (*old(pruned) || final(board)@ != old(board)@),
            forall|c: Seq<BoardState>|
                #[trigger] extends(old(board)@, c) && gaps_resolved(self.size as int, c, horizontal)
                    ==> extends(final(board)@, c),
            *final(err) ==> forall|c: Seq<BoardState>|
                #[trigger] extends(old(board)@, c) ==> !gaps_resolved(
                    self.size as int,
                    c,
                    horizontal,
                ),
            *final(err) ==> !no_triple(self.size as int, final(board)@, horizontal, i as int),
            !*final(err) ==> forall|j: int|
                0 <= j && j + 2 < self.size ==> #[trigger] gap_applied(
                    self.size as int,
                    old(board)@,
                    final(board)@,
                    horizontal,
                    i as int,
                    j,
                ),
    {
        let n = self.size;
        let ghost start = board@;
        let ghost pruned0 = *pruned;
        let last = if n >= 2 {
            n - 2
        } else {
            0
        };
        let mut j: usize = 0;
        while j < last
            invariant
                n == self.size,
                i < n,
                j <= last,
                last + 2 == n || (last == 0 && n < 2),
                board.len() == n * n,
                start == old(board)@,
                pruned0 == *old(pruned),
                !*err,
                extends(start, board@),
                *pruned == (pruned0 || board@ != start),
                forall|c: Seq<BoardState>|
                    #[trigger] extends(start, c) && gaps_resolved(n as int, c, horizontal)
                        ==> extends(board@, c),
                forall|k: int|
                    0 <= k < j ==> #[trigger] gap_applied(
                        n as int,
                        start,
                        board@,
                        horizontal,
                        i as int,
                        k,
                    ),
            decreases last - j,
        {
            let state = board[self.index(horizontal, i, j)];
            if state != BoardState::EMPTY && state == board[self.index(horizontal, i, j + 2)] {
                let ghost before = board@;
                proof {
                    lemma_cell_index_bounds(n as int, horizontal, i as int, j + 1);
                }
                self.force_cell(board, horizontal, i, j + 1, inverse_state(state), pruned, err);
                proof {
                    if board@ == start {
                        lemma_extends_between(start, before, board@);
                    }
                    if *err {
                        assert(triple_at(n as int, board@, horizontal, i as int, j as int));
                    }
                    assert forall|k: int| 0 <= k < j implies #[trigger] gap_applied(
                        n as int,
                        start,
                        board@,
                        horizontal,
                        i as int,
                        k,
                    ) by {
                        lemma_gap_applied_widens(
                            n as int,
                            start,
                            start,
                            before,
                            board@,
                            horizontal,
                            i as int,
                            k,
                        );
                    }
                    assert forall|c: Seq<BoardState>|
                        #[trigger] extends(start, c) && gaps_resolved(
                            n as int,
                            c,
                            horizontal,
                        ) implies extends(board@, c) && !*err by {
                        assert(gap_resolved(n as int, c, horizontal, i as int, j as int));
                    }
                }
                if *err {
                    return ;
                }
            }
            j += 1;
        }
    }

    /// Applies the sandwich deduction to every line of one orientation: two
    /// equal symbols with one cell between them force that cell to the other
    /// symbol.
    ///
    /// A call with `err` set does nothing. Otherwise:
    /// - only empty cells are written, each with the symbol that every board
    ///   above the input on which this deduction is made everywhere holds there;
    /// - `pruned` is set if a cell was written and keeps its value if none was;
    /// - `err` is set if a forced cell is found to hold the symbol around it.
    ///   No board above the input has the deduction made everywhere then, and
    ///   the board is left with a run of three;
    /// - without `err`, every deduction that the input calls for is made on the
    ///   result. Whether those that the written cells call for are made too is
    ///   left open: the engine runs the rules until nothing changes.
    pub fn has_empty_middles(
        &self,
        board: &mut Vec<BoardState>,
        horizontal: bool,
        pruned: &mut bool,
        err: &mut bool,
    )
        requires
            old(board).len() == self.size * self.size,
        ensures
            final(board).len() == old(board).len(),
            extends(old(board)@, final(board)@),
            *old(err) ==> *final(err) && final(board)@ == old(board)@,
            *final(pruned) == (*old(pruned) || final(board)@ != old(board)@),
            forall|c: Seq<BoardState>|
                #[trigger] extends(old(board)@, c) && gaps_resolved(self.size as int, c, horizontal)
                    ==> extends(final(board)@, c),
            *final(err) && !*old(err) ==> forall|c: Seq<BoardState>|
                #[trigger] extends(old(board)@, c) ==> !gaps_resolved(
                    self.size as int,
                    c,
                    horizontal,
                ),
            *final(err) && !*old(err) ==> !valid_board(self.size as int, final(board)@),
            !*final(err) ==> gaps_applied(
                self.size as int,
                old(board)@,
                final(board)@,
                horizontal,
            ),
    {
        if *err {
            return ;
        }
        let n = self.size;
        let ghost start = board@;
        let ghost pruned0 = *pruned;
        let mut i: usize = 0;
        while i < n
            invariant
                n == self.size,
                i <= n,
                board.len() == n * n,
                start == old(board)@,
                pruned0 == *old(pruned),
                !*old(err),
                !*err,
                extends(start, board@),
                *pruned == (pruned0 || board@ != start),
                forall|c: Seq<BoardState>|
                    #[trigger] extends(start, c) && gaps_resolved(n as int, c, horizontal)
                        ==> extends(board@, c),
                forall|a: int, k: int|
                    0 <= a < i && 0 <= k && k + 2 < n ==> #[trigger] gap_applied(
                        n as int,
                        start,
                        board@,
                        horizontal,
                        a,
                        k,
                    ),
            decreases n - i,
        {
            let ghost before = board@;
            self.line_gaps(board, horizontal, i, pruned, err);
            proof {
                if board@ == start {
                    lemma_extends_between(start, before, board@);
                }
                assert forall|a: int, k: int|
                    0 <= a < i + 1 && 0 <= k && k + 2 < n && !*err implies #[trigger] gap_applied(
                    n as int,
                    start,
                    board@,
                    horizontal,
                    a,
                    k,
                ) by {
                    if a < i {
                        lemma_gap_applied_widens(
                            n as int,
                            start,
                            start,
                            before,
                            board@,
                            horizontal,
                            a,
                            k,
                        );
                    } else {
                        lemma_gap_applied_widens(
                            n as int,
                            start,
                            before,
                            board@,
                            board@,
                            horizontal,
                            a,
                            k,
                        );
                    }
                }
            }
            if *err {
                return ;
            }
            i += 1;
        }
    }

    /// Applies the exhaustion deduction to one line.
    fn line_quota(
        &self,
        board: &mut Vec<BoardState>,
        horizontal: bool,
        i: usize,
        pruned: &mut bool,
        err: &mut bool,
    )
        requires
            old(board).len() == self.size * self.size,
            i < self.size,
            !*old(err),
        ensures
            final(board).len() == old(board).len(),
            extends(old(board)@, final(board)@),
            *final(pruned) == (*old(pruned) || final(board)@ != old(board)@),
            forall|c: Seq<BoardState>|
                #[trigger] extends(old(board)@, c) && quotas_resolved(self.size as int, c, horizontal)
                    ==> extends(final(board)@, c),
            *final(err) ==> forall|c: Seq<BoardState>|
                #[trigger] extends(old(board)@, c) ==> !quotas_resolved(
                    self.size as int,
                    c,
                    horizontal,
                ),
            *final(err) ==> !within_quota(self.size as int, final(board)@, horizontal, i as int),
            !*final(err) ==> quota_applied(
                self.size as int,
                old(board)@,
                final(board)@,
                horizontal,
                i as int,
            ),
    {
        let n = self.size;
        let max = n / 2;
        let ghost start = board@;
        let ghost pruned0 = *pruned;
        let mut primaries: usize = 0;
        let mut secondaries: usize = 0;
        let mut zeroes: usize = 0;
        let mut j: usize = 0;
        while j < n
            invariant
                n == self.size,
                i < n,
                j <= n,
                board.len() == n * n,
                primaries == count_in_line(
                    n as int,
                    board@,
                    horizontal,
                    i as int,
                    BoardState::PRIMARY,
                    j as int,
                ),
                secondaries == count_in_line(
                    n as int,
                    board@,
                    horizontal,
                    i as int,
                    BoardState::SECONDARY,
                    j as int,
                ),
                zeroes == count_in_line(
                    n as int,
                    board@,
                    horizontal,
                    i as int,
                    BoardState::EMPTY,
                    j as int,
                ),
                primaries <= j,
                secondaries <= j,
                zeroes <= j,
            decreases n - j,
        {
            let state = board[self.index(horizontal, i, j)];
            if state == BoardState::PRIMARY {
                primaries += 1;
            } else if state == BoardState::SECONDARY {
                secondaries += 1;
            } else {
                zeroes += 1;
            }
            j += 1;
        }
        if primaries > max || secondaries > max {
            *err = true;
            proof {
                assert forall|c: Seq<BoardState>| #[trigger] extends(start, c) implies !quotas_resolved(
                    n as int,
                    c,
                    horizontal,
                ) by {
                    lemma_count_extends(n as int, start, c, horizontal, i as int, BoardState::PRIMARY);
                    lemma_count_extends(
                        n as int,
                        start,
                        c,
                        horizontal,
                        i as int,
                        BoardState::SECONDARY,
                    );
                    if quotas_resolved(n as int, c, horizontal) {
                        assert(quota_resolved(n as int, c, horizontal, i as int));
                    }
                }
            }
            return ;
        }
        if zeroes == 0 {
            proof {
                lemma_count_zero(n as int, board@, horizontal, i as int, BoardState::EMPTY, n as int);
            }
            return ;
        }
        if primaries < max && secondaries < max {
            return ;
        }
        let new_state = if primaries == max {
            BoardState::SECONDARY
        } else {
            BoardState::PRIMARY
        };
        let ghost x = inverse(new_state);
        let mut j: usize = 0;
        while j < n
            invariant
                n == self.size,
                i < n,
                j <= n,
                board.len() == n * n,
                start == old(board)@,
                pruned0 == *old(pruned),
                !*err,
                new_state != BoardState::EMPTY,
                x == inverse(new_state),
                count_in_line(n as int, board@, horizontal, i as int, x, n as int) == n as int / 2,
                primaries <= n / 2,
                secondaries <= n / 2,
                primaries == count_in_line(
                    n as int,
                    start,
                    horizontal,
                    i as int,
                    BoardState::PRIMARY,
                    n as int,
                ),
                secondaries == count_in_line(
                    n as int,
                    start,
                    horizontal,
                    i as int,
                    BoardState::SECONDARY,
                    n as int,
                ),
                forall|k: int|
                    0 <= k < j ==> #[trigger] at(n as int, board@, horizontal, i as int, k)
                        != BoardState::EMPTY,
                extends(start, board@),
                *pruned == (pruned0 || board@ != start),
                forall|c: Seq<BoardState>|
                    #[trigger] extends(start, c) && quotas_resolved(n as int, c, horizontal)
                        ==> extends(board@, c),
            decreases n - j,
        {
            let p = self.index(horizontal, i, j);
            if board[p] == BoardState::EMPTY {
                let ghost before = board@;
                board.set(p, new_state);
                *pruned = true;
                proof {
                    lemma_update_line(n as int, before, horizontal, i as int, j as int, new_state);
                    lemma_count_le(n as int, before, board@, horizontal, i as int, x, n as int);
                    lemma_count_le(n as int, board@, before, horizontal, i as int, x, n as int);
                    assert forall|c: Seq<BoardState>|
                        #[trigger] extends(start, c) && quotas_resolved(
                            n as int,
                            c,
                            horizontal,
                        ) implies extends(board@, c) by {
                        assert(quota_resolved(n as int, c, horizontal, i as int));
                        lemma_count_extends(n as int, before, c, horizontal, i as int, x);
                        if at(n as int, c, horizontal, i as int, j as int) == x {
                            lemma_count_extends_strict(
                                n as int,
                                before,
                                c,
                                horizontal,
                                i as int,
                                x,
                                j as int,
                            );
                        }
                    }
                }
            }
            j += 1;
        }
    }

    /// Applies the exhaustion deduction to every line of one orientation: a
    /// line that holds one symbol in half of its cells has its empty cells
    /// filled with the other symbol.
    ///
    /// A call with `err` set does nothing. Otherwise:
    /// - only empty cells are written, each with the symbol that every board
    ///   above the input on which this deduction is made everywhere holds there;
    /// - `pruned` is set if a cell was written and keeps its value if none was;
    /// - `err` is set if a line is found to hold a symbol in more than half of
    ///   its cells. No board above the input has the deduction made everywhere
    ///   then, and the board is left with that line;
    /// - without `err`, every line of the input that holds a symbol in half of
    ///   its cells is full on the result.
    pub fn has_exhausted_states(
        &self,
        board: &mut Vec<BoardState>,
        horizontal: bool,
        pruned: &mut bool,
        err: &mut bool,
    )
        requires
            old(board).len() == self.size * self.size,
        ensures
            final(board).len() == old(board).len(),
            extends(old(board)@, final(board)@),
            *old(err) ==> *final(err) && final(board)@ == old(board)@,
            *final(pruned) == (*old(pruned) || final(board)@ != old(board)@),
            forall|c: Seq<BoardState>|
                #[trigger] extends(old(board)@, c) && quotas_resolved(self.size as int, c, horizontal)
                    ==> extends(final(board)@, c),
            *final(err) && !*old(err) ==> forall|c: Seq<BoardState>|
                #[trigger] extends(old(board)@, c) ==> !quotas_resolved(
                    self.size as int,
                    c,
                    horizontal,
                ),
            *final(err) && !*old(err) ==> !valid_board(self.size as int, final(board)@),
            !*final(err) ==> quotas_applied(
                self.size as int,
                old(board)@,
                final(board)@,
                horizontal,
            ),
    {
        if *err {
            return ;
        }
        let n = self.size;
        let ghost start = board@;
        let ghost pruned0 = *pruned;
        let mut i: usize = 0;
        while i < n
            invariant
                n == self.size,
                i <= n,
                board.len() == n * n,
                start == old(board)@,
                pruned0 == *old(pruned),
                !*old(err),
                !*err,
                extends(start, board@),
                *pruned == (pruned0 || board@ != start),
                forall|c: Seq<BoardState>|
                    #[trigger] extends(start, c) && quotas_resolved(n as int, c, horizontal)
                        ==> extends(board@, c),
                forall|a: int|
                    0 <= a < i ==> #[trigger] quota_applied(n as int, start, board@, horizontal, a),
            decreases n - i,
        {
            let ghost before = board@;
            self.line_quota(board, horizontal, i, pruned, err);
            proof {
                if board@ == start {
                    lemma_extends_between(start, before, board@);
                }
                assert forall|a: int| 0 <= a < i + 1 && !*err implies #[trigger] quota_applied(
                    n as int,
                    start,
                    board@,
                    horizontal,
                    a,
                ) by {
                    if a < i {
                        lemma_quota_applied_widens(
                            n as int,
                            start,
                            start,
                            before,
                            board@,
                            horizontal,
                            a,
                        );
                    } else {
                        lemma_quota_applied_widens(
                            n as int,
                            start,
                            before,
                            board@,
                            board@,
                            horizontal,
                            a,
                        );
                    }
                }
            }
            if *err {
                return ;
            }
            i += 1;
        }
    }

    /// Applies each deduction once: the three rules to the rows, then the same
    /// rules to the columns. Returns whether a cell was filled and whether a
    /// contradiction was met.
    fn deduce_once(&self, board: &mut Vec<BoardState>) -> (res: (bool, bool))
        requires
            old(board).len() == self.size * self.size,
        ensures
            final(board).len() == old(board).len(),
            extends(old(board)@, final(board)@),
            res.0 == (final(board)@ != old(board)@),
            forall|c: Seq<BoardState>|
                #[trigger] extends(old(board)@, c) && saturated(self.size as int, c) ==> extends(
                    final(board)@,
                    c,
                ),
            res.1 ==> !saturable(self.size as int, old(board)@),
            res.1 ==> !valid_board(self.size as int, final(board)@),
            !res.1 && !res.0 ==> saturated(self.size as int, final(board)@),
    {
        let ghost n = self.size as int;
        let mut pruned = false;
        let mut err = false;
        let ghost b0 = board@;
        self.has_doubles(board, true, &mut pruned, &mut err);
        let ghost b1 = board@;
        self.has_empty_middles(board, true, &mut pruned, &mut err);
        let ghost b2 = board@;
        self.has_exhausted_states(board, true, &mut pruned, &mut err);
        let ghost b3 = board@;
        self.has_doubles(board, false, &mut pruned, &mut err);
        let ghost b4 = board@;
        self.has_empty_middles(board, false, &mut pruned, &mut err);
        let ghost b5 = board@;
        self.has_exhausted_states(board, false, &mut pruned, &mut err);
        let ghost b6 = board@;
        proof {
            if b6 == b0 {
                lemma_extends_between(b0, b5, b6);
                lemma_extends_between(b0, b4, b5);
                lemma_extends_between(b0, b3, b4);
                lemma_extends_between(b0, b2, b3);
                lemma_extends_between(b0, b1, b2);
            }
            assert forall|c: Seq<BoardState>|
                #[trigger] extends(b0, c) && saturated(n, c) implies extends(b6, c) && !err by {}
        }
        (pruned, err)
    }

    /// Runs the propagation engine on `board`: applies the deductions until a
    /// pass fills no cell or meets a contradiction.
    ///
    /// Returns the positions of the cells that were filled, in rising order, and
    /// the contradiction flag. Only empty cells are written, so emptying the
    /// listed cells restores the board exactly.
    ///
    /// The flag is set if and only if no saturated board keeps the symbols of the
    /// input; no valid completion exists then, and the board is left breaking
    /// a rule. Without a contradiction the result is the least saturated board
    /// above the input: it is saturated, and every saturated board above the
    /// input is above it.
    pub fn prune_empty_tiles(&self, board: &mut Vec<BoardState>) -> (res: (Vec<usize>, bool))
        requires
            old(board).len() == self.size * self.size,
        ensures
            final(board).len() == old(board).len(),
            extends(old(board)@, final(board)@),
            res.1 <==> !saturable(self.size as int, old(board)@),
            res.1 ==> !valid_board(self.size as int, final(board)@),
            !res.1 ==> saturated(self.size as int, final(board)@),
            forall|c: Seq<BoardState>|
                #[trigger] extends(old(board)@, c) && saturated(self.size as int, c) ==> extends(
                    final(board)@,
                    c,
                ),
            lists_changes(res.0@, old(board)@, final(board)@),
    {
        let ghost n = self.size as int;
        let ghost start = board@;
        let unpruned_board = copy_board(board);
        let mut done = false;
        let mut contradiction = false;
        while !done
            invariant
                n == self.size,
                board.len() == n * n,
                start == old(board)@,
                extends(start, board@),
                forall|c: Seq<BoardState>|
                    #[trigger] extends(start, c) && saturated(n, c) ==> extends(board@, c),
                !done ==> !contradiction,
                done && contradiction ==> !saturable(n, start) && !valid_board(n, board@),
                done && !contradiction ==> saturated(n, board@),
            decreases
                    count_empty(board@) + if done {
                        0nat
                    } else {
                        1nat
                    },
        {
            let ghost before = board@;
            let (pruned, err) = self.deduce_once(board);
            proof {
                lemma_extends_count_empty(before, board@);
            }
            if err {
                contradiction = true;
                done = true;
            } else if !pruned {
                done = true;
            }
        }
        let mut derived_tiles: Vec<usize> = Vec::new();
        let mut p: usize = 0;
        while p < board.len()
            invariant
                p <= board.len(),
                unpruned_board@ == start,
                board.len() == start.len(),
                forall|k: int|
                    0 <= k < derived_tiles.len() ==> (#[trigger] derived_tiles[k]) < p && board[derived_tiles[k] as int]
                        != start[derived_tiles[k] as int],
                forall|a: int, b: int|
                    0 <= a < b < derived_tiles.len() ==> derived_tiles[a] < derived_tiles[b],
                forall|q: int|
                    0 <= q < p && #[trigger] board[q] != start[q] ==> holds_position(
                        derived_tiles@,
                        q,
                    ),
            decreases board.len() - p,
        {
            if unpruned_board[p] != board[p] {
                let ghost earlier = derived_tiles@;
                derived_tiles.push(p);
                proof {
                    assert(derived_tiles@[earlier.len() as int] == p);
                    assert forall|q: int|
                        0 <= q < p + 1 && #[trigger] board[q] != start[q] implies holds_position(
                        derived_tiles@,
                        q,
                    ) by {
                        if q < p {
                            let k = choose|k: int|
                                0 <= k < earlier.len() && (#[trigger] earlier[k]) as int == q;
                            assert(derived_tiles@[k] as int == q);
                        }
                    }
                }
            }
            p += 1;
        }
        (derived_tiles, contradiction)
    }
}

} // verus!

//! The mathematical model of a board: a sequence of cells read line by line.
//!
//! A line is a row or a column. Both are addressed through [`cell_index`], so
//! every rule is stated once and holds for rows and, transposed, for columns.

use vstd::prelude::*;
use crate::gen_board::BoardState;

verus! {

/// Position in the row-major sequence of cell `j` of line `i`.
///
/// With `horizontal` the line is row `i`, otherwise it is column `i`.
pub open spec fn cell_index(n: int, horizontal: bool, i: int, j: int) -> int {
    if horizontal {
        i * n + j
    } else {
        j * n + i
    }
}

/// Cell `j` of line `i` of the board `s` with side `n`.
pub open spec fn at(n: int, s: Seq<BoardState>, horizontal: bool, i: int, j: int) -> BoardState {
    s[cell_index(n, horizontal, i, j)]
}

/// `s` keeps every symbol of `base`: it differs from `base` only where `base` is empty.
pub open spec fn extends(base: Seq<BoardState>, s: Seq<BoardState>) -> bool {
    &&& base.len() == s.len()
    &&& forall|p: int|
        #![trigger base[p]]
        #![trigger s[p]]
        0 <= p < base.len() && base[p] != BoardState::EMPTY ==> s[p] == base[p]
}

/// No cell of `s` is empty.
pub open spec fn is_full(s: Seq<BoardState>) -> bool {
    forall|p: int| 0 <= p < s.len() ==> #[trigger] s[p] != BoardState::EMPTY
}

/// The number of empty cells of `s`.
pub open spec fn count_empty(s: Seq<BoardState>) -> nat
    decreases s.len(),
{
    if s.len() == 0 {
        0
    } else {
        count_empty(s.drop_last()) + if s.last() == BoardState::EMPTY {
            1nat
        } else {
            0nat
        }
    }
}

/// `p` is one of the positions that `cells` lists.
pub open spec fn holds_position(cells: Seq<usize>, p: int) -> bool {
    exists|k: int| 0 <= k < cells.len() && (#[trigger] cells[k]) as int == p
}

/// `cells` lists, in rising order and each once, the positions at which `after`
/// differs from `before`.
pub open spec fn lists_changes(
    cells: Seq<usize>,
    before: Seq<BoardState>,
    after: Seq<BoardState>,
) -> bool {
    &&& forall|k: int|
        0 <= k < cells.len() ==> (#[trigger] cells[k]) < before.len() && after[cells[k] as int]
            != before[cells[k] as int]
    &&& forall|a: int, b: int| 0 <= a < b < cells.len() ==> cells[a] < cells[b]
    &&& forall|p: int|
        0 <= p < before.len() && #[trigger] after[p] != before[p] ==> holds_position(cells, p)
}

/// A copy of `board`, cell by cell.
pub fn copy_board(board: &Vec<BoardState>) -> (res: Vec<BoardState>)
    ensures
        res@ == board@,
{
    let mut res: Vec<BoardState> = Vec::with_capacity(board.len());
    let mut p: usize = 0;
    while p < board.len()
        invariant
            p <= board.len(),
            res.len() == p,
            forall|q: int| 0 <= q < p ==> res[q] == board[q],
        decreases board.len() - p,
    {
        res.push(board[p]);
        p += 1;
    }
    res
}

/// A cell of a line lies inside the board, and the product `n * n` bounds its index.
pub proof fn lemma_cell_index_bounds(n: int, horizontal: bool, i: int, j: int)
    requires
        0 <= i < n,
        0 <= j < n,
    ensures
        0 <= cell_index(n, horizontal, i, j) < n * n,
{
    assert(0 <= i * n && i * n + n <= n * n && 0 <= j * n && j * n + n <= n * n)
        by (nonlinear_arith)
        requires
            0 <= i < n,
            0 <= j < n,
    ;
}

/// Two cells of one orientation share an index only if they are the same cell.
pub proof fn lemma_cell_index_injective(
    n: int,
    horizontal: bool,
    i1: int,
    j1: int,
    i2: int,
    j2: int,
)
    requires
        0 <= i1 < n,
        0 <= j1 < n,
        0 <= i2 < n,
        0 <= j2 < n,
        cell_index(n, horizontal, i1, j1) == cell_index(n, horizontal, i2, j2),
    ensures
        i1 == i2,
        j1 == j2,
{
    assert(i1 * n + j1 == i2 * n + j2 ==> i1 == i2 && j1 == j2) by (nonlinear_arith)
        requires
            0 <= i1 < n,
            0 <= j1 < n,
            0 <= i2 < n,
            0 <= j2 < n,
    ;
    assert(j1 * n + i1 == j2 * n + i2 ==> i1 == i2 && j1 == j2) by (nonlinear_arith)
        requires
            0 <= i1 < n,
            0 <= j1 < n,
            0 <= i2 < n,
            0 <= j2 < n,
    ;
}

/// Keeping symbols is transitive.
pub proof fn lemma_extends_trans(a: Seq<BoardState>, b: Seq<BoardState>, c: Seq<BoardState>)
    requires
        extends(a, b),
        extends(b, c),
    ensures
        extends(a, c),
{
    assert forall|p: int| 0 <= p < a.len() && #[trigger] a[p] != BoardState::EMPTY implies c[p]
        == a[p] by {}
}

/// A board between two equal boards is equal to both.
pub proof fn lemma_extends_between(a: Seq<BoardState>, b: Seq<BoardState>, c: Seq<BoardState>)
    requires
        extends(a, b),
        extends(b, c),
        a == c,
    ensures
        a == b,
{
}

/// A board that keeps the symbols of another has no more empty cells, and fewer
/// if the two differ.
pub proof fn lemma_extends_count_empty(a: Seq<BoardState>, b: Seq<BoardState>)
    requires
        extends(a, b),
    ensures
        count_empty(b) <= count_empty(a),
        a != b ==> count_empty(b) < count_empty(a),
    decreases a.len(),
{
    if a.len() > 0 {
        let a1 = a.drop_last();
        let b1 = b.drop_last();
        assert forall|p: int| 0 <= p < a1.len() && #[trigger] a1[p] != BoardState::EMPTY implies b1[p]
            == a1[p] by {}
        lemma_extends_count_empty(a1, b1);
        if a != b {
            if a1 == b1 {
                assert(a.last() != b.last()) by {
                    if a.last() == b.last() {
                        assert(a =~= a1.push(a.last()));
                        assert(b =~= b1.push(b.last()));
                    }
                }
            }
        }
    } else {
        assert(a =~= b);
    }
}

/// A board without empty cells counts none, and conversely.
pub proof fn lemma_count_empty_full(s: Seq<BoardState>)
    ensures
        count_empty(s) == 0 <==> is_full(s),
    decreases s.len(),
{
    if s.len() > 0 {
        let s1 = s.drop_last();
        lemma_count_empty_full(s1);
        if count_empty(s) == 0 {
            assert forall|p: int| 0 <= p < s.len() implies #[trigger] s[p] != BoardState::EMPTY by {
                if p < s1.len() {
                    assert(s1[p] == s[p]);
                }
            }
        }
    }
}

/// A board has no more empty cells than cells.
pub proof fn lemma_count_empty_bound(s: Seq<BoardState>)
    ensures
        count_empty(s) <= s.len(),
    decreases s.len(),
{
    if s.len() > 0 {
        lemma_count_empty_bound(s.drop_last());
    }
}

/// Writing one cell changes the number of empty cells by what the cell gains or loses.
pub proof fn lemma_count_empty_update(s: Seq<BoardState>, q: int, v: BoardState)
    requires
        0 <= q < s.len(),
    ensures
        count_empty(s.update(q, v)) + (if s[q] == BoardState::EMPTY {
            1int
        } else {
            0int
        }) == count_empty(s) + (if v == BoardState::EMPTY {
            1int
        } else {
            0int
        }),
    decreases s.len(),
{
    let t = s.update(q, v);
    if q == s.len() - 1 {
        assert(t.drop_last() =~= s.drop_last());
    } else {
        lemma_count_empty_update(s.drop_last(), q, v);
        assert(t.drop_last() =~= s.drop_last().update(q, v));
    }
}

/// A board that keeps the symbols of `a` has as many cells filled beyond `a` as
/// the list of its changes is long.
pub proof fn lemma_changes_count(cells: Seq<usize>, a: Seq<BoardState>, b: Seq<BoardState>)
    requires
        extends(a, b),
        lists_changes(cells, a, b),
    ensures
        count_empty(a) == count_empty(b) + cells.len(),
    decreases cells.len(),
{
    if cells.len() == 0 {
        assert(a =~= b);
    } else {
        let t = cells.last() as int;
        let rest = cells.drop_last();
        let b1 = b.update(t, BoardState::EMPTY);
        assert forall|p: int| 0 <= p < a.len() && #[trigger] a[p] != BoardState::EMPTY implies b1[p]
            == a[p] by {}
        assert forall|k: int| 0 <= k < rest.len() implies (#[trigger] rest[k]) < a.len()
            && b1[rest[k] as int] != a[rest[k] as int] by {}
        assert forall|p: int| 0 <= p < a.len() && #[trigger] b1[p] != a[p] implies holds_position(
            rest,
            p,
        ) by {
            let k = choose|k: int| 0 <= k < cells.len() && (#[trigger] cells[k]) as int == p;
            assert(rest[k] as int == p);
        }
        lemma_changes_count(rest, a, b1);
        lemma_count_empty_update(b, t, BoardState::EMPTY);
    }
}

/// Emptying exactly the changed cells of a board that keeps the symbols of `a`
/// gives `a` back.
pub proof fn lemma_undo(
    cells: Seq<usize>,
    a: Seq<BoardState>,
    b: Seq<BoardState>,
    cleared: Seq<BoardState>,
)
    requires
        extends(a, b),
        lists_changes(cells, a, b),
        cleared.len() == b.len(),
        forall|p: int|
            0 <= p < b.len() ==> #[trigger] cleared[p] == if holds_position(cells, p) {
                BoardState::EMPTY
            } else {
                b[p]
            },
    ensures
        cleared == a,
{
}

/// Only a full board itself keeps all the symbols of a full board.
pub proof fn lemma_full_extends_eq(base: Seq<BoardState>, s: Seq<BoardState>)
    requires
        is_full(base),
        extends(base, s),
    ensures
        s == base,
{
}

} // verus!

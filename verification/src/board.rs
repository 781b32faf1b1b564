//! Board-level specifications: queen placements, the attack relation, and
//! the occupancy grid that mirrors a placement sequence.

use vstd::prelude::*;

verus! {

/// Two squares attack each other when they share a row, a column, or a
/// diagonal.  Columns are distinct throughout this crate (one queen per
/// column), so sharing a column never arises for recorded placements.
pub open spec fn attacks(r1: int, c1: int, r2: int, c2: int) -> bool {
    r1 == r2 || c1 == c2 || r1 + c1 == r2 + c2 || r1 - c1 == r2 - c2
}

/// `queens[c]` is the row of the queen in column `c`; every row is on the board.
pub open spec fn rows_on_board(queens: Seq<usize>, n: int) -> bool {
    forall|i: int| 0 <= i < queens.len() ==> queens[i] < n
}

/// The square `(row, col)` is attacked by none of the queens standing in
/// columns `< col` of the placement sequence.
pub open spec fn safe_at(queens: Seq<usize>, row: int, col: int) -> bool {
    forall|i: int|
        0 <= i < queens.len() && i < col ==> !attacks(queens[i] as int, i, row, col)
}

/// No two placed queens attack each other.
pub open spec fn non_attacking(queens: Seq<usize>) -> bool {
    forall|i: int, j: int|
        0 <= i < j < queens.len() ==> !attacks(queens[i] as int, i, queens[j] as int, j)
}

/// A full solution: one queen in each of the `n` columns, all on the board,
/// mutually non-attacking.
pub open spec fn is_solution(queens: Seq<usize>, n: int) -> bool {
    queens.len() == n && rows_on_board(queens, n) && non_attacking(queens)
}

/// The grid `board` is `n` rows of `n` cells, and cell `(r, c)` holds 1
/// exactly when the placement sequence puts a queen there, 0 otherwise.
pub open spec fn board_shows(board: Seq<Vec<u8>>, queens: Seq<usize>, n: int) -> bool {
    &&& board.len() == n
    &&& forall|r: int| 0 <= r < n ==> (#[trigger] board[r])@.len() == n
    &&& forall|r: int, c: int|
        0 <= r < n && 0 <= c < n ==> (#[trigger] board[r]@[c]) == cell_value(queens, r, c)
}

/// The occupancy bit a correct grid holds at `(r, c)`.
pub open spec fn cell_value(queens: Seq<usize>, r: int, c: int) -> u8 {
    if 0 <= c < queens.len() && queens[c] == r {
        1u8
    } else {
        0u8
    }
}

/// How many of the cells `(r, 0)..(r, n)` of row `r` a correct grid fills:
/// used to pin down "exactly N queens on the board".
pub open spec fn queens_in_row_upto(queens: Seq<usize>, r: int, c: int) -> int
    decreases c,
{
    if c <= 0 {
        0
    } else {
        queens_in_row_upto(queens, r, c - 1) + if cell_value(queens, r, c - 1) == 1 {
            1int
        } else {
            0int
        }
    }
}

/// Appending a queen on a safe square keeps the placements mutually
/// non-attacking.
pub proof fn lemma_non_attacking_push(queens: Seq<usize>, row: usize)
    requires
        non_attacking(queens),
        safe_at(queens, row as int, queens.len() as int),
    ensures
        non_attacking(queens.push(row)),
{
    let q2 = queens.push(row);
    assert forall|i: int, j: int| 0 <= i < j < q2.len() implies !attacks(
        q2[i] as int,
        i,
        q2[j] as int,
        j,
    ) by {
        if j < queens.len() {
            assert(!attacks(queens[i] as int, i, queens[j] as int, j));
        } else {
            assert(!attacks(queens[i] as int, i, row as int, queens.len() as int));
        }
    }
}

/// Removing the last queen keeps the rest mutually non-attacking, on the
/// board, and safe from the square the removed queen stood on.
pub proof fn lemma_non_attacking_drop_last(queens: Seq<usize>)
    requires
        non_attacking(queens),
        queens.len() > 0,
    ensures
        non_attacking(queens.drop_last()),
        safe_at(queens.drop_last(), queens.last() as int, queens.len() - 1),
{
    let q = queens.drop_last();
    assert forall|i: int, j: int| 0 <= i < j < q.len() implies !attacks(
        q[i] as int,
        i,
        q[j] as int,
        j,
    ) by {
        assert(!attacks(queens[i] as int, i, queens[j] as int, j));
    }
    assert forall|i: int| 0 <= i < q.len() && i < queens.len() - 1 implies !attacks(
        q[i] as int,
        i,
        queens.last() as int,
        queens.len() - 1,
    ) by {
        assert(!attacks(queens[i] as int, i, queens[queens.len() - 1] as int, queens.len() - 1));
    }
}

/// Non-attacking queens stand on pairwise distinct rows: sharing a row is
/// already an attack.
pub proof fn lemma_non_attacking_distinct(queens: Seq<usize>)
    requires
        non_attacking(queens),
    ensures
        queens.no_duplicates(),
{
    assert forall|i: int, j: int|
        0 <= i < queens.len() && 0 <= j < queens.len() && i != j implies queens[i]
        != queens[j] by {
        if i < j {
            assert(!attacks(queens[i] as int, i, queens[j] as int, j));
        } else {
            assert(!attacks(queens[j] as int, j, queens[i] as int, i));
        }
    }
}

/// Whether one of the first `c` columns holds a queen on row `r`.
pub open spec fn row_hit(queens: Seq<usize>, r: int, c: int) -> bool {
    exists|cc: int| 0 <= cc < c && cc < queens.len() && queens[cc] == r
}

/// With queens on pairwise distinct rows, row `r` holds a single queen
/// among the first `c` columns when one of their queens stands on it, and
/// none otherwise.
pub proof fn lemma_row_count(queens: Seq<usize>, r: int, c: int)
    requires
        queens.no_duplicates(),
        0 <= c,
    ensures
        queens_in_row_upto(queens, r, c) == if row_hit(queens, r, c) {
            1int
        } else {
            0int
        },
    decreases c,
{
    if c > 0 {
        lemma_row_count(queens, r, c - 1);
        if cell_value(queens, r, c - 1) == 1 {
            assert(!row_hit(queens, r, c - 1)) by {
                if row_hit(queens, r, c - 1) {
                    let cc = choose|cc: int|
                        0 <= cc < c - 1 && cc < queens.len() && queens[cc] == r;
                    assert(queens[cc] == queens[c - 1]);
                }
            }
            assert(row_hit(queens, r, c));
        } else {
            assert(row_hit(queens, r, c) == row_hit(queens, r, c - 1)) by {
                if row_hit(queens, r, c) {
                    let cc = choose|cc: int| 0 <= cc < c && cc < queens.len() && queens[cc] == r;
                    assert(cc != c - 1);
                }
            }
        }
    }
}

/// Queens among the first `r` rows of a correct grid.
pub open spec fn queens_in_rows_upto(queens: Seq<usize>, n: int, r: int) -> int
    decreases r,
{
    if r <= 0 {
        0
    } else {
        queens_in_rows_upto(queens, n, r - 1) + queens_in_row_upto(queens, r - 1, n)
    }
}

/// Summing rows that hold one queen each.
proof fn lemma_rows_sum(queens: Seq<usize>, n: int, r: int)
    requires
        0 <= r,
        forall|rr: int| 0 <= rr < r ==> queens_in_row_upto(queens, rr, n) == 1,
    ensures
        queens_in_rows_upto(queens, n, r) == r,
    decreases r,
{
    if r > 0 {
        lemma_rows_sum(queens, n, r - 1);
    }
}

/// A full solution occupies exactly `n` cells: one queen in every row.
pub proof fn lemma_solution_fills_n(queens: Seq<usize>, n: int)
    requires
        is_solution(queens, n),
    ensures
        queens_in_rows_upto(queens, n, n) == n,
{
    lemma_non_attacking_distinct(queens);
    crate::symmetry::lemma_permutation_covers(queens);
    assert forall|r: int| 0 <= r < n implies queens_in_row_upto(queens, r, n) == 1 by {
        lemma_row_count(queens, r, n);
        assert(crate::symmetry::has_row(queens, r));
        let cc = choose|x: int| 0 <= x < queens.len() && queens[x] == r;
        assert(row_hit(queens, r, n));
    }
    lemma_rows_sum(queens, n, n);
}

/// Occupied cells of row `r` among the first `c` columns of a grid.
pub open spec fn grid_row_ones(board: Seq<Vec<u8>>, r: int, c: int) -> int
    decreases c,
{
    if c <= 0 {
        0
    } else {
        grid_row_ones(board, r, c - 1) + if board[r]@[c - 1] == 1 {
            1int
        } else {
            0int
        }
    }
}

/// Occupied cells of the first `r` rows of a grid.
pub open spec fn grid_ones(board: Seq<Vec<u8>>, n: int, r: int) -> int
    decreases r,
{
    if r <= 0 {
        0
    } else {
        grid_ones(board, n, r - 1) + grid_row_ones(board, r - 1, n)
    }
}

/// Cell by cell, a correct grid's row counts match the placement's.
proof fn lemma_grid_row_congruent(board: Seq<Vec<u8>>, queens: Seq<usize>, n: int, r: int, c: int)
    requires
        board_shows(board, queens, n),
        0 <= r < n,
        0 <= c <= n,
    ensures
        grid_row_ones(board, r, c) == queens_in_row_upto(queens, r, c),
    decreases c,
{
    if c > 0 {
        lemma_grid_row_congruent(board, queens, n, r, c - 1);
        assert(board[r]@[c - 1] == cell_value(queens, r, c - 1));
    }
}

/// Row by row, a correct grid's total count matches the placement's.
proof fn lemma_grid_congruent(board: Seq<Vec<u8>>, queens: Seq<usize>, n: int, r: int)
    requires
        board_shows(board, queens, n),
        0 <= r <= n,
    ensures
        grid_ones(board, n, r) == queens_in_rows_upto(queens, n, r),
    decreases r,
{
    if r > 0 {
        lemma_grid_congruent(board, queens, n, r - 1);
        lemma_grid_row_congruent(board, queens, n, r - 1, n);
    }
}

/// A grid showing a full solution holds exactly `n` occupied cells.
pub proof fn lemma_grid_shows_n_queens(board: Seq<Vec<u8>>, queens: Seq<usize>, n: int)
    requires
        board_shows(board, queens, n),
        is_solution(queens, n),
    ensures
        grid_ones(board, n, n) == n,
{
    lemma_grid_congruent(board, queens, n, n);
    lemma_solution_fills_n(queens, n);
}

} // verus!

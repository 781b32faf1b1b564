//! The abstract search state and its one-step transition.  The executable
//! solver is specified against this model: each `step` call performs exactly
//! the transition `spec_step` describes.

use crate::board::is_solution;
use crate::board::lemma_non_attacking_drop_last;
use crate::board::lemma_non_attacking_push;
use crate::board::non_attacking;
use crate::board::rows_on_board;
use crate::board::safe_at;
use crate::symmetry::symmetric_to;
use vstd::prelude::*;

verus! {

/// Abstract state of the search: board size, the rows of the queens placed
/// so far (indexed by column), the row next to try, the two mode flags, and
/// the ordered log of recorded solutions.
pub ghost struct SolverModel {
    pub n: int,
    pub queens: Seq<usize>,
    pub row: int,
    pub backtracking: bool,
    pub finished: bool,
    pub log: Seq<Seq<usize>>,
}

/// The state every reachable solver satisfies between calls: placements fit
/// the board and do not attack each other, the cursor row never runs past
/// `n`, and every recorded solution is a full non-attacking placement.
pub open spec fn model_inv(m: SolverModel) -> bool {
    &&& 1 <= m.n <= 30
    &&& m.queens.len() <= m.n
    &&& rows_on_board(m.queens, m.n)
    &&& non_attacking(m.queens)
    &&& 0 <= m.row <= m.n
    &&& forall|i: int| 0 <= i < m.log.len() ==> is_solution(#[trigger] m.log[i], m.n)
}

/// The state a freshly built solver starts in.
pub open spec fn initial_model(n: int) -> SolverModel {
    SolverModel {
        n: n,
        queens: Seq::empty(),
        row: 0,
        backtracking: false,
        finished: false,
        log: Seq::empty(),
    }
}

/// The first row at or above `from` that is safe in the next column to fill,
/// or `n` when no row of the column is safe.
pub open spec fn next_safe_row(queens: Seq<usize>, from: int, n: int) -> int
    decreases n - from,
{
    if from < 0 || from >= n {
        n
    } else if safe_at(queens, from, queens.len() as int) {
        from
    } else {
        next_safe_row(queens, from + 1, n)
    }
}

/// What `next_safe_row` finds: a safe row in range, every row skipped over
/// being unsafe, or `n` with every row from `from` up unsafe.
pub proof fn lemma_next_safe_row(queens: Seq<usize>, from: int, n: int)
    requires
        0 <= from,
    ensures
        from <= next_safe_row(queens, from, n) <= n || next_safe_row(queens, from, n) == n,
        next_safe_row(queens, from, n) < n ==> safe_at(
            queens,
            next_safe_row(queens, from, n),
            queens.len() as int,
        ),
        forall|r: int|
            from <= r < next_safe_row(queens, from, n) && r < n ==> !safe_at(
                queens,
                r,
                queens.len() as int,
            ),
    decreases n - from,
{
    if 0 <= from < n && !safe_at(queens, from, queens.len() as int) {
        lemma_next_safe_row(queens, from + 1, n);
    }
}

/// One unit of search work: a finished search changes nothing; in
/// backtrack mode with nothing to pop the search finishes, otherwise the
/// last queen is lifted and its column is rescanned from the next row; a
/// full board is recorded as a solution and backtracking begins; otherwise
/// the current column is scanned from the cursor row, either placing a
/// queen or switching to backtrack mode.  The boolean reports whether this
/// call recorded a solution.
pub open spec fn spec_step(m: SolverModel) -> (SolverModel, bool) {
    if m.finished {
        (m, false)
    } else if m.backtracking && m.queens.len() == 0 {
        (SolverModel { finished: true, ..m }, false)
    } else {
        let m1 = if m.backtracking {
            SolverModel {
                queens: m.queens.drop_last(),
                row: m.queens.last() + 1,
                backtracking: false,
                ..m
            }
        } else {
            m
        };
        if m1.queens.len() == m1.n {
            (SolverModel { log: m1.log.push(m1.queens), backtracking: true, ..m1 }, true)
        } else {
            let r = next_safe_row(m1.queens, m1.row, m1.n);
            if r < m1.n {
                (SolverModel { queens: m1.queens.push(r as usize), row: 0, ..m1 }, false)
            } else {
                (SolverModel { row: m1.n, backtracking: true, ..m1 }, false)
            }
        }
    }
}

/// Solution `i` of the log repeats, up to symmetry, some earlier entry.
/// The first entry of each symmetry class is canonical; the later ones are
/// the tagged duplicates.
pub open spec fn is_dup_at(log: Seq<Seq<usize>>, i: int) -> bool {
    exists|j: int| 0 <= j < i && symmetric_to(log[i], #[trigger] log[j])
}

/// How many of the first `i` log entries opened a new symmetry class.
pub open spec fn canonical_count_upto(log: Seq<Seq<usize>>, i: int) -> int
    decreases i,
{
    if i <= 0 {
        0
    } else {
        canonical_count_upto(log, i - 1) + if is_dup_at(log, i - 1) {
            0int
        } else {
            1int
        }
    }
}

/// Classification is stable: an entry's tag is a function of the entries
/// before it, so recording further solutions never re-tags an earlier one.
pub proof fn lemma_classification_stable(log: Seq<Seq<usize>>, x: Seq<usize>, i: int)
    requires
        0 <= i < log.len(),
    ensures
        is_dup_at(log.push(x), i) == is_dup_at(log, i),
{
    if is_dup_at(log, i) {
        let j = choose|j: int| 0 <= j < i && symmetric_to(log[i], log[j]);
        assert(log.push(x)[i] == log[i] && log.push(x)[j] == log[j]);
        assert(symmetric_to(log.push(x)[i], log.push(x)[j]));
    }
    if is_dup_at(log.push(x), i) {
        let j = choose|j: int| 0 <= j < i && symmetric_to(log.push(x)[i], log.push(x)[j]);
        assert(log.push(x)[i] == log[i] && log.push(x)[j] == log[j]);
        assert(symmetric_to(log[i], log[j]));
    }
}

/// Whichever of two symmetry-equivalent solutions the search records first
/// is canonical, and the later one is classified a duplicate: the
/// equivalence is symmetric, so the order of discovery never changes the
/// partition of the log into symmetry classes, and rerunning the same
/// search reproduces it exactly.
pub proof fn lemma_later_equivalent_is_duplicate(log: Seq<Seq<usize>>, j: int, i: int)
    requires
        forall|k: int| 0 <= k < log.len() ==> crate::symmetry::is_permutation(#[trigger] log[k]),
        0 <= j < i < log.len(),
        symmetric_to(log[j], log[i]) || symmetric_to(log[i], log[j]),
    ensures
        is_dup_at(log, i),
{
    if !symmetric_to(log[i], log[j]) {
        crate::symmetry::lemma_symmetric_to_symmetric(log[j], log[i]);
    }
}

/// Each step preserves the state invariant: in particular the placements
/// stay mutually non-attacking, and everything recorded stays a full
/// solution.
pub proof fn lemma_spec_step_inv(m: SolverModel)
    requires
        model_inv(m),
    ensures
        model_inv(spec_step(m).0),
{
    if m.finished {
    } else if m.backtracking && m.queens.len() == 0 {
    } else {
        let m1 = if m.backtracking {
            SolverModel {
                queens: m.queens.drop_last(),
                row: m.queens.last() + 1,
                backtracking: false,
                ..m
            }
        } else {
            m
        };
        if m.backtracking {
            lemma_non_attacking_drop_last(m.queens);
            assert(rows_on_board(m1.queens, m1.n));
        }
        if m1.queens.len() == m1.n {
            assert(is_solution(m1.queens, m1.n));
            assert forall|i: int| 0 <= i < m1.log.push(m1.queens).len() implies is_solution(
                #[trigger] m1.log.push(m1.queens)[i],
                m1.n,
            ) by {
                if i < m1.log.len() {
                    assert(is_solution(m1.log[i], m1.n));
                }
            }
        } else {
            lemma_next_safe_row(m1.queens, m1.row, m1.n);
            let r = next_safe_row(m1.queens, m1.row, m1.n);
            if r < m1.n {
                lemma_non_attacking_push(m1.queens, r as usize);
                assert(rows_on_board(m1.queens.push(r as usize), m1.n));
            }
        }
    }
}

} // verus!

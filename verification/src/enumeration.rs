//! Completeness of the search: the depth-first order in which full
//! solutions are visited, and the invariant that the log holds exactly the
//! solutions visited so far.  Once the search finishes, every solution of
//! the board stands in the log, each exactly once, in visiting order.

use crate::board::attacks;
use crate::board::is_solution;
use crate::board::non_attacking;
use crate::board::safe_at;
use crate::state::model_inv;
use crate::state::next_safe_row;
use crate::state::lemma_next_safe_row;
use crate::state::spec_step;
use crate::state::SolverModel;
use vstd::prelude::*;

verus! {

/// The first `k` entries agree.
pub open spec fn prefix_eq(s: Seq<usize>, w: Seq<usize>, k: int) -> bool {
    forall|j: int| 0 <= j < k ==> s[j] == #[trigger] w[j]
}

/// `s` comes strictly before `w` in column-by-column order: they agree up
/// to some column in both, where `s` takes a smaller row.
pub open spec fn lex_lt(s: Seq<usize>, w: Seq<usize>) -> bool {
    exists|k: int|
        0 <= k < s.len() && k < w.len() && prefix_eq(s, w, k) && s[k] < #[trigger] w[k]
}

/// `s` extends `w`: `w` is a prefix of `s`.
pub open spec fn extends(s: Seq<usize>, w: Seq<usize>) -> bool {
    w.len() <= s.len() && prefix_eq(s, w, w.len() as int)
}

/// Whether the search at state `m` has already visited the full placement
/// `s`.  Forward mode stands before the subtree of `queens` at the cursor
/// row; backtrack mode stands after that whole subtree; a finished search
/// has visited everything.
pub open spec fn visited(s: Seq<usize>, m: SolverModel) -> bool {
    if m.finished {
        true
    } else if m.backtracking {
        lex_lt(s, m.queens) || extends(s, m.queens)
    } else {
        lex_lt(s, m.queens.push(m.row as usize))
    }
}

/// The log holds exactly the visited solutions, in visiting order: it is
/// strictly increasing, every entry has been visited, and every visited
/// solution is an entry.
pub open spec fn enumerated(m: SolverModel) -> bool {
    &&& forall|i: int, j: int|
        0 <= i < j < m.log.len() ==> lex_lt(#[trigger] m.log[i], #[trigger] m.log[j])
    &&& forall|i: int| 0 <= i < m.log.len() ==> visited(#[trigger] m.log[i], m)
    &&& forall|s: Seq<usize>|
        is_solution(s, m.n) && visited(s, m) ==> #[trigger] m.log.contains(s)
}

/// Nothing comes before itself in visiting order.
pub proof fn lemma_lex_lt_irreflexive(s: Seq<usize>)
    ensures
        !lex_lt(s, s),
{
}

/// Splitting the order at an appended column: `s` comes before `w + [x]`
/// exactly when it comes before `w`, or extends `w` with a smaller row
/// than `x` in the next column.
pub proof fn lemma_lex_lt_push(s: Seq<usize>, w: Seq<usize>, x: usize)
    ensures
        lex_lt(s, w.push(x)) == (lex_lt(s, w) || (w.len() < s.len() && prefix_eq(
            s,
            w,
            w.len() as int,
        ) && s[w.len() as int] < x)),
{
    if lex_lt(s, w.push(x)) {
        let k = choose|k: int|
            0 <= k < s.len() && k < w.push(x).len() && prefix_eq(s, w.push(x), k) && s[k]
                < w.push(x)[k];
        assert forall|j: int| 0 <= j < k implies s[j] == #[trigger] w[j] by {
            assert(s[j] == w.push(x)[j]);
        }
        if k < w.len() {
            assert(prefix_eq(s, w, k));
            assert(s[k] < w[k]);
            assert(lex_lt(s, w));
        } else {
            assert(k == w.len());
            assert(prefix_eq(s, w, w.len() as int));
            assert(s[k] < x);
        }
    }
    if lex_lt(s, w) {
        let k = choose|k: int| 0 <= k < s.len() && k < w.len() && prefix_eq(s, w, k) && s[k] < w[k];
        assert forall|j: int| 0 <= j < k implies s[j] == #[trigger] w.push(x)[j] by {
            assert(s[j] == w[j]);
        }
        assert(prefix_eq(s, w.push(x), k));
        assert(s[k] < w.push(x)[k]);
        assert(lex_lt(s, w.push(x)));
    }
    if w.len() < s.len() && prefix_eq(s, w, w.len() as int) && s[w.len() as int] < x {
        let k = w.len() as int;
        assert forall|j: int| 0 <= j < k implies s[j] == #[trigger] w.push(x)[j] by {
            assert(s[j] == w[j]);
        }
        assert(prefix_eq(s, w.push(x), k));
        assert(s[k] < w.push(x)[k]);
        assert(lex_lt(s, w.push(x)));
    }
}

/// A full placement that extends a same-length prefix is that prefix.
pub proof fn lemma_extends_full(s: Seq<usize>, w: Seq<usize>)
    requires
        s.len() == w.len(),
        extends(s, w),
    ensures
        s == w,
{
    assert(s =~= w);
}

/// A transition that keeps the log and changes only which placements count
/// as visited — without changing that answer for any solution — keeps the
/// log enumerated.
proof fn lemma_enumerated_transfer(m: SolverModel, m2: SolverModel)
    requires
        enumerated(m),
        m2.log == m.log,
        m2.n == m.n,
        forall|i: int| 0 <= i < m.log.len() ==> is_solution(#[trigger] m.log[i], m.n),
        forall|s: Seq<usize>| #![trigger visited(s, m2)]
            is_solution(s, m.n) ==> visited(s, m2) == visited(s, m),
    ensures
        enumerated(m2),
{
    assert forall|i: int| 0 <= i < m2.log.len() implies visited(#[trigger] m2.log[i], m2) by {
        assert(is_solution(m.log[i], m.n));
        assert(visited(m.log[i], m));
        assert(visited(m.log[i], m2) == visited(m.log[i], m));
    }
    assert forall|s: Seq<usize>|
        is_solution(s, m2.n) && visited(s, m2) implies #[trigger] m2.log.contains(s) by {
        assert(visited(s, m) == visited(s, m2));
        assert(m.log.contains(s));
    }
}

/// Lifting the last queen and standing on the next row of its column
/// leaves the set of visited solutions unchanged: the subtree after the
/// lifted placement is exactly what backtrack mode stood after.
proof fn lemma_pop_keeps_visited(s: Seq<usize>, m: SolverModel)
    requires
        model_inv(m),
        !m.finished,
        m.backtracking,
        m.queens.len() > 0,
        is_solution(s, m.n),
    ensures
        visited(
            s,
            SolverModel {
                queens: m.queens.drop_last(),
                row: m.queens.last() + 1,
                backtracking: false,
                ..m
            },
        ) == visited(s, m),
{
    let q = m.queens;
    let w = q.drop_last();
    let last = q.last();
    assert(q =~= w.push(last));
    lemma_lex_lt_push(s, w, last);
    lemma_lex_lt_push(s, w, (last + 1) as usize);
    assert(w.len() < s.len());
    // extending the popped placement means extending its parent with
    // exactly the popped row
    assert(extends(s, q) == (prefix_eq(s, w, w.len() as int) && s[w.len() as int] == last)) by {
        if extends(s, q) {
            assert forall|j: int| 0 <= j < w.len() implies s[j] == #[trigger] w[j] by {
                assert(s[j] == q[j]);
            }
            assert(s[w.len() as int] == q[w.len() as int]);
        }
        if prefix_eq(s, w, w.len() as int) && s[w.len() as int] == last {
            assert forall|j: int| 0 <= j < q.len() implies s[j] == #[trigger] q[j] by {
                if j < w.len() {
                    assert(s[j] == w[j]);
                }
            }
        }
    }
}

/// Placing a queen on the first safe row and resetting the cursor to the
/// next column's first row leaves the set of visited solutions unchanged:
/// the rows skipped over admit no solution.
proof fn lemma_place_keeps_visited(s: Seq<usize>, m: SolverModel)
    requires
        model_inv(m),
        !m.finished,
        !m.backtracking,
        m.queens.len() < m.n,
        next_safe_row(m.queens, m.row, m.n) < m.n,
        is_solution(s, m.n),
    ensures
        visited(
            s,
            SolverModel {
                queens: m.queens.push(next_safe_row(m.queens, m.row, m.n) as usize),
                row: 0,
                ..m
            },
        ) == visited(s, m),
{
    let q = m.queens;
    let r = next_safe_row(q, m.row, m.n);
    lemma_next_safe_row(q, m.row, m.n);
    lemma_lex_lt_push(s, q, m.row as usize);
    lemma_lex_lt_push(s, q, r as usize);
    lemma_lex_lt_push(s, q.push(r as usize), 0);
    assert(q.len() < s.len());
    if prefix_eq(s, q, q.len() as int) && m.row <= s[q.len() as int] < r {
        // the skipped rows are all unsafe, so no solution takes one
        lemma_solution_row_is_safe(s, q, m.n);
        assert(!safe_at(q, s[q.len() as int] as int, q.len() as int));
    }
}

/// Switching to backtrack mode when the column offers no further safe row
/// leaves the set of visited solutions unchanged: the rows left to try
/// admit no solution.
proof fn lemma_fail_keeps_visited(s: Seq<usize>, m: SolverModel)
    requires
        model_inv(m),
        !m.finished,
        !m.backtracking,
        m.queens.len() < m.n,
        next_safe_row(m.queens, m.row, m.n) == m.n,
        is_solution(s, m.n),
    ensures
        visited(s, SolverModel { row: m.n, backtracking: true, ..m }) == visited(s, m),
{
    let q = m.queens;
    lemma_next_safe_row(q, m.row, m.n);
    lemma_lex_lt_push(s, q, m.row as usize);
    assert(q.len() < s.len());
    if prefix_eq(s, q, q.len() as int) && m.row <= s[q.len() as int] {
        lemma_solution_row_is_safe(s, q, m.n);
        assert(!safe_at(q, s[q.len() as int] as int, q.len() as int));
        assert(false);
    }
    if extends(s, q) && s[q.len() as int] < m.row {
        assert(lex_lt(s, q.push(m.row as usize)));
    }
}

/// Every step keeps the log enumerated: each transition preserves the set
/// of visited solutions, except recording, which appends exactly the one
/// newly visited placement.
pub proof fn lemma_step_enumerated(m: SolverModel)
    requires
        model_inv(m),
        enumerated(m),
    ensures
        enumerated(spec_step(m).0),
{
    let m2 = spec_step(m).0;
    if m.finished {
        assert(m2 == m);
    } else if m.backtracking && m.queens.len() == 0 {
        // the whole tree stands behind the cursor: everything counts as
        // visited already, so the log was already complete
        assert forall|s: Seq<usize>| #![trigger visited(s, m2)]
            is_solution(s, m.n) implies visited(s, m2) == visited(s, m) by {
            assert(prefix_eq(s, m.queens, 0));
            assert(extends(s, m.queens));
        }
        lemma_enumerated_transfer(m, m2);
    } else {
        let m1 = if m.backtracking {
            SolverModel {
                queens: m.queens.drop_last(),
                row: m.queens.last() + 1,
                backtracking: false,
                ..m
            }
        } else {
            m
        };
        if m.backtracking {
            crate::board::lemma_non_attacking_drop_last(m.queens);
            assert forall|i: int| 0 <= i < m1.queens.len() implies #[trigger] m1.queens[i]
                < m1.n by {
                assert(m1.queens[i] == m.queens[i]);
            }
            assert(model_inv(m1));
            assert forall|s: Seq<usize>| #![trigger visited(s, m1)]
                is_solution(s, m.n) implies visited(s, m1) == visited(s, m) by {
                lemma_pop_keeps_visited(s, m);
            }
            lemma_enumerated_transfer(m, m1);
        }
        assert(model_inv(m1) && enumerated(m1) && !m1.backtracking && !m1.finished);
        if m1.queens.len() == m1.n {
            let q1 = m1.queens;
            assert(m2 == (SolverModel { log: m1.log.push(q1), backtracking: true, ..m1 }));
            assert(is_solution(q1, m1.n));
            // before this call the cursor stood at the subtree of the full
            // placement itself, which is its own single leaf
            assert forall|s: Seq<usize>| #![trigger visited(s, m1)]
                is_solution(s, m1.n) implies visited(s, m1) == lex_lt(s, q1) by {
                lemma_lex_lt_push(s, q1, m1.row as usize);
            }
            assert forall|s: Seq<usize>| #![trigger visited(s, m2)]
                is_solution(s, m1.n) implies visited(s, m2) == (lex_lt(s, q1) || s == q1) by {
                if extends(s, q1) {
                    lemma_extends_full(s, q1);
                }
                if s == q1 {
                    assert(prefix_eq(s, q1, q1.len() as int));
                    assert(extends(s, q1));
                }
            }
            assert forall|i: int, j: int| 0 <= i < j < m2.log.len() implies lex_lt(
                #[trigger] m2.log[i],
                #[trigger] m2.log[j],
            ) by {
                if j < m1.log.len() {
                    assert(m2.log[i] == m1.log[i] && m2.log[j] == m1.log[j]);
                    assert(lex_lt(m1.log[i], m1.log[j]));
                } else {
                    assert(m2.log[i] == m1.log[i] && m2.log[j] == q1);
                    assert(is_solution(m1.log[i], m1.n));
                    assert(visited(m1.log[i], m1));
                    assert(lex_lt(m1.log[i], q1));
                }
            }
            assert forall|i: int| 0 <= i < m2.log.len() implies visited(
                #[trigger] m2.log[i],
                m2,
            ) by {
                if i < m1.log.len() {
                    assert(m2.log[i] == m1.log[i]);
                    assert(is_solution(m1.log[i], m1.n));
                    assert(visited(m1.log[i], m1));
                } else {
                    assert(m2.log[i] == q1);
                    assert(visited(q1, m2) == (lex_lt(q1, q1) || q1 == q1));
                }
            }
            assert forall|s: Seq<usize>|
                is_solution(s, m2.n) && visited(s, m2) implies #[trigger] m2.log.contains(s) by {
                if s == q1 {
                    assert(m2.log[m1.log.len() as int] == q1);
                } else {
                    assert(lex_lt(s, q1));
                    assert(visited(s, m1));
                    assert(m1.log.contains(s));
                    let i = choose|i: int| 0 <= i < m1.log.len() && m1.log[i] == s;
                    assert(m2.log[i] == s);
                }
            }
        } else {
            let r = next_safe_row(m1.queens, m1.row, m1.n);
            lemma_next_safe_row(m1.queens, m1.row, m1.n);
            if r < m1.n {
                assert(m2 == (SolverModel {
                    queens: m1.queens.push(r as usize),
                    row: 0,
                    ..m1
                }));
                assert forall|s: Seq<usize>| #![trigger visited(s, m2)]
                    is_solution(s, m1.n) implies visited(s, m2) == visited(s, m1) by {
                    lemma_place_keeps_visited(s, m1);
                }
                lemma_enumerated_transfer(m1, m2);
            } else {
                assert(m2 == (SolverModel { row: m1.n, backtracking: true, ..m1 }));
                assert forall|s: Seq<usize>| #![trigger visited(s, m2)]
                    is_solution(s, m1.n) implies visited(s, m2) == visited(s, m1) by {
                    lemma_fail_keeps_visited(s, m1);
                }
                lemma_enumerated_transfer(m1, m2);
            }
        }
    }
}

/// When the search has finished, the enumerated log is the complete list
/// of solutions: every full non-attacking placement of the board stands in
/// it, and none stands in it twice.
pub proof fn lemma_finished_log_complete(m: SolverModel)
    requires
        model_inv(m),
        enumerated(m),
        m.finished,
    ensures
        forall|s: Seq<usize>| is_solution(s, m.n) ==> #[trigger] m.log.contains(s),
        forall|i: int, j: int| 0 <= i < j < m.log.len() ==> m.log[i] != m.log[j],
{
    assert forall|i: int, j: int| 0 <= i < j < m.log.len() implies m.log[i] != m.log[j] by {
        assert(lex_lt(m.log[i], m.log[j]));
        lemma_lex_lt_irreflexive(m.log[j]);
    }
}

/// A fresh engine has visited nothing and recorded nothing.
pub proof fn lemma_initial_enumerated(n: int)
    ensures
        enumerated(crate::state::initial_model(n)),
{
    let m = crate::state::initial_model(n);
    assert forall|s: Seq<usize>|
        is_solution(s, m.n) && visited(s, m) implies #[trigger] m.log.contains(s) by {
        lemma_lex_lt_push(s, Seq::<usize>::empty(), 0);
        assert(!lex_lt(s, Seq::<usize>::empty()));
        assert(false);
    }
}

/// A solution only runs through safe squares: wherever a full solution
/// extends a partial placement, the next row it takes is unattacked.
pub proof fn lemma_solution_row_is_safe(s: Seq<usize>, w: Seq<usize>, n: int)
    requires
        is_solution(s, n),
        w.len() < n,
        prefix_eq(s, w, w.len() as int),
    ensures
        safe_at(w, s[w.len() as int] as int, w.len() as int),
{
    let col = w.len() as int;
    let rr = s[col] as int;
    if !safe_at(w, rr, col) {
        let i = choose|i: int| 0 <= i < w.len() && i < col && attacks(w[i] as int, i, rr, col);
        assert(s[i] == w[i]);
        assert(attacks(s[i] as int, i, s[col] as int, col));
        assert(!non_attacking(s));
    }
}

} // verus!

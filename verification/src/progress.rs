//! A termination measure for the search: each step strictly increases a
//! bounded progress value, so driving `step` to the finished state takes
//! finitely many calls.
//!
//! The progress value reads the solver state as a number written in base
//! `n + 3`: one digit per placed queen (most significant first), one digit
//! for the cursor row, and the backtracking flag as a final tie-breaker.
//! Every transition of `spec_step` moves the search strictly forward in
//! this numbering.

use crate::state::model_inv;
use crate::state::next_safe_row;
use crate::state::lemma_next_safe_row;
use crate::state::spec_step;
use crate::state::SolverModel;
use crate::board::rows_on_board;
use vstd::arithmetic::power::pow;
use vstd::arithmetic::power::lemma_pow_adds;
use vstd::arithmetic::power::lemma_pow1;
use vstd::arithmetic::power::lemma_pow_positive;
use vstd::prelude::*;

verus! {

/// The digit base: strictly larger than any digit (a row index reaches at
/// most `n`, so a digit reaches at most `n + 1`), with one unit to spare so
/// that carrying arguments stay strict.
pub open spec fn radix(n: int) -> int {
    n + 3
}

/// Value of the queen digits from column `i` on, column `i` carrying weight
/// `radix(n) ^ (n - i)`.
pub open spec fn weight_from(queens: Seq<usize>, n: int, i: int) -> int
    decreases queens.len() - i,
{
    if i < 0 || i >= queens.len() {
        0
    } else {
        (queens[i] + 1) * pow(radix(n), (n - i) as nat) + weight_from(queens, n, i + 1)
    }
}

/// How far the search has moved through its tree, as one integer.
pub open spec fn progress_value(m: SolverModel) -> int {
    weight_from(m.queens, m.n, 0) + (m.row + 1) * pow(radix(m.n), (m.n - m.queens.len()) as nat)
        + if m.backtracking {
        1int
    } else {
        0int
    }
}

/// Steps remaining, roughly: what separates the progress value from its
/// ceiling.  Zero once the search has finished.
pub open spec fn search_measure(m: SolverModel) -> int {
    if m.finished {
        0
    } else {
        pow(radix(m.n), (m.n + 2) as nat) - progress_value(m)
    }
}

/// Appending a queen adds exactly that queen's digit.
proof fn lemma_weight_push(queens: Seq<usize>, n: int, r: usize, i: int)
    requires
        0 <= i <= queens.len(),
    ensures
        weight_from(queens.push(r), n, i) == weight_from(queens, n, i) + (r + 1) * pow(
            radix(n),
            (n - queens.len()) as nat,
        ),
    decreases queens.len() - i,
{
    if i < queens.len() {
        lemma_weight_push(queens, n, r, i + 1);
        assert(queens.push(r)[i] == queens[i]);
    } else {
        assert(queens.push(r)[i] == r);
        assert(weight_from(queens.push(r), n, i + 1) == 0);
        assert(weight_from(queens, n, i) == 0);
    }
}

/// Queen digits are never negative.
proof fn lemma_weight_nonneg(queens: Seq<usize>, n: int, i: int)
    requires
        n >= 1,
        queens.len() <= n,
    ensures
        weight_from(queens, n, i) >= 0,
    decreases queens.len() - i,
{
    if 0 <= i < queens.len() {
        lemma_weight_nonneg(queens, n, i + 1);
        lemma_pow_positive(radix(n), (n - i) as nat);
        let p = pow(radix(n), (n - i) as nat);
        assert((queens[i] + 1) * p >= 0) by (nonlinear_arith)
            requires
                p >= 1,
        ;
    }
}

/// The queen digits from column `i` on stay below the weight of column
/// `i - 1`: the digit string never carries past its width.
proof fn lemma_weight_bound(queens: Seq<usize>, n: int, i: int)
    requires
        1 <= n <= 30,
        queens.len() <= n,
        rows_on_board(queens, n),
        0 <= i,
    ensures
        weight_from(queens, n, i) < pow(radix(n), (n - i + 1) as nat),
    decreases queens.len() - i,
{
    lemma_pow_positive(radix(n), (n - i + 1) as nat);
    if i < queens.len() {
        lemma_weight_bound(queens, n, i + 1);
        lemma_pow_positive(radix(n), (n - i) as nat);
        let p = pow(radix(n), (n - i) as nat);
        assert(pow(radix(n), (n - i + 1) as nat) == radix(n) * p) by {
            lemma_pow1(radix(n));
            lemma_pow_adds(radix(n), 1, (n - i) as nat);
            assert((1 + (n - i) as nat) as nat == (n - i + 1) as nat);
        }
        let d = queens[i] + 1;
        assert(d * p + p <= radix(n) * p) by (nonlinear_arith)
            requires
                p >= 1,
                1 <= d,
                d + 2 <= radix(n),
        ;
    }
}

/// The progress value of a reachable state is bounded by its ceiling, with
/// room to spare for the flag and the cursor digit.
pub proof fn lemma_progress_bounds(m: SolverModel)
    requires
        model_inv(m),
    ensures
        0 <= progress_value(m),
        progress_value(m) < pow(radix(m.n), (m.n + 2) as nat),
{
    let n = m.n;
    let k = radix(n);
    let len = m.queens.len() as int;
    lemma_weight_nonneg(m.queens, n, 0);
    lemma_weight_bound(m.queens, n, 0);
    let pcur = pow(k, (n - len) as nat);
    let pn1 = pow(k, (n + 1) as nat);
    let pn2 = pow(k, (n + 2) as nat);
    lemma_pow_positive(k, (n - len) as nat);
    lemma_pow_positive(k, (n + 1) as nat);
    assert((m.row + 1) * pcur >= 0) by (nonlinear_arith)
        requires
            pcur >= 1,
            m.row >= 0,
    ;
    assert(pow(k, (n + 1) as nat) * k == pn2) by {
        lemma_pow1(k);
        lemma_pow_adds(k, (n + 1) as nat, 1);
        assert(((n + 1) as nat + 1nat) as nat == (n + 2) as nat);
    }
    assert(pcur * pow(k, (len + 2) as nat) == pn2) by {
        lemma_pow_adds(k, (n - len) as nat, (len + 2) as nat);
        assert(((n - len) as nat + (len + 2) as nat) as nat == (n + 2) as nat);
    }
    lemma_pow_positive(k, (len + 2) as nat);
    let pl2 = pow(k, (len + 2) as nat);
    assert(pn1 >= k && pl2 >= k) by {
        lemma_pow1(k);
        vstd::arithmetic::power::lemma_pow_increases(k as nat, 1, (n + 1) as nat);
        vstd::arithmetic::power::lemma_pow_increases(k as nat, 1, (len + 2) as nat);
    }
    let lhs = (m.row + 1) * pcur;
    assert(pn1 >= pcur) by (nonlinear_arith)
        requires
            pn1 * k == pcur * pl2,
            pl2 >= k,
            k >= 1,
            pcur >= 0,
    ;
    assert(pn1 * (k - 2) >= pcur * (k - 2)) by (nonlinear_arith)
        requires
            pn1 >= pcur,
            k >= 2,
    ;
    assert(pcur * (k - 2) >= lhs) by (nonlinear_arith)
        requires
            k == n + 3,
            0 <= m.row <= n,
            pcur >= 0,
            lhs == (m.row + 1) * pcur,
    ;
    assert(pn1 * (k - 1) == pn1 * (k - 2) + pn1) by (nonlinear_arith);
    assert(pn1 * (k - 1) == pn1 * k - pn1) by (nonlinear_arith);
    assert((m.row + 1) * pcur + 1 < pcur * pl2 - pn1);
}

/// Each step from an unfinished state strictly shrinks the measure, which
/// never goes negative: repeated stepping reaches `finished` in finitely
/// many calls.
pub proof fn lemma_step_measure(m: SolverModel)
    requires
        model_inv(m),
        !m.finished,
    ensures
        search_measure(m) > 0,
        search_measure(spec_step(m).0) < search_measure(m),
{
    let n = m.n;
    let k = radix(n);
    let q = m.queens;
    let len = q.len() as int;
    lemma_progress_bounds(m);
    let m2 = spec_step(m).0;
    if m.backtracking && len == 0 {
        // the search finishes: the measure drops to zero
    } else {
        let m1 = if m.backtracking {
            SolverModel {
                queens: q.drop_last(),
                row: q.last() + 1,
                backtracking: false,
                ..m
            }
        } else {
            m
        };
        if m.backtracking {
            assert(q.drop_last().push(q.last()) =~= q);
            lemma_weight_push(q.drop_last(), n, q.last(), 0);
        }
        let len1 = m1.queens.len() as int;
        let p0 = pow(k, (n - len1) as nat);
        lemma_pow_positive(k, (n - len1) as nat);
        if m1.queens.len() == n {
            // solution recorded: only the flag digit moves, from 0 to 1
            assert(progress_value(m2) == progress_value(m) + 1);
        } else {
            lemma_next_safe_row(m1.queens, m1.row, n);
            let r = next_safe_row(m1.queens, m1.row, n);
            let p1 = pow(k, (n - len1 - 1) as nat);
            lemma_pow_positive(k, (n - len1 - 1) as nat);
            assert(p0 == k * p1) by {
                lemma_pow1(k);
                lemma_pow_adds(k, 1, (n - len1 - 1) as nat);
                assert((1nat + (n - len1 - 1) as nat) as nat == (n - len1) as nat);
            }
            if r < n {
                lemma_weight_push(m1.queens, n, r as usize, 0);
                // the new queen's digit rises at least one step above the
                // popped queen's digit, outweighing the lower digits
                assert(progress_value(m2) == weight_from(m1.queens, n, 0) + (r + 1) * p0 + p1);
                if m.backtracking {
                    assert(progress_value(m) == weight_from(m1.queens, n, 0) + (q.last() + 1) * p0
                        + (m.row + 1) * p1 + 1);
                    assert((r + 1) * p0 + p1 > (q.last() + 1) * p0 + (m.row + 1) * p1 + 1)
                        by (nonlinear_arith)
                        requires
                            p0 == k * p1,
                            p1 >= 1,
                            r >= q.last() + 1,
                            0 <= m.row <= n,
                            k == n + 3,
                            n >= 1,
                    ;
                } else {
                    assert(progress_value(m) == weight_from(m1.queens, n, 0) + (m.row + 1) * p0);
                    assert((r + 1) * p0 + p1 > (m.row + 1) * p0) by (nonlinear_arith)
                        requires
                            p0 >= 1,
                            p1 >= 1,
                            r >= m.row,
                    ;
                }
            } else {
                assert(progress_value(m2) == weight_from(m1.queens, n, 0) + (n + 1) * p0 + 1);
                if m.backtracking {
                    assert(progress_value(m) == weight_from(m1.queens, n, 0) + (q.last() + 1) * p0
                        + (m.row + 1) * p1 + 1);
                    assert((n + 1) * p0 + 1 > (q.last() + 1) * p0 + (m.row + 1) * p1 + 1)
                        by (nonlinear_arith)
                        requires
                            p0 == k * p1,
                            p1 >= 1,
                            q.last() < n,
                            0 <= m.row <= n,
                            k == n + 3,
                            n >= 1,
                    ;
                } else {
                    assert(progress_value(m) == weight_from(m1.queens, n, 0) + (m.row + 1) * p0);
                    assert((n + 1) * p0 + 1 > (m.row + 1) * p0) by (nonlinear_arith)
                        requires
                            p0 >= 1,
                            m.row <= n,
                    ;
                }
            }
        }
    }
}

} // verus!

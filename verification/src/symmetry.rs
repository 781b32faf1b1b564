//! The eight symmetries of the square acting on row permutations, and the
//! facts about them that solution deduplication rests on: a permutation's
//! image under a symmetry is unique, and the induced equivalence between
//! solutions is symmetric.

use crate::board::rows_on_board;
use vstd::prelude::*;
use vstd::set_lib::lemma_int_range;
use vstd::set_lib::lemma_subset_equality;
use vstd::set_lib::set_int_range;

verus! {

/// A valid row permutation: one row per column, each row on the board,
/// no two columns sharing a row.
pub open spec fn is_permutation(p: Seq<usize>) -> bool {
    rows_on_board(p, p.len() as int) && p.no_duplicates()
}

/// Column of the image of square `(x, y)` under symmetry `k` of an
/// `n` x `n` board.  The eight symmetries are, in order: identity,
/// horizontal flip, then each quarter rotation followed by its flip.
pub open spec fn sym_col(k: int, x: int, y: int, n: int) -> int {
    if k == 0 {
        x
    } else if k == 1 {
        n - 1 - x
    } else if k == 2 {
        y
    } else if k == 3 {
        n - 1 - y
    } else if k == 4 {
        n - 1 - x
    } else if k == 5 {
        x
    } else if k == 6 {
        n - 1 - y
    } else {
        y
    }
}

/// Row of the image of square `(x, y)` under symmetry `k`.
pub open spec fn sym_row(k: int, x: int, y: int, n: int) -> int {
    if k == 0 {
        y
    } else if k == 1 {
        y
    } else if k == 2 {
        n - 1 - x
    } else if k == 3 {
        n - 1 - x
    } else if k == 4 {
        n - 1 - y
    } else if k == 5 {
        n - 1 - y
    } else if k == 6 {
        x
    } else {
        x
    }
}

/// `q` is the image of `p` under symmetry `k`: transforming each queen
/// square of `p` lands exactly on the queen squares of `q`.
pub open spec fn variant_rel(p: Seq<usize>, q: Seq<usize>, k: int) -> bool {
    let n = p.len() as int;
    &&& q.len() == p.len()
    &&& forall|x: int| #![trigger p[x]]
        0 <= x < n ==> 0 <= sym_col(k, x, p[x] as int, n) < n && q[sym_col(
            k,
            x,
            p[x] as int,
            n,
        )] as int == sym_row(k, x, p[x] as int, n)
}

/// `q` is symmetry-equivalent to `p`: some symmetry carries `p` onto `q`.
pub open spec fn symmetric_to(p: Seq<usize>, q: Seq<usize>) -> bool {
    exists|k: int| 0 <= k < 8 && variant_rel(p, q, k)
}

/// Some column of `p` holds row `v`.
pub open spec fn has_row(p: Seq<usize>, v: int) -> bool {
    exists|x: int| 0 <= x < p.len() && p[x] == v
}

/// Every row value below the board size occurs in `p`.
pub open spec fn covers(p: Seq<usize>) -> bool {
    forall|v: int| 0 <= v < p.len() ==> #[trigger] has_row(p, v)
}

/// A permutation of `n` distinct rows, all below `n`, hits every row below
/// `n`: the pigeonhole argument behind inverting a symmetry.
pub proof fn lemma_permutation_covers(p: Seq<usize>)
    requires
        is_permutation(p),
    ensures
        covers(p),
{
    broadcast use vstd::seq_lib::seq_to_set_is_finite;
    broadcast use vstd::set::group_set_axioms;

    let n = p.len() as int;
    let pi = p.map_values(|u: usize| u as int);
    assert(pi.no_duplicates());
    pi.unique_seq_to_set();
    lemma_int_range(0, n);
    assert(pi.to_set().subset_of(set_int_range(0, n))) by {
        assert forall|v: int| pi.to_set().contains(v) implies set_int_range(0, n).contains(v) by {
            let i = choose|i: int| 0 <= i < pi.len() && pi[i] == v;
            assert(p[i] < n);
        }
    }
    lemma_subset_equality(pi.to_set(), set_int_range(0, n));
    assert forall|v: int| 0 <= v < p.len() implies #[trigger] has_row(p, v) by {
        assert(set_int_range(0, n).contains(v));
        assert(pi.to_set().contains(v));
        let i = choose|i: int| 0 <= i < pi.len() && pi[i] == v;
        assert(0 <= i < p.len() && p[i] == v);
    }
}

/// For each symmetry `k` and target column `xx`, some queen square of `p`
/// is carried into column `xx`.
pub proof fn lemma_sym_col_onto(p: Seq<usize>, k: int, xx: int) -> (x: int)
    requires
        is_permutation(p),
        0 <= k < 8,
        0 <= xx < p.len(),
    ensures
        0 <= x < p.len(),
        sym_col(k, x, p[x] as int, p.len() as int) == xx,
{
    let n = p.len() as int;
    if k == 0 || k == 5 {
        xx
    } else if k == 1 || k == 4 {
        n - 1 - xx
    } else {
        let t: int = if k == 2 || k == 7 {
            xx
        } else {
            n - 1 - xx
        };
        lemma_permutation_covers(p);
        assert(has_row(p, t));
        let x = choose|x: int| 0 <= x < p.len() && p[x] == t;
        assert(sym_col(k, x, p[x] as int, n) == xx);
        x
    }
}

/// A symmetry has one image: two sequences that both satisfy the transform
/// relation for the same `p` and `k` are equal.
pub proof fn lemma_variant_unique(p: Seq<usize>, q1: Seq<usize>, q2: Seq<usize>, k: int)
    requires
        is_permutation(p),
        0 <= k < 8,
        variant_rel(p, q1, k),
        variant_rel(p, q2, k),
    ensures
        q1 == q2,
{
    let n = p.len() as int;
    assert forall|xx: int| 0 <= xx < q1.len() implies q1[xx] == q2[xx] by {
        let x = lemma_sym_col_onto(p, k, xx);
        assert(q1[xx] as int == sym_row(k, x, p[x] as int, n));
        assert(q2[xx] as int == sym_row(k, x, p[x] as int, n));
    }
    assert(q1 =~= q2);
}

/// The symmetry that undoes symmetry `k`: the two quarter rotations are
/// inverse to each other, every other transform is its own inverse.
pub open spec fn sym_inverse(k: int) -> int {
    if k == 2 {
        6
    } else if k == 6 {
        2
    } else {
        k
    }
}

/// Symmetry-equivalence of solutions is symmetric: if symmetry `k` carries
/// `p` onto `q`, then its inverse carries `q` back onto `p`.  This is what
/// makes "duplicate of an earlier solution" independent of which of two
/// equivalent solutions the search happens to reach first.
pub proof fn lemma_variant_symmetric(p: Seq<usize>, q: Seq<usize>, k: int)
    requires
        is_permutation(p),
        0 <= k < 8,
        variant_rel(p, q, k),
    ensures
        variant_rel(q, p, sym_inverse(k)),
{
    let n = p.len() as int;
    let k2 = sym_inverse(k);
    assert forall|xx: int| #![trigger q[xx]] 0 <= xx < n implies 0 <= sym_col(
        k2,
        xx,
        q[xx] as int,
        n,
    ) < n && p[sym_col(k2, xx, q[xx] as int, n)] as int == sym_row(k2, xx, q[xx] as int, n) by {
        let x = lemma_sym_col_onto(p, k, xx);
        assert(q[xx] as int == sym_row(k, x, p[x] as int, n));
        assert(p[x] < n);
        assert(sym_col(k2, xx, q[xx] as int, n) == x);
        assert(sym_row(k2, xx, q[xx] as int, n) == p[x] as int);
    }
}

/// Exchanging the roles of two symmetry-equivalent solutions preserves the
/// equivalence.
pub proof fn lemma_symmetric_to_symmetric(p: Seq<usize>, q: Seq<usize>)
    requires
        is_permutation(p),
        symmetric_to(p, q),
    ensures
        symmetric_to(q, p),
{
    let k = choose|k: int| 0 <= k < 8 && variant_rel(p, q, k);
    lemma_variant_symmetric(p, q, k);
    assert(0 <= sym_inverse(k) < 8);
}

/// Builds the image of `sol` under symmetry `k`: queen squares are mapped
/// through the transform and refiled by their new column.
pub fn apply_symmetry(sol: &[usize], k: usize) -> (v: Vec<usize>)
    requires
        is_permutation(sol@),
        k < 8,
    ensures
        variant_rel(sol@, v@, k as int),
{
    let n = sol.len();
    let mut v: Vec<usize> = Vec::new();
    let mut i: usize = 0;
    while i < n
        invariant
            v@.len() == i <= n == sol@.len(),
        decreases n - i,
    {
        v.push(0);
        i = i + 1;
    }
    let mut x: usize = 0;
    while x < n
        invariant
            is_permutation(sol@),
            k < 8,
            x <= n == sol@.len() == v@.len(),
            forall|x0: int| #![trigger sol@[x0]]
                0 <= x0 < x ==> 0 <= sym_col(k as int, x0, sol@[x0] as int, n as int) < n
                    && v@[sym_col(k as int, x0, sol@[x0] as int, n as int)] as int == sym_row(
                    k as int,
                    x0,
                    sol@[x0] as int,
                    n as int,
                ),
        decreases n - x,
    {
        let y = sol[x];
        assert(y < n);
        let xx: usize = if k == 0 || k == 5 {
            x
        } else if k == 1 || k == 4 {
            n - 1 - x
        } else if k == 2 || k == 7 {
            y
        } else {
            n - 1 - y
        };
        let yy: usize = if k == 0 || k == 1 {
            y
        } else if k == 2 || k == 3 {
            n - 1 - x
        } else if k == 4 || k == 5 {
            n - 1 - y
        } else {
            x
        };
        assert(xx as int == sym_col(k as int, x as int, y as int, n as int));
        assert(yy as int == sym_row(k as int, x as int, y as int, n as int));
        v[xx] = yy;
        assert forall|x0: int| #![trigger sol@[x0]] 0 <= x0 < x implies sym_col(
            k as int,
            x0,
            sol@[x0] as int,
            n as int,
        ) != xx as int by {
            assert(sol@[x0] != sol@[x as int]);
        }
        x = x + 1;
    }
    v
}

} // verus!

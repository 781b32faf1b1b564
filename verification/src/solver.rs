//! The incremental backtracking engine: board, placement stack, cursor,
//! solution log and symmetry bookkeeping, driven one unit of work at a time
//! through `step`.

use crate::board::board_shows;
use crate::board::cell_value;
use crate::board::lemma_non_attacking_distinct;
use crate::board::non_attacking;
use crate::board::rows_on_board;
use crate::board::safe_at;
use crate::progress::lemma_progress_bounds;
use crate::progress::lemma_step_measure;
use crate::progress::search_measure;
use crate::state::initial_model;
use crate::state::is_dup_at;
use crate::state::model_inv;
use crate::state::spec_step;
use crate::state::SolverModel;
use crate::symmetry::apply_symmetry;
use crate::symmetry::is_permutation;
use crate::symmetry::lemma_variant_unique;
use crate::symmetry::symmetric_to;
use crate::symmetry::variant_rel;
use crate::text::solution_line;
use vstd::prelude::*;

verus! {

/// A cell-for-cell copy of an occupancy grid.
#[verifier::loop_isolation(false)]
fn copy_grid(src: &Vec<Vec<u8>>) -> (r: Vec<Vec<u8>>)
    ensures
        r@.len() == src@.len(),
        forall|i: int| 0 <= i < src@.len() ==> (#[trigger] r@[i])@ == src@[i]@,
{
    let mut out: Vec<Vec<u8>> = Vec::new();
    let mut i: usize = 0;
    while i < src.len()
        invariant
            out@.len() == i <= src@.len(),
            forall|ii: int| 0 <= ii < i ==> (#[trigger] out@[ii])@ == src@[ii]@,
        decreases src@.len() - i,
    {
        let row = &src[i];
        let mut cells: Vec<u8> = Vec::new();
        let mut j: usize = 0;
        while j < row.len()
            invariant
                cells@.len() == j <= row@.len(),
                forall|jj: int| 0 <= jj < j ==> (#[trigger] cells@[jj]) == row@[jj],
            decreases row@.len() - j,
        {
            cells.push(row[j]);
            j = j + 1;
        }
        proof {
            assert(cells@ =~= src@[i as int]@);
        }
        out.push(cells);
        i = i + 1;
    }
    out
}

/// Element-wise comparison of two row vectors.
fn vec_eq(a: &Vec<usize>, b: &Vec<usize>) -> (r: bool)
    ensures
        r == (a@ == b@),
{
    if a.len() != b.len() {
        return false;
    }
    let mut i: usize = 0;
    while i < a.len()
        invariant
            i <= a@.len() == b@.len(),
            forall|j: int| 0 <= j < i ==> a@[j] == b@[j],
        decreases a@.len() - i,
    {
        if a[i] != b[i] {
            return false;
        }
        i = i + 1;
    }
    proof {
        assert(a@ =~= b@);
    }
    true
}

/// The resumable depth-first N-Queens search.  The board always mirrors the
/// placement stack (or, once the search has finished and a recorded board
/// was restored, the last recorded solution); the stack holds one `(row,
/// column)` pair per filled column, in column order.
pub struct SolverWrapper {
    n: usize,
    board: Vec<Vec<u8>>,
    solutions: Vec<String>,
    sym_flags: Vec<bool>,
    stack: Vec<(usize, usize)>,
    col: usize,
    row: usize,
    backtracking: bool,
    finished: bool,
    last_solution_board: Option<Vec<Vec<u8>>>,
    unique_solutions: Vec<Vec<usize>>,
}

impl SolverWrapper {
    /// The abstract state this solver is in.
    pub closed spec fn model(&self) -> SolverModel {
        SolverModel {
            n: self.n as int,
            queens: self.stack@.map_values(|p: (usize, usize)| p.0),
            row: self.row as int,
            backtracking: self.backtracking,
            finished: self.finished,
            log: self.unique_solutions@.map_values(|v: Vec<usize>| v@),
        }
    }

    /// The occupancy grid, row by row.
    pub closed spec fn board_view(&self) -> Seq<Vec<u8>> {
        self.board@
    }

    /// The board mirrors the live placement stack.
    pub closed spec fn board_live(&self) -> bool {
        board_shows(self.board@, self.model().queens, self.model().n)
    }

    /// Everything a reachable solver guarantees between calls: the abstract
    /// state invariant; the column cursor equal to the stack length; stack
    /// entries filed under their column; the board mirroring the stack (or
    /// a restored solution after the search finished); and the solution
    /// log, symmetry tags and retained solution board all agreeing with the
    /// abstract log.
    pub closed spec fn wf(&self) -> bool {
        let m = self.model();
        &&& model_inv(m)
        &&& self.col as int == m.queens.len()
        &&& forall|i: int| 0 <= i < self.stack@.len() ==> (#[trigger] self.stack@[i]).1 == i
        &&& (self.board_live() || (m.finished && m.log.len() > 0 && board_shows(
            self.board@,
            m.log.last(),
            m.n,
        )))
        &&& self.solutions@.len() == m.log.len()
        &&& self.sym_flags@.len() == m.log.len()
        &&& forall|i: int|
            0 <= i < m.log.len() ==> (#[trigger] self.sym_flags@[i]) == is_dup_at(m.log, i)
        &&& forall|i: int|
            0 <= i < m.log.len() ==> (#[trigger] self.solutions@[i])@ == solution_line(
                m.log[i],
                is_dup_at(m.log, i),
            )
        &&& match self.last_solution_board {
            Option::None => m.log.len() == 0,
            Option::Some(b) => m.log.len() > 0 && board_shows(b@, m.log.last(), m.n),
        }
    }

    /// Builds a fresh engine for an `n` x `n` board, with an empty board,
    /// empty stack and log, the cursor at the first square, and the search
    /// in forward mode.
    #[verifier::loop_isolation(false)]
    pub fn new(n: usize) -> (s: Self)
        requires
            1 <= n <= 30,
        ensures
            s.wf(),
            s.board_live(),
            s.model() == initial_model(n as int),
            crate::enumeration::enumerated(s.model()),
    {
        let mut board: Vec<Vec<u8>> = Vec::new();
        let mut r: usize = 0;
        while r < n
            invariant
                board@.len() == r <= n,
                forall|i: int| 0 <= i < r ==> (#[trigger] board@[i])@.len() == n,
                forall|i: int, j: int| 0 <= i < r && 0 <= j < n ==> (#[trigger] board@[i]@[j]) == 0,
            decreases n - r,
        {
            let mut cells: Vec<u8> = Vec::new();
            let mut c: usize = 0;
            while c < n
                invariant
                    cells@.len() == c <= n,
                    forall|j: int| 0 <= j < c ==> (#[trigger] cells@[j]) == 0,
                decreases n - c,
            {
                cells.push(0);
                c = c + 1;
            }
            board.push(cells);
            r = r + 1;
        }
        let s = SolverWrapper {
            n,
            board,
            solutions: Vec::new(),
            sym_flags: Vec::new(),
            stack: Vec::new(),
            col: 0,
            row: 0,
            backtracking: false,
            finished: false,
            last_solution_board: Option::None,
            unique_solutions: Vec::new(),
        };
        proof {
            assert(s.model().queens =~= Seq::<usize>::empty());
            assert(s.model().log =~= Seq::<Seq<usize>>::empty());
            assert(s.model() == initial_model(n as int));
            assert(board_shows(s.board@, s.model().queens, n as int));
            crate::enumeration::lemma_initial_enumerated(n as int);
        }
        s
    }

    /// The board size this engine was built for.
    pub fn board_size(&self) -> (r: usize)
        ensures
            r as int == self.model().n,
    {
        self.n
    }

    /// The search cursor: the row next to try, the column being filled, and
    /// whether the engine is undoing rather than extending.  The column
    /// index always equals the number of queens on the placement stack.
    pub fn cursor(&self) -> (r: (usize, usize, bool))
        requires
            self.wf(),
        ensures
            r.0 as int == self.model().row,
            r.1 as int == self.model().queens.len(),
            r.2 == self.model().backtracking,
    {
        (self.row, self.col, self.backtracking)
    }

    /// Whether the search space is exhausted.
    pub fn is_finished(&self) -> (r: bool)
        ensures
            r == self.model().finished,
    {
        self.finished
    }

    /// The occupancy bit of the square in row `r`, column `c`.
    pub fn cell(&self, r: usize, c: usize) -> (b: u8)
        requires
            self.wf(),
            r < self.model().n,
            c < self.model().n,
        ensures
            b == self.board_view()[r as int]@[c as int],
    {
        self.board[r][c]
    }

    /// The row of the queen standing in column `c`, with the column it was
    /// filed under.
    pub fn placement_at(&self, c: usize) -> (r: (usize, usize))
        requires
            self.wf(),
            c < self.model().queens.len(),
        ensures
            r.0 == self.model().queens[c as int],
            r.1 == c,
    {
        self.stack[c]
    }

    /// How many solutions the log holds, duplicates included.
    pub fn solutions_len(&self) -> (r: usize)
        requires
            self.wf(),
        ensures
            r as int == self.model().log.len(),
    {
        self.solutions.len()
    }

    /// The log line of solution `i`.
    pub fn solution_text_at(&self, i: usize) -> (r: &String)
        requires
            self.wf(),
            i < self.model().log.len(),
        ensures
            r@ == solution_line(self.model().log[i as int], is_dup_at(self.model().log, i as int)),
    {
        &self.solutions[i]
    }

    /// The row permutation of solution `i`: the row of its queen in each
    /// column.
    pub fn solution_rows_at(&self, i: usize) -> (r: &Vec<usize>)
        requires
            self.wf(),
            i < self.model().log.len(),
        ensures
            r@ == self.model().log[i as int],
    {
        &self.unique_solutions[i]
    }

    /// Whether square `(row, col)` is attacked by none of the queens placed
    /// in columns before `col`: the sole gate for placing a queen.  Scans
    /// the occupied row leftward and the two left-side diagonals.
    #[verifier::loop_isolation(false)]
    pub fn is_safe(&self, row: usize, col: usize) -> (r: bool)
        requires
            self.wf(),
            self.board_live(),
            row < self.model().n,
            col <= self.model().n,
        ensures
            r == safe_at(self.model().queens, row as int, col as int),
    {
        let ghost q = self.model().queens;
        let ghost n = self.model().n;
        let mut i: usize = 0;
        while i < col
            invariant
                i <= col,
                forall|ii: int| #![trigger q[ii]] 0 <= ii < q.len() && ii < i ==> q[ii] != row,
            decreases col - i,
        {
            if self.board[row][i] == 1 {
                proof {
                    assert(cell_value(q, row as int, i as int) == 1);
                    assert(i < q.len() && q[i as int] == row);
                }
                return false;
            }
            proof {
                assert(cell_value(q, row as int, i as int) == 0);
            }
            i = i + 1;
        }
        let mut k: usize = 1;
        while k <= row && k <= col
            invariant
                1 <= k,
                forall|ii: int| #![trigger q[ii]]
                    0 <= ii < q.len() && col - k < ii < col ==> q[ii] as int - ii != row as int
                        - col,
            decreases row + 1 - k,
        {
            if self.board[row - k][col - k] == 1 {
                proof {
                    assert(cell_value(q, row - k, col - k) == 1);
                    assert(col - k < q.len() && q[col - k] == row - k);
                    assert(!safe_at(q, row as int, col as int));
                }
                return false;
            }
            proof {
                assert(cell_value(q, row - k, col - k) == 0);
            }
            k = k + 1;
        }
        let mut k2: usize = 1;
        while row + k2 < self.n && k2 <= col
            invariant
                1 <= k2 <= col + 1,
                forall|ii: int| #![trigger q[ii]]
                    0 <= ii < q.len() && col - k2 < ii < col ==> q[ii] as int + ii != row as int
                        + col,
            decreases n - row - k2,
        {
            if self.board[row + k2][col - k2] == 1 {
                proof {
                    assert(cell_value(q, row + k2, col - k2) == 1);
                    assert(col - k2 < q.len() && q[col - k2] == row + k2);
                    assert(!safe_at(q, row as int, col as int));
                }
                return false;
            }
            proof {
                assert(cell_value(q, row + k2, col - k2) == 0);
            }
            k2 = k2 + 1;
        }
        proof {
            assert(k > row || k > col);
            assert(row + k2 >= n || k2 > col);
            assert forall|ii: int| 0 <= ii < q.len() && ii < col implies !crate::board::attacks(
                q[ii] as int,
                ii,
                row as int,
                col as int,
            ) by {
                assert(q[ii] != row);
                assert(q[ii] < n);
                if q[ii] as int + ii == row as int + col {
                    assert(col - k2 < ii < col);
                    assert(false);
                }
                if q[ii] as int - ii == row as int - col {
                    assert(col - k < ii < col);
                    assert(false);
                }
            }
        }
        true
    }

    /// The first row at or above `from` that is safe in the column now
    /// being filled, or the board size when the column offers none.
    #[verifier::loop_isolation(false)]
    fn find_next_row(&self, from: usize) -> (r: usize)
        requires
            self.wf(),
            self.board_live(),
            from <= self.model().n,
        ensures
            r as int == crate::state::next_safe_row(
                self.model().queens,
                from as int,
                self.model().n,
            ),
            from <= r <= self.model().n,
    {
        let ghost q = self.model().queens;
        let ghost n = self.model().n;
        let mut row = from;
        while row < self.n
            invariant
                from <= row <= n,
                crate::state::next_safe_row(q, from as int, n) == crate::state::next_safe_row(
                    q,
                    row as int,
                    n,
                ),
            decreases n - row,
        {
            if self.is_safe(row, self.col) {
                proof {
                    assert(safe_at(q, row as int, q.len() as int));
                    assert(crate::state::next_safe_row(q, row as int, n) == row);
                }
                return row;
            }
            proof {
                assert(crate::state::next_safe_row(q, row as int, n)
                    == crate::state::next_safe_row(q, row + 1, n));
            }
            row = row + 1;
        }
        row
    }

    /// All eight symmetry images of the row permutation `sol`, in a fixed
    /// order: each quarter rotation of the board, each followed by its
    /// horizontal flip.
    #[verifier::loop_isolation(false)]
    pub fn get_variants(sol: &[usize]) -> (r: Vec<Vec<usize>>)
        requires
            is_permutation(sol@),
        ensures
            r@.len() == 8,
            forall|k: int| 0 <= k < 8 ==> variant_rel(sol@, (#[trigger] r@[k])@, k),
    {
        let mut variants: Vec<Vec<usize>> = Vec::new();
        let mut k: usize = 0;
        while k < 8
            invariant
                variants@.len() == k <= 8,
                forall|kk: int| 0 <= kk < k ==> variant_rel(sol@, (#[trigger] variants@[kk])@, kk),
            decreases 8 - k,
        {
            variants.push(apply_symmetry(sol, k));
            k = k + 1;
        }
        variants
    }

    /// Whether none of the eight symmetry images of `sol` has been recorded
    /// yet: true exactly when `sol` opens a new symmetry class.
    #[verifier::loop_isolation(false)]
    pub fn is_new_unique(&self, sol: &[usize]) -> (r: bool)
        requires
            self.wf(),
            is_permutation(sol@),
        ensures
            r == !(exists|j: int|
                0 <= j < self.model().log.len() && symmetric_to(
                    sol@,
                    #[trigger] self.model().log[j],
                )),
    {
        let ghost log = self.model().log;
        let variants = Self::get_variants(sol);
        let mut k: usize = 0;
        while k < variants.len()
            invariant
                k <= 8,
                forall|kk: int, j: int| #![trigger variants@[kk], log[j]]
                    0 <= kk < k && 0 <= j < log.len() ==> variants@[kk]@ != log[j],
            decreases 8 - k,
        {
            let mut j: usize = 0;
            while j < self.unique_solutions.len()
                invariant
                    k < 8,
                    j <= log.len(),
                    forall|jj: int| 0 <= jj < j ==> variants@[k as int]@ != (#[trigger] log[jj]),
                decreases log.len() - j,
            {
                if vec_eq(&variants[k], &self.unique_solutions[j]) {
                    proof {
                        assert(variant_rel(sol@, variants@[k as int]@, k as int));
                        assert(log[j as int] == variants@[k as int]@);
                        assert(symmetric_to(sol@, log[j as int]));
                    }
                    return false;
                }
                j = j + 1;
            }
            k = k + 1;
        }
        proof {
            assert forall|j: int| 0 <= j < log.len() implies !symmetric_to(sol@, log[j]) by {
                if symmetric_to(sol@, log[j]) {
                    let kk = choose|kk: int| 0 <= kk < 8 && variant_rel(sol@, log[j], kk);
                    lemma_variant_unique(sol@, log[j], variants@[kk]@, kk);
                    assert(false);
                }
            }
        }
        true
    }

    /// Records the solution standing on the full board: reads the row of
    /// the queen in each column off the board, classifies the permutation
    /// against the recorded symmetry classes, renders its log line (marked
    /// when it repeats an earlier class), and retains a snapshot of the
    /// solved board for restoring after the search ends.
    #[verifier::loop_isolation(false)]
    pub fn save_solution(&mut self)
        requires
            old(self).wf(),
            old(self).board_live(),
            old(self).model().queens.len() == old(self).model().n,
        ensures
            final(self).wf(),
            final(self).board_live(),
            final(self).model() == (SolverModel {
                log: old(self).model().log.push(old(self).model().queens),
                ..old(self).model()
            }),
    {
        let ghost m0 = old(self).model();
        let n = self.n;
        let mut queen_rows: Vec<usize> = Vec::new();
        let mut c: usize = 0;
        while c < n
            invariant
                queen_rows@.len() == c <= n,
                forall|i: int| 0 <= i < c ==> (#[trigger] queen_rows@[i]) == m0.queens[i],
            decreases n - c,
        {
            let mut r: usize = 0;
            while r < n && self.board[r][c] == 0
                invariant
                    r <= n,
                    c < n,
                    forall|rr: int| 0 <= rr < r ==> cell_value(m0.queens, rr, c as int) == 0,
                decreases n - r,
            {
                proof {
                    assert(cell_value(m0.queens, r as int, c as int) == 0);
                }
                r = r + 1;
            }
            proof {
                assert(c < m0.queens.len());
                assert(cell_value(m0.queens, m0.queens[c as int] as int, c as int) == 1);
                assert(m0.queens[c as int] < n);
                assert(r < n);
                assert(m0.queens[c as int] == r);
            }
            queen_rows.push(r);
            c = c + 1;
        }
        proof {
            assert(queen_rows@ =~= m0.queens);
            lemma_non_attacking_distinct(m0.queens);
            assert(is_permutation(queen_rows@));
        }
        let unique = self.is_new_unique(queen_rows.as_slice());
        let dup = !unique;
        let line = crate::text::render_solution_line(&queen_rows, dup);
        let snapshot = copy_grid(&self.board);
        self.last_solution_board = Option::Some(snapshot);
        self.unique_solutions.push(queen_rows);
        self.sym_flags.push(dup);
        self.solutions.push(line);
        proof {
            let m1 = self.model();
            assert(m1.log =~= m0.log.push(m0.queens));
            assert(m1 == (SolverModel { log: m0.log.push(m0.queens), ..m0 }));
            // the new entry is a full solution, so the state invariant holds
            assert(crate::board::is_solution(m0.queens, m0.n));
            assert forall|i: int| 0 <= i < m1.log.len() implies crate::board::is_solution(
                #[trigger] m1.log[i],
                m1.n,
            ) by {
                if i < m0.log.len() {
                    assert(crate::board::is_solution(m0.log[i], m0.n));
                }
            }
            // duplicate classification of the earlier entries is unchanged
            assert forall|i: int| 0 <= i < m0.log.len() implies is_dup_at(m1.log, i) == is_dup_at(
                m0.log,
                i,
            ) by {
                crate::state::lemma_classification_stable(m0.log, m0.queens, i);
            }
            // and the new entry's tag matches the classification
            assert(m1.log[m0.log.len() as int] == m0.queens);
            assert(dup == is_dup_at(m1.log, m0.log.len() as int)) by {
                if dup {
                    let j = choose|j: int|
                        0 <= j < m0.log.len() && symmetric_to(m0.queens, m0.log[j]);
                    assert(symmetric_to(m1.log[m0.log.len() as int], m1.log[j]));
                }
                if is_dup_at(m1.log, m0.log.len() as int) {
                    let j = choose|j: int|
                        0 <= j < m0.log.len() && symmetric_to(
                            m1.log[m0.log.len() as int],
                            m1.log[j],
                        );
                    assert(symmetric_to(m0.queens, m0.log[j]));
                }
            }
            assert(board_shows(self.board@, m1.log.last(), m1.n));
        }
    }

    /// One unit of search work, evaluated in this order: a finished search
    /// returns at once with no change; in backtrack mode the engine either
    /// finishes (nothing left to pop) or lifts the last queen and rescans
    /// its column from the next row; a full board is recorded as a solution
    /// and backtracking begins, reported by the `true` return; otherwise
    /// the current column is scanned upward from the cursor row, placing a
    /// queen on the first safe row or switching to backtrack mode when the
    /// column offers none.
    pub fn step(&mut self) -> (found: bool)
        requires
            old(self).wf(),
        ensures
            final(self).wf(),
            final(self).model() == spec_step(old(self).model()).0,
            found == spec_step(old(self).model()).1,
            old(self).model().finished ==> *final(self) == *old(self),
            old(self).board_live() ==> final(self).board_live(),
            crate::enumeration::enumerated(old(self).model()) ==> crate::enumeration::enumerated(
                final(self).model(),
            ),
    {
        let ghost m0 = old(self).model();
        proof {
            if crate::enumeration::enumerated(m0) {
                crate::enumeration::lemma_step_enumerated(m0);
            }
        }
        if self.finished {
            return false;
        }
        assert(self.board_live());
        if self.backtracking {
            if self.col == 0 && self.row >= self.n {
                self.finished = true;
                proof {
                    assert(self.model() == (SolverModel { finished: true, ..m0 }));
                }
                return false;
            }
            let popped = self.stack.pop();
            if let Option::Some(top) = popped {
                let r = top.0;
                proof {
                    assert(m0.queens.len() > 0);
                    assert(top == old(self).stack@.last());
                    assert(top.1 == m0.queens.len() - 1);
                    assert(r == m0.queens.last());
                    assert(r < m0.n);
                    assert(self.stack@ =~= old(self).stack@.drop_last());
                }
                self.board[r][self.col - 1] = 0;
                self.col = self.col - 1;
                self.row = r + 1;
                self.backtracking = false;
                proof {
                    let q1 = self.model().queens;
                    assert(q1 =~= m0.queens.drop_last());
                    assert(self.model() == (SolverModel {
                        queens: m0.queens.drop_last(),
                        row: m0.queens.last() + 1,
                        backtracking: false,
                        ..m0
                    }));
                    crate::board::lemma_non_attacking_drop_last(m0.queens);
                    assert(rows_on_board(q1, m0.n));
                    assert forall|rr: int, cc: int|
                        0 <= rr < m0.n && 0 <= cc < m0.n implies (#[trigger] self.board@[rr]@[cc])
                        == cell_value(q1, rr, cc) by {
                        if rr == r && cc == m0.queens.len() - 1 {
                            assert(self.board@[rr]@[cc] == 0);
                            assert(cell_value(q1, rr, cc) == 0);
                        } else {
                            assert(self.board@[rr]@[cc] == old(self).board@[rr]@[cc]);
                            assert(old(self).board@[rr]@[cc] == cell_value(m0.queens, rr, cc));
                            if cc == m0.queens.len() - 1 {
                                assert(cell_value(m0.queens, rr, cc) == 0);
                                assert(cell_value(q1, rr, cc) == 0);
                            }
                        }
                    }
                    assert(self.board_live());
                    assert(self.wf());
                }
            } else {
                proof {
                    assert(m0.queens.len() == 0);
                }
                self.finished = true;
                proof {
                    assert(self.model() == (SolverModel { finished: true, ..m0 }));
                }
                return false;
            }
        }
        let ghost m1 = self.model();
        proof {
            assert(self.wf());
            assert(self.board_live());
            if m0.backtracking {
                assert(m1 == (SolverModel {
                    queens: m0.queens.drop_last(),
                    row: m0.queens.last() + 1,
                    backtracking: false,
                    ..m0
                }));
            } else {
                assert(m1 == m0);
            }
        }
        if self.col >= self.n {
            proof {
                assert(m1.queens.len() == m1.n);
            }
            self.save_solution();
            self.backtracking = true;
            proof {
                assert(self.model() == (SolverModel {
                    log: m1.log.push(m1.queens),
                    backtracking: true,
                    ..m1
                }));
                assert(self.model() == spec_step(m0).0);
            }
            return true;
        }
        let next = self.find_next_row(self.row);
        proof {
            crate::state::lemma_next_safe_row(m1.queens, m1.row, m1.n);
        }
        if next < self.n {
            self.board[next][self.col] = 1;
            self.stack.push((next, self.col));
            self.col = self.col + 1;
            self.row = 0;
            proof {
                let q2 = self.model().queens;
                assert(q2 =~= m1.queens.push(next));
                assert(self.model() == (SolverModel {
                    queens: m1.queens.push(next),
                    row: 0,
                    ..m1
                }));
                assert(safe_at(m1.queens, next as int, m1.queens.len() as int));
                crate::board::lemma_non_attacking_push(m1.queens, next);
                assert(rows_on_board(q2, m1.n));
                assert forall|i: int|
                    0 <= i < self.stack@.len() implies (#[trigger] self.stack@[i]).1 == i by {
                    if i < self.stack@.len() - 1 {
                        assert(self.stack@[i] == old(self).stack@[i]);
                    }
                }
                assert forall|rr: int, cc: int|
                    0 <= rr < m1.n && 0 <= cc < m1.n implies (#[trigger] self.board@[rr]@[cc])
                    == cell_value(q2, rr, cc) by {
                    if rr == next && cc == m1.queens.len() {
                        assert(self.board@[rr]@[cc] == 1);
                        assert(cell_value(q2, rr, cc) == 1);
                    } else {
                        assert(cell_value(m1.queens, rr, cc) == cell_value(q2, rr, cc));
                    }
                }
                assert(self.board_live());
                assert(self.wf());
            }
            return false;
        }
        self.row = self.n;
        self.backtracking = true;
        proof {
            assert(self.model() == (SolverModel { row: m1.n, backtracking: true, ..m1 }));
            assert(self.model() == spec_step(m0).0);
        }
        false
    }

    /// Repaints the board to the last recorded solution, so that after an
    /// exhaustive search the final board shows a result instead of the
    /// cleared squares backtracking left behind.  With nothing recorded the
    /// board is left untouched.
    pub fn restore_last_solution(&mut self)
        requires
            old(self).wf(),
            old(self).model().finished,
        ensures
            final(self).wf(),
            final(self).model() == old(self).model(),
            old(self).model().log.len() > 0 ==> board_shows(
                final(self).board_view(),
                old(self).model().log.last(),
                old(self).model().n,
            ),
            old(self).model().log.len() == 0 ==> *final(self) == *old(self),
    {
        if let Option::Some(b) = &self.last_solution_board {
            let nb = copy_grid(b);
            self.board = nb;
            proof {
                let m = self.model();
                assert(board_shows(self.board@, m.log.last(), m.n)) by {
                    assert(board_shows(b@, m.log.last(), m.n));
                    assert forall|r: int| 0 <= r < m.n implies (#[trigger] self.board@[r])@
                        == b@[r]@ by {}
                }
            }
        }
    }

    /// Drives the search until the next solution is recorded or the space
    /// is exhausted: the fast-forward policy.  Returns whether a solution
    /// was found; the log grows by exactly that one solution.  Terminates
    /// because every step strictly shrinks the search measure.
    pub fn run_to_next_solution(&mut self) -> (found: bool)
        requires
            old(self).wf(),
        ensures
            final(self).wf(),
            old(self).board_live() ==> final(self).board_live(),
            final(self).model().n == old(self).model().n,
            found ==> final(self).model().log.len() == old(self).model().log.len() + 1
                && final(self).model().log.drop_last() == old(self).model().log,
            !found ==> final(self).model().finished && final(self).model().log == old(
                self,
            ).model().log,
            crate::enumeration::enumerated(old(self).model()) ==> crate::enumeration::enumerated(
                final(self).model(),
            ),
    {
        let ghost enum0 = crate::enumeration::enumerated(old(self).model());
        let ghost live0 = old(self).board_live();
        let ghost log0 = old(self).model().log;
        let ghost n0 = old(self).model().n;
        let mut found = false;
        while !found && !self.finished
            invariant
                self.wf(),
                live0 ==> self.board_live(),
                self.model().n == n0,
                !found ==> self.model().log == log0,
                found ==> self.model().log.len() == log0.len() + 1 && self.model().log.drop_last()
                    == log0,
                enum0 ==> crate::enumeration::enumerated(self.model()),
            decreases search_measure(self.model()),
        {
            proof {
                lemma_step_measure(self.model());
                if enum0 {
                    crate::enumeration::lemma_step_enumerated(self.model());
                }
            }
            let ghost mb = self.model();
            found = self.step();
            proof {
                if !self.finished {
                    lemma_progress_bounds(self.model());
                }
                if found {
                    assert(self.model().log =~= mb.log.push(self.model().log.last()));
                    assert(self.model().log.drop_last() =~= mb.log);
                } else {
                    assert(self.model().log == mb.log);
                }
            }
        }
        found
    }

    /// Drives the search to exhaustion.  Terminates for every supported
    /// board size, because every step strictly shrinks the search measure;
    /// the log then holds every solution the search recorded, in discovery
    /// order, extending whatever it held before.
    pub fn run_to_finish(&mut self)
        requires
            old(self).wf(),
        ensures
            final(self).wf(),
            final(self).model().finished,
            final(self).model().n == old(self).model().n,
            old(self).model().log.len() <= final(self).model().log.len(),
            forall|i: int|
                0 <= i < old(self).model().log.len() ==> final(self).model().log[i] == old(
                    self,
                ).model().log[i],
            old(self).board_live() ==> final(self).board_live(),
            crate::enumeration::enumerated(old(self).model()) ==> crate::enumeration::enumerated(
                final(self).model(),
            ),
            crate::enumeration::enumerated(old(self).model()) ==> forall|s: Seq<usize>|
                crate::board::is_solution(s, final(self).model().n)
                    ==> #[trigger] final(self).model().log.contains(s),
            crate::enumeration::enumerated(old(self).model()) ==> forall|i: int, j: int|
                0 <= i < j < final(self).model().log.len()
                    ==> final(self).model().log[i] != final(self).model().log[j],
    {
        let ghost enum0 = crate::enumeration::enumerated(old(self).model());
        let ghost live0 = old(self).board_live();
        let ghost log0 = old(self).model().log;
        let ghost n0 = old(self).model().n;
        while !self.finished
            invariant
                self.wf(),
                live0 ==> self.board_live(),
                self.model().n == n0,
                log0.len() <= self.model().log.len(),
                forall|i: int| 0 <= i < log0.len() ==> self.model().log[i] == log0[i],
                enum0 ==> crate::enumeration::enumerated(self.model()),
            decreases search_measure(self.model()),
        {
            proof {
                lemma_step_measure(self.model());
                if enum0 {
                    crate::enumeration::lemma_step_enumerated(self.model());
                }
            }
            let ghost mb = self.model();
            self.step();
            proof {
                if !self.finished {
                    lemma_progress_bounds(self.model());
                }
                assert(mb.log.len() <= self.model().log.len());
                assert forall|i: int| 0 <= i < log0.len() implies self.model().log[i]
                    == log0[i] by {
                    assert(self.model().log[i] == mb.log[i]);
                }
            }
        }
        proof {
            if enum0 {
                crate::enumeration::lemma_finished_log_complete(self.model());
            }
        }
    }

    /// Builds an engine and drives the search to exhaustion: the finite
    /// sequence of steps ends with the log provably holding every solution
    /// of the `n` x `n` board, each exactly once, in discovery order.
    pub fn solve_all(n: usize) -> (s: Self)
        requires
            1 <= n <= 30,
        ensures
            s.wf(),
            s.model().finished,
            s.model().n == n,
            forall|sol: Seq<usize>|
                crate::board::is_solution(sol, n as int) ==> #[trigger] s.model().log.contains(
                    sol,
                ),
            forall|i: int, j: int|
                0 <= i < j < s.model().log.len() ==> s.model().log[i] != s.model().log[j],
            crate::enumeration::enumerated(s.model()),
    {
        let mut s = Self::new(n);
        s.run_to_finish();
        s
    }

    /// Whether solution `i` was tagged as repeating an earlier solution up
    /// to symmetry.
    pub fn is_duplicate_at(&self, i: usize) -> (r: bool)
        requires
            self.wf(),
            i < self.model().log.len(),
        ensures
            r == is_dup_at(self.model().log, i as int),
    {
        self.sym_flags[i]
    }

    /// How many recorded solutions are canonical: the first of each
    /// symmetry class, the tagged duplicates not counted.
    #[verifier::loop_isolation(false)]
    pub fn canonical_count(&self) -> (r: usize)
        requires
            self.wf(),
        ensures
            r as int == crate::state::canonical_count_upto(
                self.model().log,
                self.model().log.len() as int,
            ),
    {
        let mut count: usize = 0;
        let mut i: usize = 0;
        while i < self.sym_flags.len()
            invariant
                i <= self.model().log.len(),
                count <= i,
                count as int == crate::state::canonical_count_upto(self.model().log, i as int),
            decreases self.model().log.len() - i,
        {
            if !self.sym_flags[i] {
                count = count + 1;
            }
            i = i + 1;
        }
        count
    }

    /// What well-formedness guarantees between any two calls: the placed
    /// queens — one per filled column, the stack length equal to the
    /// column cursor — stand on the board and are mutually non-attacking,
    /// and every recorded solution is a valid row permutation of its
    /// columns: rows on the board, pairwise distinct, none attacking.
    pub proof fn lemma_state_invariant(&self)
        requires
            self.wf(),
        ensures
            model_inv(self.model()),
            non_attacking(self.model().queens),
            rows_on_board(self.model().queens, self.model().n),
            self.model().queens.len() <= self.model().n,
            0 <= self.model().row <= self.model().n,
            forall|i: int|
                0 <= i < self.model().log.len() ==> crate::board::is_solution(
                    #[trigger] self.model().log[i],
                    self.model().n,
                ),
            forall|i: int|
                0 <= i < self.model().log.len() ==> is_permutation(#[trigger] self.model().log[i]),
    {
        assert forall|i: int| 0 <= i < self.model().log.len() implies is_permutation(
            #[trigger] self.model().log[i],
        ) by {
            assert(crate::board::is_solution(self.model().log[i], self.model().n));
            lemma_non_attacking_distinct(self.model().log[i]);
        }
    }

    /// After an exhausted search that recorded at least one solution, the
    /// restored board shows that last recorded solution exactly: `n`
    /// occupied cells in all — one queen per column — mutually
    /// non-attacking, matching the last entry of the log.
    pub proof fn lemma_restored_board_shows_solution(&self)
        requires
            self.wf(),
            self.model().log.len() > 0,
            board_shows(self.board_view(), self.model().log.last(), self.model().n),
        ensures
            crate::board::grid_ones(self.board_view(), self.model().n, self.model().n)
                == self.model().n,
            crate::board::is_solution(self.model().log.last(), self.model().n),
    {
        assert(crate::board::is_solution(self.model().log.last(), self.model().n));
        crate::board::lemma_grid_shows_n_queens(
            self.board_view(),
            self.model().log.last(),
            self.model().n,
        );
    }
}

} // verus!

use nqueens::SolverWrapper;

fn queens_on_board(s: &SolverWrapper) -> Vec<(usize, usize)> {
    let n = s.board_size();
    let mut found = Vec::new();
    for r in 0..n {
        for c in 0..n {
            if s.cell(r, c) == 1 {
                found.push((r, c));
            }
        }
    }
    found
}

fn assert_no_attacks(cells: &[(usize, usize)]) {
    for i in 0..cells.len() {
        for j in (i + 1)..cells.len() {
            let (r1, c1) = (cells[i].0 as i64, cells[i].1 as i64);
            let (r2, c2) = (cells[j].0 as i64, cells[j].1 as i64);
            assert!(r1 != r2, "row shared: {:?} {:?}", cells[i], cells[j]);
            assert!(c1 != c2, "column shared: {:?} {:?}", cells[i], cells[j]);
            assert!((r1 - r2).abs() != (c1 - c2).abs(), "diagonal: {:?} {:?}", cells[i], cells[j]);
        }
    }
}

#[test]
fn first_steps_on_the_four_board() {
    let mut s = SolverWrapper::new(4);
    assert_eq!(s.cursor(), (0, 0, false));

    // first call: a queen lands on the first safe square of column 0
    assert!(!s.step());
    assert_eq!(s.cell(0, 0), 1);
    assert_eq!(s.placement_at(0), (0, 0));
    assert_eq!(s.cursor(), (0, 1, false));

    // second call: rows 0 and 1 of column 1 are attacked, row 2 is safe
    assert!(!s.step());
    assert_eq!(s.placement_at(1), (2, 1));
    assert_eq!(s.cursor(), (0, 2, false));

    // third call: column 2 offers no safe row, so the engine switches to
    // backtrack mode with the row cursor run past the board
    assert!(!s.step());
    assert_eq!(s.cursor(), (4, 2, true));

    // fourth call: the queen on (2, 1) is lifted and the column rescanned
    // from row 3, which is safe
    assert!(!s.step());
    assert_eq!(s.cell(2, 1), 0);
    assert_eq!(s.cell(3, 1), 1);
    assert_eq!(s.placement_at(1), (3, 1));
    assert_eq!(s.cursor(), (0, 2, false));
}

#[test]
fn board_invariant_holds_between_all_calls() {
    let mut s = SolverWrapper::new(6);
    loop {
        let cells = queens_on_board(&s);
        assert_no_attacks(&cells);
        // every placed queen sits in its own column, stack length == column
        let (_, col, _) = s.cursor();
        assert_eq!(cells.len(), col);
        for c in 0..col {
            let (row, cc) = s.placement_at(c);
            assert_eq!(cc, c);
            assert_eq!(s.cell(row, c), 1);
        }
        if s.is_finished() {
            break;
        }
        s.step();
    }
}

#[test]
fn is_safe_agrees_with_the_placed_queens() {
    let mut s = SolverWrapper::new(4);
    s.step();
    // one queen on (0, 0); column 1 under scrutiny
    assert!(!s.is_safe(0, 1)); // shares the row
    assert!(!s.is_safe(1, 1)); // shares the diagonal
    assert!(s.is_safe(2, 1));
    assert!(s.is_safe(3, 1));
    // column 2: the diagonal through (0, 0) reaches (2, 2)
    assert!(!s.is_safe(2, 2));
    assert!(s.is_safe(1, 2));
}

#[test]
fn restore_after_exhaustion_shows_the_last_solution() {
    let mut s = SolverWrapper::new(4);
    s.run_to_finish();
    // backtracking cleared the board on the way out
    assert_eq!(queens_on_board(&s).len(), 0);
    s.restore_last_solution();
    let cells = queens_on_board(&s);
    assert_eq!(cells.len(), 4);
    assert_no_attacks(&cells);
    let last = s.solution_rows_at(s.solutions_len() - 1).clone();
    for (c, &r) in last.iter().enumerate() {
        assert_eq!(s.cell(r, c), 1);
    }
}

#[test]
fn restore_with_nothing_recorded_leaves_the_board_alone() {
    let mut s = SolverWrapper::new(3);
    s.run_to_finish();
    assert_eq!(s.solutions_len(), 0);
    s.restore_last_solution();
    assert_eq!(queens_on_board(&s).len(), 0);
}

#[test]
fn save_solution_records_the_full_board() {
    let mut s = SolverWrapper::new(4);
    // drive forward until all four columns are filled
    while s.cursor().1 < 4 {
        s.step();
    }
    assert_eq!(s.solutions_len(), 0);
    s.save_solution();
    assert_eq!(s.solutions_len(), 1);
    assert_eq!(*s.solution_rows_at(0), vec![1, 3, 0, 2]);
}

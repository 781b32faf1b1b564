use nqueens::SolverWrapper;

/// Drives the engine to exhaustion with bare `step` calls, counting how
/// many calls reported a solution.  The call budget bounds the loop so a
/// broken engine fails the test instead of hanging it.
fn run_and_count(n: usize) -> (usize, usize) {
    let mut s = SolverWrapper::new(n);
    let mut found = 0usize;
    let mut calls = 0usize;
    while !s.is_finished() {
        assert!(calls < 10_000_000, "search did not terminate");
        if s.step() {
            found += 1;
        }
        calls += 1;
    }
    (found, calls)
}

#[test]
fn one_queen_board_has_one_solution() {
    let (found, _) = run_and_count(1);
    assert_eq!(found, 1);
}

#[test]
fn two_and_three_queen_boards_have_no_solutions() {
    assert_eq!(run_and_count(2).0, 0);
    assert_eq!(run_and_count(3).0, 0);
}

#[test]
fn four_queen_board_has_two_solutions() {
    assert_eq!(run_and_count(4).0, 2);
}

#[test]
fn five_queen_board_has_ten_solutions() {
    assert_eq!(run_and_count(5).0, 10);
}

#[test]
fn six_queen_board_has_four_solutions() {
    assert_eq!(run_and_count(6).0, 4);
}

#[test]
fn eight_queen_board_has_ninety_two_solutions() {
    assert_eq!(run_and_count(8).0, 92);
}

#[test]
fn step_reports_exactly_the_recorded_solutions() {
    for n in 1..=8 {
        let mut s = SolverWrapper::new(n);
        let mut found = 0usize;
        while !s.is_finished() {
            if s.step() {
                found += 1;
            }
        }
        assert_eq!(found, s.solutions_len());
    }
}

#[test]
fn canonical_counts_match_known_symmetry_classes() {
    for (n, classes) in [(1, 1), (2, 0), (3, 0), (4, 1), (5, 2), (6, 1), (7, 6), (8, 12)] {
        let mut s = SolverWrapper::new(n);
        s.run_to_finish();
        assert_eq!(s.canonical_count(), classes);
    }
}

#[test]
fn finished_engine_ignores_further_steps() {
    let mut s = SolverWrapper::new(4);
    s.run_to_finish();
    assert!(s.is_finished());
    let before = s.solutions_len();
    for _ in 0..10 {
        assert!(!s.step());
    }
    assert!(s.is_finished());
    assert_eq!(s.solutions_len(), before);
}

#[test]
fn rerunning_the_search_reproduces_the_same_partition() {
    let mut first: Vec<(Vec<usize>, bool)> = Vec::new();
    let mut s = SolverWrapper::new(6);
    s.run_to_finish();
    for i in 0..s.solutions_len() {
        first.push((s.solution_rows_at(i).clone(), s.is_duplicate_at(i)));
    }
    let mut t = SolverWrapper::new(6);
    t.run_to_finish();
    assert_eq!(t.solutions_len(), first.len());
    for i in 0..t.solutions_len() {
        assert_eq!(*t.solution_rows_at(i), first[i].0);
        assert_eq!(t.is_duplicate_at(i), first[i].1);
    }
}

#[test]
fn run_to_next_solution_finds_them_one_at_a_time() {
    let mut s = SolverWrapper::new(5);
    let mut found = 0usize;
    while s.run_to_next_solution() {
        found += 1;
        assert_eq!(s.solutions_len(), found);
    }
    assert!(s.is_finished());
    assert_eq!(found, 10);
}

#[test]
fn solve_all_agrees_with_manual_stepping() {
    let s = SolverWrapper::solve_all(5);
    assert!(s.is_finished());
    assert_eq!(s.solutions_len(), 10);
    let mut t = SolverWrapper::new(5);
    let mut by_hand = 0usize;
    while !t.is_finished() {
        if t.step() {
            by_hand += 1;
        }
    }
    assert_eq!(by_hand, s.solutions_len());
    for i in 0..s.solutions_len() {
        assert_eq!(s.solution_rows_at(i), t.solution_rows_at(i));
    }
}

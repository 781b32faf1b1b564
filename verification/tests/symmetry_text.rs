use nqueens::render_solution_line;
use nqueens::SolverWrapper;

fn is_permutation_of_range(v: &[usize]) -> bool {
    let n = v.len();
    let mut seen = vec![false; n];
    for &x in v {
        if x >= n || seen[x] {
            return false;
        }
        seen[x] = true;
    }
    true
}

#[test]
fn variants_of_a_four_board_solution() {
    let variants = SolverWrapper::get_variants(&[1, 3, 0, 2]);
    assert_eq!(variants.len(), 8);
    for v in &variants {
        assert_eq!(v.len(), 4);
        assert!(is_permutation_of_range(v));
    }
    // the identity comes first
    assert_eq!(variants[0], vec![1, 3, 0, 2]);
    // the other four-board solution is among the images
    assert!(variants.iter().any(|v| *v == vec![2, 0, 3, 1]));
}

#[test]
fn variants_of_a_five_board_solution() {
    let sol = vec![0, 2, 4, 1, 3];
    let variants = SolverWrapper::get_variants(&sol);
    assert_eq!(variants.len(), 8);
    // the horizontal flip reverses the row list
    let mut reversed = sol.clone();
    reversed.reverse();
    assert_eq!(variants[1], reversed);
    for v in &variants {
        assert!(is_permutation_of_range(v));
    }
}

#[test]
fn four_board_classification_and_log_lines() {
    let mut s = SolverWrapper::new(4);
    s.run_to_finish();
    assert_eq!(s.solutions_len(), 2);
    assert_eq!(*s.solution_rows_at(0), vec![1, 3, 0, 2]);
    assert_eq!(*s.solution_rows_at(1), vec![2, 0, 3, 1]);
    // the two are reflections of each other: the first found is canonical,
    // the second is tagged
    assert!(!s.is_duplicate_at(0));
    assert!(s.is_duplicate_at(1));
    assert_eq!(s.canonical_count(), 1);
    assert_eq!(s.solution_text_at(0).as_str(), "a2, b4, c1, d3");
    assert_eq!(s.solution_text_at(1).as_str(), "(Sym) a3, b1, c4, d2");
}

#[test]
fn is_new_unique_before_and_after_recording() {
    let s = SolverWrapper::new(4);
    assert!(s.is_new_unique(&[1, 3, 0, 2]));
    assert!(s.is_new_unique(&[2, 0, 3, 1]));
    let mut t = SolverWrapper::new(4);
    t.run_to_finish();
    assert!(!t.is_new_unique(&[1, 3, 0, 2]));
    assert!(!t.is_new_unique(&[2, 0, 3, 1]));
}

#[test]
fn log_lines_use_files_and_one_based_ranks() {
    let line = render_solution_line(&vec![1, 3, 0, 2], false);
    assert_eq!(line, "a2, b4, c1, d3");
    let marked = render_solution_line(&vec![1, 3, 0, 2], true);
    assert_eq!(marked, "(Sym) a2, b4, c1, d3");
}

#[test]
fn log_lines_render_two_digit_ranks() {
    let rows: Vec<usize> = vec![9, 0, 1, 2, 3, 4, 5, 6, 7, 8];
    let line = render_solution_line(&rows, false);
    assert_eq!(line, "a10, b1, c2, d3, e4, f5, g6, h7, i8, j9");
}

#[test]
fn log_lines_match_a_reference_renderer() {
    // first solution of the ten-column board, rendered both by the library
    // and by an independent formatter
    let mut s = SolverWrapper::new(10);
    assert!(s.run_to_next_solution());
    let rows = s.solution_rows_at(0).clone();
    let expected = rows
        .iter()
        .enumerate()
        .map(|(c, &r)| format!("{}{}", (b'a' + c as u8) as char, r + 1))
        .collect::<Vec<_>>()
        .join(", ");
    assert_eq!(*s.solution_text_at(0), expected);
}

//! Incremental, resumable N-Queens backtracking search.
//!
//! The solver owns an N x N occupancy board, a placement stack mirroring the
//! depth-first search, and a log of recorded solutions classified up to the
//! eight symmetries of the square.  A driver calls `step` repeatedly; each
//! call performs one unit of search work and reports whether a full solution
//! was just recorded.

mod board;
mod enumeration;
mod progress;
mod solver;
mod state;
mod symmetry;
mod text;

pub use board::attacks;
pub use board::board_shows;
pub use board::cell_value;
pub use board::grid_ones;
pub use board::grid_row_ones;
pub use board::is_solution;
pub use board::lemma_grid_shows_n_queens;
pub use board::lemma_non_attacking_drop_last;
pub use board::lemma_non_attacking_push;
pub use board::lemma_row_count;
pub use board::lemma_solution_fills_n;
pub use board::non_attacking;
pub use board::queens_in_row_upto;
pub use board::queens_in_rows_upto;
pub use board::row_hit;
pub use board::rows_on_board;
pub use board::safe_at;
pub use enumeration::enumerated;
pub use enumeration::extends;
pub use enumeration::lemma_extends_full;
pub use enumeration::lemma_finished_log_complete;
pub use enumeration::lemma_initial_enumerated;
pub use enumeration::lemma_lex_lt_irreflexive;
pub use enumeration::lemma_lex_lt_push;
pub use enumeration::lemma_solution_row_is_safe;
pub use enumeration::lemma_step_enumerated;
pub use enumeration::lex_lt;
pub use enumeration::prefix_eq;
pub use enumeration::visited;
pub use progress::lemma_progress_bounds;
pub use progress::lemma_step_measure;
pub use progress::progress_value;
pub use progress::radix;
pub use progress::search_measure;
pub use progress::weight_from;
pub use solver::SolverWrapper;
pub use state::canonical_count_upto;
pub use state::initial_model;
pub use state::is_dup_at;
pub use state::lemma_classification_stable;
pub use state::lemma_later_equivalent_is_duplicate;
pub use state::lemma_next_safe_row;
pub use state::lemma_spec_step_inv;
pub use state::model_inv;
pub use state::next_safe_row;
pub use state::SolverModel;
pub use state::spec_step;
pub use symmetry::apply_symmetry;
pub use symmetry::covers;
pub use symmetry::is_permutation;
pub use symmetry::lemma_permutation_covers;
pub use symmetry::lemma_sym_col_onto;
pub use symmetry::lemma_symmetric_to_symmetric;
pub use symmetry::lemma_variant_symmetric;
pub use symmetry::lemma_variant_unique;
pub use symmetry::sym_col;
pub use symmetry::sym_inverse;
pub use symmetry::sym_row;
pub use symmetry::symmetric_to;
pub use symmetry::variant_rel;
pub use text::decimal_text;
pub use text::digit_char;
pub use text::file_char;
pub use text::render_solution_line;
pub use text::solution_line;
pub use text::square_text;
pub use text::squares_text;

//! A constraint-propagation solver for 9-by-9 Sudoku boards, modelled as a
//! wave-function-collapse process: every cell starts as a superposition of
//! nine candidate digits, and solving repeatedly commits one open cell to a
//! digit and propagates that choice as an elimination constraint to the
//! cell's row, column, and box peers.

mod board;
mod model;
mod rng;
mod solver;

pub use board::clamp_idx;
pub use solver::lemma_forced_step;
pub use solver::open_cells;

pub use model::Field;
pub use model::Sudoku;
pub use model::chosen_step;
pub use model::collapse_result;
pub use model::count_true;
pub use model::count_true_from;
pub use model::digit_in_range;
pub use model::field_wf;
pub use model::in_range;
pub use model::is_peer;
pub use model::same_skeleton;
pub use model::cells_match_except;
pub use model::solve_step;
pub use model::lemma_no_committed_digit_among_peers;
pub use model::lemma_propagation_canonical;

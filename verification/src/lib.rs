//! Weighted edit distance between two sequences, with reconstruction of one
//! optimal edit script.
//!
//! The caller chooses an ordered set of edit operations (match, substitute,
//! insert, delete), each with its own cost.  `Matrix::align` fills the dynamic
//! programming cost matrix for two sequences; `Matrix::distance` reads the
//! total minimum cost and `Matrix::edit_script` walks the matrix backward to
//! recover one cheapest sequence of operations.

mod dynprog;
mod measures;
mod ops;
mod seq_pair;

pub use dynprog::Matrix;
pub use measures::lemma_align_from_empty;
pub use measures::lemma_align_self;
pub use measures::lemma_align_symmetric;
pub use measures::lemma_align_to_empty;
pub use measures::lemma_align_triangle;
pub use measures::lemma_distance_from_empty;
pub use measures::lemma_distance_self;
pub use measures::lemma_distance_symmetric;
pub use measures::lemma_distance_to_empty;
pub use measures::lemma_distance_triangle;
pub use measures::lemma_levensthein_cell;
pub use measures::lemma_levensthein_distance;
pub use measures::levenshtein_distance;
pub use measures::levensthein;
pub use measures::levensthein_ops;
pub use measures::nat_min;
pub use ops::bt_choice;
pub use ops::bt_choice_from;
pub use ops::cell_min;
pub use ops::cell_value;
pub use ops::complete;
pub use ops::eq_agrees;
pub use ops::has_delete;
pub use ops::has_insert;
pub use ops::lemma_bt_choice_from_finds;
pub use ops::lemma_bt_choice_from_some;
pub use ops::lemma_bt_choice_some;
pub use ops::lemma_candidate_fits;
pub use ops::lemma_cell_bound;
pub use ops::lemma_cell_has_candidate;
pub use ops::lemma_cell_min_attained;
pub use ops::lemma_cell_min_le;
pub use ops::lemma_max_cost;
pub use ops::lemma_distance_minimal;
pub use ops::lemma_script_applies;
pub use ops::lemma_script_at_contained;
pub use ops::lemma_script_at_ok;
pub use ops::max_cost;
pub use ops::op_applicable;
pub use ops::op_cost;
pub use ops::op_label;
pub use ops::op_moves;
pub use ops::op_pred;
pub use ops::path_ok;
pub use ops::script_at;
pub use ops::script_cost;
pub use ops::script_output;
pub use ops::EditOperation;
pub use ops::EditOperations;
pub use seq_pair::SeqPair;

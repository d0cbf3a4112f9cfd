//! A wavefunction-collapse constraint solver.
//!
//! Cells hold weighted sets of candidate values; a user-supplied rule (the
//! wavefunction) prunes candidates after each commitment, and a backtracking
//! solver searches for an assignment of one value per cell.

mod cell;
pub use cell::{lemma_possibilities_round_trip, Cell, CellValue, Function, Operation};

mod entropy;
pub use entropy::{frac_bits, log2_floor, log2_q16, pw2};

mod layout;
pub use layout::{count_of, detile_pristine, detiled_cell_ok, Coord2D, Direction, Grid, Layout};

mod rng;

mod solver;
pub use solver::Solver;

mod tile;
pub use tile::Tile2D;

mod wavefunction;
pub use wavefunction::{Standard2D, Wavefunction};

mod weighted_iterator;
pub use weighted_iterator::WeightedIterator;

mod weights;
pub use weights::{
    all_pos, as_map, entropy_from, lemma_add_remove_round_trip, seq_entropy, seq_total,
    spec_add_maps, spec_add_weight, spec_combine, spec_keeps, spec_merge, spec_merge_grows,
    spec_merge_weight, spec_remove_weight, spec_sub_maps, uniq_keys, weighted_log_sum, WeightMap,
};

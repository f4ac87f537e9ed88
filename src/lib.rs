//! A free-list allocator that hands out contiguous ranges of slots of one
//! element type, inside a single growing arena addressed by index.
mod block;
mod error;
mod freelist;
mod growth;
mod key;
mod laws;
mod runs;

pub use block::{Block, NONE_INT};
pub use error::FreelistError;
pub use freelist::{
    allocation_outcome, capacity_fits, growth_result, range_set, Freelist, MAX_GROWTH_ATTEMPTS,
};
pub use growth::{calculate_new_capacity_default, default_growth, DefaultGrowth, GrowthPolicy};
pub use key::Key;
pub use laws::{
    lemma_allocations_disjoint, lemma_bytes_balance, lemma_reserve_monotone,
    lemma_reserve_within_capacity, total,
};
pub use runs::{
    committed_runs, covers, first_fit, grown_runs, merged_runs, run_position, runs_ordered,
    starts_run, sum_counts, tail_start,
    Runs,
};

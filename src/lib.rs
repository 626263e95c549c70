//! A first-order Markov chain over tokens of any type with a lawful `==`.
//!
//! A [`Chain`] counts how often one token follows another. A
//! [`TransitionMatrix`] walks the learned chain: each step draws a successor
//! with probability proportional to its count, and re-seeds uniformly among
//! the source tokens when it reaches a token with no successors.

mod chain;
mod laws;
mod matrix;
mod model;
mod random;

pub use chain::Chain;
pub use laws::{
    law_count_is_occurrences, law_freeze_is_repeatable, law_single_pair_alternates,
    law_sources_need_two_tokens, law_steps_stay_in_input, law_walk_needs_two_tokens,
};
pub use matrix::{ChainError, TransitionMatrix};
pub use model::{
    mentions, pairs_of, record, record_all, step_allowed, successors, total_weight, weight,
    well_formed_table, Table,
};

//! Bookkeeping for beam-search decoding of sequence-model outputs.
//!
//! The crate tracks, for every partial label sequence ("labeling") under
//! consideration, the probability mass accumulated by paths ending in a blank
//! symbol and by paths ending in a real label ([`beam_entry::BeamEntry`]),
//! aggregates those records keyed by labeling with an optional pruning policy
//! ([`beam_state::BeamState`]), and extracts the highest-scoring candidates
//! with a bounded top-N selection ([`sorting::top_n_elements`]).
//!
//! Probabilities are fixed-point numbers: the integer `p` stands for the real
//! number `p / PROBABILITY_ONE`, so that all arithmetic and all comparisons
//! are exact. The decoding loop that produces the per-step probability
//! contributions converts to and from this representation at its edge.

pub mod beam_entry;
pub mod beam_state;
pub mod sorting;

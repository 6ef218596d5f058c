//! Constrained weighted edit distance between two index sequences, minimized
//! over pairs of alphabet permutations by a hill-climbing local search.
//!
//! The substitution cost between two symbols is looked up in a block-diagonal
//! boolean cost matrix (the matching schema) at the symbols' *permuted*
//! positions, so reordering an alphabet changes which substitutions are free.

pub mod alphabet;
pub mod distance;
pub mod perm;
pub mod search;
pub mod schema;
pub mod validity;

pub use schema::MatchingSchema;

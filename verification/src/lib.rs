//! Fusion of observations into groups that can stem from one object: the
//! maximal cliques of a compatibility graph, kept up to date under insertion.
//!
//! The crate works on identifiers alone. Whether two observations are
//! statistically compatible is decided by the caller, who hands in the outcome;
//! everything that follows from it (the graph, the affected region of an
//! insertion, the cliques) is computed and verified here.

pub mod clique_index;
pub mod cliques;
pub mod enumeration;
pub mod equivalence;
pub mod graph;
pub mod insertion;
mod sets;
pub mod spatial_index;

pub use clique_index::CliqueIndex;
pub use cliques::find_maximal_cliques;
pub use spatial_index::{Candidate, Observation, Unique};

//! Analysis of event logs: pairwise dependency inference between activities,
//! trace variant counting, and an extended prefix automaton whose partition
//! structure measures behavioral diversity.

pub mod automaton;
pub mod dependency;
pub mod existential;
pub mod matrix;
pub mod seqs;
mod strutil;
pub mod temporal;
pub mod traces;
pub mod variants;
pub mod threshold;

pub use automaton::Event;
pub use automaton::ExtendedPrefixAutomaton;
pub use automaton::State;
pub use dependency::Dependency;
pub use matrix::generate_adj_matrix_from_activities_and_traces;
pub use matrix::generate_adj_matrix_from_traces;
pub use threshold::Threshold;
pub use traces::get_activities_and_traces;
pub use traces::get_traces;
pub use variants::variants_of_traces;

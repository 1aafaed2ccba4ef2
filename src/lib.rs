//! A finite-state automaton whose transitions carry musical notes: running it
//! over a sequence of symbols decides acceptance and yields the notes of every
//! edge taken, in a deterministic order.
pub mod common;
pub mod automaton;
pub mod executor;

pub use automaton::Automaton;
pub use common::{ConstructionError, Note, State, Symbol, Transition};
pub use executor::RunResult;

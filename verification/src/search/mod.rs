//! Mutating inputs.

pub mod afl;
pub mod afl_mutators;
pub mod afl_mutators_scheduled;
pub mod ascii;
pub mod edits;
pub mod effects;
pub mod handler;
pub mod operands;
pub mod recorded;
pub mod search_server;
pub mod taint;
pub mod trim;

pub use self::afl::AFLFuzz;
pub use self::afl_mutators::AFLMutator;
pub use self::handler::{Comparisons, Found, SearchHandler};
pub use self::operands::Operands;
pub use self::search_server::SearchServer;
pub use self::taint::{MutationError, TaintFuzz};

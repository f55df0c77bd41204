//! Query compilation for a full-text search engine: from a user query to an
//! ordered list of typo-tolerant automatons and a map from synthesized
//! automatons back to the query words they stand for.
pub mod automaton;
pub mod compile;
pub mod dfa;
pub mod enhancer;
pub mod store;
pub mod text;
pub mod update;

pub use automaton::{order_groups, Automaton, AutomatonGroup, AutomatonProducer};
pub use compile::generate_automatons;
pub use enhancer::{QueryEnhancer, QueryEnhancerBuilder};
pub use store::IndexSnapshot;
pub use text::normalize_str;
pub use update::{next_update_id, UpdateType};

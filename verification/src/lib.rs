//! A bilingual Japanese/English dictionary lookup engine: raw headword,
//! reading and gloss records are folded into three keyed indices, and a
//! single-term query is classified by script, routed to one index and
//! answered with deduplicated, frequency-ordered entries.

pub use crate::engine::lookup;
pub use crate::entry::Entry;

pub mod engine;
pub mod entry;
pub mod gloss;
pub mod index;
pub mod laws;
pub mod mode;
pub mod query;
pub mod rank;
pub mod script;
pub mod sort;
pub mod text;

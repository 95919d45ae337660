//! A derivation engine for context-free grammars over a fixed alphabet: it
//! classifies a grammar's shape and performs leftmost derivations.

pub mod alphabet;
pub mod derivation;
pub mod grammar;
pub mod rule;
pub mod sampling;
pub mod sentential;
pub mod symbols;

pub use derivation::{Derivation, DerivationError, Step};
pub use grammar::Grammar;
pub use rule::{Production, Rule};
pub use sentential::{Sentential, SententialError};

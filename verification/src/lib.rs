//! Sefi: a semantic field blackboard.
//!
//! Agents emit short concept packets; each packet is embedded as a unit vector,
//! recorded in an append-only ledger, and grouped tick by tick into decaying
//! clusters. All quantities that are real numbers on paper are held here as
//! fixed-point integers, so that every comparison the engine makes is exact and
//! every function can be stated and proved over the integers: a vector
//! component counts billionths, a similarity counts billionths of billionths.
//!
//! - [`types`]: the records that travel between the parts.
//! - [`vector`]: fixed-point vectors, their similarity, integer square roots.
//! - [`embed`]: the embedding service.
//! - [`ledger`]: the ledger of entries.
//! - [`clustering`]: the engine, what a tick does, and what holds across ticks.
//! - [`cli`]: what the arguments of the command line mean.

pub mod cli;
pub mod clustering;
pub mod embed;
pub mod ledger;
pub mod types;
pub mod vector;

pub use types::{
    Action, BasinFeedback, BasinType, ConceptPacket, LedgerEntry, Polarity, PreCard, SynthTier,
    Tempo, ThresholdSnapshot,
};

//! Core data structures shared by the ledger and the clustering engine.

use vstd::prelude::*;

verus! {

/// The texts of a sequence of strings.
pub open spec fn texts(strings: Seq<String>) -> Seq<Seq<char>> {
    strings.map_values(|s: String| s@)
}

/// Tempo for decay and persistence behaviour.
#[derive(Debug, Clone, Copy, PartialEq, Eq, Structural)]
pub enum Tempo {
    /// Bursts, alerts, quick iterations: time constant of two seconds.
    Fast,
    /// Consensus, persistent thoughts: time constant of thirty seconds.
    Slow,
    /// Meant to be consumed at once; never decays.
    Urgent,
}

impl Tempo {
    /// Decay time constant in whole seconds; zero means "does not decay".
    pub open spec fn time_constant(self) -> nat {
        match self {
            Tempo::Fast => 2,
            Tempo::Slow => 30,
            Tempo::Urgent => 0,
        }
    }

    /// Decay time constant in seconds.
    pub fn tau(&self) -> (seconds: u32)
        ensures
            seconds == self.time_constant(),
    {
        match self {
            Tempo::Fast => 2,
            Tempo::Slow => 30,
            Tempo::Urgent => 0,
        }
    }
}

/// Polarity for attraction or repulsion.
#[derive(Debug, Clone, Copy, PartialEq, Eq, Structural)]
pub enum Polarity {
    Attract,
    Repel,
}

/// Concept packet emitted by an agent. Immutable once created.
#[derive(Debug, Clone)]
pub struct ConceptPacket {
    /// Anchor text, two to six words.
    pub phrase: String,
    /// Confidence or urgency, in billionths; meant to lie between zero and one.
    pub amp: i32,
    /// Breadth against specificity, in billionths.
    pub sigma: i64,
    pub polarity: Polarity,
    pub tempo: Tempo,
    /// Pointer to the source context.
    pub provenance: String,
    /// Stable role identifier of the emitting agent.
    pub agent_id: String,
    /// Hash of the reasoning step; the packet's primary key.
    pub rationale_hash: String,
    /// Milliseconds since the epoch.
    pub timestamp: u64,
}

/// Shape of a basin.
#[derive(Debug, Clone, Copy, PartialEq, Eq, Structural)]
pub enum BasinType {
    /// Consensus.
    Valley,
    /// Trade-off boundary.
    Ridge,
    /// Overload or contradiction.
    Peak,
}

/// Recommended action for a basin.
#[derive(Debug, Clone, Copy, PartialEq, Eq, Structural)]
pub enum Action {
    /// Valley: spawn an implementation.
    PlanSpike,
    /// Ridge: probe both sides.
    PairedExperiment,
    /// Peak: split into sub-basins.
    Decompose,
    /// Transient noise.
    IgnoreShortLived,
}

/// Synthesis tier of a pre-card.
#[derive(Debug, Clone, Copy, PartialEq, Eq, Structural)]
pub enum SynthTier {
    Template,
    Light,
    Heavy,
}

/// Instant feedback template attached to a basin.
#[derive(Debug, Clone)]
pub struct PreCard {
    pub tier: SynthTier,
    pub summary: String,
    pub top_phrases: Vec<String>,
    pub suggested_action: String,
}

/// Clustering thresholds in force when a basin matured, kept for debugging.
#[derive(Debug, Clone)]
pub struct ThresholdSnapshot {
    pub persistence_min: u32,
    /// In similarity units.
    pub density_threshold: i64,
    pub nd_min_members: usize,
    /// In similarity units.
    pub nd_radius: i64,
    pub window_w: u32,
}

/// Basin feedback record assembled by callers from a mature cluster.
#[derive(Debug, Clone)]
pub struct BasinFeedback {
    pub basin_id: String,
    pub type_: BasinType,
    /// Projection coordinates, in billionths.
    pub coords_2d: [i32; 2],
    /// Rationale hash of the medoid: a real member, never an average.
    pub rep_id: String,
    pub rep_phrase: String,
    /// Rationale hashes of the contributors.
    pub contributors: Vec<String>,
    /// Mean pairwise similarity, in similarity units.
    pub nd_cohesion: i64,
    /// In similarity units.
    pub nd_radius: i64,
    pub persistence: u32,
    pub tempo: Tempo,
    /// Diagnostic only, never semantic.
    pub centroid: Option<Vec<i32>>,
    pub endpoints: Option<Vec<String>>,
    pub decompose_into: Option<Vec<String>>,
    pub recommended_action: Action,
    pub precard: Option<PreCard>,
    pub thresholds: Option<ThresholdSnapshot>,
    /// Milliseconds since the epoch at which the basin matured.
    pub timestamp: u64,
}

/// Ledger entry: one packet's vector and metadata.
#[derive(Debug, Clone)]
pub struct LedgerEntry {
    /// Embedding, each component in billionths.
    pub vector: Vec<i32>,
    pub rationale_hash: String,
    pub agent_id: String,
    pub provenance: String,
    pub timestamp: u64,
    pub tempo: Tempo,
    /// Filled in on demand by a projection layer, in billionths.
    pub coords_2d: Option<[i32; 2]>,
}

/// What a ledger entry holds, as mathematical values.
pub struct EntryView {
    pub vector: Seq<i32>,
    pub rationale_hash: Seq<char>,
    pub agent_id: Seq<char>,
    pub provenance: Seq<char>,
    pub timestamp: u64,
    pub tempo: Tempo,
    pub coords_2d: Option<[i32; 2]>,
}

impl View for LedgerEntry {
    type V = EntryView;

    open spec fn view(&self) -> EntryView {
        EntryView {
            vector: self.vector@,
            rationale_hash: self.rationale_hash@,
            agent_id: self.agent_id@,
            provenance: self.provenance@,
            timestamp: self.timestamp,
            tempo: self.tempo,
            coords_2d: self.coords_2d,
        }
    }
}

} // verus!

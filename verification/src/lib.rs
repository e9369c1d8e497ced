//! SelMem: selective reconstructive memory for an LLM entity.
//!
//! This crate holds the verified part of the organ: the shape of the lived
//! book (traces, archives, axioms, merge edges), the night passes that only
//! move that shape, the text rules that decide what a gist becomes, the
//! marker lexicons and probe sides of the benchmark, and the wire format of
//! the HTTP face. The affect numbers of a trace ride along as an opaque
//! payload.

pub mod model;
pub mod order;
pub mod store;
pub mod lineage;
pub mod query;
pub mod retrieve;
pub mod night;
pub mod merge;
pub mod ladder;
pub mod snapshot;
pub mod text;
pub mod markers;
pub mod bench;
pub mod wire;
pub mod speech;
pub mod probe;
pub mod evidence;
pub mod weather;
pub mod narrator;
pub mod report;
pub mod sitting;
pub mod baseline;
pub mod feed;
pub mod organ;
pub mod fingerprint;

pub use model::{
    ArchiveRecord, AxiomLayer, Channel, DriftKind, IdentityAxiom, LlmBind, MemoryTrace, OrganCut,
    RecallTally, TraceStatus,
};
pub use model::now_secs;
pub use store::{Link, MemoryStore};
pub use night::{NightKind, NIGHT_PASSES, SHALLOW_PASSES};
pub use retrieve::{RecallBias, RecallWrite};
pub use markers::{names_marker, names_soft_marker, stance_is_abstract};
pub use bench::{Arm, BenchOpts, Condition, V01Script};
pub use speech::query_hits_episode;
pub use probe::RetrievalSide;
pub use narrator::RuleNarrator;
pub use wire::{json_esc, HttpResponse};

//! The records of the organ: channels, statuses, traces, archives, axioms.
//!
//! A trace's affect numbers (valence, arousal, disgust, fidelity, access,
//! anchor, embedding, drift log) live in its payload `affect`; an axiom's
//! valence and strength live in `weight`. Nothing here reads them.

use vstd::prelude::*;

verus! {

/// Which book a record belongs to.
#[derive(Clone, Copy, Debug, PartialEq, Eq, Structural)]
pub enum Channel {
    Selfhood,
    World,
    /// Tool / journal lines. Always kept. No reconstruct, weather, or merge.
    Log,
}

impl Channel {
    /// World facts and tool logs are never warped.
    pub open spec fn is_verbatim(self) -> bool {
        self is World || self is Log
    }

    /// Do not warp this record. World facts and tool logs.
    pub fn verbatim(self) -> (r: bool)
        ensures
            r == self.is_verbatim(),
    {
        match self {
            Channel::Selfhood => false,
            Channel::World => true,
            Channel::Log => true,
        }
    }
}

#[derive(Clone, Copy, Debug, PartialEq, Eq, Structural)]
pub enum TraceStatus {
    Active,
    Cold,
    Myth,
    /// Scene gone; affect / schema still color the next hour.
    Latent,
}

#[derive(Clone, Copy, Debug, PartialEq, Eq, Structural)]
pub enum DriftKind {
    Embellish,
    AmplifyDisgust,
    Fade,
    Merge,
    Weather,
    Rewrite,
    Reinterpret,
    Ground,
    /// Same event, other speech act. Mouth only; gist and core stay.
    Color,
}

#[derive(Clone, Copy, Debug, PartialEq, Eq, Structural)]
pub enum AxiomLayer {
    Motif,
    Belief,
    Trait,
}

/// The sealed book: what was lived, verbatim. Never handed to the narrator.
#[derive(Clone, Debug)]
pub struct ArchiveRecord {
    pub id: String,
    pub verbatim: String,
    pub source: String,
    pub created_at: u64,
}

/// One lived episode. This is what the entity *uses*.
/// The sealed archive lives in `ArchiveRecord`, pointed at by `archive_id`.
#[derive(Clone, Debug)]
pub struct MemoryTrace<N> {
    pub id: String,
    /// Reconstructable story the narrator may tell. This can drift.
    pub gist: String,
    /// Stable semantic reference frozen at encode. Grounding compares against this.
    pub core: String,
    pub cues: Vec<String>,
    /// Topic bucket used to cluster traces into motifs / beliefs.
    pub schema: Option<String>,
    pub channel: Channel,
    /// Pointer into the sealed book. Never handed to the narrator.
    pub archive_id: Option<String>,
    pub created_at: u64,
    pub last_recalled_at: Option<u64>,
    pub last_consolidated_at: Option<u64>,
    pub rehearsals: u32,
    pub status: TraceStatus,
    /// Consecutive spoken sentences that left the core. Reset after a pull-back.
    pub detach_strikes: u32,
    /// Valence, arousal, disgust, self-relevance, fidelity, permanence,
    /// access, anchor, salience at encode, embedding and the drift log.
    pub affect: N,
}

/// A living (or superseded) belief about the self, with the hours behind it.
#[derive(Clone, Debug)]
pub struct IdentityAxiom<W> {
    pub id: String,
    pub statement: String,
    pub support_trace_ids: Vec<String>,
    pub created_at: u64,
    pub superseded_by: Option<String>,
    pub schema: Option<String>,
    pub layer: AxiomLayer,
    /// Valence and strength of the axiom.
    pub weight: W,
}

impl<W> IdentityAxiom<W> {
    pub open spec fn is_living(self) -> bool {
        self.superseded_by is None
    }

    /// The axiom lists this hour as support.
    pub open spec fn supports(self, trace_id: Seq<char>) -> bool {
        exists|k: int| 0 <= k < self.support_trace_ids@.len() && #[trigger] self.support_trace_ids@[k]@ == trace_id
    }
}

/// Runtime cuts for P0 / P2 ablations. Not persisted. Default is the full organ.
#[derive(Clone, Copy, Debug, PartialEq, Eq, Structural)]
pub struct OrganCut {
    pub reconsolidate: bool,
    pub ground: bool,
    pub ladder: bool,
    /// When false, readout is the stored gist. No reconstruct / write-back.
    pub reconstruct: bool,
    /// Live speak (or `note_spoken`) raises strength on axioms that list the hour.
    pub util_to_strength: bool,
    /// Night merge refuses a pair that supports distinct living axioms, or a pin.
    pub merge_support_veto: bool,
}

impl OrganCut {
    /// Every pass on; the two P2/P3 cuts off.
    pub open spec fn spec_full() -> OrganCut {
        OrganCut {
            reconsolidate: true,
            ground: true,
            ladder: true,
            reconstruct: true,
            util_to_strength: false,
            merge_support_veto: false,
        }
    }

    pub fn full() -> (c: Self)
        ensures
            c == Self::spec_full(),
    {
        OrganCut {
            reconsolidate: true,
            ground: true,
            ladder: true,
            reconstruct: true,
            util_to_strength: false,
            merge_support_veto: false,
        }
    }

    /// Gate on, then freeze: no reconsolidation, grounding, ladder or reconstruction.
    pub fn static_book() -> (c: Self)
        ensures
            c == (OrganCut {
                reconsolidate: false,
                ground: false,
                ladder: false,
                reconstruct: false,
                util_to_strength: false,
                merge_support_veto: false,
            }),
    {
        OrganCut {
            reconsolidate: false,
            ground: false,
            ladder: false,
            reconstruct: false,
            util_to_strength: false,
            merge_support_veto: false,
        }
    }

    pub fn no_recon() -> (c: Self)
        ensures
            c == (OrganCut { reconsolidate: false, ..Self::spec_full() }),
    {
        OrganCut { reconsolidate: false, ..Self::full() }
    }

    pub fn no_ground() -> (c: Self)
        ensures
            c == (OrganCut { ground: false, ..Self::spec_full() }),
    {
        OrganCut { ground: false, ..Self::full() }
    }

    pub fn no_ladder() -> (c: Self)
        ensures
            c == (OrganCut { ladder: false, ..Self::spec_full() }),
    {
        OrganCut { ladder: false, ..Self::full() }
    }
}

impl Default for OrganCut {
    fn default() -> (c: Self)
        ensures
            c == Self::spec_full(),
    {
        Self::full()
    }
}

/// How many recalled hours were pulled toward the core or rewritten.
#[derive(Clone, Copy, Debug)]
pub struct RecallTally {
    pub n: u32,
    pub pulled: u32,
    pub reconsolidated: u32,
}

impl Default for RecallTally {
    fn default() -> (t: Self)
        ensures
            t.n == 0 && t.pulled == 0 && t.reconsolidated == 0,
    {
        RecallTally { n: 0, pulled: 0, reconsolidated: 0 }
    }
}

/// Runtime LLM endpoint. Key stays on the process; GET only reports a mask.
#[derive(Clone, Debug)]
pub struct LlmBind {
    pub url: String,
    pub model: String,
    pub key: Option<String>,
}

impl Default for LlmBind {
    fn default() -> (b: Self)
        ensures
            b.url@ == Seq::<char>::empty(),
            b.model@ == Seq::<char>::empty(),
            b.key is None,
    {
        LlmBind { url: String::new(), model: String::new(), key: None }
    }
}

/// The system clock's reading, as std holds it.
#[verifier::external_type_specification]
#[verifier::external_body]
pub struct ExSystemTime(std::time::SystemTime);

/// Calls `SystemTime::now`. Nothing is promised of the reading.
#[verifier::external_body]
fn clock_now() -> std::time::SystemTime {
    std::time::SystemTime::now()
}

/// Calls `SystemTime::duration_since` with the Unix epoch; `None` where std
/// reports the reading as earlier than the epoch. Nothing is promised of the span.
#[verifier::external_body]
fn since_epoch(t: &std::time::SystemTime) -> Option<std::time::Duration> {
    t.duration_since(std::time::UNIX_EPOCH).ok()
}

/// Calls `Duration::as_secs`: the whole seconds of the span. The span is
/// opaque here, so nothing is promised of the number.
#[verifier::external_body]
fn whole_seconds(d: &std::time::Duration) -> u64 {
    d.as_secs()
}

/// Wall-clock seconds since the Unix epoch; 0 when the clock reads earlier.
pub fn now_secs() -> u64 {
    let t = clock_now();
    match since_epoch(&t) {
        Some(d) => whole_seconds(&d),
        None => 0,
    }
}

} // verus!

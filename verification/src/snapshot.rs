//! One field list for the lived book. File and SQLite only choose a container.
//!
//! The tokens under which channels, statuses, drift kinds and layers are
//! written, and the sealed archive record.

use vstd::prelude::*;

use crate::model::{ArchiveRecord, AxiomLayer, Channel, DriftKind, TraceStatus};

verus! {

pub open spec fn channel_word(c: Channel) -> Seq<char> {
    match c {
        Channel::Selfhood => "self"@,
        Channel::World => "world"@,
        Channel::Log => "log"@,
    }
}

pub open spec fn status_word(s: TraceStatus) -> Seq<char> {
    match s {
        TraceStatus::Active => "active"@,
        TraceStatus::Cold => "cold"@,
        TraceStatus::Myth => "myth"@,
        TraceStatus::Latent => "latent"@,
    }
}

pub open spec fn drift_word(k: DriftKind) -> Seq<char> {
    match k {
        DriftKind::Embellish => "embellish"@,
        DriftKind::AmplifyDisgust => "disgust"@,
        DriftKind::Fade => "fade"@,
        DriftKind::Merge => "merge"@,
        DriftKind::Weather => "weather"@,
        DriftKind::Rewrite => "rewrite"@,
        DriftKind::Reinterpret => "reinterpret"@,
        DriftKind::Ground => "ground"@,
        DriftKind::Color => "color"@,
    }
}

pub open spec fn layer_word(l: AxiomLayer) -> Seq<char> {
    match l {
        AxiomLayer::Motif => "motif"@,
        AxiomLayer::Belief => "belief"@,
        AxiomLayer::Trait => "trait"@,
    }
}

pub fn assemble_archive(id: String, created_at: u64, source: String, verbatim: String) -> (r: ArchiveRecord)
    ensures
        r.id == id,
        r.created_at == created_at,
        r.source == source,
        r.verbatim == verbatim,
{
    ArchiveRecord { id, created_at, source, verbatim }
}

pub fn channel_token(c: Channel) -> (r: &'static str)
    ensures
        r@ == channel_word(c),
{
    match c {
        Channel::Selfhood => "self",
        Channel::World => "world",
        Channel::Log => "log",
    }
}

pub fn status_token(s: TraceStatus) -> (r: &'static str)
    ensures
        r@ == status_word(s),
{
    match s {
        TraceStatus::Active => "active",
        TraceStatus::Cold => "cold",
        TraceStatus::Myth => "myth",
        TraceStatus::Latent => "latent",
    }
}

pub fn drift_token(k: DriftKind) -> (r: &'static str)
    ensures
        r@ == drift_word(k),
{
    match k {
        DriftKind::Embellish => "embellish",
        DriftKind::AmplifyDisgust => "disgust",
        DriftKind::Fade => "fade",
        DriftKind::Merge => "merge",
        DriftKind::Weather => "weather",
        DriftKind::Rewrite => "rewrite",
        DriftKind::Reinterpret => "reinterpret",
        DriftKind::Ground => "ground",
        DriftKind::Color => "color",
    }
}

pub fn layer_token(l: AxiomLayer) -> (r: &'static str)
    ensures
        r@ == layer_word(l),
{
    match l {
        AxiomLayer::Motif => "motif",
        AxiomLayer::Belief => "belief",
        AxiomLayer::Trait => "trait",
    }
}

/// "motif" and "trait" name their layers; any other token reads as a belief.
pub open spec fn layer_of_word(s: Seq<char>) -> AxiomLayer {
    if s == "motif"@ {
        AxiomLayer::Motif
    } else if s == "trait"@ {
        AxiomLayer::Trait
    } else {
        AxiomLayer::Belief
    }
}

pub fn parse_layer_token(s: &str) -> (l: AxiomLayer)
    ensures
        l == layer_of_word(s@),
{
    if crate::text::same_text(s, "motif") {
        AxiomLayer::Motif
    } else if crate::text::same_text(s, "trait") {
        AxiomLayer::Trait
    } else {
        AxiomLayer::Belief
    }
}

/// Reading back the token a layer was written under gives the same layer.
pub proof fn layer_token_round_trip(l: AxiomLayer)
    ensures
        layer_of_word(layer_word(l)) == l,
{
    reveal_strlit("motif");
    reveal_strlit("trait");
    reveal_strlit("belief");
    match l {
        AxiomLayer::Motif => {
            assert(layer_word(l) == "motif"@);
            assert(layer_of_word("motif"@) == AxiomLayer::Motif);
        },
        AxiomLayer::Trait => {
            assert(layer_word(l) == "trait"@);
            assert("trait"@ != "motif"@) by {
                assert("trait"@[0] != "motif"@[0]);
            }
            assert(layer_of_word("trait"@) == AxiomLayer::Trait);
        },
        AxiomLayer::Belief => {
            assert("belief"@ != "motif"@) by {
                assert("belief"@[0] != "motif"@[0]);
            }
            assert("belief"@ != "trait"@) by {
                assert("belief"@[0] != "trait"@[0]);
            }
        },
    }
}

} // verus!

//! First night pass, the part that is not arithmetic on affect: which hours
//! may lose charge, and how a latent hour that was lived again comes back.

use vstd::prelude::*;

use crate::model::{MemoryTrace, TraceStatus};

verus! {

/// The charge was not used since the last consolidation: never recalled, or
/// recalled no later than the last night that consolidated it.
pub open spec fn charge_unused(last_recalled: Option<u64>, last_consolidated: Option<u64>) -> bool {
    match (last_recalled, last_consolidated) {
        (None, _) => true,
        (Some(r), Some(c)) => r <= c,
        (Some(_), None) => false,
    }
}

pub fn unused_since_night(last_recalled: Option<u64>, last_consolidated: Option<u64>) -> (r: bool)
    ensures
        r == charge_unused(last_recalled, last_consolidated),
{
    match (last_recalled, last_consolidated) {
        (None, _) => true,
        (Some(r), Some(c)) => r <= c,
        (Some(_), None) => false,
    }
}

/// Disgust may slowly extinguish on this hour: it is no verbatim record and
/// its charge was not used since the last consolidation. (How much, and
/// whether there is any disgust left to lose, is read on the affect.)
pub fn may_extinguish<N>(trace: &MemoryTrace<N>) -> (r: bool)
    ensures
        r == (!trace.channel.is_verbatim() && charge_unused(
            trace.last_recalled_at,
            trace.last_consolidated_at,
        )),
{
    !trace.channel.verbatim() && unused_since_night(trace.last_recalled_at, trace.last_consolidated_at)
}

/// The charge was lived again: a latent hour rehearsed at least twice
/// returns as a cold blur. The lived scene does not return, only the
/// core (when there is one) becomes its gist, and its detach strikes are
/// cleared. Returns whether it revived; the caller then lifts its fidelity
/// and access.
pub fn maybe_revive_latent<N>(trace: &mut MemoryTrace<N>) -> (revived: bool)
    ensures
        revived == (old(trace).status == TraceStatus::Latent && old(trace).rehearsals >= 2),
        revived ==> {
            &&& final(trace).status == TraceStatus::Cold
            &&& final(trace).detach_strikes == 0
            &&& final(trace).gist@ == (if old(trace).core@.len() > 0 {
                old(trace).core@
            } else {
                old(trace).gist@
            })
            &&& final(trace).core == old(trace).core
            &&& final(trace).id == old(trace).id
            &&& final(trace).cues == old(trace).cues
            &&& final(trace).schema == old(trace).schema
            &&& final(trace).channel == old(trace).channel
            &&& final(trace).archive_id == old(trace).archive_id
            &&& final(trace).created_at == old(trace).created_at
            &&& final(trace).last_recalled_at == old(trace).last_recalled_at
            &&& final(trace).last_consolidated_at == old(trace).last_consolidated_at
            &&& final(trace).rehearsals == old(trace).rehearsals
            &&& final(trace).affect == old(trace).affect
        },
        !revived ==> *final(trace) == *old(trace),
{
    if trace.status != TraceStatus::Latent {
        return false;
    }
    if trace.rehearsals < 2 {
        return false;
    }
    if !trace.core.as_str().is_empty() {
        trace.gist = trace.core.clone();
    }
    trace.status = TraceStatus::Cold;
    trace.detach_strikes = 0;
    true
}

/// After the night has looked at an hour: its first consolidation is dated
/// to when it was lived, every later one to now.
pub fn stamp_consolidation<N>(trace: &mut MemoryTrace<N>, now: u64)
    ensures
        final(trace).last_consolidated_at == Some(
            if old(trace).last_consolidated_at is None {
                old(trace).created_at
            } else {
                now
            },
        ),
        *final(trace) == (MemoryTrace { last_consolidated_at: final(trace).last_consolidated_at, ..*old(trace) }),
{
    if trace.last_consolidated_at.is_none() {
        trace.last_consolidated_at = Some(trace.created_at);
    } else {
        trace.last_consolidated_at = Some(now);
    }
}

} // verus!

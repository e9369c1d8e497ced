use selmem::night::{budget_kind, passes_for, release};
use selmem::{ArchiveRecord, Channel, IdentityAxiom, MemoryStore, MemoryTrace, NightKind, OrganCut, TraceStatus};
use selmem::{AxiomLayer, NIGHT_PASSES, SHALLOW_PASSES};

fn hour(id: &str, status: TraceStatus, channel: Channel) -> MemoryTrace<()> {
    MemoryTrace {
        id: id.to_string(),
        gist: format!("gist of {id}"),
        core: format!("core of {id}"),
        cues: Vec::new(),
        schema: None,
        channel,
        archive_id: None,
        created_at: 1,
        last_recalled_at: None,
        last_consolidated_at: None,
        rehearsals: 0,
        status,
        detach_strikes: 0,
        affect: (),
    }
}

fn belief(id: &str, support: &[&str], living: bool) -> IdentityAxiom<()> {
    IdentityAxiom {
        id: id.to_string(),
        statement: format!("statement {id}"),
        support_trace_ids: support.iter().map(|s| s.to_string()).collect(),
        created_at: 1,
        superseded_by: if living { None } else { Some("newer".to_string()) },
        schema: None,
        layer: AxiomLayer::Belief,
        weight: (),
    }
}

fn ids(store: &MemoryStore<(), ()>) -> Vec<String> {
    store.traces.iter().map(|t| t.id.clone()).collect()
}

fn strings(v: &[&str]) -> Vec<String> {
    v.iter().map(|s| s.to_string()).collect()
}

#[test]
fn shallow_passes_are_weather_and_release() {
    assert_eq!(SHALLOW_PASSES, &["weather", "release"]);
    assert_eq!(
        NIGHT_PASSES,
        &["weather", "rewrite", "merge", "ladder", "release"]
    );
}

#[test]
fn night_kind_names() {
    assert_eq!(NightKind::Shallow.as_str(), "shallow");
    assert_eq!(NightKind::Deep.as_str(), "deep");
}

#[test]
fn budget_needs_hours_or_charge() {
    assert_eq!(budget_kind(2, 3, false), NightKind::Shallow);
    assert_eq!(budget_kind(3, 3, false), NightKind::Deep);
    assert_eq!(budget_kind(0, 3, true), NightKind::Deep);
}

#[test]
fn release_drops_only_spent_latent_hours_nobody_leans_on() {
    let mut s: MemoryStore<(), ()> = MemoryStore::new();
    s.add_trace(hour("a", TraceStatus::Latent, Channel::Selfhood));
    s.add_trace(hour("b", TraceStatus::Latent, Channel::Selfhood));
    s.add_trace(hour("c", TraceStatus::Latent, Channel::World));
    s.add_trace(hour("d", TraceStatus::Active, Channel::Selfhood));
    s.add_trace(hour("e", TraceStatus::Latent, Channel::Selfhood));
    s.add_trace(hour("f", TraceStatus::Latent, Channel::Selfhood));
    s.add_axiom(belief("ax1", &["b"], true));
    s.add_axiom(belief("ax2", &["f"], false));
    s.link("a", "d");
    let before = strings(&["a", "b", "c", "d", "f"]);
    let spent = strings(&["a", "b", "c", "d", "e", "f"]);
    let n = release(&mut s, &before, &spent);
    // a: leaves; b: a living axiom lists it; c: verbatim; d: active;
    // e: became latent tonight; f: only a superseded axiom lists it.
    assert_eq!(n, 2);
    assert_eq!(ids(&s), strings(&["b", "c", "d", "e"]));
    assert!(!s.is_linked("d", "a"));
    assert!(s.edges.is_empty());
}

#[test]
fn release_keeps_hours_that_are_not_spent() {
    let mut s: MemoryStore<(), ()> = MemoryStore::new();
    s.add_trace(hour("a", TraceStatus::Latent, Channel::Selfhood));
    let n = release(&mut s, &strings(&["a"]), &[]);
    assert_eq!(n, 0);
    assert_eq!(ids(&s), strings(&["a"]));
}

#[test]
fn deep_night_clears_the_waiting_list() {
    let mut s: MemoryStore<(), ()> = MemoryStore::new();
    s.add_trace(hour("a", TraceStatus::Active, Channel::Selfhood));
    s.add_trace(hour("w", TraceStatus::Active, Channel::World));
    assert_eq!(s.pending_night, strings(&["a"]));
    s.close_deep_night(42);
    assert!(s.pending_night.is_empty());
    assert_eq!(s.last_deep_at, Some(42));
}

#[test]
fn latent_ids_lists_latent_hours_in_book_order() {
    let mut s: MemoryStore<(), ()> = MemoryStore::new();
    s.add_trace(hour("x", TraceStatus::Latent, Channel::Selfhood));
    s.add_trace(hour("y", TraceStatus::Cold, Channel::Selfhood));
    s.add_trace(hour("z", TraceStatus::Latent, Channel::Log));
    assert_eq!(s.latent_ids(), strings(&["x", "z"]));
}

fn kept(id: &str, status: TraceStatus, archive: &str) -> MemoryTrace<()> {
    let mut t = hour(id, status, Channel::Selfhood);
    t.archive_id = Some(archive.to_string());
    t
}

fn record(id: &str) -> ArchiveRecord {
    ArchiveRecord {
        id: id.to_string(),
        verbatim: format!("verbatim {id}"),
        source: "test".to_string(),
        created_at: 1,
    }
}

fn archive_ids(store: &MemoryStore<(), ()>) -> Vec<String> {
    store.archives.iter().map(|a| a.id.clone()).collect()
}

#[test]
fn release_lets_an_archive_go_only_when_no_staying_hour_keeps_it() {
    let mut s: MemoryStore<(), ()> = MemoryStore::new();
    for a in ["ar1", "ar2", "ar3", "ar4"] {
        s.add_archive(record(a));
    }
    s.add_trace(kept("a", TraceStatus::Latent, "ar1"));
    s.add_trace(kept("b", TraceStatus::Active, "ar1"));
    s.add_trace(kept("c", TraceStatus::Latent, "ar2"));
    s.add_trace(kept("d", TraceStatus::Latent, "ar3"));
    s.add_trace(kept("e", TraceStatus::Latent, "ar3"));
    let all = strings(&["a", "b", "c", "d", "e"]);
    let n = release(&mut s, &all, &all);
    assert_eq!(n, 4);
    assert_eq!(ids(&s), strings(&["b"]));
    // ar1: b stays and keeps it; ar2 and ar3: every hour that kept them left;
    // ar4: no hour ever kept it.
    assert_eq!(archive_ids(&s), strings(&["ar1", "ar4"]));
}

#[test]
fn a_night_runs_its_passes_in_the_deep_order() {
    assert_eq!(passes_for(NightKind::Deep, OrganCut::full()), NIGHT_PASSES.to_vec());
    assert_eq!(passes_for(NightKind::Shallow, OrganCut::full()), SHALLOW_PASSES.to_vec());
    let mut cut = OrganCut::full();
    cut.ladder = false;
    assert_eq!(passes_for(NightKind::Deep, cut), vec!["weather", "rewrite", "merge", "release"]);
    assert_eq!(passes_for(NightKind::Shallow, cut), vec!["weather", "release"]);
}

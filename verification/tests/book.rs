use selmem::evidence::AxiomStep;
use selmem::ladder::{extend_support, mint_layer, mint_unless_said, promoted_layer};
use selmem::speech::{count_strike, land_pull};
use selmem::merge::{fuse_core, fuse_gist};
use selmem::retrieve::{apply_bias, axiom_supported_by_lineage, can_force, lineage_of};
use selmem::snapshot::{
    assemble_archive, channel_token, drift_token, layer_token, parse_layer_token, status_token,
};
use selmem::weather::{may_extinguish, maybe_revive_latent, stamp_consolidation, unused_since_night};
use selmem::{
    ArchiveRecord, AxiomLayer, Channel, DriftKind, IdentityAxiom, LlmBind, MemoryStore,
    MemoryTrace, OrganCut, RecallBias, RecallTally, RuleNarrator, TraceStatus,
};

fn hour(id: &str, schema: Option<&str>, status: TraceStatus) -> MemoryTrace<()> {
    MemoryTrace {
        id: id.to_string(),
        gist: format!("gist of {id}"),
        core: format!("core of {id}"),
        cues: Vec::new(),
        schema: schema.map(|s| s.to_string()),
        channel: Channel::Selfhood,
        archive_id: None,
        created_at: 1,
        last_recalled_at: None,
        last_consolidated_at: None,
        rehearsals: 0,
        status,
        detach_strikes: 0,
        affect: (),
    }
}

fn axiom_on(id: &str, schema: Option<&str>, support: &[&str], layer: AxiomLayer) -> IdentityAxiom<()> {
    IdentityAxiom {
        id: id.to_string(),
        statement: format!("statement {id}"),
        support_trace_ids: strings(support),
        created_at: 1,
        superseded_by: None,
        schema: schema.map(|s| s.to_string()),
        layer,
        weight: (),
    }
}

fn strings(v: &[&str]) -> Vec<String> {
    v.iter().map(|s| s.to_string()).collect()
}

fn sorted(mut v: Vec<String>) -> Vec<String> {
    v.sort();
    v
}

// ---------------------------------------------------------------- model

#[test]
fn channels_world_and_log_are_verbatim() {
    assert!(!Channel::Selfhood.verbatim());
    assert!(Channel::World.verbatim());
    assert!(Channel::Log.verbatim());
}

#[test]
fn organ_cut_presets() {
    let full = OrganCut::full();
    assert!(full.reconsolidate && full.ground && full.ladder && full.reconstruct);
    assert!(!full.util_to_strength && !full.merge_support_veto);
    assert_eq!(OrganCut::default(), full);
    let frozen = OrganCut::static_book();
    assert!(!frozen.reconsolidate && !frozen.ground && !frozen.ladder && !frozen.reconstruct);
    assert_eq!(OrganCut::no_recon(), OrganCut { reconsolidate: false, ..full });
    assert_eq!(OrganCut::no_ground(), OrganCut { ground: false, ..full });
    assert_eq!(OrganCut::no_ladder(), OrganCut { ladder: false, ..full });
}

#[test]
fn defaults_start_empty() {
    let t = RecallTally::default();
    assert_eq!((t.n, t.pulled, t.reconsolidated), (0, 0, 0));
    let b = LlmBind::default();
    assert!(b.url.is_empty() && b.model.is_empty() && b.key.is_none());
}

#[test]
fn clock_reads_after_the_epoch() {
    assert!(selmem::now_secs() > 1_600_000_000);
}

// ---------------------------------------------------------------- store

#[test]
fn add_trace_replaces_same_id_and_queues_selfhood_hours() {
    let mut s: MemoryStore<(), ()> = MemoryStore::new();
    s.add_trace(hour("a", None, TraceStatus::Active));
    let mut again = hour("a", None, TraceStatus::Cold);
    again.gist = "second".into();
    s.add_trace(again);
    assert_eq!(s.traces.len(), 1);
    assert_eq!(s.traces[0].gist, "second");
    assert_eq!(s.pending_night, strings(&["a", "a"]));
    let mut w = hour("w", None, TraceStatus::Active);
    w.channel = Channel::World;
    s.add_trace(w);
    assert_eq!(s.pending_night.len(), 2);
}

#[test]
fn link_is_symmetric_and_ignores_self_links() {
    let mut s: MemoryStore<(), ()> = MemoryStore::new();
    s.link("a", "b");
    s.link("b", "a");
    s.link("c", "c");
    assert!(s.is_linked("a", "b") && s.is_linked("b", "a"));
    assert!(!s.is_linked("c", "c"));
    assert_eq!(s.edges.len(), 2);
}

#[test]
fn release_trace_drops_edges_and_an_unused_archive() {
    let mut s: MemoryStore<(), ()> = MemoryStore::new();
    s.add_archive(assemble_archive("arc1".into(), 5, "live".into(), "it happened".into()));
    s.add_archive(assemble_archive("arc2".into(), 6, "live".into(), "shared".into()));
    let mut a = hour("a", None, TraceStatus::Active);
    a.archive_id = Some("arc1".into());
    let mut b = hour("b", None, TraceStatus::Active);
    b.archive_id = Some("arc2".into());
    let mut c = hour("c", None, TraceStatus::Active);
    c.archive_id = Some("arc2".into());
    s.add_trace(a);
    s.add_trace(b);
    s.add_trace(c);
    s.link("a", "b");
    assert_eq!(s.audit("a"), Some("it happened"));
    assert!(s.archive_in_use("arc1"));
    let gone = s.release_trace("a").expect("a is in the book");
    assert_eq!(gone.id, "a");
    assert!(s.release_trace("a").is_none());
    assert!(!s.is_linked("b", "a"));
    assert_eq!(s.archives.len(), 1);
    assert_eq!(s.archives[0].id, "arc2");
    s.release_trace("b");
    assert_eq!(s.archives.len(), 1, "c still points at arc2");
    assert_eq!(s.audit("c"), Some("shared"));
    assert_eq!(s.audit("zz"), None);
}

#[test]
fn lineage_follows_schema_edges_and_axioms() {
    let mut s: MemoryStore<(), ()> = MemoryStore::new();
    s.add_trace(hour("t0", Some("work"), TraceStatus::Active));
    s.add_trace(hour("sib", Some("work"), TraceStatus::Cold));
    s.add_trace(hour("other", Some("home"), TraceStatus::Active));
    s.add_trace(hour("edge", Some("home"), TraceStatus::Myth));
    s.add_trace(hour("via_ax", None, TraceStatus::Active));
    s.add_trace(hour("far", None, TraceStatus::Active));
    s.link("sib", "edge");
    s.add_axiom(axiom_on("ax1", None, &["edge", "via_ax"], AxiomLayer::Motif));
    let l = s.lineage(&strings(&["t0"]));
    assert_eq!(l[0], "t0");
    assert_eq!(sorted(l.clone()), sorted(strings(&["t0", "sib", "edge", "via_ax"])));
    let mut dedup = l.clone();
    dedup.dedup();
    assert_eq!(dedup.len(), l.len());
    assert_eq!(sorted(lineage_of(&s, &strings(&["t0"]))), sorted(l));
}

#[test]
fn living_axioms_and_ids_for_a_trace() {
    let mut s: MemoryStore<(), ()> = MemoryStore::new();
    s.add_trace(hour("h", None, TraceStatus::Active));
    s.add_axiom(axiom_on("zeta", None, &["h"], AxiomLayer::Belief));
    s.add_axiom(axiom_on("alpha", None, &["h"], AxiomLayer::Motif));
    let mut dead = axiom_on("old", None, &["h"], AxiomLayer::Motif);
    dead.superseded_by = Some("alpha".into());
    s.add_axiom(dead);
    assert_eq!(s.living_axioms().len(), 2);
    assert_eq!(s.living_axiom_ids_for("h"), strings(&["alpha", "zeta"]));
    assert!(s.living_axiom_ids_for("nobody").is_empty());
}

#[test]
fn active_ids_sort_by_core_then_id() {
    let mut s: MemoryStore<(), ()> = MemoryStore::new();
    let mut b = hour("b", None, TraceStatus::Active);
    b.core = "apple".into();
    let mut a = hour("a", None, TraceStatus::Active);
    a.core = "banana".into();
    let mut c = hour("c", None, TraceStatus::Active);
    c.core = String::new();
    c.gist = "apple".into();
    s.add_trace(a);
    s.add_trace(b);
    s.add_trace(c);
    assert_eq!(s.active_ids(), strings(&["b", "c", "a"]));
}

#[test]
fn hours_since_deep_reads_the_waiting_list_sorted_by_id() {
    let mut s: MemoryStore<(), ()> = MemoryStore::new();
    s.add_trace(hour("z", None, TraceStatus::Active));
    s.add_trace(hour("m", None, TraceStatus::Active));
    let ids: Vec<String> = s.hours_since_deep().iter().map(|t| t.id.clone()).collect();
    assert_eq!(ids, strings(&["m", "z"]));
    s.close_deep_night(10);
    assert!(s.hours_since_deep().is_empty());
}

// ---------------------------------------------------------------- merge and ladder

#[test]
fn fused_gist_keeps_both_leading_clauses() {
    assert_eq!(fuse_gist("Rain at the window / extra", "Cold bench"), "Rain at the window / Cold bench");
    assert_eq!(fuse_gist(" Same hour ", "Same hour / other"), "Same hour, devenu un mythe.");
}

#[test]
fn fused_core_adds_new_words_of_the_absorbed_core() {
    assert_eq!(fuse_core("stayed in the rain", ""), "stayed in the rain");
    assert_eq!(fuse_core("rain", "stayed in the rain"), "stayed in the rain");
    assert_eq!(
        fuse_core("stayed in the rain", "waited by the window, did not leave"),
        "stayed in the rain waited window, did not"
    );
}

#[test]
fn absorb_folds_the_other_hour_into_the_keeper() {
    let mut s: MemoryStore<(), ()> = MemoryStore::new();
    let mut k = hour("k", Some("rain"), TraceStatus::Active);
    k.gist = "You stayed in the rain".into();
    k.core = "stayed in the rain".into();
    k.cues = strings(&["rain"]);
    let mut o = hour("o", Some("rain"), TraceStatus::Active);
    o.gist = "That rain again".into();
    o.core = "waited by the window".into();
    o.cues = strings(&["rain", "window"]);
    s.add_trace(k);
    s.add_trace(o);
    s.add_axiom(axiom_on("ax", Some("rain"), &["o"], AxiomLayer::Motif));
    s.absorb("k", "o");
    assert_eq!(s.traces[0].gist, "You stayed in the rain / That rain again");
    assert_eq!(s.traces[0].core, "stayed in the rain waited window");
    assert_eq!(s.traces[0].cues, strings(&["rain", "window"]));
    assert_eq!(s.traces[1].status, TraceStatus::Myth);
    assert!(s.is_linked("k", "o") && s.is_linked("o", "k"));
    assert_eq!(s.axioms[0].support_trace_ids, strings(&["o", "k"]));
}

#[test]
fn absorb_keeps_the_recall_stamps_and_strikes() {
    let mut s: MemoryStore<(), ()> = MemoryStore::new();
    let mut k = hour("k", Some("rain"), TraceStatus::Active);
    k.last_recalled_at = Some(7);
    k.last_consolidated_at = Some(5);
    k.detach_strikes = 2;
    let mut o = hour("o", Some("rain"), TraceStatus::Active);
    o.last_recalled_at = Some(9);
    o.detach_strikes = 1;
    s.add_trace(k);
    s.add_trace(o);
    s.absorb("k", "o");
    assert_eq!(
        (s.traces[0].last_recalled_at, s.traces[0].last_consolidated_at, s.traces[0].detach_strikes),
        (Some(7), Some(5), 2)
    );
    assert_eq!(
        (s.traces[1].last_recalled_at, s.traces[1].last_consolidated_at, s.traces[1].detach_strikes),
        (Some(9), None, 1)
    );
}

#[test]
fn lineage_begins_with_the_marked_ids_in_order() {
    let mut s: MemoryStore<(), ()> = MemoryStore::new();
    s.add_trace(hour("t0", Some("work"), TraceStatus::Active));
    s.add_trace(hour("sib", Some("work"), TraceStatus::Cold));
    s.add_trace(hour("t2", None, TraceStatus::Active));
    let l = s.lineage(&strings(&["t2", "t0", "t2", "ghost"]));
    assert_eq!(l, strings(&["t2", "t0", "ghost", "sib"]));
    assert_eq!(lineage_of(&s, &strings(&["sib", "t0"]))[..2].to_vec(), strings(&["sib", "t0"]));
}

#[test]
fn a_mint_is_skipped_when_a_living_axiom_said_it() {
    let mut s: MemoryStore<(), ()> = MemoryStore::new();
    s.add_axiom(axiom_on("ax1", Some("rain"), &["a"], AxiomLayer::Motif));
    let mut old = axiom_on("ax0", Some("sun"), &["b"], AxiomLayer::Motif);
    old.superseded_by = Some("ax1".to_string());
    s.add_axiom(old);
    let said = s.said_statements();
    assert_eq!(said, strings(&["statement ax1"]));
    let mut again = axiom_on("ax2", Some("wind"), &["c"], AxiomLayer::Motif);
    again.statement = "statement ax1".to_string();
    assert!(!mint_unless_said(&mut s, &said, again));
    assert_eq!(s.axioms.len(), 2);
    let mut fresh = axiom_on("ax3", Some("wind"), &["c"], AxiomLayer::Motif);
    fresh.statement = "statement ax0".to_string();
    assert!(mint_unless_said(&mut s, &said, fresh));
    assert_eq!(s.axioms.len(), 3);
    assert_eq!(s.axioms[2].id, "ax3");
}

#[test]
fn strikes_count_misses_and_a_pull_resets_them() {
    let mut t = hour("h", None, TraceStatus::Active);
    // Two misses the hour grips, with two allowed: the second is due a pull.
    assert!(!count_strike(&mut t, false, true, true, 2));
    assert_eq!(t.detach_strikes, 1);
    assert!(count_strike(&mut t, false, true, true, 2));
    assert_eq!(t.detach_strikes, 2);
    // A sentence near the core eases the count; a reframe or a loose grip leaves it.
    assert!(!count_strike(&mut t, false, false, true, 2));
    assert_eq!(t.detach_strikes, 1);
    assert!(!count_strike(&mut t, true, true, true, 2));
    assert!(!count_strike(&mut t, false, true, false, 2));
    assert_eq!(t.detach_strikes, 1);
    // A verbatim record never counts.
    let mut w = hour("w", None, TraceStatus::Active);
    w.channel = Channel::World;
    assert!(!count_strike(&mut w, false, true, true, 0));
    assert_eq!(w.detach_strikes, 0);
    // Landing: the same words, trimmed, change nothing; new words become the gist.
    assert!(!land_pull(&mut t, "  gist said ", "gist said"));
    assert_eq!((t.gist.as_str(), t.detach_strikes), ("gist of h", 1));
    assert!(land_pull(&mut t, "back to the core", "gist said"));
    assert_eq!((t.gist.as_str(), t.detach_strikes), ("back to the core", 0));
}

#[test]
fn merge_veto_on_pins_and_distinct_families() {
    let mut s: MemoryStore<(), ()> = MemoryStore::new();
    s.add_trace(hour("a", None, TraceStatus::Active));
    s.add_trace(hour("b", None, TraceStatus::Active));
    assert!(!s.merge_vetoed("a", "b", false, false));
    assert!(s.merge_vetoed("a", "b", true, false));
    s.add_axiom(axiom_on("ax", None, &["a"], AxiomLayer::Motif));
    assert!(s.merge_vetoed("a", "b", false, false), "empty vs supported is distinct");
    assert!(s.distinct_families("a", "b"));
}

#[test]
fn layers_by_living_count() {
    assert_eq!(mint_layer(2), AxiomLayer::Motif);
    assert_eq!(mint_layer(3), AxiomLayer::Belief);
    assert_eq!(promoted_layer(AxiomLayer::Motif, 3), AxiomLayer::Belief);
    assert_eq!(promoted_layer(AxiomLayer::Motif, 2), AxiomLayer::Motif);
    assert_eq!(promoted_layer(AxiomLayer::Trait, 5), AxiomLayer::Trait);
}

#[test]
fn support_grows_one_edge_out() {
    let mut s: MemoryStore<(), ()> = MemoryStore::new();
    s.link("a", "x");
    s.link("b", "x");
    s.link("x", "far");
    s.link("a", "b");
    let mut ids = strings(&["a", "b"]);
    extend_support(&s, &mut ids);
    assert_eq!(ids, strings(&["a", "b", "x"]));
}

#[test]
fn spoken_support_needs_a_rehearsed_hour() {
    let mut s: MemoryStore<(), ()> = MemoryStore::new();
    s.add_trace(hour("a", None, TraceStatus::Active));
    let mut b = hour("b", None, TraceStatus::Active);
    b.rehearsals = 2;
    s.add_trace(b);
    assert!(!s.support_spoken(&strings(&["a", "ghost"])));
    assert!(s.support_spoken(&strings(&["a", "b"])));
}

#[test]
fn schema_evidence_and_axiom_steps() {
    let mut s: MemoryStore<(), ()> = MemoryStore::new();
    s.add_trace(hour("r1", Some("rain"), TraceStatus::Active));
    s.add_trace(hour("h1", Some("hearth"), TraceStatus::Active));
    s.add_trace(hour("r2", Some("rain"), TraceStatus::Myth));
    s.add_trace(hour("h2", Some("hearth"), TraceStatus::Cold));
    s.add_trace(hour("h3", Some("hearth"), TraceStatus::Active));
    s.add_trace(hour("lat", Some("rain"), TraceStatus::Latent));
    s.add_trace(hour("n1", None, TraceStatus::Active));
    let mut w = hour("w", Some("rain"), TraceStatus::Active);
    w.channel = Channel::World;
    s.add_trace(w);
    s.link("r1", "far");
    let ev = s.schema_evidence();
    assert_eq!(ev.len(), 3);
    assert_eq!(ev[0].schema, "rain");
    assert_eq!(ev[0].ids, strings(&["r1", "r2"]));
    assert_eq!(ev[0].living, 1);
    assert_eq!(ev[1].schema, "hearth");
    assert_eq!(ev[1].living, 3);
    assert_eq!(ev[2].schema, "self");
    assert_eq!(ev[2].ids, strings(&["n1"]));

    s.add_axiom(axiom_on("ax_rain", Some("rain"), &["r1"], AxiomLayer::Motif));
    let steps = s.axiom_steps();
    assert_eq!(steps.len(), 2);
    match &steps[0] {
        AxiomStep::Keep { target, support, living } => {
            assert_eq!(target, "ax_rain");
            assert_eq!(support, &strings(&["r1", "r2", "far"]));
            assert_eq!(*living, 1);
        }
        AxiomStep::Mint { .. } => panic!("rain already has a living axiom"),
    }
    match &steps[1] {
        AxiomStep::Mint { schema, support, layer } => {
            assert_eq!(schema, "hearth");
            assert_eq!(support, &strings(&["h1", "h2", "h3"]));
            assert_eq!(*layer, AxiomLayer::Belief);
        }
        AxiomStep::Keep { .. } => panic!("hearth has no axiom yet"),
    }
}

#[test]
fn growing_a_schema_axiom_unions_support_and_promotes() {
    let mut s: MemoryStore<(), ()> = MemoryStore::new();
    s.add_axiom(axiom_on("ax", Some("rain"), &["a", "b"], AxiomLayer::Motif));
    s.add_axiom(axiom_on("other", Some("home"), &["z"], AxiomLayer::Motif));
    s.keep_schema_axiom("ax", &strings(&["b", "c", "a", "d"]), 3);
    assert_eq!(s.axioms[0].support_trace_ids, strings(&["a", "b", "c", "d"]));
    assert_eq!(s.axioms[0].layer, AxiomLayer::Belief);
    assert_eq!(s.axioms[1].support_trace_ids, strings(&["z"]));
    s.keep_schema_axiom("missing", &strings(&["q"]), 9);
    assert_eq!(s.axioms.len(), 2);
}

#[test]
fn rule_narrator_names_the_dominant_schema() {
    let n = RuleNarrator;
    let some = |s: &str| Some(s.to_string());
    assert_eq!(n.distill_schema(&[some("rain")]), None);
    assert_eq!(n.distill_schema(&[None, None]), Some("self".to_string()));
    assert_eq!(
        n.distill_schema(&[some("rain"), some("home"), some("home"), None]),
        Some("home".to_string())
    );
    // A tie goes to the schema seen last for the first time.
    assert_eq!(
        n.distill_schema(&[some("rain"), some("home"), some("home"), some("rain")]),
        Some("home".to_string())
    );
}

// ---------------------------------------------------------------- weather

#[test]
fn charge_unused_since_the_last_night() {
    assert!(unused_since_night(None, None));
    assert!(unused_since_night(None, Some(3)));
    assert!(unused_since_night(Some(3), Some(3)));
    assert!(!unused_since_night(Some(4), Some(3)));
    assert!(!unused_since_night(Some(4), None));
    let mut t = hour("t", None, TraceStatus::Active);
    assert!(may_extinguish(&t));
    t.channel = Channel::Log;
    assert!(!may_extinguish(&t));
}

#[test]
fn a_relived_latent_hour_returns_cold_on_its_core() {
    let mut t = hour("t", None, TraceStatus::Latent);
    t.rehearsals = 1;
    assert!(!maybe_revive_latent(&mut t));
    assert_eq!(t.status, TraceStatus::Latent);
    t.rehearsals = 2;
    t.detach_strikes = 3;
    assert!(maybe_revive_latent(&mut t));
    assert_eq!(t.status, TraceStatus::Cold);
    assert_eq!(t.gist, "core of t");
    assert_eq!(t.detach_strikes, 0);
    let mut u = hour("u", None, TraceStatus::Latent);
    u.rehearsals = 5;
    u.core = String::new();
    assert!(maybe_revive_latent(&mut u));
    assert_eq!(u.gist, "gist of u");
    let mut active = hour("v", None, TraceStatus::Active);
    active.rehearsals = 9;
    assert!(!maybe_revive_latent(&mut active));
}

// ---------------------------------------------------------------- retrieval

#[test]
fn bias_picks() {
    let mut s: MemoryStore<(), ()> = MemoryStore::new();
    s.add_trace(hour("m", Some("work"), TraceStatus::Active));
    s.add_trace(hour("sib", Some("work"), TraceStatus::Active));
    s.add_trace(hour("x", None, TraceStatus::Active));
    s.add_trace(hour("y", None, TraceStatus::Active));
    let eligible = strings(&["sib", "x", "m", "y"]);
    let marked = strings(&["m"]);
    assert_eq!(apply_bias(&eligible, &s, RecallBias::Observed, &marked, 2), strings(&["sib", "x"]));
    assert_eq!(apply_bias(&eligible, &s, RecallBias::DropMarked, &marked, 3), strings(&["sib", "x", "y"]));
    assert_eq!(apply_bias(&eligible, &s, RecallBias::DropLineage, &marked, 3), strings(&["x", "y"]));
    assert_eq!(apply_bias(&eligible, &s, RecallBias::ForceMarked, &marked, 3), strings(&["m", "sib", "x"]));
    assert!(apply_bias(&eligible, &s, RecallBias::Observed, &marked, 0).is_empty());
    assert!(can_force(&s, "m"));
    assert!(!can_force(&s, "nobody"));
}

#[test]
fn latent_marked_hours_cannot_be_forced() {
    let mut s: MemoryStore<(), ()> = MemoryStore::new();
    s.add_trace(hour("m", None, TraceStatus::Latent));
    s.add_trace(hour("x", None, TraceStatus::Active));
    assert!(!can_force(&s, "m"));
    let out = apply_bias(&strings(&["x"]), &s, RecallBias::ForceMarked, &strings(&["m"]), 2);
    assert_eq!(out, strings(&["x"]));
}

#[test]
fn axioms_derived_from_the_lineage() {
    let lineage = strings(&["t0", "sib"]);
    let schemas = strings(&["work"]);
    assert!(axiom_supported_by_lineage(&strings(&["zz", "sib"]), None, &lineage, &schemas));
    assert!(axiom_supported_by_lineage(&[], Some("work"), &lineage, &schemas));
    assert!(!axiom_supported_by_lineage(&strings(&["zz"]), Some("home"), &lineage, &schemas));
}

// ---------------------------------------------------------------- snapshot

#[test]
fn snapshot_tokens() {
    assert_eq!(channel_token(Channel::Selfhood), "self");
    assert_eq!(channel_token(Channel::World), "world");
    assert_eq!(channel_token(Channel::Log), "log");
    assert_eq!(status_token(TraceStatus::Latent), "latent");
    assert_eq!(drift_token(DriftKind::AmplifyDisgust), "disgust");
    assert_eq!(drift_token(DriftKind::Color), "color");
    for l in [AxiomLayer::Motif, AxiomLayer::Belief, AxiomLayer::Trait] {
        assert_eq!(parse_layer_token(layer_token(l)), l);
    }
    assert_eq!(parse_layer_token("anything"), AxiomLayer::Belief);
    let a: ArchiveRecord = assemble_archive("id".into(), 7, "src".into(), "words".into());
    assert_eq!((a.id.as_str(), a.created_at, a.source.as_str(), a.verbatim.as_str()), ("id", 7, "src", "words"));
}

#[test]
fn consolidation_is_dated_from_the_hour_then_from_now() {
    let mut t = hour("t", None, TraceStatus::Active);
    t.created_at = 11;
    stamp_consolidation(&mut t, 99);
    assert_eq!(t.last_consolidated_at, Some(11));
    stamp_consolidation(&mut t, 99);
    assert_eq!(t.last_consolidated_at, Some(99));
}

#[test]
fn latent_hours_mint_nothing() {
    let mut s: MemoryStore<(), ()> = MemoryStore::new();
    s.add_trace(hour("l1", Some("grief"), TraceStatus::Latent));
    s.add_trace(hour("l2", Some("grief"), TraceStatus::Latent));
    let mut w = hour("w", Some("grief"), TraceStatus::Active);
    w.channel = Channel::World;
    s.add_trace(w);
    assert!(s.schema_evidence().is_empty());
    assert!(s.axiom_steps().is_empty());
}

#[test]
fn a_merged_pair_shares_its_lineage() {
    let mut s: MemoryStore<(), ()> = MemoryStore::new();
    s.add_trace(hour("k", Some("a"), TraceStatus::Active));
    s.add_trace(hour("o", Some("b"), TraceStatus::Active));
    s.absorb("k", "o");
    assert!(s.lineage(&strings(&["k"])).contains(&"o".to_string()));
    assert!(s.lineage(&strings(&["o"])).contains(&"k".to_string()));
}

#[test]
fn sitting_lines_fold_short_replies_into_chunks() {
    let users = strings(&["  The project was cancelled today  ", "yes", "", "   ", "It hurt more than I said", "ok sure", "fine"]);
    let chunks = selmem::sitting::sitting_chunks(&users);
    assert_eq!(
        chunks,
        strings(&["The project was cancelled today\nyes", "It hurt more than I said\nok sure\nfine"])
    );
    let lone = selmem::sitting::sitting_chunks(&strings(&["hi", "there you are"]));
    assert_eq!(lone, strings(&["hi", "there you are"]));
    let mut s: MemoryStore<(), ()> = MemoryStore::new();
    s.add_archive(assemble_archive("a1".into(), 1, "talk".into(), "It was sealed before".into()));
    s.add_archive(assemble_archive("a2".into(), 1, "live".into(), "Same words elsewhere".into()));
    assert!(s.has_talk_archive("It was sealed before"));
    assert!(!s.has_talk_archive("Same words elsewhere"));
    let keep = s.chunks_to_keep(&strings(&["hi", "It was sealed before", "Same words elsewhere", "two words"]));
    assert_eq!(keep, strings(&["Same words elsewhere"]));
}

#[test]
fn a_spoken_hour_is_rehearsed_unless_verbatim() {
    let mut s: MemoryStore<(), ()> = MemoryStore::new();
    s.add_trace(hour("h", None, TraceStatus::Active));
    let mut w = hour("w", None, TraceStatus::Active);
    w.channel = Channel::World;
    s.add_trace(w);
    assert!(s.note_spoken_hour("h"));
    assert!(s.note_spoken_hour("h"));
    assert_eq!(s.traces[0].rehearsals, 2);
    assert!(!s.note_spoken_hour("w"));
    assert_eq!(s.traces[1].rehearsals, 0);
    assert!(!s.note_spoken_hour("nobody"));
    s.traces[0].rehearsals = u32::MAX;
    assert!(s.note_spoken_hour("h"));
    assert_eq!(s.traces[0].rehearsals, u32::MAX);
}

#[test]
fn schema_lineage_is_oldest_first() {
    let mut s: MemoryStore<(), ()> = MemoryStore::new();
    let mut a = axiom_on("late", Some("rain"), &[], AxiomLayer::Belief);
    a.created_at = 30;
    let mut b = axiom_on("early", Some("rain"), &[], AxiomLayer::Motif);
    b.created_at = 10;
    b.superseded_by = Some("late".into());
    let mut c = axiom_on("other", Some("home"), &[], AxiomLayer::Motif);
    c.created_at = 5;
    let mut d = axiom_on("mid", Some("rain"), &[], AxiomLayer::Motif);
    d.created_at = 20;
    s.add_axiom(a);
    s.add_axiom(b);
    s.add_axiom(c);
    s.add_axiom(d);
    let chain: Vec<&str> = s.schema_lineage("rain").iter().map(|x| x.id.as_str()).collect();
    assert_eq!(chain, vec!["early", "mid", "late"]);
    assert!(s.schema_lineage("none").is_empty());
}

#[test]
fn merge_groups_are_crowded_selfhood_schemas_sorted() {
    let mut s: MemoryStore<(), ()> = MemoryStore::new();
    s.add_trace(hour("r2", Some("rain"), TraceStatus::Active));
    s.add_trace(hour("h1", Some("home"), TraceStatus::Active));
    s.add_trace(hour("r1", Some("rain"), TraceStatus::Myth));
    s.add_trace(hour("n", None, TraceStatus::Active));
    let mut w = hour("w", Some("home"), TraceStatus::Active);
    w.channel = Channel::World;
    s.add_trace(w);
    s.add_trace(hour("r0", Some("rain"), TraceStatus::Cold));
    assert_eq!(s.merge_groups(), vec![strings(&["r0", "r1", "r2"])]);
    s.note_refused_merge();
    assert_eq!(s.merges_refused, 1);
    s.merges_refused = u32::MAX;
    s.note_refused_merge();
    assert_eq!(s.merges_refused, u32::MAX);
}

#[test]
fn heavy_anchors_and_myths_do_not_fuse() {
    let mut s: MemoryStore<(), ()> = MemoryStore::new();
    s.add_trace(hour("k", Some("rain"), TraceStatus::Active));
    s.add_trace(hour("o", Some("rain"), TraceStatus::Active));
    s.add_trace(hour("m", Some("rain"), TraceStatus::Myth));
    assert!(s.fuses("k", "o", false, true, false, false, false));
    assert!(!s.fuses("k", "o", true, true, false, false, false), "both anchors heavy");
    assert!(!s.fuses("k", "o", false, false, false, false, false), "not close");
    assert!(!s.fuses("k", "m", false, true, false, false, false), "already a myth");
    assert!(!s.fuses("k", "zz", false, true, false, false, false), "not in the book");
    assert!(!s.fuses("k", "o", false, true, true, true, false), "vetoed: pinned");
    assert!(s.fuses("k", "o", false, true, true, false, false));
}

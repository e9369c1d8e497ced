use selmem::bench::{asks_creativity, hour_schema, probes_after, script_choice, ScriptKind};
use selmem::report::{paint, side_t0, status, yn, GREEN};
use selmem::speech::fade_to_clause;
use selmem::markers::{marker_side, soft_only};
use selmem::probe::{
    c1_side, c3_side, fold_sides, last_k_window, merge_retrieve, side_from_book, side_from_dump,
    RetrievalDump, ScoredTrace,
};
use selmem::speech::{clip, pin_happened, semantic_core_of, split_bits, tokens};
use selmem::{
    names_marker, names_soft_marker, query_hits_episode, stance_is_abstract, Arm, BenchOpts,
    Channel, Condition, MemoryStore, MemoryTrace, OrganCut, RecallBias, RetrievalSide,
    TraceStatus, V01Script,
};

fn strings(v: &[&str]) -> Vec<String> {
    v.iter().map(|s| s.to_string()).collect()
}

fn hour(id: &str, gist: &str, core: &str, status: TraceStatus) -> MemoryTrace<()> {
    MemoryTrace {
        id: id.to_string(),
        gist: gist.to_string(),
        core: core.to_string(),
        cues: Vec::new(),
        schema: None,
        channel: Channel::Selfhood,
        archive_id: None,
        created_at: 1,
        last_recalled_at: None,
        last_consolidated_at: None,
        rehearsals: 0,
        status,
        detach_strikes: 0,
        affect: (),
    }
}

// ---------------------------------------------------------------- markers

#[test]
fn official_markers() {
    assert!(names_marker("The project was CANCELLED without a hearing."));
    assert!(names_marker("Une décision injuste."));
    assert!(names_marker("They left for three days."));
    assert!(!names_marker("A quiet coffee by the window."));
}

#[test]
fn soft_markers_only_when_official_is_silent() {
    assert!(names_soft_marker("That wound is still open."));
    assert!(names_soft_marker("Mon effort, pour rien."));
    assert!(names_soft_marker("The effort was IGNORED."));
    assert!(names_soft_marker("Le crédit m'a été volé."));
    assert!(!names_soft_marker("An unjust wound."), "official wins");
    assert!(!names_soft_marker("effort alone"));
    assert!(!names_soft_marker("nothing here"));
}

#[test]
fn reply_sides() {
    let replies = vec![
        ("q1".to_string(), "calm".to_string(), "it was cancelled".to_string()),
        ("q2".to_string(), "a wound".to_string(), "fine".to_string()),
    ];
    assert!(!marker_side(&replies, true));
    assert!(marker_side(&replies, false));
    assert!(soft_only(&replies, true));
    assert!(!soft_only(&replies, false));
    assert!(!marker_side(&[], true));
}

#[test]
fn abstract_stance_lines() {
    assert!(stance_is_abstract("Others can discard what you already gave."));
    assert!(!stance_is_abstract("The PROJECT you led."));
    assert!(!stance_is_abstract("A notice came."));
}

// ---------------------------------------------------------------- conditions

#[test]
fn condition_names_and_cells() {
    assert_eq!(Condition::C0.as_str(), "c0_nomem");
    assert_eq!(Condition::C1.as_str(), "c1_lastk");
    assert_eq!(Condition::C2.as_str(), "c2_selmem");
    assert_eq!(Condition::C2NoSleep.as_str(), "c2_nosleep");
    assert_eq!(Condition::C2Static.as_str(), "c2_static");
    assert_eq!(Condition::C2NoRecon.as_str(), "c2_norecon");
    assert_eq!(Condition::C2NoLadder.as_str(), "c2_noladder");
    assert_eq!(Condition::C2NoGround.as_str(), "c2_noground");
    assert_eq!(Condition::C3.as_str(), "c3_profile");
    assert!(Condition::C2NoSleep.encodes() && !Condition::C2NoSleep.sleeps());
    assert!(Condition::C2Static.encodes() && !Condition::C2Static.sleeps());
    assert!(Condition::C2NoGround.encodes() && Condition::C2NoGround.sleeps());
    assert!(!Condition::C1.encodes() && !Condition::C3.sleeps() && !Condition::C0.encodes());
}

#[test]
fn condition_cuts() {
    assert_eq!(Condition::C2.cut(), OrganCut::full());
    assert_eq!(Condition::C1.cut(), OrganCut::full());
    assert_eq!(Condition::C2Static.cut(), OrganCut::static_book());
    assert_eq!(Condition::C2NoRecon.cut(), OrganCut::no_recon());
    assert_eq!(Condition::C2NoLadder.cut(), OrganCut::no_ladder());
    assert_eq!(Condition::C2NoGround.cut(), OrganCut::no_ground());
}

#[test]
fn condition_grids() {
    assert_eq!(Condition::v01_grid(), [Condition::C0, Condition::C1, Condition::C2]);
    assert_eq!(Condition::p0_grid().len(), 8);
    assert_eq!(Condition::p0_grid()[1], Condition::C3);
    assert_eq!(
        Condition::p4_grid(),
        [Condition::C1, Condition::C2Static, Condition::C2NoSleep, Condition::C2, Condition::C3]
    );
}

#[test]
fn arms_and_options() {
    assert_eq!(Arm::SalientNeutral.as_str(), "salient_neutral");
    assert_eq!(Arm::SalientSalient.as_str(), "salient_salient");
    let o = BenchOpts::default();
    assert_eq!(o.last_k, 24);
    assert_eq!(o.recall_bias, RecallBias::Observed);
    assert_eq!(o.cut_tag(), "");
    let u = BenchOpts { util_to_strength: true, ..o };
    assert_eq!(u.cut_tag(), "_util");
    let v = BenchOpts { merge_support_veto: true, ..o };
    assert_eq!(v.cut_tag(), "_veto");
    let uv = BenchOpts { util_to_strength: true, merge_support_veto: true, ..o };
    assert_eq!(uv.cut_tag(), "_util_veto");
    let c = uv.apply_cut(OrganCut::static_book());
    assert!(c.util_to_strength && c.merge_support_veto && !c.ladder);
}

fn script() -> V01Script {
    V01Script {
        sync: strings(&["s1"]),
        salient_x: "X".into(),
        salient_y: "Y".into(),
        neutral: "N".into(),
        salient_xs: Vec::new(),
        salient_ys: strings(&["y1", "y2"]),
        neutrals: Vec::new(),
        c3_profile_a: String::new(),
        c3_profile_b: String::new(),
        c3_profile_y: String::new(),
        post: Vec::new(),
        behavior: Vec::new(),
        creativity: Vec::new(),
        wave2_xs: strings(&["w1"]),
        wave2_ys: strings(&["wy"]),
        wave2_neutrals: Vec::new(),
    }
}

#[test]
fn script_hours() {
    let s = script();
    assert_eq!(s.hours_a(), vec!["X"]);
    assert_eq!(s.hours_b(Arm::SalientNeutral), vec!["N"]);
    assert_eq!(s.hours_b(Arm::SalientSalient), vec!["y1", "y2"]);
    assert_eq!(s.hours_wave2_a(), vec!["w1"]);
    assert_eq!(s.hours_wave2_b(Arm::SalientSalient), vec!["wy"]);
    assert!(s.hours_wave2_b(Arm::SalientNeutral).is_empty());
}

// ---------------------------------------------------------------- speech

#[test]
fn core_clip_and_bits() {
    let t = hour("t", "the gist", "  ", TraceStatus::Active);
    assert_eq!(semantic_core_of(&t), "the gist");
    let u = hour("u", "the gist", "the core", TraceStatus::Active);
    assert_eq!(semantic_core_of(&u), "the core");
    assert_eq!(clip("  hello world  ", 5), "hello");
    assert_eq!(clip("  hi  ", 220), "hi");
    assert_eq!(
        split_bits("First part. Second bit; x / long enough..."),
        strings(&["First part", "Second bit", "long enough"])
    );
    assert_eq!(split_bits("a — bb — stays here"), strings(&["stays here"]));
}

#[test]
fn frozen_fact_next_to_a_drift() {
    assert_eq!(pin_happened("A warm story.", "   "), "A warm story.");
    assert_eq!(
        pin_happened("They CANCELLED the project.", "project cancelled unfairly"),
        "They CANCELLED the project."
    );
    assert_eq!(
        pin_happened("A warm story.", " project cancelled "),
        "A warm story.\n(what happened: project cancelled)"
    );
    assert_eq!(pin_happened("A warm story.", "a b c"), "A warm story.\n(what happened: a b c)");
}

#[test]
fn query_tokens() {
    assert_eq!(
        tokens("The Project was CANCELLED, unjust!"),
        strings(&["project", "was", "cancelled", "unjust"])
    );
    assert!(tokens("a an the it").is_empty());
    let t = hour("t", "They cancelled the project", "project cancelled", TraceStatus::Active);
    assert!(query_hits_episode(&t, "Was the project cancelled?"));
    assert!(!query_hits_episode(&t, "Was it cancelled?"));
    assert!(!query_hits_episode(&t, "the a"));
}

// ---------------------------------------------------------------- probe sides

#[test]
fn last_k_window_keeps_the_newest_lines() {
    let lines = strings(&["a", "b", "c"]);
    assert_eq!(last_k_window(&lines, 2), strings(&["b", "c"]));
    assert_eq!(last_k_window(&lines, 8), lines);
    assert!(last_k_window(&lines, 0).is_empty());
}

#[test]
fn c1_rank_counts_from_the_newest_line() {
    let win = strings(&["it was cancelled", "calm", "calm again"]);
    let side: RetrievalSide<f32> = c1_side(&win);
    assert_eq!(side.t0_rank, Some(3));
    assert!(side.t0_in_book && side.t0_selected);
    assert_eq!(side.t0_status, "active");
    let none: RetrievalSide<f32> = c1_side(&strings(&["calm"]));
    assert_eq!(none.t0_rank, None);
    assert_eq!(none.t0_status, "absent");
    assert!(!none.t0_in_book);
}

#[test]
fn c3_profile_wins() {
    let p: RetrievalSide<f32> = c3_side(&strings(&["unjust hour"]), &strings(&["calm"]));
    assert_eq!((p.t0_status.as_str(), p.t0_rank), ("profile", Some(1)));
    let r: RetrievalSide<f32> = c3_side(&strings(&["calm"]), &strings(&["cancelled"]));
    assert_eq!((r.t0_status.as_str(), r.t0_rank, r.t0_in_book), ("active", None, true));
    let n: RetrievalSide<f32> = c3_side(&[], &[]);
    assert_eq!(n.t0_status, "absent");
}

#[test]
fn book_side_reads_the_first_held_marked_hour() {
    let mut s: MemoryStore<(), ()> = MemoryStore::new();
    s.add_trace(hour("m2", "g", "c", TraceStatus::Cold));
    s.add_trace(hour("m3", "g", "c", TraceStatus::Latent));
    let side: RetrievalSide<f32> = side_from_book(&s, &strings(&["gone", "m3", "m2"]));
    assert!(side.t0_in_book);
    assert_eq!(side.t0_status, "latent");
    let empty: RetrievalSide<f32> = side_from_book(&s, &[]);
    assert_eq!(empty.t0_status, "absent");
    assert!(!empty.t0_in_book);
    let missing: RetrievalSide<f32> = side_from_book(&s, &strings(&["gone"]));
    assert_eq!(missing.t0_status, "absent");
}

#[test]
fn folding_and_merging_sides() {
    let a = RetrievalSide { t0_rank: None, selected_ids: Vec::new(), ..RetrievalSide::<f32>::default() };
    let b = RetrievalSide {
        t0_in_book: true,
        t0_status: "cold".into(),
        t0_rank: Some(2),
        t0_selected: false,
        selected_ids: strings(&["x"]),
        top: vec![("x".to_string(), 0.5f32)],
    };
    let c = RetrievalSide {
        t0_in_book: false,
        t0_status: "active".into(),
        t0_rank: Some(1),
        t0_selected: true,
        selected_ids: strings(&["y"]),
        top: Vec::new(),
    };
    let f = fold_sides(vec![a, b, c]);
    assert!(f.t0_in_book && f.t0_selected);
    assert_eq!(f.t0_rank, Some(2));
    assert_eq!(f.selected_ids, strings(&["x"]));
    assert_eq!(f.top.len(), 1);
    assert_eq!(f.t0_status, "cold");
    let blank: RetrievalSide<f32> = fold_sides(Vec::new());
    assert!(!blank.t0_in_book && blank.t0_status.is_empty());

    let book = RetrievalSide { t0_in_book: false, ..RetrievalSide::<f32>::default() };
    let dump = RetrievalSide { t0_rank: Some(4), ..RetrievalSide::<f32>::default() };
    let m = merge_retrieve(book, dump);
    assert_eq!(m.t0_status, "absent");
    assert_eq!(m.t0_rank, Some(4));
    let book2 = RetrievalSide { t0_in_book: true, t0_status: "myth".into(), ..RetrievalSide::<f32>::default() };
    let m2 = merge_retrieve(book2, RetrievalSide::<f32>::default());
    assert!(m2.t0_in_book);
    assert_eq!(m2.t0_status, "myth");
}

#[test]
fn marked_ids_look_at_gist_core_and_archive() {
    let mut s: MemoryStore<(), ()> = MemoryStore::new();
    s.add_archive(selmem::snapshot::assemble_archive("arc".into(), 1, "live".into(), "Administrative notice".into()));
    s.add_trace(hour("calm", "calm", "calm", TraceStatus::Active));
    s.add_trace(hour("g", "it was cancelled", "calm", TraceStatus::Active));
    let mut a = hour("a", "calm", "calm", TraceStatus::Active);
    a.archive_id = Some("arc".into());
    s.add_trace(a);
    s.add_trace(hour("c", "calm", "unjust", TraceStatus::Cold));
    assert_eq!(s.marked_ids(), strings(&["g", "a", "c"]));
}

// ---------------------------------------------------------------- report

#[test]
fn report_painting() {
    assert_eq!(paint(false, GREEN, "x"), "x");
    assert_eq!(paint(true, GREEN, "x"), "\x1b[32mx\x1b[0m");
    assert_eq!(yn(false, true), "yes");
    assert_eq!(yn(true, false), "\x1b[2mno\x1b[0m");
    assert_eq!(status(true, "myth"), "\x1b[35mmyth\x1b[0m");
    assert_eq!(status(true, "evicted"), "evicted");
    let r = RetrievalSide::<f32> { t0_in_book: true, t0_status: "active".into(), t0_rank: Some(7), ..RetrievalSide::default() };
    assert_eq!(side_t0(false, "A", GREEN, &r), "A book yes  active  rank   7  selected no");
    let n = RetrievalSide::<f32>::default();
    assert_eq!(side_t0(false, "B", GREEN, &n), "B book no    rank   —  selected no");
    let wide = RetrievalSide::<f32> { t0_rank: Some(1234), ..RetrievalSide::default() };
    assert!(side_t0(false, "B", GREEN, &wide).contains("rank 1234  selected"));
}

#[test]
fn half_faded_gists_keep_their_first_clause() {
    assert_eq!(fade_to_clause("The long walk home, in the rain", "walk"), "The long walk home.");
    assert_eq!(fade_to_clause("Short, then more", "the core"), "the core");
    assert_eq!(fade_to_clause("A whole sentence here...", "c"), "A whole sentence here.");
}

#[test]
fn dump_ranks_and_sides() {
    let cand = |id: &str, score: f32| ScoredTrace { trace_id: id.to_string(), score, status: TraceStatus::Active };
    let dump = RetrievalDump {
        candidates: vec![cand("a", 0.9), cand("b", 0.8), cand("m2", 0.7), cand("c", 0.6), cand("m1", 0.5)],
        selected: strings(&["a", "m1"]),
        pulled: 0,
        reconsolidated: 0,
    };
    assert_eq!(dump.rank_of("a"), Some(1));
    assert_eq!(dump.rank_of("m1"), Some(5));
    assert_eq!(dump.rank_of("zz"), None);
    let side = side_from_dump(&dump, &strings(&["m1", "m2"]));
    assert_eq!(side.t0_rank, Some(5), "the first marked id that ranks wins");
    assert!(side.t0_selected);
    assert_eq!(side.selected_ids, strings(&["a", "m1"]));
    assert_eq!(side.top.len(), 4);
    assert_eq!(side.top[3].0, "c");
    assert!(!side.t0_in_book && side.t0_status.is_empty());
    let none = side_from_dump(&dump, &strings(&["zz"]));
    assert_eq!(none.t0_rank, None);
    assert!(!none.t0_selected);
}

#[test]
fn last_k_log_keeps_its_newest_lines() {
    let mut c1 = selmem::baseline::LastK::new(0);
    assert_eq!(c1.k, 1);
    c1.hear("a");
    c1.hear("b");
    assert_eq!(c1.window(), strings(&["b"]));
    let mut c1b = selmem::baseline::LastK::new(2);
    for l in ["one", "two", "three"] {
        c1b.hear(l);
    }
    assert_eq!(c1b.lines.len(), 3);
    assert_eq!(c1b.log_blob(), "two\nthree");
}

#[test]
fn profile_memory_rolls_and_pins() {
    let mut c3 = selmem::baseline::ProfileMem::new(2);
    c3.hear("a");
    c3.hear("b");
    c3.hear("c");
    assert_eq!(c3.recent, strings(&["b", "c"]));
    c3.pin_profile("p");
    c3.pin_profile("p");
    assert_eq!(c3.profile, strings(&["p"]));
    let mut long = selmem::baseline::ProfileMem::new(2);
    long.hear(&"x".repeat(300));
    long.hear(&"y".repeat(300));
    assert_eq!(long.recent.len(), 1);
    assert_eq!(long.recent[0], format!("{} {}", "x".repeat(99), "y".repeat(300)));
    let mut wide = selmem::baseline::ProfileMem::new(24);
    wide.hear(&"é".repeat(300));
    assert_eq!(wide.recent, vec!["é".repeat(100)]);
}

#[test]
fn t0_rehearsals_is_the_most_among_marked_hours() {
    let mut s: MemoryStore<(), ()> = MemoryStore::new();
    let mut a = hour("a", "g", "c", TraceStatus::Active);
    a.rehearsals = 3;
    let mut b = hour("b", "g", "c", TraceStatus::Active);
    b.rehearsals = 7;
    s.add_trace(a);
    s.add_trace(b);
    assert_eq!(s.t0_rehearsals(&strings(&["a", "gone", "b"])), 7);
    assert_eq!(s.t0_rehearsals(&strings(&["a"])), 3);
    assert_eq!(s.t0_rehearsals(&strings(&["gone"])), 0);
    assert_eq!(s.t0_rehearsals(&[]), 0);
}

#[test]
fn pair_run_decisions() {
    let o = BenchOpts::default();
    assert_eq!(selmem::bench::pair_id(Condition::C2, o, Arm::SalientNeutral, 1), "c2_selmem_salient_neutral_001");
    let uv = BenchOpts { util_to_strength: true, merge_support_veto: true, ..o };
    assert_eq!(selmem::bench::pair_id(Condition::C2NoSleep, uv, Arm::SalientSalient, 42), "c2_nosleep_util_veto_salient_salient_042");
    assert_eq!(selmem::bench::pair_id(Condition::C1, uv, Arm::SalientNeutral, 1234), "c1_lastk_salient_neutral_1234");
    assert_eq!(selmem::bench::pair_id(Condition::C3, o, Arm::SalientNeutral, 0), "c3_profile_salient_neutral_000");
}

#[test]
fn script_and_probe_choices() {
    let o = BenchOpts::default();
    assert_eq!(script_choice(o), ScriptKind::V01);
    assert_eq!(script_choice(BenchOpts { persist_script: true, hearth_script: true, ..o }), ScriptKind::Hearth);
    assert_eq!(script_choice(BenchOpts { persist_script: true, ruminate_script: true, ..o }), ScriptKind::Ruminate);
    assert_eq!(script_choice(BenchOpts { persist_script: true, ..o }), ScriptKind::Persist);
    assert_eq!(hour_schema(BenchOpts { hearth_script: true, ..o }), Some("hearth"));
    assert_eq!(hour_schema(o), None);
    assert!(asks_creativity(o));
    assert!(!asks_creativity(BenchOpts { ruminate_script: true, ..o }));
    assert!(probes_after(1, 8, false) && probes_after(4, 8, false) && probes_after(8, 8, false));
    assert!(!probes_after(2, 8, false));
    assert!(!probes_after(1, 8, true) && probes_after(8, 8, true));
}

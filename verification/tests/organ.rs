use selmem::bench::{pair_schedule, parse_v01, BenchOpts, Condition, Step};
use selmem::night::end_night;
use selmem::organ::speak_plan;
use selmem::retrieve::{recall_select, SpeakPath};
use selmem::wire::{bind_llm, json_str, json_str_array, request_fields, respond, route, Action, RequestFields, Route};
use selmem::{
    ArchiveRecord, AxiomLayer, Channel, IdentityAxiom, LlmBind, MemoryStore, MemoryTrace, NightKind,
    OrganCut, RecallBias, RecallWrite, TraceStatus,
};

fn hour(id: &str, schema: Option<&str>, channel: Channel) -> MemoryTrace<()> {
    MemoryTrace {
        id: id.to_string(),
        gist: format!("gist of {id}"),
        core: format!("core of {id}"),
        cues: Vec::new(),
        schema: schema.map(|s| s.to_string()),
        channel,
        archive_id: None,
        created_at: 1,
        last_recalled_at: None,
        last_consolidated_at: None,
        rehearsals: 0,
        status: TraceStatus::Active,
        detach_strikes: 0,
        affect: (),
    }
}

fn belief(id: &str, schema: Option<&str>, support: &[&str]) -> IdentityAxiom<()> {
    IdentityAxiom {
        id: id.to_string(),
        statement: format!("statement {id}"),
        support_trace_ids: strings(support),
        created_at: 1,
        superseded_by: None,
        schema: schema.map(|s| s.to_string()),
        layer: AxiomLayer::Motif,
        weight: (),
    }
}

fn strings(v: &[&str]) -> Vec<String> {
    v.iter().map(|s| s.to_string()).collect()
}

fn no_fields() -> RequestFields {
    RequestFields { text: None, event: None, query: None, url: None, model: None, api_key: None }
}

#[test]
fn binding_the_narrator_trims_checks_and_keeps_the_key() {
    let held = LlmBind {
        url: "http://old".into(),
        model: "m".into(),
        key: Some("sk-held".into()),
    };
    let b = bind_llm(&held, "  https://api.example ", "", Some("   ".into())).unwrap();
    assert_eq!(b.url, "https://api.example");
    assert_eq!(b.model, "llama3");
    assert_eq!(b.key.as_deref(), Some("sk-held"));
    let b = bind_llm(&held, "http://h", " mistral ", Some("sk-new".into())).unwrap();
    assert_eq!((b.model.as_str(), b.key.as_deref()), ("mistral", Some("sk-new")));
    let b = bind_llm(&held, "   ", "m", Some("k".into())).unwrap();
    assert_eq!((b.url.as_str(), b.model.as_str(), b.key), ("", "", None));
    assert_eq!(
        bind_llm(&held, "ftp://h", "", None).unwrap_err(),
        "llm url must be http:// or https://"
    );
}

#[test]
fn a_live_recall_stamps_the_selected_hours_and_a_probe_writes_nothing() {
    let mut s: MemoryStore<(), ()> = MemoryStore::new();
    s.add_trace(hour("a", None, Channel::Selfhood));
    s.add_trace(hour("w", None, Channel::World));
    s.add_trace(hour("c", None, Channel::Selfhood));
    let eligible = strings(&["w", "a", "c"]);
    let r = recall_select(&mut s, &eligible, OrganCut::full(), RecallWrite::ReadOnly, RecallBias::Observed, &[], 2, 9);
    assert_eq!(
        r,
        vec![("w".to_string(), SpeakPath::StoredGist), ("a".to_string(), SpeakPath::Unwritten)]
    );
    assert!(s.traces.iter().all(|t| t.last_recalled_at.is_none()));
    let r = recall_select(&mut s, &eligible, OrganCut::full(), RecallWrite::Live, RecallBias::DropMarked, &strings(&["w"]), 5, 9);
    assert_eq!(
        r,
        vec![
            ("a".to_string(), SpeakPath::Grounded { reconsolidate: true }),
            ("c".to_string(), SpeakPath::Grounded { reconsolidate: true }),
        ]
    );
    let stamps: Vec<Option<u64>> = s.traces.iter().map(|t| t.last_recalled_at).collect();
    assert_eq!(stamps, vec![Some(9), None, Some(9)]);
    assert!(s.traces.iter().all(|t| t.rehearsals == 0));
}

#[test]
fn a_live_speech_notes_its_hour_and_a_probe_drops_lineage_axioms() {
    let mut s: MemoryStore<(), ()> = MemoryStore::new();
    s.add_trace(hour("a", Some("rain"), Channel::Selfhood));
    s.add_trace(hour("b", Some("sun"), Channel::Selfhood));
    s.add_axiom(belief("ax1", None, &["a"]));
    s.add_axiom(belief("ax2", Some("rain"), &["b"]));
    s.add_axiom(belief("ax3", Some("sun"), &["b"]));
    let p = speak_plan(&mut s, true, false, &strings(&["a", "b"]), 3, RecallBias::Observed, &[]);
    assert!(p.noted && p.name_line && p.axiom_ids.is_empty());
    assert_eq!(p.memories, 1);
    assert_eq!((s.traces[0].rehearsals, s.traces[1].rehearsals), (1, 0));
    let p = speak_plan(&mut s, false, false, &strings(&["a"]), 3, RecallBias::DropLineage, &strings(&["a"]));
    assert!(!p.noted && !p.name_line);
    assert_eq!(p.memories, 3);
    assert_eq!(p.axiom_ids, strings(&["ax3"]));
    let p = speak_plan(&mut s, false, true, &[], 3, RecallBias::Observed, &strings(&["a"]));
    assert_eq!(p.memories, 0);
    assert_eq!(p.axiom_ids, strings(&["ax1", "ax2", "ax3"]));
    assert_eq!(s.traces[0].rehearsals, 1);
}

#[test]
fn only_a_deep_night_is_stamped() {
    let mut s: MemoryStore<(), ()> = MemoryStore::new();
    s.add_trace(hour("a", None, Channel::Selfhood));
    end_night(&mut s, NightKind::Shallow, 5);
    assert_eq!((s.last_deep_at, s.pending_night.len()), (None, 1));
    end_night(&mut s, NightKind::Deep, 5);
    assert_eq!((s.last_deep_at, s.pending_night.len()), (Some(5), 0));
}

#[test]
fn orphaned_archives_are_pruned() {
    let mut s: MemoryStore<(), ()> = MemoryStore::new();
    for a in ["ar1", "ar2", "ar3"] {
        s.add_archive(ArchiveRecord {
            id: a.to_string(),
            verbatim: "v".into(),
            source: "test".into(),
            created_at: 1,
        });
    }
    let mut t = hour("a", None, Channel::Selfhood);
    t.archive_id = Some("ar2".into());
    s.add_trace(t);
    assert_eq!(s.prune_orphaned_archives(), 2);
    let ids: Vec<&str> = s.archives.iter().map(|a| a.id.as_str()).collect();
    assert_eq!(ids, vec!["ar2"]);
}

fn status_and_body(a: Action) -> (u16, String) {
    match a {
        Action::Reply(r) => (r.status, r.body),
        _ => panic!("expected a reply"),
    }
}

#[test]
fn requests_are_answered_or_handed_to_the_organ() {
    let f = no_fields();
    assert_eq!(status_and_body(respond(route("OPTIONS", "/x"), "", "", &f, "", "")), (204, String::new()));
    assert_eq!(
        status_and_body(respond(route("GET", "/nope"), "", "", &f, "", "")),
        (404, "{\"error\":\"route inconnue\"}".to_string())
    );
    let blank = RequestFields { text: Some("  ".into()), event: Some("hi".into()), ..no_fields() };
    assert_eq!(
        status_and_body(respond(Route::Turn, "", "", &blank, "", "")),
        (400, "{\"error\":\"text requis\"}".to_string())
    );
    assert_eq!(
        status_and_body(respond(Route::Speak, "", "", &f, "", "")),
        (400, "{\"error\":\"text requis\"}".to_string())
    );
    let said = RequestFields { query: Some("the rain".into()), ..no_fields() };
    match respond(Route::Speak, "", "", &said, "", "") {
        Action::Speak { text } => assert_eq!(text, "the rain"),
        _ => panic!("speak"),
    }
    match respond(Route::Pin, "", "", &blank, "", "last line") {
        Action::Pin { text } => assert_eq!(text, "last line"),
        _ => panic!("pin"),
    }
    assert_eq!(
        status_and_body(respond(Route::Pin, "", "", &f, "", " ")),
        (400, "{\"error\":\"nothing to pin\"}".to_string())
    );
    assert_eq!(
        status_and_body(respond(Route::Live, "", "", &f, "", "")),
        (400, "{\"error\":\"event requis\"}".to_string())
    );
    match respond(Route::Audit, "x=1&id=t_7", "", &f, "", "") {
        Action::Audit { id } => assert_eq!(id, "t_7"),
        _ => panic!("audit"),
    }
    match respond(Route::SetLlm, "", "{\"clear\": true}", &RequestFields { url: Some("http://h".into()), ..no_fields() }, "", "") {
        Action::SetLlm { detach } => assert!(detach),
        _ => panic!("llm"),
    }
    match respond(Route::SetLlm, "", "{}", &f, "http://held", "") {
        Action::SetLlm { detach } => assert!(!detach),
        _ => panic!("llm"),
    }
}

#[test]
fn a_pair_lives_sleeps_and_is_probed_on_schedule() {
    let opts = BenchOpts::default();
    let c2 = pair_schedule(Condition::C2, opts, 4);
    assert_eq!(
        c2,
        vec![
            Step::Sync,
            Step::Sleep,
            Step::ProbePre { full: true },
            Step::Hours,
            Step::Sleep,
            Step::ProbeT0,
            Step::Post { n: 1 },
            Step::Sleep,
            Step::ProbePost { n: 1 },
            Step::Post { n: 2 },
            Step::Post { n: 3 },
            Step::Post { n: 4 },
            Step::Sleep,
            Step::ProbePost { n: 4 },
            Step::Creativity,
        ]
    );
    let c0 = pair_schedule(Condition::C0, opts, 4);
    assert_eq!(
        c0,
        vec![Step::ProbePre { full: true }, Step::ProbeT0, Step::ProbePost { n: 8 }, Step::Creativity]
    );
    let c1 = pair_schedule(Condition::C1, BenchOpts { sparse_probes: true, ..opts }, 0);
    assert_eq!(
        c1,
        vec![Step::Sync, Step::ProbePre { full: false }, Step::Hours, Step::ProbeT0, Step::ProbePost { n: 8 }]
    );
}

#[test]
fn a_book_with_a_repeated_id_or_a_one_sided_edge_is_not_well_formed() {
    let mut s: MemoryStore<(), ()> = MemoryStore::new();
    s.add_trace(hour("a", None, Channel::Selfhood));
    s.add_trace(hour("b", None, Channel::Selfhood));
    s.link("a", "b");
    assert!(s.is_well_formed());
    let mut twice = MemoryStore::<(), ()>::new();
    twice.traces.push(hour("a", None, Channel::Selfhood));
    twice.traces.push(hour("a", None, Channel::World));
    assert!(!twice.is_well_formed());
    s.edges.pop();
    assert!(!s.is_well_formed());
}

#[test]
fn the_fingerprint_counts_the_shape_and_the_signs() {
    let mut s: MemoryStore<(), ()> = MemoryStore::new();
    let mut a = hour("a", Some("rain"), Channel::Selfhood);
    a.core = String::new();
    s.add_trace(a);
    let mut m = hour("m", Some("sun"), Channel::Selfhood);
    m.status = TraceStatus::Myth;
    s.add_trace(m);
    s.add_trace(hour("c", None, Channel::Selfhood));
    s.add_axiom(belief("ax1", None, &["a"]));
    let mut t = belief("ax2", None, &["a"]);
    t.layer = AxiomLayer::Trait;
    s.add_axiom(t);
    let mut gone = belief("ax3", None, &["a"]);
    gone.superseded_by = Some("ax1".into());
    s.add_axiom(gone);
    let c = s.shape_counts();
    assert_eq!((c.traces, c.myths, c.axioms, c.traits), (3, 1, 2, 1));
    assert_eq!(
        s.fingerprint_blob(),
        "gist of a rain core of m sun core of c statement ax1 statement ax2 "
    );
    let schemas = s.schemas_in_order();
    assert_eq!(schemas, strings(&["rain", "sun"]));
    let signs = strings(&["rain", "sun", "rain", "sun", "home"]);
    assert_eq!(selmem::fingerprint::count_contradictions(&signs, &[1, 1, -1, 0, -1]), 1);
    assert_eq!(selmem::fingerprint::count_contradictions(&signs, &[1, -1, -1, 1, 0]), 2);
}

#[test]
fn string_fields_are_read_from_a_json_body() {
    let body = "{\"event\" : \"a \\\"quoted\\\" word\\n\", \"text\":\"caf\\u00e9 \\/ ok\", \"n\": 3}";
    assert_eq!(json_str(body, "event").as_deref(), Some("a \"quoted\" word\n"));
    assert_eq!(json_str(body, "text").as_deref(), Some("café / ok"));
    assert_eq!(json_str(body, "n"), None);
    assert_eq!(json_str(body, "missing"), None);
    assert_eq!(json_str("{\"text\":\"open", "text"), None);
    assert_eq!(json_str("{\"text\":\"bad \\q\"}", "text"), None);
    assert_eq!(json_str("{\"text\":\"\\ud83d\"}", "text"), None);
    let f = request_fields("{\"query\":\"the rain\",\"url\":\"http://h\"}");
    assert_eq!((f.query.as_deref(), f.url.as_deref(), f.text), (Some("the rain"), Some("http://h"), None));
}

#[test]
fn string_arrays_and_scripts_are_read_from_json() {
    let raw = "{\"sync\": [\"one\", \"two \\\"2\\\"\" ], \"post\":[], \"salient_x\": \"x hour\", \"behavior\" : [ \"b1\" ,\"b2\"], \"bad\": [\"a\" \"b\"], \"open\": [\"a\",";
    assert_eq!(json_str_array(raw, "sync"), Some(strings(&["one", "two \"2\""])));
    assert_eq!(json_str_array(raw, "post"), Some(Vec::new()));
    assert_eq!(json_str_array(raw, "bad"), None);
    assert_eq!(json_str_array(raw, "open"), None);
    assert_eq!(json_str_array(raw, "salient_x"), None);
    let s = parse_v01(raw, Some("{\"items\": [\"imagine\"]}"));
    assert_eq!(s.sync, strings(&["one", "two \"2\""]));
    assert_eq!(s.salient_x, "x hour");
    assert_eq!(s.salient_y, "");
    assert_eq!(s.behavior, strings(&["b1", "b2"]));
    assert!(s.neutrals.is_empty() && s.post.is_empty());
    assert_eq!(s.creativity, strings(&["imagine"]));
    assert!(parse_v01(raw, None).creativity.is_empty());
}

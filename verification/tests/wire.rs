use selmem::retrieve::{speak_path, SpeakPath};
use selmem::{OrganCut, RecallWrite};
use selmem::wire::{
    decimal_text, drift_name, err, ids_json, is_sqlite, json_bool, mask_key, ok, opt_u32,
    preflight, query_param, route, status_name, unknown_route, Route,
};
use selmem::feed::{events_json, sort_events, Event};
use selmem::{json_esc, DriftKind, TraceStatus};

#[test]
fn json_escaping() {
    assert_eq!(json_esc("plain"), "plain");
    assert_eq!(json_esc("a\"b\\c"), "a\\\"b\\\\c");
    assert_eq!(json_esc("l1\nl2\r\tx"), "l1\\nl2\\r\\tx");
    assert_eq!(json_esc("\u{1}\u{1f}"), "\\u0001\\u001f");
    assert_eq!(json_esc("\u{8}\u{c}"), "\\b\\f");
    assert_eq!(json_esc("été — ok"), "été — ok");
}

#[test]
fn json_escaping_leaves_plain_text_and_hides_every_quote() {
    let plain = "no quote, no backslash: ok / fine ~ \u{7f}";
    assert_eq!(json_esc(plain), plain);
    let tricky = "\"\\\u{0}\n";
    let e = json_esc(tricky);
    assert_eq!(e, "\\\"\\\\\\u0000\\n");
    assert!(e.chars().all(|c| (c as u32) >= 0x20));
}

#[test]
fn responses() {
    let r = ok("{}".to_string());
    assert_eq!((r.status, r.body.as_str()), (200, "{}"));
    let e = err(404, "archive \"x\" introuvable");
    assert_eq!(e.status, 404);
    assert_eq!(e.body, "{\"error\":\"archive \\\"x\\\" introuvable\"}");
}

#[test]
fn names_on_the_wire() {
    assert_eq!(status_name(TraceStatus::Active), "active");
    assert_eq!(status_name(TraceStatus::Cold), "cold");
    assert_eq!(status_name(TraceStatus::Myth), "myth");
    assert_eq!(status_name(TraceStatus::Latent), "latent");
    assert_eq!(drift_name(DriftKind::AmplifyDisgust), "amplify");
    assert_eq!(drift_name(DriftKind::Reinterpret), "reinterpret");
}

#[test]
fn numbers_and_id_lists() {
    assert_eq!(opt_u32(Some(42)), "42");
    assert_eq!(opt_u32(Some(0)), "0");
    assert_eq!(opt_u32(Some(u32::MAX)), "4294967295");
    assert_eq!(opt_u32(None), "null");
    assert_eq!(decimal_text(1007), "1007");
    assert_eq!(ids_json(&[]), "");
    assert_eq!(ids_json(&["a".to_string()]), "\"a\"");
    assert_eq!(ids_json(&["a".to_string(), "b\"c".to_string()]), "\"a\",\"b\\\"c\"");
}

#[test]
fn masked_keys() {
    assert_eq!(mask_key("  sk-abcdefghijkl  "), "sk-a…ijkl");
    assert_eq!(mask_key("12345678"), "••••");
    assert_eq!(mask_key(""), "••••");
    assert_eq!(mask_key("123456789"), "1234…6789");
}

#[test]
fn query_parameters() {
    assert_eq!(query_param("a=1&schema=hearth&b=2", "schema"), Some("hearth"));
    assert_eq!(query_param("a=1&b=2", "schema"), None);
    assert_eq!(query_param("id=k=v&id=second", "id"), Some("k=v"));
    assert_eq!(query_param("noeq&id=", "id"), Some(""));
    assert_eq!(query_param("", "id"), None);
    assert_eq!(query_param("schema", "schema"), None);
}

#[test]
fn json_flags() {
    assert_eq!(json_bool("{\"cut_ground\": true}", "cut_ground"), Some(true));
    assert_eq!(json_bool("{\"cut_ground\":false,\"x\":1}", "cut_ground"), Some(false));
    assert_eq!(json_bool("{\"cut_ground\": 1}", "cut_ground"), None);
    assert_eq!(json_bool("{\"other\": true}", "cut_ground"), None);
    assert_eq!(json_bool("{\"clear\" :\n  true }", "clear"), Some(true));
}

#[test]
fn sqlite_paths() {
    assert!(is_sqlite("vault.db"));
    assert!(is_sqlite("/tmp/book.sqlite"));
    assert!(is_sqlite("x.sqlite3"));
    assert!(!is_sqlite("vault.selmem"));
    assert!(!is_sqlite("noext"));
    assert!(!is_sqlite(".db"));
}

#[test]
fn routes() {
    assert_eq!(route("OPTIONS", "/anything"), Route::Preflight);
    assert_eq!(route("GET", "/health"), Route::Health);
    assert_eq!(route("POST", "/profile"), Route::SetProfile);
    assert_eq!(route("GET", "/profile"), Route::GetProfile);
    assert_eq!(route("POST", "/talk/clear"), Route::ClearTalk);
    assert_eq!(route("POST", "/health"), Route::Unknown);
    assert_eq!(route("DELETE", "/book"), Route::Unknown);
    assert_eq!(route("get", "/health"), Route::Unknown);
    let p = preflight();
    assert_eq!((p.status, p.body.as_str()), (204, ""));
    let u = unknown_route();
    assert_eq!((u.status, u.body.as_str()), (404, "{\"error\":\"route inconnue\"}"));
}

#[test]
fn speaking_paths() {
    let full = OrganCut::full();
    assert_eq!(speak_path(full, RecallWrite::Live), SpeakPath::Grounded { reconsolidate: true });
    assert_eq!(speak_path(full, RecallWrite::ReadOnly), SpeakPath::Unwritten);
    assert_eq!(speak_path(OrganCut::static_book(), RecallWrite::Live), SpeakPath::StoredGist);
    assert_eq!(speak_path(OrganCut::no_ground(), RecallWrite::Live), SpeakPath::Ungrounded { reconsolidate: true });
    let nr = OrganCut { ground: false, ..OrganCut::no_recon() };
    assert_eq!(speak_path(nr, RecallWrite::Live), SpeakPath::Ungrounded { reconsolidate: false });
}

fn ev(at: u64, kind: &str, title: &str, detail: &str) -> Event {
    Event { at, kind: kind.to_string(), title: title.to_string(), detail: detail.to_string() }
}

#[test]
fn event_feed_is_newest_first() {
    let evs = vec![
        ev(5, "encode", "t1", "a \"q\""),
        ev(9, "axiom", "ax", "I stay."),
        ev(5, "archive", "arc", "talk"),
    ];
    assert_eq!(
        events_json(evs),
        "{\"events\":[{\"at\":9,\"kind\":\"axiom\",\"title\":\"ax\",\"detail\":\"I stay.\"},{\"at\":5,\"kind\":\"archive\",\"title\":\"arc\",\"detail\":\"talk\"},{\"at\":5,\"kind\":\"encode\",\"title\":\"t1\",\"detail\":\"a \\\"q\\\"\"}]}"
    );
    assert_eq!(events_json(Vec::new()), "{\"events\":[]}");
    let many: Vec<Event> = (0..250u64).map(|i| ev(i, "encode", "t", "d")).collect();
    let body = events_json(many);
    assert_eq!(body.matches("\"kind\"").count(), 200);
    assert!(body.starts_with("{\"events\":[{\"at\":249,"));
    let sorted = sort_events(vec![ev(1, "b", "", ""), ev(2, "z", "", ""), ev(1, "a", "", "")]);
    let keys: Vec<(u64, String)> = sorted.iter().map(|e| (e.at, e.kind.clone())).collect();
    assert_eq!(keys, vec![(2, "z".to_string()), (1, "a".to_string()), (1, "b".to_string())]);
}

#[test]
fn newest_first_orders_positions_by_stamp() {
    let order = selmem::feed::newest_first(&[5, 9, 1, 9]);
    assert_eq!(order.len(), 4);
    let stamps: Vec<u64> = order.iter().map(|&i| [5u64, 9, 1, 9][i]).collect();
    assert_eq!(stamps, vec![9, 9, 5, 1]);
    assert!(selmem::feed::newest_first(&[]).is_empty());
}

#[test]
fn llm_report() {
    let none = selmem::LlmBind::default();
    assert_eq!(
        selmem::wire::llm_json(&none),
        "{\"ok\":true,\"attached\":false,\"url\":\"\",\"model\":\"\",\"has_key\":false,\"key_hint\":\"\"}"
    );
    let bound = selmem::LlmBind {
        url: "http://localhost:11434".into(),
        model: "llama3".into(),
        key: Some("sk-abcdefghijkl".into()),
    };
    assert_eq!(
        selmem::wire::llm_json(&bound),
        "{\"ok\":true,\"attached\":true,\"url\":\"http://localhost:11434\",\"model\":\"llama3\",\"has_key\":true,\"key_hint\":\"sk-a…ijkl\"}"
    );
    let empty_key = selmem::LlmBind { key: Some(String::new()), ..bound };
    assert!(selmem::wire::llm_json(&empty_key).contains("\"has_key\":false,\"key_hint\":\"\""));
}

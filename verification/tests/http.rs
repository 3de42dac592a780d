//! The HTTP API, the timeline behind it, and search.
use std::cell::RefCell;

use dafs::api::{
    self, facets, get_log_level, get_logs, get_watch, healthz, metrics, metrics_with, not_found,
    put_watch, readyz, refuse_events, set_log_level, version, Body, EventsQuery,
    DEFAULT_EVENT_LIMIT, MAX_FACET_FILTER_LEN,
};
use dafs::enrichment::{record_enrichment, FileEnrichment};
use dafs::events::{append, EventKind, NewEvent};
use dafs::log_history::LogHistory;
use dafs::metadata::{enqueue, record_extraction, FileMetadata};
use dafs::paths::{ensure_dir_chain, Interner};
use dafs::search::{
    candidate_limit, search_among, SearchFilters, FACET_FILTER_OVERSAMPLE,
    MAX_FACET_CANDIDATE_LIMIT,
};
use dafs::store::{FileId, Store};
use dafs::timeline::{self, TimelineItem, TimelineStats, TimelineStore};
use dafs::watch_control::{WatchChangeRequest, WatchControl, WatchMode};

/// A store of fixed rows, or one that always fails.
struct FakeStore {
    items: Vec<TimelineItem>,
    fail: bool,
}

impl TimelineStore for FakeStore {
    fn timeline(
        &self,
        limit: u32,
        before_id: Option<i64>,
        kind: Option<&str>,
        _doc_type: Option<&str>,
        _author: Option<&str>,
        _language: Option<&str>,
        _git_branch: Option<&str>,
        _classification: Option<&str>,
    ) -> Result<Vec<TimelineItem>, String> {
        if self.fail {
            return Err("broken".to_string());
        }
        Ok(self
            .items
            .iter()
            .filter(|i| before_id.is_none_or(|b| i.id < b))
            .filter(|i| kind.is_none_or(|k| i.kind == k))
            .take(limit as usize)
            .cloned()
            .collect())
    }

    fn stats(&self) -> Result<TimelineStats, String> {
        if self.fail {
            return Err("broken".to_string());
        }
        Ok(TimelineStats { events: self.items.len() as i64, files: 1, pending_extractions: 0 })
    }

    fn facets(&self, _field: &str) -> Result<Vec<(String, i64)>, String> {
        if self.fail {
            return Err("broken".to_string());
        }
        Ok(Vec::new())
    }
}

/// A store of `n` events, newest id highest.
fn store_of(n: i64) -> FakeStore {
    let items = (1..=n)
        .rev()
        .map(|id| TimelineItem {
            id,
            path: format!("/home/u/file-{id}.txt"),
            kind: if id == 1 { "created" } else { "modified" }.to_string(),
            at_unix_ms: 1_000 + id,
            size_bytes: Some(id * 10),
            is_dir: false,
            previous_path: None,
            ..Default::default()
        })
        .collect();
    FakeStore { items, fail: false }
}

fn failing() -> FakeStore {
    FakeStore { items: vec![], fail: true }
}

fn words(body: Body) -> String {
    match body {
        Body::Error(words) => words,
        other => panic!("expected an error, got {other:?}"),
    }
}

#[test]
fn healthz_is_ok_before_ready() {
    assert_eq!(healthz().status, 200);
    assert!(matches!(healthz().body, Body::Alive));
}

#[test]
fn readyz_is_503_until_ready() {
    assert_eq!(readyz(false, 1).status, 503);
    assert_eq!(readyz(true, 1).status, 200);
    assert!(matches!(readyz(true, 3).body, Body::Readiness { ready: true, schema_version: 3 }));
}

#[test]
fn version_reports_schema_version() {
    let reply = version("0.1.0", 42, 7);
    assert_eq!(reply.status, 200);
    match reply.body {
        Body::Version { version, schema_version, uptime_seconds } => {
            assert_eq!(version, "0.1.0");
            assert_eq!(schema_version, 42);
            assert_eq!(uptime_seconds, 7);
        }
        other => panic!("unexpected body: {other:?}"),
    }
}

#[test]
fn metrics_exposes_rss_and_parses_as_prometheus() {
    let body = metrics(true, 1, 12, Some(4_194_304), None);

    assert!(body.contains("dafs_ready 1"), "ready gauge missing: {body}");
    assert!(body.contains("dafs_schema_version 1"), "schema gauge missing");

    // Every line that is no comment must be `name value` with a numeric value.
    for line in body.lines().filter(|l| !l.starts_with('#') && !l.is_empty()) {
        let (name, value) = line.split_once(' ').unwrap_or_else(|| {
            panic!("metric line has no value: {line:?}");
        });
        assert!(!name.is_empty(), "empty metric name in {line:?}");
        value.parse::<f64>().unwrap_or_else(|_| {
            panic!("metric value not numeric: {line:?}");
        });
    }

    assert!(body.contains("dafs_resident_bytes 4194304"), "RSS metric missing: {body}");
    assert!(!metrics(false, 1, 0, None, None).contains("dafs_resident_bytes"));
    assert!(metrics(false, 1, 0, None, None).contains("dafs_ready 0"));
}

#[test]
fn events_returns_the_timeline() {
    let reply = api::events(Some(&store_of(3)), &EventsQuery::default());

    assert_eq!(reply.status, 200);
    match reply.body {
        Body::Events { events, next_before_id } => {
            assert!(events[0].path.contains("file-3.txt"), "unexpected body: {events:?}");
            assert_eq!(next_before_id, Some(1), "no pagination cursor");
        }
        other => panic!("unexpected body: {other:?}"),
    }
}

#[test]
fn an_empty_page_has_no_cursor() {
    let reply = api::events(Some(&store_of(0)), &EventsQuery::default());
    assert!(matches!(reply.body, Body::Events { next_before_id: None, .. }));
}

#[test]
fn events_without_a_store_is_503_not_an_empty_list() {
    let reply = api::events(None::<&FakeStore>, &EventsQuery::default());
    assert_eq!(reply.status, 503);
}

#[test]
fn an_unknown_event_kind_is_rejected() {
    let query = EventsQuery { kind: Some("exploded".to_string()), ..Default::default() };
    let reply = api::events(Some(&store_of(3)), &query);

    assert_eq!(
        reply.status, 400,
        "an unknown kind should be rejected, not silently return nothing: {reply:?}"
    );
}

#[test]
fn a_known_event_kind_is_accepted() {
    let query = EventsQuery { kind: Some("created".to_string()), ..Default::default() };
    assert_eq!(api::events(Some(&store_of(3)), &query).status, 200);
}

#[test]
fn an_oversized_facet_filter_on_events_is_rejected() {
    let query = EventsQuery { doc_type: Some("a".repeat(300)), ..Default::default() };
    let reply = api::events(Some(&store_of(3)), &query);
    assert_eq!(
        reply.status, 400,
        "an oversized facet filter should be rejected, not silently truncated: {reply:?}"
    );
    let longest =
        EventsQuery { author: Some("a".repeat(MAX_FACET_FILTER_LEN)), ..Default::default() };
    assert!(refuse_events(true, &longest).is_none());
    assert!(refuse_events(false, &longest).is_some());
}

#[test]
fn a_page_without_a_limit_has_the_default_one() {
    let reply = api::events(Some(&store_of(80)), &EventsQuery::default());
    match reply.body {
        Body::Events { events, next_before_id } => {
            assert_eq!(events.len(), DEFAULT_EVENT_LIMIT as usize);
            assert_eq!(next_before_id, Some(31));
        }
        other => panic!("unexpected body: {other:?}"),
    }
}

#[test]
fn facets_returns_data_from_the_store_for_a_known_field() {
    let reply = facets(Some(&store_of(3)), "doc_type");
    assert_eq!(reply.status, 200);
    match reply.body {
        Body::Facets(values) => assert!(values.is_empty(), "the fake store has no doc_type values"),
        other => panic!("unexpected body: {other:?}"),
    }
}

#[test]
fn lib_facets_rejects_an_unknown_field() {
    let reply = facets(Some(&store_of(3)), "nonsense");
    assert_eq!(reply.status, 400, "unexpected body: {reply:?}");
}

#[test]
fn facets_without_a_store_is_503() {
    assert_eq!(facets(None::<&FakeStore>, "doc_type").status, 503);
}

#[test]
fn a_store_failure_is_a_500_not_a_panic() {
    assert_eq!(api::events(Some(&failing()), &EventsQuery::default()).status, 500);
    assert_eq!(facets(Some(&failing()), "doc_type").status, 500);
}

#[test]
fn metrics_reports_store_counts_when_a_store_is_attached() {
    let body = metrics_with(true, 1, 0, None, Some(&store_of(7)));

    assert!(body.contains("dafs_events_total 7"), "event count missing: {body}");
    assert!(body.contains("dafs_files_known"), "file gauge missing: {body}");
    assert!(body.contains("dafs_extraction_queue_depth"), "extraction queue gauge missing: {body}");
}

#[test]
fn metrics_still_serves_when_the_store_fails() {
    let body = metrics_with(true, 1, 0, None, Some(&failing()));
    assert!(body.contains("dafs_ready"), "core metrics lost: {body}");
    assert!(!body.contains("dafs_events_total"), "a failed stat was reported anyway");
    assert_eq!(body, metrics_with(true, 1, 0, None, None::<&FakeStore>));
}

#[test]
fn log_level_without_a_handle_is_503() {
    assert_eq!(get_log_level(&None).status, 503);
    assert_eq!(set_log_level(&None).status, 503);
}

#[test]
fn a_log_level_is_shown_and_set() {
    let shown = get_log_level(&Some("info".to_string()));
    assert_eq!(shown.status, 200);
    assert!(matches!(shown.body, Body::Filter(f) if f == "info"));
    let set = set_log_level(&Some(Ok("debug".to_string())));
    assert_eq!(set.status, 200);
    assert!(matches!(set.body, Body::Filter(f) if f == "debug"));
    let refused = set_log_level(&Some(Err("not a filter".to_string())));
    assert_eq!(refused.status, 400);
    assert!(words(refused.body).contains("invalid log filter"));
}

#[test]
fn unknown_route_is_json_404() {
    let reply = not_found();
    assert_eq!(reply.status, 404);
    assert!(words(reply.body).contains("not found"));
}

/// Watch control over a plain list, or one that always fails.
struct FakeWatchControl {
    roots: Vec<String>,
    fail: bool,
    /// The calls that were made, in order.
    calls: RefCell<Vec<String>>,
}

impl WatchControl for FakeWatchControl {
    fn roots(&self) -> Vec<String> {
        self.calls.borrow_mut().push("roots".to_string());
        self.roots.clone()
    }

    fn add_roots(&mut self, roots: Vec<String>) -> Result<(), String> {
        self.calls.borrow_mut().push(format!("add {roots:?}"));
        if self.fail {
            return Err("broken".to_string());
        }
        self.roots.extend(roots);
        Ok(())
    }

    fn replace_roots(&mut self, roots: Vec<String>) -> Result<(), String> {
        self.calls.borrow_mut().push(format!("replace {roots:?}"));
        if self.fail {
            return Err("broken".to_string());
        }
        self.roots = roots;
        Ok(())
    }
}

fn control(roots: &[&str], fail: bool) -> FakeWatchControl {
    FakeWatchControl {
        roots: roots.iter().map(|s| s.to_string()).collect(),
        fail,
        calls: RefCell::new(Vec::new()),
    }
}

fn request(mode: WatchMode, roots: &[&str]) -> WatchChangeRequest {
    WatchChangeRequest { mode, roots: roots.iter().map(|s| s.to_string()).collect() }
}

fn roots_in(body: Body) -> Vec<String> {
    match body {
        Body::Roots(roots) => roots,
        other => panic!("expected roots, got {other:?}"),
    }
}

#[test]
fn get_watch_without_control_is_503() {
    assert_eq!(get_watch(None::<&FakeWatchControl>).status, 503);
    assert_eq!(put_watch(None::<&mut FakeWatchControl>, request(WatchMode::Add, &["/b"])).status, 503);
}

#[test]
fn get_watch_reports_current_roots() {
    let reply = get_watch(Some(&control(&["/a", "/b"], false)));
    assert_eq!(reply.status, 200);
    assert_eq!(roots_in(reply.body), vec!["/a", "/b"]);
}

#[test]
fn put_watch_add_extends_the_root_list() {
    let reply = put_watch(Some(&mut control(&["/a"], false)), request(WatchMode::Add, &["/b"]));
    assert_eq!(reply.status, 200);
    assert_eq!(roots_in(reply.body), vec!["/a", "/b"], "add should keep /a");
}

#[test]
fn put_watch_replace_drops_the_old_roots() {
    let reply = put_watch(Some(&mut control(&["/a"], false)), request(WatchMode::Replace, &["/b"]));
    assert_eq!(reply.status, 200);
    assert_eq!(roots_in(reply.body), vec!["/b"], "replace should drop /a");
}

#[test]
fn put_watch_rejects_an_empty_root_list() {
    let reply = put_watch(Some(&mut control(&["/a"], false)), request(WatchMode::Add, &[]));
    assert_eq!(reply.status, 400, "an empty root list is ambiguous");
}

#[test]
fn put_watch_surfaces_the_control_s_own_error() {
    let reply = put_watch(Some(&mut control(&[], true)), request(WatchMode::Add, &["/b"]));
    assert_eq!(reply.status, 400);
    assert!(words(reply.body).contains("broken"), "expected the control's own error");
}

/// The one change that was asked for is made, and the directories are read after it.
#[test]
fn put_watch_makes_one_change_and_then_reads_the_roots() {
    let made = |mode: WatchMode, roots: &[&str], fail: bool| {
        let mut c = control(&["/a"], fail);
        let status = put_watch(Some(&mut c), request(mode, roots)).status;
        (status, c.calls.into_inner())
    };
    let calls = |names: &[&str]| names.iter().map(|s| s.to_string()).collect::<Vec<String>>();
    assert_eq!(made(WatchMode::Add, &["/b"], false), (200, calls(&["add [\"/b\"]", "roots"])));
    assert_eq!(
        made(WatchMode::Replace, &["/b"], false),
        (200, calls(&["replace [\"/b\"]", "roots"]))
    );
    assert_eq!(made(WatchMode::Add, &["/b"], true), (400, calls(&["add [\"/b\"]"])));
    assert_eq!(made(WatchMode::Replace, &[], false), (400, calls(&[])));
}

fn history_of(lines: &[String]) -> LogHistory {
    let mut history = LogHistory::new();
    let mut writer = history.writer();
    for line in lines {
        writer.write(&mut history, line.as_bytes());
    }
    writer.close(&mut history);
    history
}

fn lines_in(body: Body) -> Vec<String> {
    match body {
        Body::Lines(lines) => lines,
        other => panic!("expected lines, got {other:?}"),
    }
}

#[test]
fn get_logs_without_history_is_503() {
    assert_eq!(get_logs(None, None).status, 503);
}

#[test]
fn get_logs_reports_recent_lines() {
    let history = history_of(&["line one\nline two\n".to_string()]);
    let reply = get_logs(Some(&history), None);
    assert_eq!(reply.status, 200);
    assert_eq!(lines_in(reply.body), vec!["line one", "line two"]);
}

#[test]
fn get_logs_respects_a_limit() {
    let lines: Vec<String> = (0..5).map(|n| format!("line {n}\n")).collect();
    let history = history_of(&lines);
    let reply = get_logs(Some(&history), Some(2));
    assert_eq!(reply.status, 200);
    assert_eq!(lines_in(reply.body), vec!["line 3", "line 4"]);
}

fn store_with_events() -> (Store, FileId) {
    let mut store = Store::new();
    let mut interner = Interner::new();
    let file = ensure_dir_chain(&mut store, &mut interner, "/home/u/a.txt").expect("file");

    append(&mut store, &NewEvent::now(file, EventKind::Created).at(1_000)).expect("append");
    append(&mut store, &NewEvent::now(file, EventKind::Modified).at(2_000)).expect("append");

    (store, file)
}

fn page(
    store: &Store,
    kind: Option<&str>,
    doc_type: Option<&str>,
    classification: Option<&str>,
) -> Vec<TimelineItem> {
    let query =
        timeline::timeline_query(10, None, kind, doc_type, None, None, None, classification);
    timeline::timeline_page(store, &query)
}

#[test]
fn timeline_maps_store_rows_to_dtos() {
    let (store, _) = store_with_events();
    let items = page(&store, None, None, None);

    assert_eq!(items.len(), 2);
    assert_eq!(items[0].kind, "modified", "most recent first");
    assert_eq!(items[0].path, "/home/u/a.txt");
}

#[test]
fn filtering_by_kind_reaches_the_store() {
    let (store, _) = store_with_events();
    let items = page(&store, Some("created"), None, None);

    assert_eq!(items.len(), 1);
    assert_eq!(items[0].kind, "created");
}

/// An unknown kind must not silently filter everything out.
#[test]
fn an_unparseable_kind_is_treated_as_no_filter() {
    let (store, _) = store_with_events();
    let items = page(&store, Some("exploded"), None, None);
    assert_eq!(items.len(), 2, "an unknown kind silently emptied the timeline");
}

fn text_metadata() -> FileMetadata {
    FileMetadata {
        doc_type: Some("text".into()),
        extracted_at_unix: 1_000,
        extractor_version: 1,
        ..Default::default()
    }
}

fn business() -> FileEnrichment {
    FileEnrichment {
        classification: Some("business".into()),
        enriched_at_unix: 1_000,
        enrichment_version: 1,
        ..Default::default()
    }
}

#[test]
fn filtering_by_doc_type_reaches_the_store() {
    let (mut store, file) = store_with_events();
    record_extraction(&mut store, file, &text_metadata()).expect("record extraction");

    let items = page(&store, None, Some("text"), None);
    assert_eq!(items.len(), 2, "both events are for the same extracted file");
    assert!(items.iter().all(|i| i.doc_type.as_deref() == Some("text")));

    let none = page(&store, None, Some("pdf"), None);
    assert!(none.is_empty(), "a non-matching doc_type should exclude every row");
}

#[test]
fn filtering_by_classification_reaches_the_store() {
    let (mut store, file) = store_with_events();
    record_enrichment(&mut store, file, &business()).expect("record enrichment");

    let items = page(&store, None, None, Some("business"));
    assert_eq!(items.len(), 2, "both events are for the same enriched file");
    assert!(items.iter().all(|i| i.classification.as_deref() == Some("business")));

    let none = page(&store, None, None, Some("personal"));
    assert!(none.is_empty(), "a non-matching classification should exclude every row");
}

#[test]
fn facets_returns_distinct_values_from_file_metadata() {
    let (mut store, file) = store_with_events();
    record_extraction(&mut store, file, &text_metadata()).expect("record extraction");

    let values = timeline::facets(&store, "doc_type").expect("facets");
    assert_eq!(values, vec![("text".to_string(), 1)]);
}

#[test]
fn facets_returns_distinct_values_from_file_enrichment() {
    let (mut store, file) = store_with_events();
    record_enrichment(&mut store, file, &business()).expect("record enrichment");

    let values = timeline::facets(&store, "classification").expect("facets");
    assert_eq!(values, vec![("business".to_string(), 1)]);
}

#[test]
fn store_adapter_facets_rejects_an_unknown_field() {
    let (store, _) = store_with_events();
    assert!(timeline::facets(&store, "nonsense").is_err());
}

#[test]
fn stats_counts_events_and_files() {
    let (store, _) = store_with_events();
    let stats = timeline::stats(&store);
    assert_eq!(stats.events, 2);
}

#[test]
fn stats_reports_the_extraction_queue_depth() {
    let (mut store, file) = store_with_events();
    assert_eq!(timeline::stats(&store).pending_extractions, 0);

    enqueue(&mut store, file, 1_000).expect("enqueue");

    assert_eq!(timeline::stats(&store).pending_extractions, 1);
}

/// Two files with an event each; the first is a `docx`, the second a `pdf`.
fn two_documents() -> (Store, FileId, FileId) {
    let mut store = Store::new();
    let mut interner = Interner::new();
    let a = ensure_dir_chain(&mut store, &mut interner, "/home/u/a.docx").expect("a");
    let b = ensure_dir_chain(&mut store, &mut interner, "/home/u/b.pdf").expect("b");
    append(&mut store, &NewEvent::now(a, EventKind::Created).at(1_000)).expect("append a");
    append(&mut store, &NewEvent::now(b, EventKind::Created).at(2_000)).expect("append b");
    for (id, doc_type) in [(a, "docx"), (b, "pdf")] {
        let metadata = FileMetadata { doc_type: Some(doc_type.into()), ..text_metadata() };
        record_extraction(&mut store, id, &metadata).expect("record");
    }
    (store, a, b)
}

#[test]
fn search_returns_the_nearest_files_in_their_order() {
    let (store, a, b) = two_documents();
    let hits = search_among(&store, &[a, b], &SearchFilters::default(), 10);
    let paths: Vec<&str> = hits.iter().map(|h| h.item.path.as_str()).collect();
    assert_eq!(paths, vec!["/home/u/a.docx", "/home/u/b.pdf"]);
    let nearest = search_among(&store, &[b, a], &SearchFilters::default(), 1);
    assert_eq!(nearest.len(), 1);
    assert_eq!(nearest[0].file_id, b);
}

/// A filter leaves out a candidate that does not pass it, though it is nearer.
#[test]
fn search_applies_facet_filters_to_vector_search_candidates() {
    let (store, a, b) = two_documents();
    let filters = SearchFilters { doc_type: Some("pdf".to_string()), ..Default::default() };
    let hits = search_among(&store, &[a, b], &filters, 10);

    assert_eq!(hits.len(), 1, "the docx hit should have been filtered out");
    assert_eq!(hits[0].item.path, "/home/u/b.pdf");
}

#[test]
fn more_candidates_are_looked_at_where_some_may_be_left_out() {
    let filters = SearchFilters { doc_type: Some("pdf".to_string()), ..Default::default() };
    assert!(!filters.is_empty());
    assert!(SearchFilters::default().is_empty());
    assert_eq!(candidate_limit(10, &SearchFilters::default()), 10);
    assert_eq!(candidate_limit(10, &filters), 10 * FACET_FILTER_OVERSAMPLE);
    assert_eq!(candidate_limit(400, &filters), MAX_FACET_CANDIDATE_LIMIT);
}

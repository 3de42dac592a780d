//! The daemon around the store: its log, its watch list, its control client.
use dafs::control::{
    change_body, judge, print_roots, read_exit_code, read_response, reconcile, request_text,
    resident_bytes, self_update_script_args, split_response, status_bytes, status_is, status_of, understand,
    Finding, OnRunning, PidFile, Reconcile, Updated, PAGE_SIZE,
};
use dafs::log_history::{LogHistory, CAPACITY};
use dafs::logging::{LogLevelHandle, MAX_FILTER_LEN};
use dafs::migrations::{all_steps, current_version, pending_migrations, supported_version};
use dafs::observe::{Observe, ObserveEvent, ObserveStep, Outcome};
use dafs::store::StoreError;
use dafs::watch::Change;
use dafs::watch_control::{
    among, outcome, Answer, DaemonWatchControl, RootChange, RootOutcome, WatchCommand, WatchMode,
};

fn write_all(history: &mut LogHistory, bytes: &[u8]) {
    let mut writer = history.writer();
    assert_eq!(writer.write(history, bytes), bytes.len());
    writer.close(history);
}

#[test]
fn a_write_call_splits_into_separate_lines() {
    let mut history = LogHistory::new();
    write_all(&mut history, b"line one\nline two\n");
    assert_eq!(history.recent(10), vec!["line one", "line two"]);
}

#[test]
fn empty_lines_are_dropped() {
    let mut history = LogHistory::new();
    write_all(&mut history, b"a\n\nb\n");
    assert_eq!(history.recent(10), vec!["a", "b"]);
}

#[test]
fn recent_returns_only_the_last_n_oldest_first() {
    let mut history = LogHistory::new();
    for n in 0..5 {
        write_all(&mut history, format!("line {n}\n").as_bytes());
    }
    assert_eq!(history.recent(2), vec!["line 3", "line 4"]);
}

#[test]
fn the_ring_drops_the_oldest_once_full() {
    let mut history = LogHistory::new();
    for n in 0..(CAPACITY + 10) {
        write_all(&mut history, format!("line {n}\n").as_bytes());
    }
    let all = history.recent(CAPACITY + 10);
    assert_eq!(all.len(), CAPACITY, "the ring should never grow past its capacity");
    assert_eq!(all[0], format!("line {}", 10), "the oldest lines should have been dropped");
}

#[test]
fn a_line_written_in_pieces_is_one_line() {
    let mut history = LogHistory::new();
    let mut writer = history.writer();
    writer.write(&mut history, b"first ha");
    assert!(history.recent(10).is_empty(), "half a line was shown");
    writer.write(&mut history, b"lf\nsecond");
    assert_eq!(history.recent(10), vec!["first half"]);
    writer.close(&mut history);
    assert_eq!(history.recent(10), vec!["first half", "second"]);
    write_all(&mut history, b"not text: \xff\n");
    write_all(&mut history, b"caf\xc3\xa9\n");
    assert_eq!(history.recent(2), vec!["second", "café"]);
}

/// However text is cut up, the lines are those of the whole.
#[test]
fn pieces_are_taken_as_one() {
    let text = "one\n\ntwo caf\u{e9}\nthree";
    let mut whole = LogHistory::new();
    write_all(&mut whole, text.as_bytes());
    assert_eq!(whole.recent(10), vec!["one", "two caf\u{e9}", "three"]);
    for cut in 1..4 {
        let mut pieces = LogHistory::new();
        let mut writer = pieces.writer();
        let mut rest = text;
        while !rest.is_empty() {
            let end = rest.char_indices().nth(cut).map_or(rest.len(), |(at, _)| at);
            assert_eq!(writer.write(&mut pieces, rest[..end].as_bytes()), end);
            rest = &rest[end..];
        }
        writer.close(&mut pieces);
        assert_eq!(pieces.recent(10), whole.recent(10));
    }
    assert_eq!(whole.recent(2), vec!["two caf\u{e9}", "three"]);
    assert!(whole.recent(0).is_empty());
}

#[test]
fn the_length_bound_is_generous_for_real_filters() {
    for filter in [
        "info",
        "debug",
        "dafs_scan=trace,dafs_store=debug,info",
        "dafs_api::logging=trace,dafs_scan::watch=debug,warn",
    ] {
        assert!(
            filter.len() <= MAX_FILTER_LEN,
            "a realistic filter {filter:?} would be rejected by the {MAX_FILTER_LEN}-byte bound"
        );
        assert!(LogLevelHandle::new("info".to_string()).check(filter).is_ok());
    }
}

#[test]
fn an_oversized_filter_is_over_the_bound() {
    let huge = "a".repeat(2 * 1024 * 1024);
    assert!(
        tracing_subscriber::EnvFilter::try_new(&huge).is_ok(),
        "premise: a bare word parses as a filter"
    );
    assert!(huge.len() > MAX_FILTER_LEN, "so the length bound is what has to reject it");
    let refused = LogLevelHandle::new("info".to_string()).check(&huge).expect_err("too long");
    assert_eq!(refused, "filter is 2097152 bytes, over the 1024-byte limit");
}

#[test]
fn a_filter_that_is_not_one_is_refused_and_the_old_one_stays() {
    let mut level = LogLevelHandle::new("info".to_string());
    assert!(level.check("dafs=notalevel").is_err());
    assert!(level.installed("debug", Err("gone".to_string())).is_err());
    assert_eq!(level.current(), "info");
    assert!(level.installed("debug", Ok(())).is_ok());
    assert_eq!(level.current(), "debug");
}

/// The parser of filters counts bytes from behind the white space before a directive
/// and cuts the directive from before it, so where that is inside a character it is
/// not asked.
#[test]
fn a_filter_that_is_cut_inside_a_character_is_refused() {
    let level = LogLevelHandle::new("info".to_string());
    let torn = [
        " \u{e9}=info",
        "info, \u{e9}=debug",
        "\u{a0}a=info",
        "\u{a0}[s]",
        " a[\u{e9}]",
        "  \u{e9}[x]",
        " a[b{\u{e9}}]",
        " a[b]=\u{e9},\u{a0}b=\u{e9}",
    ];
    for filter in torn {
        let refused = level.check(filter).expect_err("refused");
        assert_eq!(
            refused, "a directive is cut inside a character by the white space before it",
            "{filter:?}"
        );
    }
    assert!(level.check("info,dafs=debug").is_ok());
    assert_eq!(level.current(), "info");
}

/// What is handed out to be put in force is the filter that was asked for.
#[test]
fn the_filter_that_was_asked_for_is_handed_out() {
    let level = LogLevelHandle::new("info".to_string());
    for filter in ["off", "debug", "dafs=trace", "dafs=debug,info"] {
        let parsed = level.check(filter).expect("a filter");
        assert_eq!(parsed.to_string(), filter);
    }
}

/// White space before a directive that is not ASCII is no reason to refuse it.
#[test]
fn a_filter_that_is_cut_between_characters_is_parsed() {
    let level = LogLevelHandle::new("info".to_string());
    let whole = [
        " \u{e9}",
        "\u{a0}abc",
        "info, \u{e9}",
        "   \u{e9}[ab]",
        "\u{e9}=info",
        "\u{e9}[\u{e9}{x=1}]=debug",
        " a[b]",
        "info ,debug",
    ];
    for filter in whole {
        assert!(level.check(filter).is_ok(), "{filter:?}");
    }
    // The parser's own refusals stay its own.
    let refused = level.check(" a=info").expect_err("the level is cut off");
    assert!(!refused.contains("cut inside"), "{refused}");
}

#[test]
fn resident_bytes_is_plausible() {
    let rss = resident_bytes("31520 2118 1573 45 0 620 0\n").expect("procfs should be readable on linux");
    assert!(rss > 256 * 1024, "RSS implausibly small: {rss}");
    assert!(rss < 8 * 1024 * 1024 * 1024, "RSS implausibly large: {rss}");
    assert_eq!(rss, 2118 * PAGE_SIZE);
    assert_eq!(resident_bytes("31520"), None);
    assert_eq!(resident_bytes("31520 many"), None);
    assert_eq!(resident_bytes(""), None);
}

#[test]
fn a_field_of_the_process_status_is_read() {
    let status = "Name:\tdafs\nVmRSS:\t    8192 kB\nRssAnon:\t    4096 kB\n";
    assert_eq!(status_bytes(status, "RssAnon:"), Some(4096 * 1024));
    assert_eq!(status_bytes(status, "VmRSS:"), Some(8192 * 1024));
    assert_eq!(status_bytes(status, "RssFile:"), None);
    assert_eq!(status_bytes(status, "Name:"), None);
}

#[test]
fn a_nonexistent_path_is_rejected_before_it_reaches_the_channel() {
    let mut control = DaemonWatchControl::new(vec![]);

    let result = control.add_roots(vec!["/definitely/not/a/real/path/xyz".into()], &vec![false]);

    assert!(result.is_err());
    assert!(
        control.take_command().is_none(),
        "an invalid path must never reach the observer thread"
    );
}

#[test]
fn a_real_directory_is_accepted_queued_and_waits_for_the_reply() {
    let mut control = DaemonWatchControl::new(vec![]);
    control.add_roots(vec!["/tmp".to_string()], &vec![true]).expect("valid dir");
    match control.take_command().expect("command") {
        WatchCommand::AddRoots { roots } => assert_eq!(roots.len(), 1),
        WatchCommand::ReplaceRoots { .. } => panic!("expected AddRoots"),
    }
    assert_eq!(outcome(Answer::Said(Ok(()))), Ok(()));
    control.replace_roots(vec!["/tmp".to_string()], &vec![true]).expect("valid dir");
    assert!(matches!(control.take_command(), Some(WatchCommand::ReplaceRoots { .. })));
    assert!(control.take_command().is_none());
}

#[test]
fn the_observer_s_own_error_surfaces_to_the_caller() {
    let result = outcome(Answer::Said(Err("permission denied".to_string())));
    assert_eq!(result, Err("permission denied".to_string()));
}

#[test]
fn no_observer_thread_at_all_is_reported_not_hung_forever() {
    assert!(outcome(Answer::Gone).is_err());
    assert!(outcome(Answer::Late).is_err());
    assert_ne!(outcome(Answer::Gone), outcome(Answer::Late));
}

#[test]
fn roots_reflects_whatever_the_shared_state_currently_holds() {
    let mut control = DaemonWatchControl::new(vec!["/a".to_string(), "/b".to_string()]);

    assert_eq!(control.roots(), vec!["/a".to_string(), "/b".to_string()]);
    control.set_roots(&vec!["/c".to_string()]);
    assert_eq!(control.roots(), vec!["/c".to_string()]);
}

fn texts(names: &[&str]) -> Vec<String> {
    names.iter().map(|s| s.to_string()).collect()
}

#[test]
fn adding_keeps_every_root() {
    let command = WatchCommand::AddRoots { roots: texts(&["/b", "/a", "/c"]) };
    let mut change = RootChange::begin(texts(&["/a"]), command);
    let mut asked = Vec::new();
    while let Some(root) = change.next_root() {
        let failed = root == "/c";
        asked.push(root);
        change.settle(if failed {
            RootOutcome::ScanFailed("permission denied".to_string())
        } else {
            RootOutcome::Watched
        });
    }
    assert_eq!(asked, texts(&["/b", "/c"]), "a root that is watched already was scanned again");
    let changed = change.finish();
    assert_eq!(changed.roots, texts(&["/a", "/b"]));
    assert!(changed.dropped.is_empty());
    let error = changed.reply.expect_err("one root failed");
    assert!(error.contains("/c") && error.contains("permission denied"), "{error}");
}

#[test]
fn replacing_keeps_what_was_asked_for() {
    let command = WatchCommand::ReplaceRoots { roots: texts(&["/b", "/c"]) };
    let mut change = RootChange::begin(texts(&["/a", "/b"]), command);
    while let Some(root) = change.next_root() {
        assert_eq!(root, "/c");
        change.settle(RootOutcome::Watched);
    }
    let changed = change.finish();
    assert_eq!(changed.roots, texts(&["/b", "/c"]));
    assert_eq!(changed.dropped, texts(&["/a"]));
    assert_eq!(changed.reply, Ok(()));
    assert!(among("/b", &changed.roots));
    assert!(!among("/a", &changed.roots));
}

/// A replacement of which nothing comes to be watched leaves everything as it
/// was: there is never a time at which nothing is watched.
#[test]
fn a_failed_replacement_keeps_every_root() {
    let command = WatchCommand::ReplaceRoots { roots: texts(&["/b", "/c"]) };
    let mut change = RootChange::begin(texts(&["/a"]), command);
    while let Some(root) = change.next_root() {
        change.settle(if root == "/b" {
            RootOutcome::ScanFailed("no such directory".to_string())
        } else {
            RootOutcome::WatchFailed("too many watches".to_string())
        });
    }
    let changed = change.finish();
    assert_eq!(changed.roots, texts(&["/a"]));
    assert!(changed.dropped.is_empty());
    assert_eq!(
        changed.reply,
        Err("scan of /b failed: no such directory; failed to watch /c: too many watches".to_string())
    );

    // One that is watched is enough.
    let command = WatchCommand::ReplaceRoots { roots: texts(&["/b", "/c"]) };
    let mut change = RootChange::begin(texts(&["/a"]), command);
    while let Some(root) = change.next_root() {
        change.settle(if root == "/b" {
            RootOutcome::ScanFailed("no such directory".to_string())
        } else {
            RootOutcome::Watched
        });
    }
    let changed = change.finish();
    assert_eq!(changed.roots, texts(&["/c"]));
    assert_eq!(changed.dropped, texts(&["/a"]));
}

#[test]
fn a_root_is_the_same_however_it_is_written() {
    let command = WatchCommand::AddRoots { roots: texts(&["/a//b/", "/a/b"]) };
    let mut change = RootChange::begin(texts(&["/a/b"]), command);
    assert_eq!(change.next_root(), None);
    assert_eq!(change.finish().roots, texts(&["/a/b"]));
}

fn told(outcome: Outcome) -> ObserveEvent {
    ObserveEvent { outcome, stopping: false }
}

fn scans(step: ObserveStep) -> String {
    match step {
        ObserveStep::Scan(root) => root,
        other => panic!("expected a scan, got {other:?}"),
    }
}

/// One bad root stops none of the others, the queue is filled once, and commands
/// come before a poll.
#[test]
fn the_observer_scans_then_queues_then_watches() {
    let mut course = Observe::begin(texts(&["/a", "/b", "/c"]), false);
    assert_eq!(scans(course.next(told(Outcome::Done))), "/a");
    assert_eq!(scans(course.next(told(Outcome::Failed))), "/b");
    assert_eq!(scans(course.next(told(Outcome::Done))), "/c");
    assert!(matches!(course.next(told(Outcome::Failed)), ObserveStep::Requeue));
    assert!(matches!(course.next(told(Outcome::Failed)), ObserveStep::Watch));
    assert!(matches!(course.next(told(Outcome::Done)), ObserveStep::Command));
    let changed = Outcome::Reconfigured(texts(&["/a", "/d"]));
    assert!(matches!(course.next(told(changed)), ObserveStep::Command));
    assert_eq!(course.roots(), &texts(&["/a", "/d"]));
    assert!(matches!(course.next(told(Outcome::Done)), ObserveStep::Poll));
    assert!(matches!(course.next(told(Outcome::Changes(vec![]))), ObserveStep::Command));
    assert!(matches!(course.next(told(Outcome::Done)), ObserveStep::Poll));
}

/// Lost reports are answered by scanning every root again; a root that fails
/// stops neither the others nor the changes that follow.
#[test]
fn a_rescan_takes_every_root() {
    let mut course = Observe::begin(texts(&["/a", "/b"]), true);
    assert!(matches!(course.next(told(Outcome::Done)), ObserveStep::Requeue));
    assert!(matches!(course.next(told(Outcome::Done)), ObserveStep::Watch));
    assert!(matches!(course.next(told(Outcome::Done)), ObserveStep::Command));
    assert!(matches!(course.next(told(Outcome::Done)), ObserveStep::Poll));
    let touched = Change::Touched("/a/x".to_string());
    let removed = Change::Removed("/b/y".to_string());
    let changes = vec![Change::Overflowed, touched.clone(), removed.clone()];
    assert_eq!(scans(course.next(told(Outcome::Changes(changes)))), "/a");
    assert_eq!(scans(course.next(told(Outcome::Failed))), "/b");
    match course.next(told(Outcome::Failed)) {
        ObserveStep::Apply(change) => assert_eq!(change, touched),
        other => panic!("expected a change, got {other:?}"),
    }
    match course.next(told(Outcome::Failed)) {
        ObserveStep::Apply(change) => assert_eq!(change, removed),
        other => panic!("expected a change, got {other:?}"),
    }
    assert!(matches!(course.next(told(Outcome::Done)), ObserveStep::Command));
}

#[test]
fn the_observer_stops_when_it_is_asked_to() {
    let stop = || ObserveEvent { outcome: Outcome::Done, stopping: true };
    let mut course = Observe::begin(texts(&["/a", "/b"]), false);
    assert_eq!(scans(course.next(told(Outcome::Done))), "/a");
    assert!(matches!(course.next(stop()), ObserveStep::Stop));
    assert!(matches!(course.next(told(Outcome::Done)), ObserveStep::Stop));

    // Without anything to scan, it is asked at the end of a round.
    let mut course = Observe::begin(texts(&[]), false);
    assert!(matches!(course.next(stop()), ObserveStep::Requeue));
    assert!(matches!(course.next(stop()), ObserveStep::Watch));
    assert!(matches!(course.next(stop()), ObserveStep::Stop));

    // A watch that cannot be started ends it too.
    let mut course = Observe::begin(texts(&[]), false);
    course.next(told(Outcome::Done));
    course.next(told(Outcome::Done));
    assert!(matches!(course.next(told(Outcome::Failed)), ObserveStep::Stop));
}

#[test]
fn versions_are_unique_and_ordered() {
    let mut seen = std::collections::BTreeSet::new();
    let mut last = 0;
    for m in all_steps() {
        assert!(m.version > 0, "migration versions start at 1");
        assert!(seen.insert(m.version), "duplicate migration version {}", m.version);
        assert!(m.version > last, "migration {} is out of order", m.version);
        last = m.version;
    }
}

#[test]
fn fresh_database_migrates_to_supported_version() {
    let conn = rusqlite::Connection::open_in_memory().expect("open");
    let steps = pending_migrations(current_version(&vec![])).expect("steps");
    let mut recorded = Vec::new();
    for step in &steps {
        conn.execute_batch(step.sql).expect("migration applies");
        recorded.push(step.version);
    }
    assert_eq!(current_version(&recorded), supported_version());
    assert!(pending_migrations(current_version(&recorded)).expect("up to date").is_empty());
}

/// The versions that a database has recorded.
fn recorded_in(conn: &rusqlite::Connection) -> Vec<u32> {
    let known: u32 = conn
        .query_row("SELECT COUNT(*) FROM sqlite_master WHERE name = 'schema_migrations'", [], |r| {
            r.get(0)
        })
        .expect("tables");
    if known == 0 {
        return Vec::new();
    }
    let mut stmt = conn.prepare("SELECT version FROM schema_migrations").expect("prepare");
    let rows = stmt.query_map([], |r| r.get(0)).expect("query");
    rows.map(|r| r.expect("version")).collect()
}

/// Open a database and have it take the steps that it is missing.
fn open_migrated(path: &std::path::Path) -> rusqlite::Connection {
    let conn = rusqlite::Connection::open(path).expect("open");
    for step in pending_migrations(current_version(&recorded_in(&conn))).expect("steps") {
        conn.execute_batch(step.sql).expect("migration applies");
        conn.execute(
            "INSERT INTO schema_migrations (version, name, applied_at) VALUES (?1, ?2, 1)",
            (step.version, step.name),
        )
        .expect("recorded");
    }
    conn
}

#[test]
fn migrations_are_idempotent() {
    let dir = tempfile::tempdir().expect("tempdir");
    let path = dir.path().join("meta.sqlite");

    let first = open_migrated(&path);
    let v1 = current_version(&recorded_in(&first));
    drop(first);

    let second = open_migrated(&path);
    assert_eq!(current_version(&recorded_in(&second)), v1);
    let count: u32 = second
        .query_row("SELECT COUNT(*) FROM schema_migrations", [], |r| r.get(0))
        .expect("count");
    assert_eq!(count as usize, all_steps().len(), "a migration was applied twice");
}

/// The schema accepts only the kinds of event that there are.
#[test]
fn the_schema_rejects_an_unknown_kind() {
    let conn = rusqlite::Connection::open_in_memory().expect("open");
    for step in all_steps() {
        conn.execute_batch(step.sql).expect("migration applies");
    }
    conn.execute_batch(
        "INSERT INTO path_components (id, name) VALUES (1, 'a');
         INSERT INTO files (id, component_id, is_dir) VALUES (1, 1, 0);",
    )
    .expect("a file");
    let err = conn.execute(
        "INSERT INTO events (file_id, kind, at_unix_ms) VALUES (?1, 'exploded', 1)",
        [1],
    );
    assert!(err.is_err(), "the schema accepted an unknown event kind");
    let known = conn.execute(
        "INSERT INTO events (file_id, kind, at_unix_ms) VALUES (?1, 'created', 1)",
        [1],
    );
    assert!(known.is_ok());
}

#[test]
fn refuses_a_newer_schema() {
    let mut recorded: Vec<u32> = all_steps().iter().map(|m| m.version).collect();
    recorded.push(9999);
    let err = pending_migrations(current_version(&recorded)).expect_err("must refuse a newer schema");
    assert!(matches!(err, StoreError::SchemaTooNew { found: 9999, .. }), "wrong error: {err:?}");
}

#[test]
fn check_only_passes_check_only_and_no_target_path() {
    let args = self_update_script_args(true, "/usr/local/bin/dafs", "0.1.0");
    assert_eq!(args[0], "--check-only");
    assert!(!args.iter().any(|a| a == "--target-path"));
    assert!(args.iter().any(|a| a == "--current-version"));
}

#[test]
fn real_update_passes_self_update_and_the_current_exe_path() {
    let exe = "/usr/local/bin/dafs";
    let args = self_update_script_args(false, exe, "0.1.0");
    assert_eq!(args[0], "--self-update");
    assert_eq!(args[1], "--target-path");
    assert_eq!(args[2], exe);
    assert!(args.contains(&"0.1.0".to_string()));
}

#[test]
fn the_script_s_exit_code_is_understood() {
    assert!(matches!(read_exit_code(Some(0), false), Updated::Done));
    assert!(matches!(read_exit_code(Some(0), true), Updated::Done));
    assert!(matches!(read_exit_code(None, true), Updated::Failed));
    assert!(matches!(read_exit_code(Some(1), false), Updated::Failed));
}

#[test]
fn a_live_pidfile_round_trips() {
    let file = PidFile { pid: 42, listen: "127.0.0.1:7878".to_string() };
    match judge(Some(file), true) {
        Finding::Live(found) => {
            assert_eq!(found.pid, 42);
            assert_eq!(found.listen, "127.0.0.1:7878");
        }
        other => panic!("expected a live daemon, got {other:?}"),
    }
}

#[test]
fn a_missing_pidfile_is_quietly_none() {
    assert!(matches!(judge(None, false), Finding::Nothing));
}

#[test]
fn a_stale_pidfile_is_removed_and_reported_as_absent() {
    let stale = PidFile { pid: 4_000_000_000, listen: "127.0.0.1:7878".to_string() };
    assert!(matches!(judge(Some(stale), false), Finding::Stale));
}

#[test]
fn a_second_start_changes_only_what_it_was_asked_to() {
    assert!(matches!(reconcile(false, None, true), Reconcile::Report));
    assert!(matches!(reconcile(true, None, true), Reconcile::Ask));
    assert!(matches!(reconcile(true, None, false), Reconcile::Refuse));
    assert!(matches!(reconcile(true, Some(OnRunning::Cancel), false), Reconcile::Leave));
    assert!(matches!(
        reconcile(true, Some(OnRunning::Add), false),
        Reconcile::Change(WatchMode::Add)
    ));
    assert!(matches!(
        reconcile(true, Some(OnRunning::Replace), false),
        Reconcile::Change(WatchMode::Replace)
    ));
    assert!(matches!(understand("a"), OnRunning::Add));
    assert!(matches!(understand("Replace\n"), OnRunning::Replace));
    assert!(matches!(understand("what?"), OnRunning::Cancel));
}

#[test]
fn a_request_is_written_and_its_response_read() {
    let request = request_text("PUT", "/watch", "127.0.0.1:7878", "{}");
    assert!(request.starts_with("PUT /watch HTTP/1.1\r\n"), "{request}");
    assert!(request.contains("Content-Length: 2\r\n"), "{request}");
    assert!(request.ends_with("\r\n\r\n{}"), "{request}");

    let response = "HTTP/1.1 200 OK\r\nContent-Type: application/json\r\n\r\n{\"roots\":[]}";
    assert_eq!(status_of(response), Some(200));
    assert!(status_is(response, 200));
    assert!(!status_is(response, 404));
    assert_eq!(split_response(response).1, "{\"roots\":[]}");
    assert_eq!(read_response("GET /watch", response), Ok("{\"roots\":[]}".to_string()));
    assert_eq!(
        read_response("GET /watch", "HTTP/1.1 503 Busy\r\n\r\nnot now"),
        Err("GET /watch returned 503: not now".to_string())
    );
    assert!(read_response("GET /watch", "garbage").is_err());
}

#[test]
fn a_change_of_roots_is_written_as_json() {
    let body = change_body(WatchMode::Add, &vec!["/a \"quoted\"".to_string()]);
    let value: serde_json::Value = serde_json::from_str(&body).expect("json");
    assert_eq!(value["mode"], "add");
    assert_eq!(value["roots"][0], "/a \"quoted\"");
    let body = change_body(WatchMode::Replace, &vec!["/b".to_string()]);
    assert_eq!(body, r#"{"mode":"replace","roots":["/b"]}"#);
}

#[test]
fn the_watched_roots_are_listed() {
    let shown = print_roots(&vec!["/a".to_string(), "/b".to_string()]);
    assert!(shown.contains("/a") && shown.contains("/b"), "{shown}");
    assert_ne!(print_roots(&vec![]), shown);
}

//! The event log and the timeline made from it.
use dafs::enrichment::{record_enrichment, FileEnrichment};
use dafs::events::{
    append, append_batch, count, file_count, latest_for_file_ids, now_unix_ms, reading_to_unix_ms,
    timeline, EventKind, NewEvent, TimelineQuery, DEFAULT_LIMIT, MAX_LIMIT,
};
use dafs::load::{apply, load};
use dafs::metadata::{record_extraction, FileMetadata};
use dafs::paths::{ensure_dir_chain, resolve_path, upsert_entry, Interner};
use dafs::store::{FileId, FileRow, Store, StoreError, Write};

fn db_with_file(name: &str) -> (Store, FileId) {
    let mut store = Store::new();
    let mut i = Interner::new();
    let id = ensure_dir_chain(&mut store, &mut i, name).expect("chain");
    (store, id)
}

#[test]
fn append_then_read_round_trips() {
    let (mut store, file) = db_with_file("/home/user/notes.md");
    append(&mut store, &NewEvent::now(file, EventKind::Created).with_size(Some(42)))
        .expect("append");

    let entries = timeline(&store, &TimelineQuery::default());
    assert_eq!(entries.len(), 1);
    assert_eq!(entries[0].path, "/home/user/notes.md");
    assert_eq!(entries[0].kind, EventKind::Created);
    assert_eq!(entries[0].size_bytes, Some(42));
}

#[test]
fn timeline_is_most_recent_first() {
    let (mut store, file) = db_with_file("/a/b");
    for (n, at) in [(1, 1_000), (2, 3_000), (3, 2_000)] {
        append(&mut store, &NewEvent::now(file, EventKind::Modified).at(at).with_size(Some(n)))
            .expect("append");
    }

    let entries = timeline(&store, &TimelineQuery::default());
    let times: Vec<i64> = entries.iter().map(|e| e.at_unix_ms).collect();
    assert_eq!(times, vec![3_000, 2_000, 1_000]);
}

#[test]
fn limit_is_clamped_not_trusted() {
    let (mut store, file) = db_with_file("/a/b");
    for _ in 0..10 {
        append(&mut store, &NewEvent::now(file, EventKind::Modified)).expect("append");
    }

    let entries =
        timeline(&store, &TimelineQuery { limit: Some(u32::MAX), ..Default::default() });
    assert!(
        entries.len() <= MAX_LIMIT as usize,
        "an absurd limit was honoured: {} rows",
        entries.len()
    );

    let zero = timeline(&store, &TimelineQuery { limit: Some(0), ..Default::default() });
    assert_eq!(zero.len(), 1, "a zero limit should clamp to 1, not return nothing");
}

#[test]
fn a_page_holds_no_more_than_its_limit() {
    let (mut store, file) = db_with_file("/a/b");
    for n in 0..600 {
        append(&mut store, &NewEvent::now(file, EventKind::Modified).at(n)).expect("append");
    }
    let most = TimelineQuery { limit: Some(10_000), ..Default::default() };
    assert_eq!(most.effective_limit(), MAX_LIMIT);
    assert_eq!(timeline(&store, &most).len(), 500);
    assert_eq!(timeline(&store, &TimelineQuery::default()).len(), DEFAULT_LIMIT as usize);
    assert_eq!(timeline(&store, &TimelineQuery { limit: Some(7), ..Default::default() }).len(), 7);
}

/// Pagination must not skip or repeat rows that share a millisecond.
#[test]
fn pagination_covers_events_sharing_a_timestamp() {
    let (mut store, file) = db_with_file("/a/b");
    for _ in 0..10 {
        append(&mut store, &NewEvent::now(file, EventKind::Modified).at(5_000)).expect("append");
    }

    let mut seen: Vec<i64> = Vec::new();
    let mut cursor: Option<i64> = None;
    loop {
        let page = timeline(
            &store,
            &TimelineQuery { limit: Some(3), before_id: cursor, kind: None, ..Default::default() },
        );
        if page.is_empty() {
            break;
        }
        cursor = Some(page.last().expect("non-empty").id);
        seen.extend(page.iter().map(|e| e.id));
    }

    let mut unique = seen.clone();
    unique.sort_unstable();
    unique.dedup();
    assert_eq!(seen.len(), 10, "paging lost or repeated rows: {seen:?}");
    assert_eq!(unique.len(), 10, "paging returned duplicates: {seen:?}");
}

#[test]
fn filtering_by_kind_excludes_others() {
    let (mut store, file) = db_with_file("/a/b");
    append(&mut store, &NewEvent::now(file, EventKind::Created)).expect("append");
    append(&mut store, &NewEvent::now(file, EventKind::Modified)).expect("append");
    append(&mut store, &NewEvent::now(file, EventKind::Deleted)).expect("append");

    let created = timeline(
        &store,
        &TimelineQuery { kind: Some(EventKind::Created), ..Default::default() },
    );
    assert_eq!(created.len(), 1);
    assert_eq!(created[0].kind, EventKind::Created);
}

#[test]
fn a_rename_records_where_the_file_came_from() {
    let mut store = Store::new();
    let mut i = Interner::new();

    let old_dir = ensure_dir_chain(&mut store, &mut i, "/home/user").expect("dir");
    let old_name = i.intern_leaf(&mut store, "before.md");
    let file = ensure_dir_chain(&mut store, &mut i, "/home/user/after.md").expect("file");

    append(
        &mut store,
        &NewEvent {
            file_id: file,
            kind: EventKind::Renamed,
            at_unix_ms: 1_000,
            size_bytes: None,
            prev_parent_id: Some(old_dir),
            prev_component_id: Some(old_name),
        },
    )
    .expect("append");

    let entries = timeline(&store, &TimelineQuery::default());
    assert_eq!(entries[0].path, "/home/user/after.md");
    assert_eq!(entries[0].previous_path.as_deref(), Some("/home/user/before.md"));
}

#[test]
fn batch_append_is_all_or_nothing() {
    let (mut store, file) = db_with_file("/a/b");

    let good: Vec<NewEvent> = (0..5).map(|_| NewEvent::now(file, EventKind::Modified)).collect();
    assert_eq!(append_batch(&mut store, &good).expect("batch"), 5);
    assert_eq!(count(&store), 5);

    // A batch that refers to a file that does not exist is refused whole.
    let mut bad = good.clone();
    bad.push(NewEvent::now(999_999, EventKind::Modified));
    assert!(append_batch(&mut store, &bad).is_err(), "an invalid batch should fail");
    assert_eq!(count(&store), 5, "a failed batch left rows behind");
}

#[test]
fn empty_batch_is_not_an_error() {
    let (mut store, _) = db_with_file("/a/b");
    assert_eq!(append_batch(&mut store, &[]).expect("empty batch"), 0);
}

#[test]
fn an_event_about_nothing_is_refused() {
    let (mut store, file) = db_with_file("/a/b");
    assert_eq!(
        append(&mut store, &NewEvent::now(file + 1, EventKind::Created)),
        Err(StoreError::MissingReference)
    );
    let from_nowhere = NewEvent { prev_component_id: Some(99), ..NewEvent::now(file, EventKind::Renamed) };
    assert_eq!(append(&mut store, &from_nowhere), Err(StoreError::MissingReference));
    assert_eq!(append(&mut store, &NewEvent::now(file, EventKind::Created)), Ok(1));
    assert_eq!(append(&mut store, &NewEvent::now(file, EventKind::Created)), Ok(2));
}

#[test]
fn event_kinds_round_trip_through_their_stored_form() {
    for kind in [EventKind::Created, EventKind::Modified, EventKind::Deleted, EventKind::Renamed] {
        assert_eq!(EventKind::parse(kind.as_str()), Some(kind));
    }
    assert_eq!(EventKind::parse("exploded"), None);
}

#[test]
fn counts_exclude_directories_and_tombstones() {
    let mut store = Store::new();
    let mut i = Interner::new();

    // ensure_dir_chain makes directories; a file row is the leaf.
    let dir = ensure_dir_chain(&mut store, &mut i, "/home/user").expect("dir");
    let name = i.intern_leaf(&mut store, "notes.md");
    let file = upsert_entry(&mut store, Some(dir), name, false, Some(10), Some(0)).expect("file");

    assert_eq!(file_count(&store), 1, "only the leaf is a file");

    let row = store.file(file);
    apply(&mut store, Write::SetFile(file, FileRow { deleted_at: Some(1), ..row }))
        .expect("tombstone");
    assert_eq!(file_count(&store), 0, "a tombstoned file was counted");
}

#[test]
fn what_is_known_of_a_file_is_on_its_timeline_rows() {
    let (mut store, file) = db_with_file("/a/report.pdf");
    append(&mut store, &NewEvent::now(file, EventKind::Created).at(9)).expect("append");
    let metadata = FileMetadata {
        doc_type: Some("pdf".into()),
        title: Some("Report".into()),
        author: Some("Ada".into()),
        language: Some("eng".into()),
        git_branch: Some("main".into()),
        page_count: Some(3),
        ..Default::default()
    };
    record_extraction(&mut store, file, &metadata).expect("metadata");
    let enrichment = FileEnrichment {
        summary: Some("About widgets.".into()),
        classification: Some("business".into()),
        ..Default::default()
    };
    record_enrichment(&mut store, file, &enrichment).expect("enrichment");

    let entries = timeline(&store, &TimelineQuery::default());
    assert_eq!(entries[0].doc_type.as_deref(), Some("pdf"));
    assert_eq!(entries[0].title.as_deref(), Some("Report"));
    assert_eq!(entries[0].page_count, Some(3));
    assert_eq!(entries[0].summary.as_deref(), Some("About widgets."));
    assert!(entries[0].is_dir);

    let asks = |query: TimelineQuery| timeline(&store, &query).len();
    assert_eq!(asks(TimelineQuery { doc_type: Some("pdf".into()), ..Default::default() }), 1);
    assert_eq!(asks(TimelineQuery { doc_type: Some("docx".into()), ..Default::default() }), 0);
    assert_eq!(asks(TimelineQuery { author: Some("Ada".into()), ..Default::default() }), 1);
    assert_eq!(asks(TimelineQuery { author: Some("ada".into()), ..Default::default() }), 0);
    assert_eq!(asks(TimelineQuery { language: Some("eng".into()), ..Default::default() }), 1);
    assert_eq!(asks(TimelineQuery { git_branch: Some("main".into()), ..Default::default() }), 1);
    assert_eq!(asks(TimelineQuery { classification: Some("business".into()), ..Default::default() }), 1);
    assert_eq!(asks(TimelineQuery { classification: Some("personal".into()), ..Default::default() }), 0);
}

#[test]
fn the_latest_event_of_each_file_is_found() {
    let mut store = Store::new();
    let mut i = Interner::new();
    let a = ensure_dir_chain(&mut store, &mut i, "/a").expect("a");
    let b = ensure_dir_chain(&mut store, &mut i, "/b").expect("b");
    let silent = ensure_dir_chain(&mut store, &mut i, "/c").expect("c");
    for (file, at) in [(a, 30), (b, 10), (a, 20), (b, 40), (a, 30)] {
        append(&mut store, &NewEvent::now(file, EventKind::Modified).at(at)).expect("append");
    }
    let found = latest_for_file_ids(&store, &[b, silent, a, 99]);
    let mut seen: Vec<(FileId, i64, i64)> =
        found.iter().map(|e| (e.file_id, e.at_unix_ms, e.id)).collect();
    seen.sort_unstable();
    assert_eq!(seen, vec![(a, 30, 5), (b, 40, 4)]);
}

#[test]
fn a_clock_before_the_epoch_reads_as_zero() {
    assert_eq!(reading_to_unix_ms(None), 0);
    assert_eq!(reading_to_unix_ms(Some(1_700_000_000_123)), 1_700_000_000_123);
    // 2020 is long past, and a clock that is asked twice does not go backwards
    // by a day.
    assert!(now_unix_ms() > 1_577_836_800_000);
    assert!(NewEvent::now(1, EventKind::Created).at_unix_ms > 1_577_836_800_000);
}

/// Replaying what was taken from a store gives the same store.
#[test]
fn the_writes_taken_from_a_store_make_it_again() {
    let (mut store, file) = db_with_file("/home/user/notes.md");
    append(&mut store, &NewEvent::now(file, EventKind::Created).at(5)).expect("append");
    let mut writes = store.take_writes();
    assert!(store.take_writes().is_empty(), "the same writes were handed out twice");
    append(&mut store, &NewEvent::now(file, EventKind::Modified).at(6)).expect("append");
    writes.extend(store.take_writes());

    let copy = load(writes).expect("load");
    assert_eq!(copy.files_len(), store.files_len());
    assert_eq!(copy.events_len(), 2);
    assert_eq!(copy.event(2), store.event(2));
    assert_eq!(resolve_path(&copy, file), "/home/user/notes.md");
}

#[test]
fn rows_that_contradict_each_other_are_not_loaded() {
    let twice = vec![Write::AddComponent("a".into()), Write::AddComponent("a".into())];
    assert!(matches!(load(twice), Err(StoreError::Conflict)));

    let row = FileRow {
        parent_id: None,
        component_id: 1,
        is_dir: false,
        size_bytes: None,
        mtime_unix: None,
        deleted_at: None,
    };
    assert!(matches!(load(vec![Write::AddFile(row)]), Err(StoreError::MissingReference)));

    let two_live = vec![Write::AddComponent("a".into()), Write::AddFile(row), Write::AddFile(row)];
    assert!(matches!(load(two_live), Err(StoreError::Conflict)));

    let gone = FileRow { deleted_at: Some(1), ..row };
    let with_tombstone =
        vec![Write::AddComponent("a".into()), Write::AddFile(gone), Write::AddFile(row)];
    assert_eq!(load(with_tombstone).expect("a tombstone shares the place").files_len(), 2);

    let event = NewEvent::now(1, EventKind::Created);
    assert!(matches!(load(vec![Write::AddEvent(event)]), Err(StoreError::MissingReference)));
    assert!(load(vec![Write::SetEmbedded(1)]).expect("refers to nothing").is_embedded(1));
}

/// An event of a kind that is not known is shown as a change.
#[test]
fn an_unknown_stored_kind_is_shown_as_modified() {
    assert_eq!(EventKind::of_stored("renamed"), EventKind::Renamed);
    assert_eq!(EventKind::of_stored("created"), EventKind::Created);
    assert_eq!(EventKind::of_stored("exploded"), EventKind::Modified);
}

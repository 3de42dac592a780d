//! Extracted and model-derived fields, and the queues that fill them.
use dafs::embeddings::{self, EmbeddingConfig, MAX_DIMENSIONS};
use dafs::enrichment::{self, FileEnrichment};
use dafs::metadata::{
    distinct_facets, enqueue, get, pending, queue_depth, record_attempt, record_extraction,
    requeue_stale, FacetColumn, FileMetadata, MAX_ATTEMPTS,
};
use dafs::paths::{ensure_dir_chain, upsert_entry, Interner};
use dafs::queue::{Drain, DrainStep};
use dafs::store::{FileId, Store, StoreError};

fn leaf_file(store: &mut Store, i: &mut Interner, path: &str) -> FileId {
    let cut = path.rfind('/').expect("an absolute path");
    let parent_id =
        if cut == 0 { None } else { Some(ensure_dir_chain(store, i, &path[..cut]).expect("parent")) };
    let component_id = i.intern_leaf(store, &path[cut + 1..]);
    upsert_entry(store, parent_id, component_id, false, Some(0), Some(0)).expect("upsert leaf")
}

fn db_with_file(name: &str) -> (Store, FileId) {
    let mut store = Store::new();
    let mut i = Interner::new();
    let id = leaf_file(&mut store, &mut i, name);
    (store, id)
}

fn sample() -> FileMetadata {
    FileMetadata {
        doc_type: Some("pdf".into()),
        title: Some("Report".into()),
        author: Some("Ada".into()),
        language: Some("en".into()),
        page_count: Some(3),
        word_count: Some(500),
        extracted_at_unix: 1_000,
        extractor_version: 1,
        ..Default::default()
    }
}

fn sample_enrichment() -> FileEnrichment {
    FileEnrichment {
        summary: Some("A report about widgets.".into()),
        keywords: Some(r#"["widgets","report"]"#.into()),
        entities: Some(r#"["Acme Corp"]"#.into()),
        classification: Some("business".into()),
        enriched_at_unix: 1_000,
        enrichment_version: 1,
    }
}

#[test]
fn metadata_record_then_get_round_trips() {
    let (mut store, file) = db_with_file("/a/report.pdf");
    record_extraction(&mut store, file, &sample()).expect("record");

    let got = get(&store, file).expect("present");
    assert_eq!(got, sample());
}

#[test]
fn record_extraction_clears_the_queue_entry() {
    let (mut store, file) = db_with_file("/a/report.pdf");
    enqueue(&mut store, file, 500).expect("enqueue");
    assert_eq!(pending(&store, 10), vec![file]);

    record_extraction(&mut store, file, &sample()).expect("record");
    assert!(pending(&store, 10).is_empty());
}

#[test]
fn re_extraction_overwrites_rather_than_duplicates() {
    let (mut store, file) = db_with_file("/a/report.pdf");
    record_extraction(&mut store, file, &sample()).expect("first");

    let mut second = sample();
    second.title = Some("Revised Report".into());
    second.extracted_at_unix = 2_000;
    record_extraction(&mut store, file, &second).expect("second");

    let got = get(&store, file).expect("present");
    assert_eq!(got.title.as_deref(), Some("Revised Report"));

    let rows: i64 = distinct_facets(&store, FacetColumn::DocType, 10).iter().map(|f| f.1).sum();
    assert_eq!(rows, 1, "re-extraction duplicated the row instead of overwriting it");
}

#[test]
fn pending_is_ordered_oldest_first() {
    let (mut store, a) = db_with_file("/a");
    let mut i = Interner::new();
    let b = ensure_dir_chain(&mut store, &mut i, "/b").expect("b");

    enqueue(&mut store, b, 200).expect("enqueue b");
    enqueue(&mut store, a, 100).expect("enqueue a");

    assert_eq!(pending(&store, 10), vec![a, b]);
    assert_eq!(pending(&store, 1), vec![a]);
    assert!(pending(&store, 0).is_empty());
}

#[test]
fn metadata_a_poison_file_stops_being_retried_past_max_attempts() {
    let (mut store, file) = db_with_file("/a/poison.pdf");
    enqueue(&mut store, file, 100).expect("enqueue");

    for _ in 0..MAX_ATTEMPTS {
        assert_eq!(pending(&store, 10), vec![file]);
        record_attempt(&mut store, file);
    }

    assert!(
        pending(&store, 10).is_empty(),
        "a file past MAX_ATTEMPTS was still offered for dispatch"
    );

    // Still present, just not offered.
    assert_eq!(queue_depth(&store), 1);
}

#[test]
fn queueing_again_does_not_reset_the_attempts() {
    let (mut store, file) = db_with_file("/a/poison.pdf");
    enqueue(&mut store, file, 100).expect("enqueue");
    for _ in 0..MAX_ATTEMPTS {
        record_attempt(&mut store, file);
    }
    enqueue(&mut store, file, 200).expect("again");
    assert!(pending(&store, 10).is_empty());
    assert_eq!(queue_depth(&store), 1);
}

#[test]
fn requeue_stale_picks_up_old_extractor_versions_and_unextracted_files() {
    let (mut store, old) = db_with_file("/a/old.pdf");
    let mut i = Interner::new();
    let fresh = leaf_file(&mut store, &mut i, "/a/fresh.pdf");
    let never = leaf_file(&mut store, &mut i, "/a/never.pdf");

    let mut old_meta = sample();
    old_meta.extractor_version = 1;
    record_extraction(&mut store, old, &old_meta).expect("record old");

    let mut fresh_meta = sample();
    fresh_meta.extractor_version = 2;
    record_extraction(&mut store, fresh, &fresh_meta).expect("record fresh");

    let touched = requeue_stale(&mut store, 2, 900);
    assert_eq!(touched, 2, "expected the stale file and the never-extracted file");

    let mut queued = pending(&store, 10);
    queued.sort_unstable();
    let mut expected = vec![old, never];
    expected.sort_unstable();
    assert_eq!(queued, expected);
}

#[test]
fn requeue_stale_resets_attempt_count() {
    let (mut store, file) = db_with_file("/a/flaky.pdf");
    let mut meta = sample();
    meta.extractor_version = 1;
    record_extraction(&mut store, file, &meta).expect("record");
    enqueue(&mut store, file, 100).expect("re-enqueue");
    for _ in 0..MAX_ATTEMPTS {
        record_attempt(&mut store, file);
    }
    assert!(pending(&store, 10).is_empty(), "should be capped out first");

    requeue_stale(&mut store, 2, 200);
    assert_eq!(
        pending(&store, 10),
        vec![file],
        "an extractor upgrade should reset the attempt cap"
    );
}

#[test]
fn metadata_distinct_facets_counts_and_orders_by_frequency() {
    let (mut store, a) = db_with_file("/a");
    let mut i = Interner::new();
    let b = ensure_dir_chain(&mut store, &mut i, "/b").expect("b");
    let c = ensure_dir_chain(&mut store, &mut i, "/c").expect("c");

    for (id, doc_type) in [(a, "pdf"), (b, "pdf"), (c, "docx")] {
        let mut m = sample();
        m.doc_type = Some(doc_type.into());
        record_extraction(&mut store, id, &m).expect("record");
    }

    let facets = distinct_facets(&store, FacetColumn::DocType, 10);
    assert_eq!(facets, vec![("pdf".to_string(), 2), ("docx".to_string(), 1)]);
}

#[test]
fn a_facet_query_is_bounded_and_leaves_out_what_is_unknown() {
    let (mut store, a) = db_with_file("/a");
    let mut i = Interner::new();
    let b = leaf_file(&mut store, &mut i, "/b");
    record_extraction(&mut store, a, &sample()).expect("a");
    record_extraction(&mut store, b, &FileMetadata::default()).expect("b");
    assert_eq!(distinct_facets(&store, FacetColumn::Author, 10), vec![("Ada".to_string(), 1)]);
    assert_eq!(distinct_facets(&store, FacetColumn::Language, 10), vec![("en".to_string(), 1)]);
    assert!(distinct_facets(&store, FacetColumn::GitBranch, 10).is_empty());
    assert!(distinct_facets(&store, FacetColumn::DocType, 0).is_empty());
    assert_eq!(FacetColumn::DocType.column(), "doc_type");
    assert_eq!(FacetColumn::GitBranch.column(), "git_branch");
}

#[test]
fn get_on_an_unextracted_file_returns_none() {
    let (store, file) = db_with_file("/a/unseen.pdf");
    assert!(get(&store, file).is_none());
}

#[test]
fn queue_depth_counts_every_row_including_past_max_attempts() {
    let (mut store, file) = db_with_file("/a/poison.pdf");
    assert_eq!(queue_depth(&store), 0);

    enqueue(&mut store, file, 100).expect("enqueue");
    assert_eq!(queue_depth(&store), 1);

    for _ in 0..MAX_ATTEMPTS {
        record_attempt(&mut store, file);
    }
    assert!(pending(&store, 10).is_empty(), "should be capped out");
    assert_eq!(
        queue_depth(&store),
        1,
        "a poisoned file must still count towards the depth, just not towards `pending`"
    );

    record_extraction(&mut store, file, &sample()).expect("record");
    assert_eq!(queue_depth(&store), 0);
}

#[test]
fn nothing_is_recorded_of_a_file_that_does_not_exist() {
    let (mut store, file) = db_with_file("/a");
    let missing = file + 1;
    assert_eq!(record_extraction(&mut store, missing, &sample()), Err(StoreError::MissingReference));
    assert_eq!(enqueue(&mut store, missing, 1), Err(StoreError::MissingReference));
    assert_eq!(
        enrichment::record_enrichment(&mut store, missing, &sample_enrichment()),
        Err(StoreError::MissingReference)
    );
    assert_eq!(enrichment::enqueue(&mut store, missing, 1), Err(StoreError::MissingReference));
    assert_eq!(embeddings::enqueue(&mut store, missing, 1), Err(StoreError::MissingReference));
    assert!(get(&store, missing).is_none());
    assert!(enrichment::get(&store, missing).is_none());
}

/// The embedding table refers to no other table: a vector can be kept before its
/// file is known, and a file that comes to have the id has it.
#[test]
fn an_embedding_needs_no_file() {
    let (mut store, file) = db_with_file("/a");
    let missing = file + 1;
    assert_eq!(
        embeddings::store(&mut store, missing, 3),
        Err(StoreError::WrongVectorWidth),
        "there is no table yet"
    );
    embeddings::ensure_table(&mut store, "m", 3).expect("table");
    assert_eq!(embeddings::store(&mut store, missing, 4), Err(StoreError::WrongVectorWidth));
    assert!(!store.is_embedded(missing));
    assert_eq!(embeddings::store(&mut store, missing, 3), Ok(()));
    assert!(store.is_embedded(missing));
    assert!(!store.is_embedded(file));
    assert_eq!(store.files_len(), 1);
}

#[test]
fn enrichment_record_then_get_round_trips() {
    let (mut store, file) = db_with_file("/a/report.pdf");
    enrichment::record_enrichment(&mut store, file, &sample_enrichment()).expect("record");

    let got = enrichment::get(&store, file).expect("present");
    assert_eq!(got, sample_enrichment());
}

#[test]
fn record_enrichment_clears_the_queue_entry() {
    let (mut store, file) = db_with_file("/a/report.pdf");
    enrichment::enqueue(&mut store, file, 500).expect("enqueue");
    assert_eq!(enrichment::pending(&store, 10), vec![file]);

    enrichment::record_enrichment(&mut store, file, &sample_enrichment()).expect("record");
    assert!(enrichment::pending(&store, 10).is_empty());
}

#[test]
fn re_enrichment_overwrites_rather_than_duplicates() {
    let (mut store, file) = db_with_file("/a/report.pdf");
    enrichment::record_enrichment(&mut store, file, &sample_enrichment()).expect("first");

    let mut second = sample_enrichment();
    second.summary = Some("Revised summary.".into());
    enrichment::record_enrichment(&mut store, file, &second).expect("second");

    let got = enrichment::get(&store, file).expect("present");
    assert_eq!(got.summary.as_deref(), Some("Revised summary."));

    let rows: i64 =
        enrichment::distinct_facets(&store, enrichment::FacetColumn::Classification, 10)
            .iter()
            .map(|f| f.1)
            .sum();
    assert_eq!(rows, 1, "re-enrichment duplicated the row instead of overwriting it");
}

#[test]
fn enrichment_a_poison_file_stops_being_retried_past_max_attempts() {
    let (mut store, file) = db_with_file("/a/poison.pdf");
    enrichment::enqueue(&mut store, file, 100).expect("enqueue");

    for _ in 0..enrichment::MAX_ATTEMPTS {
        assert_eq!(enrichment::pending(&store, 10), vec![file]);
        enrichment::record_attempt(&mut store, file);
    }

    assert!(
        enrichment::pending(&store, 10).is_empty(),
        "a file past MAX_ATTEMPTS was still offered for dispatch"
    );
}

#[test]
fn requeue_stale_picks_up_old_enrichment_versions_only() {
    let (mut store, old) = db_with_file("/a/old.pdf");
    let mut i = Interner::new();
    let never_id = ensure_dir_chain(&mut store, &mut i, "/a").expect("dir");
    let never_component = i.intern_leaf(&mut store, "never.pdf");
    let never =
        upsert_entry(&mut store, Some(never_id), never_component, false, Some(0), Some(0))
            .expect("never leaf");

    let mut old_enrich = sample_enrichment();
    old_enrich.enrichment_version = 1;
    enrichment::record_enrichment(&mut store, old, &old_enrich).expect("record old");

    let touched = enrichment::requeue_stale(&mut store, 2, 900);
    assert_eq!(touched, 1, "only the stale, already-enriched file should be touched");

    assert_eq!(
        enrichment::pending(&store, 10),
        vec![old],
        "requeue_stale must not enqueue a never-enriched file"
    );
    let _ = never; // never enriched: confirmed absent above, not queued
}

#[test]
fn enrichment_distinct_facets_counts_and_orders_by_frequency() {
    let (mut store, a) = db_with_file("/a");
    let mut i = Interner::new();
    let b_component = i.intern_leaf(&mut store, "b");
    let b = upsert_entry(&mut store, None, b_component, false, Some(0), Some(0)).expect("upsert b");
    let c_component = i.intern_leaf(&mut store, "c");
    let c = upsert_entry(&mut store, None, c_component, false, Some(0), Some(0)).expect("upsert c");

    for (id, classification) in [(a, "business"), (b, "business"), (c, "personal")] {
        let mut e = sample_enrichment();
        e.classification = Some(classification.into());
        enrichment::record_enrichment(&mut store, id, &e).expect("record");
    }

    let facets = enrichment::distinct_facets(&store, enrichment::FacetColumn::Classification, 10);
    assert_eq!(facets, vec![("business".to_string(), 2), ("personal".to_string(), 1)]);
}

#[test]
fn get_on_an_unenriched_file_returns_none() {
    let (store, file) = db_with_file("/a/unseen.pdf");
    assert!(enrichment::get(&store, file).is_none());
}

#[test]
fn ensure_table_is_idempotent_for_the_same_model() {
    let (mut store, _) = db_with_file("/a");
    embeddings::ensure_table(&mut store, "test-model", 3).expect("first");
    embeddings::ensure_table(&mut store, "test-model", 3).expect("second, same config");
}

#[test]
fn ensure_table_refuses_a_different_model_or_width() {
    let (mut store, _) = db_with_file("/a");
    embeddings::ensure_table(&mut store, "test-model", 3).expect("first");

    let err = embeddings::ensure_table(&mut store, "other-model", 3).unwrap_err();
    assert!(matches!(err, StoreError::EmbeddingDimensionMismatch(_)));

    let err = embeddings::ensure_table(&mut store, "test-model", 4).unwrap_err();
    assert!(matches!(err, StoreError::EmbeddingDimensionMismatch(_)));
}

#[test]
fn store_clears_the_queue_entry() {
    let (mut store, a) = db_with_file("/a");
    embeddings::ensure_table(&mut store, "test-model", 3).expect("ensure_table");
    embeddings::enqueue(&mut store, a, 500).expect("enqueue");
    assert_eq!(embeddings::pending(&store, 10), vec![a]);

    embeddings::store(&mut store, a, 3).expect("store");
    assert!(embeddings::pending(&store, 10).is_empty());
    assert!(store.is_embedded(a));
}

#[test]
fn storing_a_wrong_width_vector_is_an_error_not_a_silent_truncation() {
    let (mut store, a) = db_with_file("/a");
    embeddings::ensure_table(&mut store, "test-model", 3).expect("ensure_table");
    let err = embeddings::store(&mut store, a, 2).unwrap_err();
    assert!(matches!(err, StoreError::WrongVectorWidth));
    assert!(!store.is_embedded(a));
}

#[test]
fn embeddings_a_poison_file_stops_being_retried_past_max_attempts() {
    let (mut store, a) = db_with_file("/a");
    embeddings::enqueue(&mut store, a, 100).expect("enqueue");

    for _ in 0..embeddings::MAX_ATTEMPTS {
        assert_eq!(embeddings::pending(&store, 10), vec![a]);
        embeddings::record_attempt(&mut store, a);
    }

    assert!(
        embeddings::pending(&store, 10).is_empty(),
        "a file past MAX_ATTEMPTS was still offered for dispatch"
    );
}

#[test]
fn no_table_is_made_for_vectors_of_an_unusable_width() {
    let (mut store, _) = db_with_file("/a");
    for width in [0, MAX_DIMENSIONS + 1, usize::MAX] {
        assert_eq!(
            embeddings::ensure_table(&mut store, "test-model", width),
            Err(StoreError::UnusableVectorWidth)
        );
        assert!(embeddings::config(&store).is_none());
    }
    embeddings::ensure_table(&mut store, "test-model", 8192).expect("the widest");
    // Where there is a table, the width is held against it.
    assert!(matches!(
        embeddings::ensure_table(&mut store, "test-model", 0),
        Err(StoreError::EmbeddingDimensionMismatch(_))
    ));
}

#[test]
fn a_worker_goes_through_what_the_queue_offers() {
    let mut course = Drain::begin();
    assert_eq!(course.next(None, false), DrainStep::Poll);
    assert_eq!(course.next(Some(vec![]), false), DrainStep::Rest);
    assert_eq!(course.next(None, false), DrainStep::Poll);
    assert_eq!(course.next(Some(vec![4, 7]), false), DrainStep::Work(4));
    assert_eq!(course.next(None, false), DrainStep::Work(7));
    assert_eq!(course.next(None, false), DrainStep::Poll);
    assert_eq!(course.next(Some(vec![1, 2]), false), DrainStep::Work(1));
    assert_eq!(course.next(None, true), DrainStep::Stop);
    assert_eq!(Drain::begin().next(None, true), DrainStep::Stop);
    assert_eq!(Drain::begin().next(Some(vec![]), true), DrainStep::Rest);
    assert_eq!(Drain::begin().next(Some(vec![3]), true), DrainStep::Stop);
}

#[test]
fn config_is_none_before_ensure_table() {
    let (store, _) = db_with_file("/a");
    assert!(embeddings::config(&store).is_none());
}

#[test]
fn config_reports_what_ensure_table_recorded() {
    let (mut store, _) = db_with_file("/a");
    embeddings::ensure_table(&mut store, "test-model", 3).expect("ensure_table");
    assert_eq!(
        embeddings::config(&store),
        Some(EmbeddingConfig { model: "test-model".to_string(), dimensions: 3 })
    );
}

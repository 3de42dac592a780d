//! What callers can rely on: how what comes of a call relates to what was handed in, and to
//! what comes of other calls.
//!
//! `call_ensures(f, args, r)` says that `r` may come of calling `f` with `args`. Of a value
//! that is changed in place, `final` gives what it is after the call.
use vstd::prelude::*;

use vstd::utf8::encode_utf8;

use crate::api::{
    self, a_query_is_turned_away_for_a_reason, asked_for, four_words_name_a_kind, get_log_level,
    get_logs, healthz, is_longer_than, not_found, readyz, set_log_level, show_facets, Body,
    EventsQuery, Reply,
};
use crate::archive::{part_content, part_names, Content, Listing};
use crate::control::{
    change_body, head_ends_at, judge, memory_is_counted_in_pages, only_a_success_is_taken,
    read_exit_code, read_response, reconcile, request_text, resident_bytes, self_update_script_args,
    small, status_of, the_body_follows_the_first_empty_line, understand, what_is_asked_for_is_done,
    Finding, OnRunning, PidFile, Reconcile, Updated,
};
use crate::embeddings::{self, EmbeddingConfig};
use crate::enrich::{
    authorization, chat_url, check_width, embeddings_url, slashes_at_the_end_do_not_matter,
    take_reply, take_vector, the_object_reaches_from_the_first_brace_to_the_last, EnrichError,
    Enrichment, Exchange,
};
use crate::enrich_worker::{
    enrichment_recorded, finish_embedding, finish_enrichment, is_stored_form, json_list,
    requests_are_counted_and_their_results_recorded, stored_list,
};
use crate::enrichment::{self, FileEnrichment};
use crate::events::{
    a_page_holds_what_was_asked_for, answer_keys, append, entry_keys, is_asked_for, is_entry,
    is_reading, is_that, kind_text, latest_for_file_ids, now_unix_ms, page_size, reading_to_unix_ms,
    stored_forms_are_distinct, EventKind, NewEvent, TimelineEntry, TimelineQuery,
};
use crate::extract::{
    a_file_says_what_its_content_and_its_repository_say, extract_content, finish_extraction,
    is_metadata_of, merge_git_facts, needs_bytes, nothing_found, only_documents_and_images_are_read,
    to_file_metadata, what_is_stored_is_what_was_found, ExtractError, Extraction, GitFacts,
};
use crate::extract_worker::{
    an_attempt_counts_before_the_work, an_extraction_is_recorded_and_passed_on, begin_extraction,
    extraction_recorded, finish_extraction_of, has_enough_text_to_enrich,
};
use crate::facets::facets_are_the_most_common_values;
use crate::filename::{
    extension, extension_of, guess, office_by_extension,
    the_letter_case_of_an_extension_does_not_matter,
};
use crate::frames::{a_framed_message_is_read_back, frame, frame_length, unframe};
use crate::fspath::{
    a_text_is_cut_at_every_separator, are_names, components_of, is_under, joined, path_key,
    split_at, texts,
};
use crate::history::{
    a_file_that_is_found_is_known_at_its_path, a_file_that_is_gone_is_marked_so, is_owned,
    what_is_reported_is_recorded_at_its_path, what_moves_is_known_at_its_new_path,
};
use crate::image::{
    a_camera_is_named_by_make_and_model, camera, civil_to_unix, extract_image, field_text,
    field_time, image_attributes, image_field, join_make_model, seconds_are_counted_from_1970,
    Attributes, ImageTag,
};
use crate::load::load;
use crate::log_history::{last_of, pushed, pushed_all, LogHistory, LogHistoryWriter};
use crate::logging::{
    a_filter_is_refused_for_its_length_or_its_form, filter_failure, filter_source, has_shifted,
    LogLevelHandle,
};
use crate::lookup::{live_at, parents_exist};
use crate::metadata::{self, FileMetadata};
use crate::migrations::{
    current_version, pending_migrations, supported_version, the_highest_recorded_version_counts,
    the_steps_behind_a_version_are_missing, Migration,
};
use crate::office::{
    extract_docx, extract_pptx, extract_xlsx, ordered_parts, paragraph_text, part_events,
    parts_text, property_in, table_of,
};
use crate::office_text::{
    a_document_says_what_its_text_and_properties_say, a_text_document_is_read_from_its_main_part,
    sheets_and_slides_are_pages,
};
use crate::paths::{dir_chain, path_of, resolve_path, Interner, MAX_DEPTH};
use crate::pdf::{
    a_reply_says_what_the_document_says, error_reply, pages_text, reply_for, words_on, PdfReply,
};
use crate::queue::{
    a_poison_file_is_never_offered, a_waiting_file_is_offered, is_offered,
    the_depth_counts_every_file_that_stands_in_it, the_longest_waiting_come_first, Drain, DrainStep,
};
use crate::ranked::{how_many, is_first_of, lemma_how_many_alike};
use crate::record::{
    carry_out, excluded, hangs_below, move_recorded, owning_root, path_recorded, plan_change,
    queued, record_path, record_removal, Look, Plan,
};
use crate::rescan::{is_tree, leads_to, rescanning_an_unchanged_tree_records_nothing};
use crate::scan::{
    a_summary_counts_what_was_seen, is_left_out, is_skipped, kept, scan, walk_room, was_not_read,
    was_seen, Scan, ScanError, ScanOptions, ScanSummary, Stat, Step, Walked,
};
use crate::search::{
    candidate_limit, entry_matches_filters, every_entry_that_passes_is_selected,
    every_hit_is_what_was_asked_for, has_happened, increasing, is_wanted, search_among, select,
    the_last_that_happened_is_given, Found, SearchFilters,
};
use crate::sniff::{classify, the_content_decides_before_the_name, DocType};
use crate::store::{FileId, Store, StoreError, Tables, Write};
use crate::text::{
    a_number_written_is_read_back, a_text_begins_with_what_stands_in_front, begins, count_words,
    decimal, ends, is_blank, is_white, is_word, lowercase, parse_number, push_number, text_view,
    trim_text, trimmed, white_space_around_is_taken_away, words_are_told_apart_by_white_space,
    words_upto,
};
use crate::timeline::{
    self, a_kind_is_asked_for_by_its_stored_form, an_item_shows_every_field, given,
    live_files_are_counted, show_all, shows, stats, timeline_page, timeline_query, to_dtos,
    TimelineItem, TimelineStats, TimelineStore,
};
use crate::watch::{
    a_plain_report_is_a_change_of_each_path, a_report_of_both_ends_is_a_rename, about, is_fresh,
    is_plain, lost_reports_are_told_first, no_half_expires_on, two_halves_make_a_rename, Change,
    ChangeView, RawEvent, RawKind, RenameMode, Watch,
};
use crate::watch_control::{
    a_change_leaves_no_gap, a_failed_replacement_keeps_every_root, first_false, gives_up, is_among,
    outcome, replacing_keeps_what_was_asked_for, Answer, Changed, DaemonWatchControl, RootChange,
    RootOutcome, WatchChangeRequest, WatchCommand, WatchControl, WatchMode,
};

verus! {

// Watching.

/// Whether one of the changes is this one.
pub open spec fn tells(out: Seq<Change>, change: ChangeView) -> bool {
    exists|i: int| 0 <= i < out.len() && (#[trigger] out[i])@ == change
}

/// Whether nothing else is told of a path.
pub open spec fn tells_only(out: Seq<Change>, path: Seq<char>, change: ChangeView) -> bool {
    forall|i: int|
        0 <= i < out.len() && about((#[trigger] out[i])@) == Some(path_key(path)) ==> out[i]@
            == change
}

proof fn lemma_told(out: Vec<Change>, views: Seq<ChangeView>, change: ChangeView, path: Seq<char>)
    requires
        out@.map_values(|c: Change| c@) == views,
        views.contains(change),
        forall|i: int|
            0 <= i < views.len() && about(#[trigger] views[i]) == Some(path_key(path)) ==> views[i]
                == change,
    ensures
        tells(out@, change),
        tells_only(out@, path, change),
{
    let k = choose|k: int| 0 <= k < views.len() && views[k] == change;
    assert(out@[k]@ == views[k]);
    assert forall|i: int|
        0 <= i < out@.len() && about((#[trigger] out@[i])@) == Some(path_key(path)) implies out@[i]@
        == change by {
        assert(views[i] == out@[i]@);
    }
}

/// A report with both ends of a rename, taken in, comes out as that rename once half a
/// second has passed: from the first path of the report to the second.
pub proof fn a_reported_rename_comes_out(
    watch: &mut Watch,
    report: RawEvent,
    seen: u64,
    later: &mut Watch,
    now: u64,
    out: Vec<Change>,
)
    requires
        watch@.wf(),
        report.kind == RawKind::Rename(RenameMode::Both),
        report.paths.len() >= 2,
        now - seen >= 500,
        no_half_expires_on(watch@, report.paths[1]@, now),
        call_ensures(Watch::absorb, (watch, &report, seen), ()),
        *later == *final(watch),
        call_ensures(Watch::take_expired, (later, now), out),
    ensures
        ({
            let moved = ChangeView::Renamed { from: report.paths[0]@, to: report.paths[1]@ };
            tells(out@, moved) && tells_only(out@, report.paths[1]@, moved)
        }),
{
    a_report_of_both_ends_is_a_rename(watch@, report, seen, now);
    lemma_told(
        out,
        crate::watch::given_out(later@, now),
        ChangeView::Renamed { from: report.paths[0]@, to: report.paths[1]@ },
        report.paths[1]@,
    );
}

/// Two reports with one end each, taken in one after the other, come out as the rename
/// from the source to the target where they have the same id.
pub proof fn two_reported_ends_come_out_as_a_rename(
    watch: &mut Watch,
    source: RawEvent,
    target: RawEvent,
    first: u64,
    between: &mut Watch,
    second: u64,
    later: &mut Watch,
    now: u64,
    out: Vec<Change>,
)
    requires
        watch@.wf(),
        source.kind == RawKind::Rename(RenameMode::From),
        target.kind == RawKind::Rename(RenameMode::To),
        source.paths.len() >= 1,
        target.paths.len() >= 1,
        source.tracker is Some,
        target.tracker == source.tracker,
        is_fresh(watch@, source.tracker->0),
        now - second >= 500,
        no_half_expires_on(watch@, target.paths[0]@, now),
        call_ensures(Watch::absorb, (watch, &source, first), ()),
        *between == *final(watch),
        call_ensures(Watch::absorb, (between, &target, second), ()),
        *later == *final(between),
        call_ensures(Watch::take_expired, (later, now), out),
    ensures
        ({
            let moved = ChangeView::Renamed { from: source.paths[0]@, to: target.paths[0]@ };
            tells(out@, moved) && tells_only(out@, target.paths[0]@, moved)
        }),
{
    two_halves_make_a_rename(watch@, source, target, first, second, now);
    lemma_told(
        out,
        crate::watch::given_out(later@, now),
        ChangeView::Renamed { from: source.paths[0]@, to: target.paths[0]@ },
        target.paths[0]@,
    );
}

/// A report of any other change, taken in, comes out as a removal of each of its paths
/// where it reports one, and else as a change of each.
pub proof fn a_reported_change_comes_out(
    watch: &mut Watch,
    report: RawEvent,
    i: int,
    seen: u64,
    later: &mut Watch,
    now: u64,
    out: Vec<Change>,
)
    requires
        watch@.wf(),
        is_plain(report),
        0 <= i < report.paths.len(),
        forall|j: int|
            i < j < report.paths.len() ==> path_key((#[trigger] report.paths[j])@) != path_key(
                report.paths[i]@,
            ),
        now - seen >= 500,
        no_half_expires_on(watch@, report.paths[i]@, now),
        call_ensures(Watch::absorb, (watch, &report, seen), ()),
        *later == *final(watch),
        call_ensures(Watch::take_expired, (later, now), out),
    ensures
        ({
            let change = if report.kind == RawKind::Remove {
                ChangeView::Removed(report.paths[i]@)
            } else {
                ChangeView::Touched(report.paths[i]@)
            };
            tells(out@, change) && tells_only(out@, report.paths[i]@, change)
        }),
{
    a_plain_report_is_a_change_of_each_path(watch@, report, i, seen, now);
    let change = if report.kind == RawKind::Remove {
        ChangeView::Removed(report.paths[i]@)
    } else {
        ChangeView::Touched(report.paths[i]@)
    };
    lemma_told(out, crate::watch::given_out(later@, now), change, report.paths[i]@);
}

/// That reports were lost comes out before anything else, whenever it is asked for.
pub proof fn lost_reports_come_out_first(
    watch: &mut Watch,
    report: RawEvent,
    seen: u64,
    later: &mut Watch,
    now: u64,
    out: Vec<Change>,
)
    requires
        watch@.wf(),
        report.kind == RawKind::Other,
        report.need_rescan,
        call_ensures(Watch::absorb, (watch, &report, seen), ()),
        *later == *final(watch),
        call_ensures(Watch::take_expired, (later, now), out),
    ensures
        out@.len() > 0,
        out@[0]@ is Overflowed,
{
    lost_reports_are_told_first(watch@, report, seen, now);
    let views = out@.map_values(|c: Change| c@);
    assert(views.len() == out@.len());
    assert(views[0] == out@[0]@);
}

// The clock.

/// What is given for the time now is the reading of the clock to the millisecond, and zero
/// where the clock stands before 1970; so it is in an event that happens now.
pub proof fn the_time_is_what_the_clock_reads(
    at: i64,
    file_id: FileId,
    kind: EventKind,
    event: NewEvent,
)
    requires
        call_ensures(now_unix_ms, (), at),
        call_ensures(NewEvent::now, (file_id, kind), event),
    ensures
        exists|reading: Option<u128>| #[trigger]
            is_reading(reading) && (reading is None ==> at == 0) && (reading is Some && reading->0
                <= i64::MAX ==> at == reading->0),
        exists|reading: Option<u128>| #[trigger]
            is_reading(reading) && (reading is None ==> event.at_unix_ms == 0) && (reading is Some
                && reading->0 <= i64::MAX ==> event.at_unix_ms == reading->0),
        event.file_id == file_id,
        event.kind == kind,
{
}

// Recording.

/// A file that is found at a path is known there, with the size and the time it was found
/// with, and its path is that path.
pub proof fn a_file_that_is_found_has_its_path(
    store: &mut Store,
    interner: &mut Interner,
    roots: &[String],
    path: &str,
    stat: Stat,
    at: i64,
    r: Result<Option<FileId>, ScanError>,
    later: Store,
    top: Seq<Seq<char>>,
    names: Seq<Seq<char>>,
)
    requires
        store.wf(),
        parents_exist(store@),
        store@.room_for(names.len() + 1),
        path@ == joined(names),
        is_owned(roots@, top, names),
        names.len() <= MAX_DEPTH,
        !stat.is_dir,
        call_ensures(record_path, (store, interner, roots, path, Look::Found(stat), at), r),
        later == *final(store),
    ensures
        r is Ok,
        live_at(later@, names) matches Some(id) && {
            &&& forall|shown: String| #[trigger]
                call_ensures(resolve_path, (&later, id), shown) ==> shown@ == path@
            &&& later@.file(id).size_bytes == Some(stat.len as i64)
            &&& later@.file(id).mtime_unix == stat.mtime_unix
            &&& live_at(old(store)@, names) is None ==> r->Ok_0 == Some(id)
        },
{
    a_file_that_is_found_is_known_at_its_path(store@, roots@, top, names, stat, at);
}

/// A file that is gone is known at its path no longer, and every event that was recorded
/// of it stays.
pub proof fn a_file_that_is_gone_is_known_no_longer(
    store: &mut Store,
    interner: &mut Interner,
    roots: &[String],
    path: &str,
    at: i64,
    r: Result<(), ScanError>,
    later: Store,
    top: Seq<Seq<char>>,
    names: Seq<Seq<char>>,
)
    requires
        store.wf(),
        path@ == joined(names),
        is_owned(roots@, top, names),
        live_at(store@, names) is Some,
        call_ensures(record_removal, (store, interner, roots, path, at), r),
        later == *final(store),
    ensures
        r is Ok,
        later@.file(live_at(old(store)@, names)->0).deleted_at == Some(at),
        old(store)@.events.is_prefix_of(later@.events),
        later@.events.len() == old(store)@.events.len() + 1,
        later@.events.last().kind == EventKind::Deleted,
        later@.events.last().file_id == live_at(old(store)@, names)->0,
        later@.events.last().at_unix_ms == at,
{
    a_file_that_is_gone_is_marked_so(store@, roots@, top, names, at);
    crate::lookup::lemma_followed(store@, names);
}

/// What moves, a file or a directory with all that is below it, has its new path, and a
/// file waits to be extracted again.
pub proof fn what_moves_has_its_new_path(
    store: &mut Store,
    interner: &mut Interner,
    roots: &[String],
    plan: Plan,
    stat: Stat,
    at: i64,
    at_unix: i64,
    r: Result<(), ScanError>,
    later: Store,
    from_top: Seq<Seq<char>>,
    from: Seq<Seq<char>>,
    to_top: Seq<Seq<char>>,
    to: Seq<Seq<char>>,
    id: FileId,
    below: Seq<Seq<char>>,
    x: FileId,
    shown: String,
)
    requires
        store.wf(),
        store@.room_for(to.len() + 1),
        is_owned(roots@, from_top, from),
        is_owned(roots@, to_top, to),
        leads_to(store@, from, id),
        !from.is_prefix_of(to.drop_last()),
        hangs_below(store@, id, below, x),
        from.len() + below.len() <= MAX_DEPTH,
        to.len() + below.len() <= MAX_DEPTH,
        plan matches Plan::Move { from: f, to: t } && f@ == joined(from) && t@ == joined(to),
        call_ensures(
            carry_out,
            (store, interner, roots, &plan, Look::Found(stat), at, at_unix),
            r,
        ),
        later == *final(store),
        call_ensures(resolve_path, (&later, x), shown),
    ensures
        r is Ok,
        shown@ == joined(to + below),
        !old(store)@.file(id).is_dir ==> later@.extraction_queue[id - 1] is Some
            && later@.extraction_queue[id - 1]->0.queued_at_unix == at_unix,
        !old(store)@.file(id).is_dir ==> later@.events.last().kind == EventKind::Renamed
            && later@.events.last().file_id == id,
{
    what_moves_is_known_at_its_new_path(
        store@,
        roots@,
        from_top,
        from,
        to_top,
        to,
        id,
        stat,
        at,
        below,
        x,
    );
    let recorded = crate::record::move_recorded(
        store@,
        roots@,
        joined(from),
        joined(to),
        Look::Found(stat),
        at,
    )->0;
    crate::history::lemma_same_path(recorded.tables, later@, x);
    if !store@.file(id).is_dir {
        let places = recorded.tables.extraction_queue;
        let entry = crate::queue::enqueued(places[id - 1], at_unix);
        assert(later@.extraction_queue == places.update(id - 1, Some(entry)));
    }
}

/// A second scan of a tree that has not changed records no event, and sees what the first
/// one saw.
pub proof fn a_second_scan_records_nothing(
    store: &mut Store,
    interner: &mut Interner,
    root: &str,
    items: &[Walked],
    options: &ScanOptions,
    first: i64,
    one: Result<ScanSummary, ScanError>,
    again: &mut Store,
    other: &mut Interner,
    second: i64,
    two: Result<ScanSummary, ScanError>,
)
    requires
        store.wf(),
        store@.room_for(
            2 * (components_of(root@).len() + walk_room(kept(root@, items@, *options))),
        ),
        is_tree(root@, kept(root@, items@, *options)),
        components_of(root@).len() > 0,
        call_ensures(scan, (store, interner, root, true, items, options, first), one),
        *again == *final(store),
        call_ensures(scan, (again, other, root, true, items, options, second), two),
    ensures
        one is Ok && two is Ok,
        two->Ok_0.events_recorded == 0,
        two->Ok_0.files_seen == one->Ok_0.files_seen,
        two->Ok_0.dirs_seen == one->Ok_0.dirs_seen,
        two->Ok_0.skipped == one->Ok_0.skipped,
        final(again)@.events == old(again)@.events,
{
    rescanning_an_unchanged_tree_records_nothing(
        store@,
        root@,
        kept(root@, items@, *options),
        *options,
        first,
        second,
    );
}

/// The summary of a scan counts the entries that were walked: files, directories and those
/// that could not be read, without the ones that are left out.
pub proof fn a_scan_counts_what_was_walked(
    store: &mut Store,
    interner: &mut Interner,
    root: &str,
    items: &[Walked],
    options: &ScanOptions,
    at: i64,
    r: Result<ScanSummary, ScanError>,
)
    requires
        options.max_entries is None,
        kept(root@, items@, *options).len() < u64::MAX,
        call_ensures(scan, (store, interner, root, true, items, options, at), r),
        r is Ok,
    ensures
        ({
            let walked = kept(root@, items@, *options);
            &&& r->Ok_0.files_seen == how_many(walked.len(), |k: int| was_seen(walked[k], false))
            &&& r->Ok_0.dirs_seen == how_many(walked.len(), |k: int| was_seen(walked[k], true))
            &&& r->Ok_0.skipped == how_many(walked.len(), |k: int| was_not_read(walked[k]))
        }),
{
    let (start, root_id) = dir_chain(store@, None, components_of(root@));
    a_summary_counts_what_was_seen(
        start,
        root@,
        root_id->0,
        kept(root@, items@, *options),
        *options,
        at,
    );
}

// Looking.

/// Every hit of a search is one of the files that it was given, and has in each field that
/// a filter is set for that very text; there are no more of them than were asked for.
pub proof fn every_hit_has_what_was_asked_for(
    store: &Store,
    nearest: &[FileId],
    filters: &SearchFilters,
    limit: u32,
    found: Vec<Found>,
    i: int,
)
    requires
        store@.wf(),
        call_ensures(search_among, (store, nearest, filters, limit), found),
        0 <= i < found@.len(),
    ensures
        found@.len() <= limit,
        nearest@.contains(found@[i].file_id),
        store@.has_event(found@[i].item.id),
        store@.events[found@[i].item.id - 1].file_id == found@[i].file_id,
        is_that(filters.doc_type, found@[i].item.doc_type),
        is_that(filters.author, found@[i].item.author),
        is_that(filters.language, found@[i].item.language),
        is_that(filters.git_branch, found@[i].item.git_branch),
        is_that(filters.classification, found@[i].item.classification),
        is_wanted(store@, *filters, found@[i].file_id),
{
    every_hit_is_what_was_asked_for(found@, store@, nearest@, *filters, limit as nat);
    let at = choose|at: Seq<int>| #[trigger]
        increasing(at) && at.len() == found@.len() && (forall|i: int|
            0 <= i < found@.len() ==> 0 <= #[trigger] at[i] < nearest@.len() && nearest@[at[i]]
                == found@[i].file_id);
    assert(nearest@[at[i]] == found@[i].file_id);
}

/// An entry passes the filters exactly where it has in each field that one is set for that
/// very text.
pub proof fn an_entry_passes_where_it_has_what_is_asked_for(
    entry: &TimelineEntry,
    filters: &SearchFilters,
    r: bool,
)
    requires
        call_ensures(entry_matches_filters, (entry, filters), r),
    ensures
        r <==> is_that(filters.doc_type, entry.doc_type) && is_that(filters.author, entry.author)
            && is_that(filters.language, entry.language) && is_that(
            filters.git_branch,
            entry.git_branch,
        ) && is_that(filters.classification, entry.classification),
{
}

/// A filtered search looks at five times as many files as it gives, at most at five
/// hundred; one without filters looks at no more than it gives.
pub proof fn a_filtered_search_looks_at_more(limit: u32, filters: &SearchFilters, r: u32)
    requires
        call_ensures(candidate_limit, (limit, filters), r),
    ensures
        ({
            let filtered = filters.doc_type is Some || filters.author is Some || filters.language
                is Some || filters.git_branch is Some || filters.classification is Some;
            &&& !filtered ==> r == limit
            &&& filtered && limit < 100 ==> r == 5 * limit
            &&& filtered && limit >= 100 ==> r == 500
        }),
{
}

/// A page of the timeline holds what was asked for, each item with the path of its file.
pub proof fn every_item_of_a_page_was_asked_for(
    store: &Store,
    query: &TimelineQuery,
    items: Vec<TimelineItem>,
    i: int,
)
    requires
        store@.wf(),
        call_ensures(timeline_page, (store, query), items),
        0 <= i < items@.len(),
    ensures
        is_asked_for(store@, *query, items@[i].id),
        items@[i].path@ == path_of(store@, store@.events[items@[i].id - 1].file_id),
        items@[i].at_unix_ms == store@.events[items@[i].id - 1].at_unix_ms,
        items@[i].size_bytes == store@.events[items@[i].id - 1].size_bytes,
        items@[i].kind@ == kind_text(store@.events[items@[i].id - 1].kind),
        items@[i].is_dir == store@.file(store@.events[items@[i].id - 1].file_id).is_dir,
        i > 0 ==> items@[i - 1].at_unix_ms >= items@[i].at_unix_ms && items@[i - 1].id
            != items@[i].id,
{
    let entries = choose|entries: Seq<TimelineEntry>| #[trigger]
        show_all(items@, entries) && is_first_of(
            entry_keys(entries),
            answer_keys(store@, *query, store@.events.len()),
            page_size(query.limit) as nat,
        ) && (forall|i: int| 0 <= i < entries.len() ==> is_entry(store@, #[trigger] entries[i]));
    let keys = entry_keys(entries);
    a_page_holds_what_was_asked_for(store@, *query, keys);
    assert(shows(items@[i], entries[i]));
    assert(keys[i].id == entries[i].id);
    assert(is_entry(store@, entries[i]));
    if i > 0 {
        let before = i - 1;
        assert(shows(items@[before], entries[before]));
        assert(keys[before].at_unix_ms == entries[before].at_unix_ms);
    }
}

/// The counts are those of the events, of the live files, and of the files that wait to be
/// extracted.
pub proof fn the_counts_are_those_of_the_store(store: &Store, r: TimelineStats)
    requires
        call_ensures(stats, (store,), r),
    ensures
        r.events == store@.events.len(),
        r.files == how_many(
            store@.files.len(),
            |k: int| store@.files[k].deleted_at is None && !store@.files[k].is_dir,
        ),
        r.pending_extractions == how_many(
            store@.extraction_queue.len(),
            |k: int| store@.extraction_queue[k] is Some,
        ),
{
    live_files_are_counted(store@, store@.files.len());
    the_depth_counts_every_file_that_stands_in_it(
        store@.extraction_queue,
        store@.extraction_queue.len(),
    );
}

// Queues.

/// A file that is queued for extraction is offered where the limit reaches it, until it
/// was picked up five times. Only a file that is known is queued.
pub proof fn a_file_queued_for_extraction_is_offered(
    store: &mut Store,
    id: FileId,
    at: i64,
    r: Result<(), StoreError>,
    later: Store,
    limit: u32,
    ids: Vec<FileId>,
)
    requires
        store.wf(),
        call_ensures(metadata::enqueue, (store, id, at), r),
        later == *final(store),
        call_ensures(metadata::pending, (&later, limit), ids),
        ids@.len() < limit,
        later@.wf(),
    ensures
        r is Ok <==> old(store)@.has_file(id),
        r is Ok && old(store)@.extraction_queue[id - 1] is None ==> ids@.contains(id),
        r is Ok && old(store)@.extraction_queue[id - 1] is Some ==> (ids@.contains(id) <==> old(
            store,
        )@.extraction_queue[id - 1]->0.attempt_count < 5),
        r is Ok ==> later@.extraction_queue[id - 1]->0.queued_at_unix == at,
        r is Err ==> later@ == old(store)@,
{
    let places = later@.extraction_queue;
    if r is Ok {
        if is_offered(places, id - 1) {
            a_waiting_file_is_offered(places, ids@, limit as nat, id);
        } else {
            a_poison_file_is_never_offered(places, ids@, limit as nat, id);
        }
    }
}

/// An attempt at extraction counts once, and only for that file.
pub proof fn an_attempt_at_extraction_counts_once(
    store: &mut Store,
    id: FileId,
    later: Store,
    other: FileId,
)
    requires
        store.wf(),
        call_ensures(metadata::record_attempt, (store, id), ()),
        later == *final(store),
        store@.has_file(id),
        store@.has_file(other),
        other != id,
    ensures
        old(store)@.extraction_queue[id - 1] is Some && old(
            store,
        )@.extraction_queue[id - 1]->0.attempt_count < 5 ==> later@.extraction_queue[id - 1] is Some
            && later@.extraction_queue[id - 1]->0.attempt_count == old(
            store,
        )@.extraction_queue[id - 1]->0.attempt_count + 1,
        old(store)@.extraction_queue[id - 1] is None ==> later@.extraction_queue[id - 1] is None,
        later@.extraction_queue[other - 1] == old(store)@.extraction_queue[other - 1],
{
}

/// A file that is queued for enrichment is offered where the limit reaches it, until it
/// was picked up five times. Only a file that is known is queued.
pub proof fn a_file_queued_for_enrichment_is_offered(
    store: &mut Store,
    id: FileId,
    at: i64,
    r: Result<(), StoreError>,
    later: Store,
    limit: u32,
    ids: Vec<FileId>,
)
    requires
        store.wf(),
        call_ensures(enrichment::enqueue, (store, id, at), r),
        later == *final(store),
        call_ensures(enrichment::pending, (&later, limit), ids),
        ids@.len() < limit,
        later@.wf(),
    ensures
        r is Ok <==> old(store)@.has_file(id),
        r is Ok && old(store)@.enrichment_queue[id - 1] is None ==> ids@.contains(id),
        r is Ok && old(store)@.enrichment_queue[id - 1] is Some ==> (ids@.contains(id) <==> old(
            store,
        )@.enrichment_queue[id - 1]->0.attempt_count < 5),
        r is Ok ==> later@.enrichment_queue[id - 1]->0.queued_at_unix == at,
        r is Err ==> later@ == old(store)@,
{
    let places = later@.enrichment_queue;
    if r is Ok {
        if is_offered(places, id - 1) {
            a_waiting_file_is_offered(places, ids@, limit as nat, id);
        } else {
            a_poison_file_is_never_offered(places, ids@, limit as nat, id);
        }
    }
}

/// An attempt at enrichment counts once, and only for that file.
pub proof fn an_attempt_at_enrichment_counts_once(
    store: &mut Store,
    id: FileId,
    later: Store,
    other: FileId,
)
    requires
        store.wf(),
        call_ensures(enrichment::record_attempt, (store, id), ()),
        later == *final(store),
        store@.has_file(id),
        store@.has_file(other),
        other != id,
    ensures
        old(store)@.enrichment_queue[id - 1] is Some && old(
            store,
        )@.enrichment_queue[id - 1]->0.attempt_count < 5 ==> later@.enrichment_queue[id - 1] is Some
            && later@.enrichment_queue[id - 1]->0.attempt_count == old(
            store,
        )@.enrichment_queue[id - 1]->0.attempt_count + 1,
        old(store)@.enrichment_queue[id - 1] is None ==> later@.enrichment_queue[id - 1] is None,
        later@.enrichment_queue[other - 1] == old(store)@.enrichment_queue[other - 1],
{
}

/// A file that is queued for embedding is offered where the limit reaches it, until it
/// was picked up five times. Only a file that is known is queued.
pub proof fn a_file_queued_for_embedding_is_offered(
    store: &mut Store,
    id: FileId,
    at: i64,
    r: Result<(), StoreError>,
    later: Store,
    limit: u32,
    ids: Vec<FileId>,
)
    requires
        store.wf(),
        call_ensures(embeddings::enqueue, (store, id, at), r),
        later == *final(store),
        call_ensures(embeddings::pending, (&later, limit), ids),
        ids@.len() < limit,
        later@.wf(),
    ensures
        r is Ok <==> old(store)@.has_file(id),
        r is Ok && old(store)@.embedding_queue[id - 1] is None ==> ids@.contains(id),
        r is Ok && old(store)@.embedding_queue[id - 1] is Some ==> (ids@.contains(id) <==> old(
            store,
        )@.embedding_queue[id - 1]->0.attempt_count < 5),
        r is Ok ==> later@.embedding_queue[id - 1]->0.queued_at_unix == at,
        r is Err ==> later@ == old(store)@,
{
    let places = later@.embedding_queue;
    if r is Ok {
        if is_offered(places, id - 1) {
            a_waiting_file_is_offered(places, ids@, limit as nat, id);
        } else {
            a_poison_file_is_never_offered(places, ids@, limit as nat, id);
        }
    }
}

/// An attempt at embedding counts once, and only for that file.
pub proof fn an_attempt_at_embedding_counts_once(
    store: &mut Store,
    id: FileId,
    later: Store,
    other: FileId,
)
    requires
        store.wf(),
        call_ensures(embeddings::record_attempt, (store, id), ()),
        later == *final(store),
        store@.has_file(id),
        store@.has_file(other),
        other != id,
    ensures
        old(store)@.embedding_queue[id - 1] is Some && old(
            store,
        )@.embedding_queue[id - 1]->0.attempt_count < 5 ==> later@.embedding_queue[id - 1] is Some
            && later@.embedding_queue[id - 1]->0.attempt_count == old(
            store,
        )@.embedding_queue[id - 1]->0.attempt_count + 1,
        old(store)@.embedding_queue[id - 1] is None ==> later@.embedding_queue[id - 1] is None,
        later@.embedding_queue[other - 1] == old(store)@.embedding_queue[other - 1],
{
}

/// Those that have waited longest are offered first, and no more than were asked for.
pub proof fn the_longest_waiting_are_offered_first(
    store: &Store,
    limit: u32,
    ids: Vec<FileId>,
    i: int,
    j: int,
)
    requires
        store@.wf(),
        call_ensures(metadata::pending, (store, limit), ids),
        0 <= i < j < ids@.len(),
    ensures
        ids@.len() <= limit,
        ids@[i] != ids@[j],
        store@.extraction_queue[ids@[i] - 1]->0.queued_at_unix
            <= store@.extraction_queue[ids@[j] - 1]->0.queued_at_unix,
{
    the_longest_waiting_come_first(store@.extraction_queue, ids@, limit as nat);
}

/// What a model said of a file is given back, of that file, and the file no longer waits for
/// it.
pub proof fn what_a_model_said_is_given_back(
    store: &mut Store,
    id: FileId,
    said: FileEnrichment,
    outcome: Result<(), StoreError>,
    later: Store,
    got: Option<FileEnrichment>,
)
    requires
        store.wf(),
        store@.has_file(id),
        call_ensures(enrichment::record_enrichment, (store, id, &said), outcome),
        later == *final(store),
        call_ensures(enrichment::get, (&later, id), got),
    ensures
        outcome is Ok,
        got == Some(said),
        later@.enrichment_queue[id - 1] is None,
        later@.metadata == old(store)@.metadata,
{
}

/// An embedding is taken only where it is as wide as the table was made for, and a table is
/// made only once, for one model.
pub proof fn an_embedding_fits_its_table(
    store: &mut Store,
    model: &str,
    width: usize,
    made: Result<(), StoreError>,
    later: &mut Store,
    id: FileId,
    found: usize,
    kept: Result<(), StoreError>,
    end: &mut Store,
    other: &str,
    wide: usize,
    again: Result<(), StoreError>,
)
    requires
        store.wf(),
        store@.embedding_config is None,
        call_ensures(embeddings::ensure_table, (store, model, width), made),
        *later == *final(store),
        call_ensures(embeddings::store, (later, id, found), kept),
        *end == *final(later),
        call_ensures(embeddings::ensure_table, (end, other, wide), again),
    ensures
        made is Ok <==> 1 <= width <= 8192,
        made is Ok ==> (kept is Ok <==> found == width),
        made is Ok ==> (again is Ok <==> other@ == model@ && wide == width),
        made is Err ==> kept is Err,
        kept is Ok ==> final(later)@.embedded.contains(id),
{
}

// Extraction.

/// What is found in a file is what is stored of it once it was extracted, and the file does
/// not wait any longer. One that failed, or took too long, is left as it was.
pub proof fn what_is_found_is_stored(
    store: &mut Store,
    id: FileId,
    outcome: Option<Result<Extraction, ExtractError>>,
    enrich: bool,
    embed: bool,
    now: i64,
    later: Store,
    got: Option<FileMetadata>,
)
    requires
        store.wf(),
        store@.has_file(id),
        call_ensures(finish_extraction_of, (store, id, outcome, enrich, embed, now), ()),
        later == *final(store),
        call_ensures(metadata::get, (&later, id), got),
    ensures
        outcome matches Some(Ok(e)) ==> {
            &&& got matches Some(m)
            &&& text_view(m.doc_type) == Some(e.doc_type.text())
            &&& m.title == e.title
            &&& m.author == e.author
            &&& m.language == e.language
            &&& m.page_count == e.page_count
            &&& m.word_count == e.word_count
            &&& m.body_text == e.body_text
            &&& m.git_branch == e.git_branch
            &&& m.git_head_commit == e.git_head_commit
            &&& m.git_head_author == e.git_head_author
            &&& m.git_head_at_unix == e.git_head_at_unix
            &&& m.image_camera_model == e.image_camera_model
            &&& m.image_taken_at_unix == e.image_taken_at_unix
            &&& m.extracted_at_unix == now
            &&& later@.extraction_queue[id - 1] is None
        },
        !(outcome is Some && outcome->0 is Ok) ==> later@ == old(store)@,
{
    if outcome is Some && outcome->0 is Ok {
        let e = outcome->0->Ok_0;
        let m = choose|m: FileMetadata| #[trigger]
            is_metadata_of(m, e, now) && later@ == extraction_recorded(
                store@,
                id,
                m,
                enrich,
                embed,
                now,
            );
        what_is_stored_is_what_was_found(m, e, now);
        an_extraction_is_recorded_and_passed_on(store@, id, m, enrich, embed, now);
    }
}

/// Beginning with a file says where it lies and counts the attempt.
pub proof fn beginning_with_a_file_counts(store: &mut Store, id: FileId, path: String, later: Store)
    requires
        store.wf(),
        store@.has_file(id),
        call_ensures(begin_extraction, (store, id), path),
        later == *final(store),
    ensures
        path@ == path_of(old(store)@, id),
        old(store)@.extraction_queue[id - 1] is Some && old(
            store,
        )@.extraction_queue[id - 1]->0.attempt_count < 5 ==> later@.extraction_queue[id - 1] is Some
            && later@.extraction_queue[id - 1]->0.attempt_count == old(
            store,
        )@.extraction_queue[id - 1]->0.attempt_count + 1,
{
    an_attempt_counts_before_the_work(store@, id);
}

/// A file's kind is told by its content before its name, and a kind that is not read has
/// nothing in it.
pub proof fn a_kind_decides_what_is_read(
    media: &Option<String>,
    path: &str,
    kind: DocType,
    read: bool,
    bytes: &[u8],
    content: Result<Extraction, String>,
)
    requires
        call_ensures(classify, (media, path), kind),
        call_ensures(needs_bytes, (kind,), read),
        call_ensures(extract_content, (kind, bytes), content),
    ensures
        text_view(*media) == Some("application/pdf"@) ==> kind == DocType::Pdf,
        text_view(*media) == Some("image/jpeg"@) ==> kind == DocType::Jpeg,
        text_view(*media) == Some("image/tiff"@) ==> kind == DocType::Tiff,
        *media is None ==> forall|guessed: DocType| #[trigger]
            call_ensures(guess, (path,), guessed) ==> guessed == kind,
        read <==> kind == DocType::Docx || kind == DocType::Xlsx || kind == DocType::Pptx || kind
            == DocType::Jpeg || kind == DocType::Tiff,
        !read ==> content == Ok::<Extraction, String>(nothing_found()),
{
    the_content_decides_before_the_name(text_view(*media), extension_of(path@));
    only_documents_and_images_are_read(content, kind, bytes@);
}

/// What is said of a text document is what stands in its parts: the text of its paragraphs,
/// and the title and the author in the part for its properties.
pub proof fn a_text_document_says_what_stands_in_it(
    bytes: &[u8],
    r: Result<Extraction, String>,
    names: Seq<Seq<char>>,
    xml: Seq<u8>,
    core: Seq<u8>,
)
    requires
        call_ensures(extract_docx, (bytes,), r),
        part_names(bytes@) == Listing::Parts(names),
        part_content(bytes@, "word/document.xml"@, 64 * 1024 * 1024) == Content::Bytes(xml),
        part_content(bytes@, "docProps/core.xml"@, 64 * 1024 * 1024) == Content::Bytes(core),
    ensures
        ({
            let text = paragraph_text(part_events(xml, false));
            &&& r matches Ok(e)
            &&& text_view(e.title) == property_in(part_events(core, true), true)
            &&& text_view(e.author) == property_in(part_events(core, true), false)
            &&& e.body_text is Some && e.body_text->0@.is_prefix_of(text)
            &&& text.len() < 8000 ==> e.body_text->0@ == text
            &&& words_upto(text, text.len()) <= i64::MAX ==> e.word_count is Some && e.word_count->0
                == words_upto(text, text.len())
            &&& e.page_count is None
        }),
{
    a_text_document_is_read_from_its_main_part(r, bytes@);
    a_document_says_what_its_text_and_properties_say(
        r->Ok_0,
        bytes@,
        None,
        paragraph_text(part_events(xml, false)),
    );
}

/// What is said of a workbook is what stands in its worksheets, read with its own shared
/// strings, and how many there are; of a presentation what stands in its slides.
pub proof fn workbooks_and_presentations_say_what_stands_in_them(
    bytes: &[u8],
    workbook: Result<Extraction, String>,
    presentation: Result<Extraction, String>,
    names: Seq<Seq<char>>,
    table: Seq<u8>,
)
    requires
        call_ensures(extract_xlsx, (bytes,), workbook),
        call_ensures(extract_pptx, (bytes,), presentation),
        part_names(bytes@) == Listing::Parts(names),
        names.len() <= i64::MAX,
        part_content(bytes@, "xl/sharedStrings.xml"@, 64 * 1024 * 1024) == Content::Bytes(table),
    ensures
        ({
            let sheets = ordered_parts(names, "xl/worksheets/sheet"@, ".xml"@);
            let shared = table_of(part_events(table, false));
            let cells = parts_text(bytes@, sheets, Some(shared));
            sheets.len() > 0 && cells is Text ==> {
                &&& workbook matches Ok(e)
                &&& e.page_count is Some && e.page_count->0 == sheets.len()
                &&& e.body_text is Some && e.body_text->0@.is_prefix_of(cells->Text_0)
            }
        }),
        ({
            let slides = ordered_parts(names, "ppt/slides/slide"@, ".xml"@);
            let said = parts_text(bytes@, slides, None);
            slides.len() > 0 && said is Text ==> {
                &&& presentation matches Ok(e)
                &&& e.page_count is Some && e.page_count->0 == slides.len()
                &&& e.body_text is Some && e.body_text->0@.is_prefix_of(said->Text_0)
            }
        }),
{
    sheets_and_slides_are_pages(workbook, presentation, bytes@, names);
    let sheets = ordered_parts(names, "xl/worksheets/sheet"@, ".xml"@);
    let shared = table_of(part_events(table, false));
    let cells = parts_text(bytes@, sheets, Some(shared));
    if sheets.len() > 0 && cells is Text {
        a_document_says_what_its_text_and_properties_say(
            workbook->Ok_0,
            bytes@,
            Some(sheets.len() as int),
            cells->Text_0,
        );
    }
    let slides = ordered_parts(names, "ppt/slides/slide"@, ".xml"@);
    let said = parts_text(bytes@, slides, None);
    if slides.len() > 0 && said is Text {
        a_document_says_what_its_text_and_properties_say(
            presentation->Ok_0,
            bytes@,
            Some(slides.len() as int),
            said->Text_0,
        );
    }
}

/// What was written to a message is read from it, whatever comes behind.
pub proof fn a_message_is_read_as_it_was_written(
    body: &Vec<u8>,
    sent: Vec<u8>,
    input: &Vec<u8>,
    rest: Seq<u8>,
    got: Option<Vec<u8>>,
)
    requires
        body@.len() <= u32::MAX,
        call_ensures(frame, (body,), sent),
        input@ == sent@ + rest,
        call_ensures(unframe, (input,), got),
    ensures
        got is Some,
        got->0@ == body@,
{
    a_framed_message_is_read_back(body@, rest);
}

/// A time that an image holds is the seconds since 1970: each field counts for what it is.
pub proof fn a_later_time_is_as_much_later(
    year: i64,
    month: i64,
    day: i64,
    hour: u8,
    minute: u8,
    second: u8,
    r: Option<i64>,
    midnight: Option<i64>,
    epoch: Option<i64>,
)
    requires
        call_ensures(civil_to_unix, (year, month, day, hour, minute, second), r),
        call_ensures(civil_to_unix, (year, month, day, 0, 0, 0), midnight),
        call_ensures(civil_to_unix, (1970, 1, 1, 0, 0, 0), epoch),
    ensures
        r is Some <==> 1 <= month <= 12 && 1 <= day <= 31 && hour <= 23 && minute <= 59 && second
            <= 60,
        r is Some ==> midnight is Some && r->0 == midnight->0 + 3600 * hour + 60 * minute + second,
        epoch == Some(0i64),
{
    if 1 <= month <= 12 && 1 <= day <= 31 && hour <= 23 && minute <= 59 && second <= 60 {
        seconds_are_counted_from_1970(
            year as int,
            month as int,
            day as int,
            hour as int,
            minute as int,
            second as int,
        );
    }
    seconds_are_counted_from_1970(1970, 1, 1, 0, 0, 0);
}

/// Changes that were taken from a store and are loaded again give the same tables, where
/// they were all the changes there were.
pub proof fn what_was_written_is_loaded_again(
    store: &mut Store,
    writes: Vec<Write>,
    r: Result<Store, StoreError>,
)
    requires
        store.wf(),
        store.taken() == Tables::empty(),
        call_ensures(Store::take_writes, (store,), writes),
        call_ensures(load, (writes,), r),
        r is Ok,
    ensures
        r->Ok_0@ == old(store)@,
        final(store)@ == old(store)@,
{
}

/// The most recent lines of the log are the last ones that were written, and no more than
/// were asked for.
pub proof fn the_last_line_is_among_the_recent(
    writer: &mut LogHistoryWriter,
    history: &mut LogHistory,
    line: &str,
    ended: &str,
    later: LogHistory,
    limit: usize,
    got: Vec<String>,
)
    requires
        history.wf(),
        writer.pending() == Seq::<char>::empty(),
        line@.len() > 0,
        !line@.contains('\n'),
        ended@ == line@ + seq!['\n'],
        call_ensures(LogHistoryWriter::write_text, (writer, history, ended), ()),
        later == *final(history),
        call_ensures(LogHistory::recent, (&later, limit), got),
        limit > 0,
    ensures
        got@.len() > 0,
        got@.len() <= limit,
        got@.last()@ == line@,
        final(writer).pending() == Seq::<char>::empty(),
{
    let whole = Seq::<char>::empty() + ended@;
    assert(whole =~= ended@);
    a_text_is_cut_at_every_separator(line@, Seq::empty(), '\n');
    assert(line@ + seq!['\n'] + Seq::<char>::empty() =~= ended@);
    let pieces = split_at(ended@, '\n');
    assert(split_at(Seq::<char>::empty(), '\n') == seq![Seq::<char>::empty()]);
    assert(pieces.drop_last() =~= seq![line@]);
    let before = history@;
    assert(seq![line@].drop_last() =~= Seq::<Seq<char>>::empty());
    assert(pushed_all(before, Seq::<Seq<char>>::empty()) == before);
    assert(seq![line@].last() == line@);
    assert(pushed_all(before, seq![line@]) == pushed(before, line@));
    let all = later@;
    assert(all.last() == line@);
    let shown = last_of(all, limit as nat);
    assert(shown.last() == all.last());
    assert(texts(got@) == shown);
    assert(texts(got@).len() == got@.len());
    assert(texts(got@)[got@.len() - 1] == got@[got@.len() - 1]@);
}

// Texts.

/// Trimming a text takes away the white space around it, and only that; what is left has
/// as many words as the text had.
pub proof fn trimming_leaves_what_is_inside(
    s: &str,
    before: Seq<char>,
    inner: Seq<char>,
    behind: Seq<char>,
    r: String,
)
    requires
        s@ == before + inner + behind,
        is_blank(before),
        is_blank(behind),
        inner.len() > 0 ==> !is_white(inner[0]) && !is_white(inner.last()),
        call_ensures(trim_text, (s,), r),
    ensures
        r@ == inner,
{
    white_space_around_is_taken_away(before, inner, behind);
}

/// The words of two texts with white space between them are counted together.
pub proof fn words_are_counted_together(
    a: &str,
    b: &str,
    whole: &str,
    gap: Seq<char>,
    m: usize,
    n: usize,
    all: usize,
)
    requires
        is_blank(gap),
        gap.len() > 0,
        whole@ == a@ + gap + b@,
        call_ensures(count_words, (a,), m),
        call_ensures(count_words, (b,), n),
        call_ensures(count_words, (whole,), all),
    ensures
        all == m + n,
        is_word(b@) ==> n == 1,
        is_blank(a@) ==> m == 0,
{
    words_are_told_apart_by_white_space(a@, gap, b@);
    if is_blank(a@) {
        words_are_told_apart_by_white_space(Seq::empty(), a@, Seq::empty());
    }
}

/// A number that was written is read back.
pub proof fn a_number_is_read_as_it_was_written(
    out: &mut String,
    n: u64,
    s: &str,
    most: u64,
    r: Option<u64>,
)
    requires
        out@ == Seq::<char>::empty(),
        call_ensures(push_number, (out, n), ()),
        s@ == final(out)@,
        call_ensures(parse_number, (s, most), r),
    ensures
        n <= most ==> r == Some(n),
        n > most ==> r is None,
{
    assert(Seq::<char>::empty() + decimal(n as nat) =~= decimal(n as nat));
    a_number_written_is_read_back(n as nat, most as nat);
}

// The daemon and those who talk to it.

/// A response is a success exactly where its status is 200, and then it is its body.
pub proof fn a_response_is_read(
    request: &str,
    response: &str,
    r: Result<String, String>,
    head: Seq<char>,
    body: Seq<char>,
    line: &str,
    status: Option<u16>,
)
    requires
        response@ == head + seq!['\r', '\n', '\r', '\n'] + body,
        forall|k: int| 0 <= k < head.len() ==> !head_ends_at(head + seq!['\r', '\n', '\r'], k),
        call_ensures(read_response, (request, response), r),
        line@ == head,
        call_ensures(status_of, (line,), status),
    ensures
        status == Some(200u16) <==> r is Ok,
        r is Ok ==> r->Ok_0@ == body,
{
    the_body_follows_the_first_empty_line(head, body);
    only_a_success_is_taken(r, request@, response@);
}

/// A file that tells of a daemon is worth what it says only while the daemon is alive; one
/// of a daemon that is gone is to be removed.
pub proof fn a_daemon_is_found_while_it_lives(found: Option<PidFile>, alive: bool, r: Finding)
    requires
        call_ensures(judge, (found, alive), r),
    ensures
        r is Live <==> found is Some && alive,
        r is Stale <==> found is Some && !alive,
        r matches Finding::Live(there) ==> found == Some(there),
{
}

/// The installer has done its work where it ends with zero; three means that there is an
/// update, where it was only asked to look.
pub proof fn the_exit_code_tells(code: Option<i32>, check_only: bool, r: Updated)
    requires
        call_ensures(read_exit_code, (code, check_only), r),
    ensures
        r is Done <==> code == Some(0i32),
        r is Available <==> code == Some(3i32) && check_only,
{
}

/// An answer is understood in any letter case, and what it asks for is done; no answer that
/// is not understood changes anything.
pub proof fn an_answer_is_followed(line: &str, meant: OnRunning, terminal: bool, r: Reconcile)
    requires
        call_ensures(understand, (line,), meant),
        call_ensures(reconcile, (true, Some(meant), terminal), r),
    ensures
        r == Reconcile::Change(WatchMode::Add) <==> small(trimmed(line@)) == "a"@ || small(
            trimmed(line@),
        ) == "add"@,
        r == Reconcile::Change(WatchMode::Replace) <==> small(trimmed(line@)) == "r"@ || small(
            trimmed(line@),
        ) == "replace"@,
        !(r is Change) ==> r is Leave,
{
    what_is_asked_for_is_done(line@, terminal);
}

/// A daemon that is not ready says so with its status, whatever its schema is; it is alive
/// all the same.
pub proof fn readiness_is_told_by_the_status(
    ready: bool,
    schema_version: u32,
    r: Reply,
    alive: Reply,
)
    requires
        call_ensures(readyz, (ready, schema_version), r),
        call_ensures(healthz, (), alive),
    ensures
        r.status == 200 <==> ready,
        r.status == 200 || r.status == 503,
        r.body == (Body::Readiness { ready, schema_version }),
        alive.status == 200,
        alive.body is Alive,
{
}

/// The filter that is shown is the one in force; a change that is refused is the caller's
/// fault, and one that cannot be made at all is not.
pub proof fn the_filter_in_force_is_shown(
    current: &Option<String>,
    r: Reply,
    outcome: &Option<Result<String, String>>,
    changed: Reply,
)
    requires
        call_ensures(get_log_level, (current,), r),
        call_ensures(set_log_level, (outcome,), changed),
    ensures
        *current is None ==> r.status == 503,
        *current is Some ==> r.status == 200 && (r.body matches Body::Filter(f) && f@
            == current->0@),
        *outcome is None ==> changed.status == 503,
        *outcome is Some && outcome->0 is Err ==> changed.status == 400,
        *outcome is Some && outcome->0 is Ok ==> changed.status == 200 && (
        changed.body matches Body::Filter(f) && f@ == outcome->0->Ok_0@),
{
}

/// A filter that is put in force is the one in force from then on; one that could not be
/// leaves the one that was.
pub proof fn a_filter_is_in_force_once_it_is_installed(
    handle: &mut LogLevelHandle,
    filter: &str,
    outcome: Result<(), String>,
    r: Result<(), String>,
    later: LogLevelHandle,
    shown: String,
)
    requires
        call_ensures(LogLevelHandle::installed, (handle, filter, outcome), r),
        later == *final(handle),
        call_ensures(LogLevelHandle::current, (&later,), shown),
    ensures
        r == outcome,
        outcome is Ok ==> shown@ == filter@,
        outcome is Err ==> shown@ == old(handle).filter(),
{
}

/// As many lines of the log are shown as were asked for, at most two thousand, and they are
/// the last.
pub proof fn the_last_lines_are_shown(
    history: LogHistory,
    limit: Option<u32>,
    r: Reply,
    absent: Reply,
)
    requires
        call_ensures(get_logs, (Some(&history), limit), r),
        call_ensures(get_logs, (None, limit), absent),
    ensures
        r.status == 200,
        r.body matches Body::Lines(lines) && texts(lines@) == last_of(
            history@,
            match limit {
                None => 200,
                Some(n) => if n <= 2000 {
                    n as nat
                } else {
                    2000
                },
            },
        ),
        absent.status == 503,
{
}

/// A change of the watched directories waits behind those that were asked for before, and
/// is taken as it was asked for. Nothing waits that names what is no directory.
pub proof fn changes_are_taken_as_they_were_asked_for(
    control: &mut DaemonWatchControl,
    mode: WatchMode,
    roots: Vec<String>,
    are_dirs: &Vec<bool>,
    r: Result<(), String>,
    later: &mut DaemonWatchControl,
    taken: Option<WatchCommand>,
)
    requires
        control.waiting().len() == 0,
        are_dirs@.len() == roots@.len(),
        call_ensures(DaemonWatchControl::request, (control, mode, roots, are_dirs), r),
        *later == *final(control),
        call_ensures(DaemonWatchControl::take_command, (later,), taken),
    ensures
        r is Ok <==> forall|k: int| 0 <= k < are_dirs@.len() ==> #[trigger] are_dirs@[k],
        r is Err ==> taken is None,
        r is Ok ==> taken is Some && taken->0.roots() == texts(roots@) && (taken->0 is AddRoots
            <==> mode == WatchMode::Add),
        final(later).watched() == old(control).watched(),
{
    lemma_all_or_first(are_dirs@);
    if r is Ok {
        let waiting = final(control).waiting();
        assert(waiting.last() == waiting[0]);
    }
}

proof fn lemma_all_or_first(flags: Seq<bool>)
    ensures
        first_false(flags) is None <==> forall|k: int|
            0 <= k < flags.len() ==> #[trigger] flags[k],
    decreases flags.len(),
{
    if flags.len() > 0 {
        let less = flags.drop_last();
        lemma_all_or_first(less);
        if forall|k: int| 0 <= k < less.len() ==> #[trigger] less[k] {
            assert forall|k: int| 0 <= k < flags.len() && flags.last() implies
                #[trigger] flags[k] by {
                if k < less.len() {
                    assert(less[k]);
                }
            }
            assert(flags[flags.len() - 1] == flags.last());
        } else {
            let k = choose|k: int| 0 <= k < less.len() && !(#[trigger] less[k]);
            assert(!flags[k]);
        }
    }
}

/// A database takes the steps behind its version, and one of a later version is refused.
pub proof fn a_database_takes_the_steps_it_is_missing(
    recorded: &Vec<u32>,
    current: u32,
    r: Result<Vec<Migration>, StoreError>,
    supported: u32,
)
    requires
        call_ensures(current_version, (recorded,), current),
        call_ensures(pending_migrations, (current,), r),
        call_ensures(supported_version, (), supported),
    ensures
        supported == 5,
        forall|k: int| 0 <= k < recorded@.len() ==> #[trigger] recorded@[k] <= current,
        r is Ok <==> current <= 5,
        r matches Ok(todo) ==> todo@.len() == 5 - current && forall|k: int|
            0 <= k < todo@.len() ==> (#[trigger] todo@[k]).version == current + k + 1,
{
    the_highest_recorded_version_counts(recorded@);
    if current <= 5 {
        the_steps_behind_a_version_are_missing(current, 0);
    }
}

/// A model is reached at the address that is configured, with or without slashes at its
/// end, and with the key that is configured.
pub proof fn a_model_is_reached_at_its_address(
    url: Seq<char>,
    slashes: Seq<char>,
    base_url: &str,
    chat: String,
    vectors: String,
    key: &str,
    header: String,
)
    requires
        base_url@ == url + slashes,
        url.len() > 0,
        url.last() != '/',
        forall|i: int| 0 <= i < slashes.len() ==> #[trigger] slashes[i] == '/',
        call_ensures(chat_url, (base_url,), chat),
        call_ensures(embeddings_url, (base_url,), vectors),
        call_ensures(authorization, (key,), header),
    ensures
        chat@ == url + "/chat/completions"@,
        vectors@ == url + "/embeddings"@,
        header@ == "Bearer "@ + key@,
{
    slashes_at_the_end_do_not_matter(url, slashes);
}

/// What a model replied is the object in its first reply; a vector is taken only where it is
/// as wide as configured.
pub proof fn the_first_reply_is_what_counts(
    base_url: &str,
    replies: Vec<String>,
    r: Result<String, EnrichError>,
    before: Seq<char>,
    inner: Seq<char>,
    behind: Seq<char>,
    widths: Vec<usize>,
    config: &EmbeddingConfig,
    width: Result<usize, EnrichError>,
)
    requires
        replies@.len() > 0,
        replies@[0]@ == before + (seq!['{'] + inner + seq!['}']) + behind,
        !before.contains('{'),
        !behind.contains('}'),
        call_ensures(take_reply, (base_url, Exchange::Replies(replies)), r),
        widths@.len() > 0,
        call_ensures(take_vector, (base_url, Exchange::Replies(widths), config), width),
    ensures
        r is Ok,
        r->Ok_0@ == seq!['{'] + inner + seq!['}'],
        width is Ok <==> widths@[0] == config.dimensions,
        width is Ok ==> width->Ok_0 == widths@[0],
{
    the_object_reaches_from_the_first_brace_to_the_last(before, inner, behind);
}

/// A query reaches the store as it was asked: every filter as itself, the cursor as it is,
/// and fifty for a number that was not given.
pub proof fn a_query_reaches_the_store_as_it_was_asked<S: TimelineStore>(
    store: &S,
    query: &EventsQuery,
    r: Reply,
)
    requires
        call_ensures(api::events::<S>, (Some(store), query), r),
        r.status == 200,
    ensures
        r.body is Events,
        exists|
            outcome: Result<Vec<TimelineItem>, String>,
            kind: Option<&str>,
            doc_type: Option<&str>,
            author: Option<&str>,
            language: Option<&str>,
            git_branch: Option<&str>,
            classification: Option<&str>,
        | #[trigger]
            call_ensures(
                S::timeline,
                (
                    store,
                    asked_for(query.limit, 50),
                    query.before_id,
                    kind,
                    doc_type,
                    author,
                    language,
                    git_branch,
                    classification,
                ),
                outcome,
            ) && given(kind) == text_view(query.kind) && given(doc_type) == text_view(
                query.doc_type,
            ) && given(author) == text_view(query.author) && given(language) == text_view(
                query.language,
            ) && given(git_branch) == text_view(query.git_branch) && given(classification)
                == text_view(query.classification) && outcome is Ok && r.body->events
                == outcome->Ok_0,
{
}

/// A query that is answered was not to be turned away, and one that is to be turned away is
/// answered with why.
pub proof fn only_a_sound_query_is_answered<S: TimelineStore>(
    store: Option<&S>,
    query: &EventsQuery,
    r: Reply,
)
    requires
        call_ensures(api::events::<S>, (store, query), r),
    ensures
        store is None ==> r.status == 503,
        store is Some && query.kind is Some && query.kind->0@ != "created"@ && query.kind->0@
            != "modified"@ && query.kind->0@ != "deleted"@ && query.kind->0@ != "renamed"@
            ==> r.status == 400,
        store is Some && (is_longer_than(query.doc_type, 256) || is_longer_than(query.author, 256)
            || is_longer_than(query.language, 256) || is_longer_than(query.git_branch, 256)
            || is_longer_than(query.classification, 256)) ==> r.status == 400,
        r.status == 200 || r.status == 400 || r.status == 500 || r.status == 503,
{
    a_query_is_turned_away_for_a_reason(store is Some, *query);
    if query.kind is Some {
        four_words_name_a_kind(query.kind->0@);
    }
}

/// A facet that is asked for by a name is the one of that name.
pub proof fn a_facet_reaches_the_store_by_its_name<S: TimelineStore>(
    store: &S,
    field: &str,
    r: Reply,
)
    requires
        call_ensures(api::facets::<S>, (Some(store), field), r),
        r.status == 200,
    ensures
        exists|outcome: Result<Vec<(String, i64)>, String>| #[trigger]
            call_ensures(S::facets, (store, field), outcome) && outcome is Ok && r.body
                == Body::Facets(outcome->Ok_0),
{
}

/// What a caller asks of the timeline is what is looked for: each filter in its own field.
pub proof fn a_query_asks_for_what_was_given(
    limit: u32,
    before_id: Option<i64>,
    kind: EventKind,
    word: &str,
    doc_type: Option<&str>,
    author: Option<&str>,
    language: Option<&str>,
    git_branch: Option<&str>,
    classification: Option<&str>,
    q: TimelineQuery,
)
    requires
        word@ == kind_text(kind),
        call_ensures(
            timeline_query,
            (
                limit,
                before_id,
                Some(word),
                doc_type,
                author,
                language,
                git_branch,
                classification,
            ),
            q,
        ),
    ensures
        q.limit == Some(limit),
        q.before_id == before_id,
        q.kind == Some(kind),
        text_view(q.doc_type) == given(doc_type),
        text_view(q.author) == given(author),
        text_view(q.language) == given(language),
        text_view(q.git_branch) == given(git_branch),
        text_view(q.classification) == given(classification),
{
    a_kind_is_asked_for_by_its_stored_form(kind, q.kind);
}

/// A kind of event that is stored is read back; a word that stands for none is read as a
/// modification.
pub proof fn a_stored_kind_is_read_back(
    kind: EventKind,
    stored: &'static str,
    r: EventKind,
    word: &str,
    other: EventKind,
)
    requires
        call_ensures(EventKind::as_str, (kind,), stored),
        call_ensures(EventKind::of_stored, (stored,), r),
        call_ensures(EventKind::of_stored, (word,), other),
        word@ != "created"@,
        word@ != "modified"@,
        word@ != "deleted"@,
        word@ != "renamed"@,
    ensures
        r == kind,
        other == EventKind::Modified,
{
    stored_forms_are_distinct();
}

/// A change of the watched directories is made as it was asked for, and what is shown
/// afterwards is what the control then gives.
pub proof fn a_change_is_made_as_it_was_asked_for<W: WatchControl>(
    control: &mut W,
    request: WatchChangeRequest,
    r: Reply,
)
    requires
        call_ensures(api::put_watch::<W>, (Some(control), request), r),
        r.status == 200,
    ensures
        request.roots@.len() > 0,
        r.body is Roots,
        request.mode == WatchMode::Add ==> exists|c: &mut W, outcome: Result<(), String>|
            outcome is Ok && *c == *old(control) && *final(c) == *final(control)
                && #[trigger] call_ensures(W::add_roots, (c, request.roots), outcome),
        request.mode == WatchMode::Replace ==> exists|c: &mut W, outcome: Result<(), String>|
            outcome is Ok && *c == *old(control) && *final(c) == *final(control)
                && #[trigger] call_ensures(W::replace_roots, (c, request.roots), outcome),
{
}

/// Only a directory below the root whose name is on the list is skipped.
pub proof fn only_listed_directories_are_skipped(
    is_dir: bool,
    depth: usize,
    name: &str,
    options: &ScanOptions,
    r: bool,
)
    requires
        call_ensures(is_skipped, (is_dir, depth, name, options), r),
    ensures
        r <==> is_dir && depth > 0 && texts(options.skip_dirs@).contains(name@),
{
    let list = texts(options.skip_dirs@);
    if list.contains(name@) {
        let k = choose|k: int| 0 <= k < list.len() && list[k] == name@;
        assert(options.skip_dirs@[k]@ == name@);
    }
    if r {
        let k = choose|k: int|
            0 <= k < options.skip_dirs@.len() && (#[trigger] options.skip_dirs@[k])@ == name@;
        assert(list[k] == name@);
    }
}

/// What an image says is what its own fields say: when it was exposed, or else changed, and
/// the camera by its make and its model. An image without attributes says nothing, and a
/// malformed one is an error that says why.
pub proof fn an_image_says_what_its_fields_say(bytes: &[u8], r: Result<Extraction, String>)
    requires
        call_ensures(extract_image, (bytes,), r),
    ensures
        match image_attributes(bytes@) {
            Attributes::Found => {
                let exposed = image_field(bytes@, ImageTag::DateTimeOriginal);
                let changed = image_field(bytes@, ImageTag::DateTime);
                let make = field_text(image_field(bytes@, ImageTag::Make));
                let model = field_text(image_field(bytes@, ImageTag::Model));
                &&& r matches Ok(e)
                &&& text_view(e.image_camera_model) == camera(make, model)
                &&& exposed is Some ==> (e.image_taken_at_unix is Some <==> field_time(exposed)
                    is Some) && (e.image_taken_at_unix is Some ==> e.image_taken_at_unix->0
                    == field_time(exposed)->0)
                &&& exposed is None ==> (e.image_taken_at_unix is Some <==> field_time(changed)
                    is Some) && (e.image_taken_at_unix is Some ==> e.image_taken_at_unix->0
                    == field_time(changed)->0)
                &&& e.title is None && e.author is None && e.body_text is None
            },
            Attributes::NotFound => r == Ok::<Extraction, String>(nothing_found()),
            Attributes::Malformed(why) => r is Err && r->Err_0@ == why,
        },
{
}

/// A PDF that could not be read is answered with what went wrong and nothing else.
pub proof fn a_failed_pdf_says_nothing_else(message: String, r: PdfReply)
    requires
        call_ensures(error_reply, (message,), r),
    ensures
        r.error == Some(message),
        r.title is None && r.author is None && r.page_count is None && r.word_count is None
            && r.language is None && r.body_text is None,
{
}

/// A vector is kept exactly where it is as wide as the table, and then its file has an
/// embedding and waits for none.
pub proof fn a_vector_is_kept_where_it_fits(
    store: &mut Store,
    id: FileId,
    outcome: &Result<usize, EnrichError>,
    kept: bool,
    later: Store,
)
    requires
        store.wf(),
        store@.has_file(id),
        call_ensures(finish_embedding, (store, id, outcome), kept),
        later == *final(store),
    ensures
        kept <==> *outcome is Ok && old(store)@.embedding_config is Some && old(
            store,
        )@.embedding_config->0.dimensions == outcome->Ok_0,
        kept ==> later@.embedded.contains(id) && later@.embedding_queue[id - 1] is None,
        !kept ==> later@ == old(store)@,
{
}

/// Only what a model said is recorded: where asking failed, everything stays as it was.
pub proof fn only_a_success_is_recorded(
    store: &mut Store,
    id: FileId,
    outcome: Result<Enrichment, EnrichError>,
    now: i64,
    later: Store,
    got: Option<FileEnrichment>,
)
    requires
        store.wf(),
        store@.has_file(id),
        call_ensures(finish_enrichment, (store, id, outcome, now), ()),
        later == *final(store),
        call_ensures(enrichment::get, (&later, id), got),
    ensures
        outcome is Err ==> later@ == old(store)@,
        outcome matches Ok(e) ==> {
            &&& got matches Some(f)
            &&& text_view(f.summary) == text_view(e.summary)
            &&& text_view(f.classification) == text_view(e.classification)
            &&& text_view(f.keywords) == stored_list(texts(e.keywords@))
            &&& text_view(f.entities) == stored_list(texts(e.entities@))
            &&& f.enriched_at_unix == now
            &&& later@.enrichment_queue[id - 1] is None
        },
{
    if outcome is Ok {
        let f = choose|f: FileEnrichment| #[trigger]
            is_stored_form(f, outcome->Ok_0, now) && later@ == enrichment_recorded(store@, id, f);
        requests_are_counted_and_their_results_recorded(store@, id, f);
    }
}

/// A request says what it asks for first and ends with its body, whose length in bytes it
/// gives.
pub proof fn a_request_says_what_it_asks_for(
    method: &str,
    path: &str,
    host: &str,
    body: &str,
    r: String,
)
    requires
        call_ensures(request_text, (method, path, host, body), r),
        encode_utf8(body@).len() <= usize::MAX,
    ensures
        begins(r@, method@ + " "@ + path@ + " HTTP/1.1\r\nHost: "@ + host@ + "\r\n"@),
        ends(r@, "Content-Length: "@ + decimal(encode_utf8(body@).len()) + "\r\n\r\n"@ + body@),
{
    let head = method@ + " "@ + path@ + " HTTP/1.1\r\nHost: "@ + host@ + "\r\n"@;
    let tail = "Content-Length: "@ + decimal(encode_utf8(body@).len()) + "\r\n\r\n"@ + body@;
    let middle = "Connection: close\r\nContent-Type: application/json\r\n"@;
    reveal_strlit("\r\nConnection: close\r\nContent-Type: application/json\r\nContent-Length: ");
    reveal_strlit("\r\n");
    reveal_strlit("Connection: close\r\nContent-Type: application/json\r\n");
    reveal_strlit("Content-Length: ");
    assert("\r\nConnection: close\r\nContent-Type: application/json\r\nContent-Length: "@
        =~= "\r\n"@ + middle + "Content-Length: "@);
    assert(r@ =~= head + (middle + tail));
    assert(r@ =~= (head + middle) + tail);
    a_text_begins_with_what_stands_in_front(r@, head, middle + tail);
    a_text_begins_with_what_stands_in_front(r@, tail, head + middle);
}

/// A change of the watched directories is asked for by its name and with its directories.
pub proof fn a_change_is_asked_for_by_its_name(roots: &Vec<String>, added: String, replaced: String)
    requires
        call_ensures(change_body, (WatchMode::Add, roots), added),
        call_ensures(change_body, (WatchMode::Replace, roots), replaced),
    ensures
        added@ == "{\"mode\":\"add\",\"roots\":"@ + json_list(texts(roots@)) + "}"@,
        replaced@ == "{\"mode\":\"replace\",\"roots\":"@ + json_list(texts(roots@)) + "}"@,
{
    reveal_strlit("{\"mode\":\"");
    reveal_strlit("\",\"roots\":");
    reveal_strlit("add");
    reveal_strlit("replace");
    reveal_strlit("{\"mode\":\"add\",\"roots\":");
    reveal_strlit("{\"mode\":\"replace\",\"roots\":");
    assert("{\"mode\":\"add\",\"roots\":"@ =~= "{\"mode\":\""@ + "add"@ + "\",\"roots\":"@);
    assert("{\"mode\":\"replace\",\"roots\":"@ =~= "{\"mode\":\""@ + "replace"@
        + "\",\"roots\":"@);
}

/// At most fifty values of a facet are given, each with the number of files that have it in
/// the field of that name; a name that stands for no facet is an error.
pub proof fn a_facet_counts_files_by_its_name(
    store: &Store,
    field: &str,
    r: Result<Vec<(String, i64)>, String>,
    i: int,
)
    requires
        call_ensures(timeline::facets, (store, field), r),
    ensures
        r is Ok <==> field@ == "doc_type"@ || field@ == "author"@ || field@ == "language"@ || field@
            == "git_branch"@ || field@ == "classification"@,
        r is Ok ==> r->Ok_0@.len() <= 50,
        r is Ok && field@ == "author"@ && 0 <= i < r->Ok_0@.len() ==> r->Ok_0@[i].1 == how_many(
            store@.metadata.len(),
            |k: int|
                store@.metadata[k] matches Some(m) && text_view(m.author) == Some(
                    r->Ok_0@[i].0@,
                ),
        ),
        r is Ok && field@ == "doc_type"@ && 0 <= i < r->Ok_0@.len() ==> r->Ok_0@[i].1 == how_many(
            store@.metadata.len(),
            |k: int|
                store@.metadata[k] matches Some(m) && text_view(m.doc_type) == Some(
                    r->Ok_0@[i].0@,
                ),
        ),
{
    reveal_strlit("doc_type");
    reveal_strlit("author");
    reveal_strlit("language");
    reveal_strlit("git_branch");
    reveal_strlit("classification");
    assert("doc_type"@.len() == 8 && "author"@.len() == 6 && "language"@.len() == 8);
    assert("git_branch"@.len() == 10 && "classification"@.len() == 14);
    assert("doc_type"@[0] == 'd' && "language"@[0] == 'l');
    if r is Ok && field@ == "author"@ && 0 <= i < r->Ok_0@.len() {
        let facets = r->Ok_0@;
        let column = timeline::facet_column(store@, field@)->0;
        facets_are_the_most_common_values(facets, column, 50);
        assert(facets[i].1 == how_many(
            column.len(),
            |k: int| column[k] == Some(facets[i].0@),
        ));
        lemma_how_many_alike(
            store@.metadata.len(),
            |k: int| column[k] == Some(facets[i].0@),
            |k: int|
                store@.metadata[k] matches Some(m) && text_view(m.author) == Some(
                    r->Ok_0@[i].0@,
                ),
        );
    }
    if r is Ok && field@ == "doc_type"@ && 0 <= i < r->Ok_0@.len() {
        let facets = r->Ok_0@;
        let column = timeline::facet_column(store@, field@)->0;
        facets_are_the_most_common_values(facets, column, 50);
        assert(facets[i].1 == how_many(
            column.len(),
            |k: int| column[k] == Some(facets[i].0@),
        ));
        lemma_how_many_alike(
            store@.metadata.len(),
            |k: int| column[k] == Some(facets[i].0@),
            |k: int|
                store@.metadata[k] matches Some(m) && text_view(m.doc_type) == Some(
                    r->Ok_0@[i].0@,
                ),
        );
    }
}

/// An event that was appended is given back under the id that came of it, and it is one
/// behind the last.
pub proof fn an_appended_event_is_given_back(
    store: &mut Store,
    event: NewEvent,
    r: Result<i64, StoreError>,
    later: Store,
    got: NewEvent,
)
    requires
        store.wf(),
        call_ensures(append, (store, &event), r),
        r is Ok,
        later == *final(store),
        call_ensures(Store::event, (&later, r->Ok_0), got),
    ensures
        got == event,
        r->Ok_0 == old(store)@.events.len() + 1,
        old(store)@.has_file(event.file_id),
{
}

/// A caller is told what the thread that watches answered; one that is gone or late is a
/// failure.
pub proof fn a_caller_is_told_what_was_answered(answer: Answer, r: Result<(), String>)
    requires
        call_ensures(outcome, (answer,), r),
    ensures
        answer matches Answer::Said(said) ==> r == said,
        !(answer is Said) ==> r is Err,
{
}

/// What a walk leaves out changes nothing, and the walk goes on.
pub proof fn what_is_left_out_changes_nothing(
    walk: &mut Scan,
    store: &mut Store,
    interner: &mut Interner,
    item: Walked,
    options: &ScanOptions,
    at: i64,
    step: Step,
)
    requires
        is_left_out(walk@.root, item, *options),
        call_ensures(Scan::step, (walk, store, interner, &item, options, at), step),
    ensures
        step is Continue,
        final(store)@ == old(store)@,
        final(walk)@ == old(walk)@,
{
}

/// A change that is reported is carried out at its own path, unless the path is not to be
/// indexed; a file that it is about then waits to be extracted.
pub proof fn a_reported_change_is_carried_out(
    change: Change,
    skip_dirs: &[String],
    plan: Plan,
    store: &mut Store,
    interner: &mut Interner,
    roots: &[String],
    look: Look,
    at: i64,
    at_unix: i64,
    r: Result<(), ScanError>,
)
    requires
        call_ensures(plan_change, (&change, skip_dirs), plan),
        call_ensures(carry_out, (store, interner, roots, &plan, look, at, at_unix), r),
    ensures
        change matches Change::Touched(path) ==> {
            &&& excluded(path@, skip_dirs@) ==> r is Ok && final(store)@ == old(store)@
            &&& !excluded(path@, skip_dirs@) ==> match path_recorded(
                old(store)@,
                roots@,
                path@,
                look,
                at,
            ) {
                Some(done) => r is Ok && final(store)@ == queued(done, at_unix),
                None => r is Err && final(store)@ == old(store)@,
            }
        },
        change matches Change::Removed(path) ==> {
            &&& excluded(path@, skip_dirs@) ==> r is Ok && final(store)@ == old(store)@
            &&& !excluded(path@, skip_dirs@) ==> match path_recorded(
                old(store)@,
                roots@,
                path@,
                Look::Gone,
                at,
            ) {
                Some(done) => r is Ok && final(store)@ == done.tables,
                None => r is Err && final(store)@ == old(store)@,
            }
        },
        change matches Change::Renamed { from, to } ==> {
            &&& !excluded(from@, skip_dirs@) && !excluded(to@, skip_dirs@) ==> match move_recorded(
                old(store)@,
                roots@,
                from@,
                to@,
                look,
                at,
            ) {
                Some(done) => r is Ok && final(store)@ == queued(done, at_unix),
                None => r is Err && final(store)@ == old(store)@,
            }
            &&& excluded(from@, skip_dirs@) && excluded(to@, skip_dirs@) ==> r is Ok
                && final(store)@ == old(store)@
            &&& !excluded(from@, skip_dirs@) && excluded(to@, skip_dirs@) ==> match path_recorded(
                old(store)@,
                roots@,
                from@,
                Look::Gone,
                at,
            ) {
                Some(done) => r is Ok && final(store)@ == done.tables,
                None => r is Err && final(store)@ == old(store)@,
            }
        },
{
    what_is_reported_is_recorded_at_its_path(store@, roots@, skip_dirs@, change@, plan, look, at);
}

/// The root that a path is recorded under contains it, and no root that contains it is
/// longer.
pub proof fn the_owner_of_a_path_contains_it(
    roots: &[String],
    path: &str,
    r: Option<usize>,
    j: int,
)
    requires
        call_ensures(owning_root, (roots, path), r),
        0 <= j < roots@.len(),
    ensures
        r matches Some(i) ==> i < roots@.len() && is_under(roots@[i as int]@, path@) && (is_under(
            roots@[j]@,
            path@,
        ) ==> encode_utf8(roots@[j]@).len() as usize <= encode_utf8(
            roots@[i as int]@,
        ).len() as usize),
{
}

/// What is found in a file is its content and the facts of its repository; where the content
/// cannot be read it is an error.
pub proof fn a_file_is_its_content_and_its_repository(
    kind: DocType,
    path: &str,
    content: Result<Extraction, String>,
    facts: Option<GitFacts>,
    r: Result<Extraction, ExtractError>,
    at: i64,
    m: FileMetadata,
)
    requires
        call_ensures(finish_extraction, (kind, path, content, facts), r),
        r is Ok ==> call_ensures(to_file_metadata, (r->Ok_0, at), m),
    ensures
        r is Ok <==> content is Ok,
        r matches Ok(found) ==> {
            let e = content->Ok_0;
            &&& m.title == e.title
            &&& m.author == e.author
            &&& m.language == e.language
            &&& m.page_count == e.page_count
            &&& m.word_count == e.word_count
            &&& m.body_text == e.body_text
            &&& m.image_camera_model == e.image_camera_model
            &&& m.image_taken_at_unix == e.image_taken_at_unix
            &&& text_view(m.doc_type) == Some(kind.text())
            &&& facts matches Some(f) ==> m.git_branch == f.branch && m.git_head_commit
                == f.head_commit && m.git_head_author == f.head_author && m.git_head_at_unix
                == f.head_at_unix
        },
{
    a_file_says_what_its_content_and_its_repository_say(r, kind, path@, content, facts);
    if r is Ok {
        what_is_stored_is_what_was_found(m, r->Ok_0, at);
    }
}

/// What is answered of a PDF is what its pages and its properties say.
pub proof fn a_pdf_is_answered_with_what_it_says(
    title: &Option<String>,
    author: &Option<String>,
    pages: &Vec<String>,
    r: PdfReply,
)
    requires
        call_ensures(reply_for, (title, author, pages), r),
    ensures
        pages@.len() <= i64::MAX ==> r.page_count == Some(pages@.len() as i64),
        words_on(texts(pages@)) <= i64::MAX ==> r.word_count == Some(
            words_on(texts(pages@)) as i64,
        ),
        *title is None ==> r.title is None,
        *title is Some && trimmed(title->0@).len() > 0 ==> text_view(r.title) == Some(
            trimmed(title->0@),
        ),
        *author is None ==> r.author is None,
        *author is Some && trimmed(author->0@).len() > 0 ==> text_view(r.author) == Some(
            trimmed(author->0@),
        ),
        r.body_text is Some && r.body_text->0@.is_prefix_of(pages_text(texts(pages@))),
        r.error is None,
{
    assert(texts(pages@).len() == pages@.len());
    a_reply_says_what_the_document_says(r, text_view(*title), text_view(*author), texts(pages@));
}

/// A camera is named by its make and its model, and by either alone.
pub proof fn a_camera_is_named(make: String, model: String, r: Option<String>, one: Option<String>)
    requires
        call_ensures(join_make_model, (Some(make), Some(model)), r),
        call_ensures(join_make_model, (Some(make), None), one),
    ensures
        r is Some,
        make@.is_prefix_of(model@) ==> r->0@ == model@,
        !make@.is_prefix_of(model@) ==> r->0@ == make@ + " "@ + model@,
        text_view(one) == Some(make@),
{
    reveal_strlit(" ");
    assert(" "@ =~= seq![' ']);
    if make@.is_prefix_of(model@) {
        let rest = model@.skip(make@.len() as int);
        assert(model@.subrange(0, make@.len() as int) == make@);
        assert(model@ =~= make@ + rest);
        a_camera_is_named_by_make_and_model(make@, model@, rest);
    } else {
        a_camera_is_named_by_make_and_model(make@, model@, Seq::empty());
    }
}

/// A file's extension is what follows the last dot of its name, in lower case.
pub proof fn an_extension_is_read_from_the_name(
    path: &str,
    dirs: Seq<Seq<char>>,
    stem: Seq<char>,
    ext: Seq<char>,
    r: Option<String>,
)
    requires
        are_names(dirs.push(stem + seq!['.'] + ext)),
        path@ == joined(dirs.push(stem + seq!['.'] + ext)),
        stem.len() > 0,
        !ext.contains('.'),
        call_ensures(extension, (path,), r),
    ensures
        text_view(r) == Some(lowercase(ext)),
{
    the_letter_case_of_an_extension_does_not_matter(dirs, stem, ext, ext);
}

/// A worker works on what the queue offered, one file after another, and asks the queue
/// again only when none is left; it stops only when it is asked to.
pub proof fn a_worker_takes_the_first_that_is_offered(
    drain: &mut Drain,
    offered: Vec<FileId>,
    step: DrainStep,
    later: &mut Drain,
    second: DrainStep,
)
    requires
        drain.wf(),
        call_ensures(Drain::next, (drain, Some(offered), false), step),
        *later == *final(drain),
        call_ensures(Drain::next, (later, None, false), second),
    ensures
        offered@.len() == 0 ==> step is Rest,
        offered@.len() > 0 ==> step == DrainStep::Work(offered@[0]),
        offered@.len() > 1 ==> second == DrainStep::Work(offered@[1]),
        offered@.len() == 1 ==> second is Poll,
{
}

/// A replacement of the watched directories ends with the directories that were asked for
/// and came to be watched, where there is any; otherwise none is given up.
pub proof fn a_replacement_ends_with_what_was_asked_for(change: RootChange, r: Changed)
    requires
        call_ensures(RootChange::finish, (change,), r),
    ensures
        r.reply is Ok <==> change@.errors.len() == 0,
        change@.roots.len() > 0 ==> texts(r.roots@).len() > 0,
        !gives_up(change@) ==> texts(r.roots@) == change@.roots && r.dropped@.len() == 0,
        gives_up(change@) ==> forall|k: int|
            0 <= k < texts(r.roots@).len() ==> is_among(
                #[trigger] texts(r.roots@)[k],
                change@.requested,
            ),
{
    let s = change@;
    if s.roots.len() > 0 {
        a_change_leaves_no_gap(s);
    }
    if gives_up(s) {
        replacing_keeps_what_was_asked_for(s, s.roots.len());
    } else {
        a_failed_replacement_keeps_every_root(s, s.roots.len());
        assert(s.roots.take(s.roots.len() as int) =~= s.roots);
        assert(texts(r.dropped@).len() == r.dropped@.len());
    }
}

/// What a process occupies is read from the second number, in pages.
pub proof fn the_memory_of_a_process_is_read(
    statm: &str,
    size: Seq<char>,
    gap: Seq<char>,
    pages: nat,
    rest: Seq<char>,
    r: Option<u64>,
)
    requires
        statm@ == size + gap + decimal(pages) + rest,
        is_word(size),
        is_blank(gap),
        gap.len() > 0,
        rest.len() > 0 ==> is_white(rest[0]),
        pages * 4096 <= u64::MAX,
        call_ensures(resident_bytes, (statm,), r),
    ensures
        r is Some && r->0 == pages * 4096,
{
    memory_is_counted_in_pages(size, gap, pages, rest);
}

/// A log filter is taken only where it is not too long and is a filter; what is handed out
/// is made of the text that was asked for.
pub proof fn a_filter_is_taken_as_it_was_asked_for(
    handle: &LogLevelHandle,
    filter: &str,
    r: Result<tracing_subscriber::EnvFilter, String>,
)
    requires
        encode_utf8(filter@).len() <= usize::MAX,
        call_ensures(LogLevelHandle::check, (handle, filter), r),
    ensures
        encode_utf8(filter@).len() > 1024 ==> r is Err,
        r matches Ok(taken) ==> filter_source(taken) == filter@ && filter_failure(filter@) is None,
        r is Err && encode_utf8(filter@).len() <= 1024 && !has_shifted(filter@)
            ==> filter_failure(filter@) == Some(r->Err_0@),
{
    a_filter_is_refused_for_its_length_or_its_form(filter@);
}

/// Of each file that is asked for the last that happened to it is given.
pub proof fn the_last_of_each_file_is_given(
    store: &Store,
    ids: &[FileId],
    r: Vec<TimelineEntry>,
    n: int,
)
    requires
        store.wf(),
        call_ensures(latest_for_file_ids, (store, ids), r),
        0 <= n < ids@.len(),
    ensures
        exists|at: Seq<int>| #[trigger]
            increasing(at) && at.len() == r@.len() && (forall|i: int|
                0 <= i < r@.len() ==> 0 <= #[trigger] at[i] < ids@.len() && ids@[at[i]]
                    == r@[i].file_id),
        forall|i: int, k: int|
            0 <= i < r@.len() && 0 <= k < store@.events.len() && (
            #[trigger] store@.events[k]).file_id == (#[trigger] r@[i]).file_id
                ==> store@.events[k].at_unix_ms < r@[i].at_unix_ms || (store@.events[k].at_unix_ms
                == r@[i].at_unix_ms && k < r@[i].id),
        has_happened(store@, ids@[n]) ==> exists|i: int|
            0 <= i < r@.len() && (#[trigger] r@[i]).file_id == ids@[n],
{
    the_last_that_happened_is_given(store@, ids@, r@, n);
}

/// Every entry that has what the filters name is selected, as far as was asked for, and no
/// other.
pub proof fn entries_are_selected_by_their_fields(
    entries: Vec<TimelineEntry>,
    filters: &SearchFilters,
    limit: u32,
    r: Vec<Found>,
    k: int,
)
    requires
        call_ensures(select, (entries, filters, limit), r),
        0 <= k < entries@.len(),
    ensures
        r@.len() <= limit,
        forall|i: int|
            0 <= i < r@.len() ==> {
                let item = (#[trigger] r@[i]).item;
                &&& is_that(filters.doc_type, item.doc_type)
                &&& is_that(filters.author, item.author)
                &&& is_that(filters.language, item.language)
                &&& is_that(filters.git_branch, item.git_branch)
                &&& is_that(filters.classification, item.classification)
            },
        r@.len() < limit && filters.doc_type is None && filters.author is None && filters.language
            is None && filters.git_branch is None && filters.classification is None ==> exists|
            i: int,
        |
            0 <= i < r@.len() && (#[trigger] r@[i]).item.id == entries@[k].id,
{
    every_entry_that_passes_is_selected(r@, entries@, *filters, limit as nat, k);
}

/// Every entry is served as an item of its own, in its place.
pub proof fn every_entry_is_served(entries: Vec<TimelineEntry>, r: Vec<TimelineItem>, i: int)
    requires
        call_ensures(to_dtos, (entries,), r),
        0 <= i < entries@.len(),
    ensures
        r@.len() == entries@.len(),
        r@[i].id == entries@[i].id,
        r@[i].path == entries@[i].path,
        r@[i].at_unix_ms == entries@[i].at_unix_ms,
        r@[i].size_bytes == entries@[i].size_bytes,
        r@[i].is_dir == entries@[i].is_dir,
        r@[i].previous_path == entries@[i].previous_path,
        r@[i].doc_type == entries@[i].doc_type,
        r@[i].title == entries@[i].title,
        r@[i].author == entries@[i].author,
        r@[i].language == entries@[i].language,
        r@[i].git_branch == entries@[i].git_branch,
        r@[i].summary == entries@[i].summary,
        r@[i].keywords == entries@[i].keywords,
        r@[i].entities == entries@[i].entities,
        r@[i].classification == entries@[i].classification,
{
    assert(shows(r@[i], entries@[i]));
    an_item_shows_every_field(r@[i], entries@[i]);
}

/// A directory that came to be watched joins those that are watched; one that did not is a
/// failure that names it. Either way the change goes on to the next.
pub proof fn a_directory_is_watched_or_its_failure_told(change: &mut RootChange, told: RootOutcome)
    requires
        change.wf(),
        change@.next < change@.requested.len(),
        call_ensures(RootChange::settle, (change, told), ()),
    ensures
        final(change)@.next == old(change)@.next + 1,
        final(change)@.requested == old(change)@.requested,
        final(change)@.replacing == old(change)@.replacing,
        told is Watched ==> final(change)@.roots == old(change)@.roots.push(
            old(change)@.requested[old(change)@.next],
        ) && final(change)@.errors == old(change)@.errors,
        !(told is Watched) ==> final(change)@.roots == old(change)@.roots,
        !(told is Watched) ==> final(change)@.errors.len() == old(change)@.errors.len() + 1,
        told matches RootOutcome::ScanFailed(why) ==> final(change)@.errors.last() == "scan of "@
            + old(change)@.requested[old(change)@.next] + " failed: "@ + why@,
        told matches RootOutcome::WatchFailed(why) ==> final(change)@.errors.last()
            == "failed to watch "@ + old(change)@.requested[old(change)@.next] + ": "@ + why@,
{
}

/// The facts of a repository are added to what was found, each in its place, and take
/// nothing of it away; without a repository nothing changes.
pub proof fn the_facts_of_a_repository_are_added(found: &mut Extraction, facts: Option<GitFacts>)
    requires
        call_ensures(merge_git_facts, (found, facts), ()),
    ensures
        facts is None ==> *final(found) == *old(found),
        facts matches Some(f) ==> {
            &&& final(found).git_branch == f.branch
            &&& final(found).git_head_commit == f.head_commit
            &&& final(found).git_head_author == f.head_author
            &&& final(found).git_head_at_unix == f.head_at_unix
        },
        final(found).title == old(found).title,
        final(found).author == old(found).author,
        final(found).language == old(found).language,
        final(found).page_count == old(found).page_count,
        final(found).word_count == old(found).word_count,
        final(found).body_text == old(found).body_text,
        final(found).image_camera_model == old(found).image_camera_model,
        final(found).image_taken_at_unix == old(found).image_taken_at_unix,
{
}

/// A text of three hundred characters is enough for a request to a model, and nothing less.
pub proof fn a_short_text_is_not_worth_a_request(
    m: &FileMetadata,
    r: bool,
    longer: &FileMetadata,
    s: bool,
)
    requires
        call_ensures(has_enough_text_to_enrich, (m,), r),
        call_ensures(has_enough_text_to_enrich, (longer,), s),
    ensures
        m.body_text is None ==> !r,
        m.body_text matches Some(text) ==> (r <==> text@.len() >= 300),
        r && longer.body_text is Some && m.body_text->0@.is_prefix_of(longer.body_text->0@) ==> s,
{
}

/// A vector is as wide as the model's vectors are, or the widths are told.
pub proof fn a_vector_of_another_width_is_refused(
    config: &EmbeddingConfig,
    found: usize,
    r: Result<(), EnrichError>,
)
    requires
        call_ensures(check_width, (config, found), r),
    ensures
        r is Ok <==> found == config.dimensions,
        r matches Err(e) ==> e == (EnrichError::WrongWidth { expected: config.dimensions, found }),
{
}

/// The installer is told the release that runs, whether it is only to look, and otherwise
/// which program to replace.
pub proof fn the_installer_is_told_what_to_do(
    check_only: bool,
    exe: &str,
    release: &str,
    r: Vec<String>,
)
    requires
        call_ensures(self_update_script_args, (check_only, exe, release), r),
    ensures
        check_only ==> r@.len() == 3 && r@[0]@ == "--check-only"@,
        !check_only ==> r@.len() == 5 && r@[0]@ == "--self-update"@ && r@[1]@ == "--target-path"@
            && r@[2]@ == exe@,
        r@[r@.len() - 2]@ == "--current-version"@,
        r@.last()@ == release@,
{
    assert(texts(r@).len() == r@.len());
    assert forall|i: int| 0 <= i < r@.len() implies #[trigger] r@[i]@ == texts(r@)[i] by {}
}

/// What the clock says is taken to the millisecond: of two readings, one that is later by
/// some milliseconds gives a time that is later by as many.
pub proof fn a_reading_is_taken_to_the_millisecond(ms: u128, later: u128, r: i64, s: i64, none: i64)
    requires
        ms <= later <= i64::MAX,
        call_ensures(reading_to_unix_ms, (Some(ms),), r),
        call_ensures(reading_to_unix_ms, (Some(later),), s),
        call_ensures(reading_to_unix_ms, (None,), none),
    ensures
        r == ms,
        s - r == later - ms,
        none == 0,
{
}

/// What is not there is answered as not found; what the store says is shown as it says it,
/// and a failure of the store is the server's.
pub proof fn an_answer_has_the_status_of_its_outcome(
    missing: Reply,
    outcome: Result<Vec<(String, i64)>, String>,
    r: Reply,
)
    requires
        call_ensures(not_found, (), missing),
        call_ensures(show_facets, (outcome,), r),
    ensures
        missing.status == 404,
        missing.body matches Body::Error(words) && words@ == "not found"@,
        r.status == 200 <==> outcome is Ok,
        outcome matches Ok(values) ==> r.body == Body::Facets(values),
        outcome is Err ==> r.status == 500 && r.body is Error,
{
}

/// The three kinds of office document have each an extension of their own.
pub proof fn an_office_document_has_its_extension(ext: &str, r: Option<DocType>)
    requires
        call_ensures(office_by_extension, (ext,), r),
    ensures
        r == Some(DocType::Docx) <==> ext@ == "docx"@,
        r == Some(DocType::Xlsx) <==> ext@ == "xlsx"@,
        r == Some(DocType::Pptx) <==> ext@ == "pptx"@,
        r is Some ==> r == Some(DocType::Docx) || r == Some(DocType::Xlsx) || r == Some(
            DocType::Pptx,
        ),
{
    reveal_strlit("docx");
    reveal_strlit("xlsx");
    reveal_strlit("pptx");
    assert("docx"@[0] == 'd' && "xlsx"@[0] == 'x' && "pptx"@[0] == 'p');
}

/// A length is read with its most significant byte first: each byte counts two hundred and
/// fifty-six times the one behind it.
pub proof fn a_length_is_read_byte_by_byte(b0: u8, b1: u8, b2: u8, b3: u8, r: u32)
    requires
        call_ensures(frame_length, (b0, b1, b2, b3), r),
    ensures
        r == 256 * (256 * (256 * b0 + b1) + b2) + b3,
{
}

/// A scan leaves out six directories unless it is told otherwise, follows no link and goes
/// on to the end.
pub proof fn six_directories_are_left_out_by_default(
    options: ScanOptions,
    depth: usize,
    name: &str,
    r: bool,
)
    requires
        call_ensures(ScanOptions::default, (), options),
        call_ensures(is_skipped, (true, depth, name, &options), r),
        depth > 0,
    ensures
        r <==> name@ == ".git"@ || name@ == ".dafs"@ || name@ == "node_modules"@ || name@
            == "target"@ || name@ == ".cache"@ || name@ == "__pycache__"@,
        !options.follow_symlinks,
        options.max_entries is None,
{
    let list = texts(options.skip_dirs@);
    only_listed_directories_are_skipped(true, depth, name, &options, r);
    assert(list[0] == ".git"@ && list[1] == ".dafs"@ && list[2] == "node_modules"@);
    assert(list[3] == "target"@ && list[4] == ".cache"@ && list[5] == "__pycache__"@);
}

/// A failed extraction says what kind of document failed, where it lies and why.
pub proof fn a_failed_extraction_says_what_failed(
    kind: DocType,
    path: String,
    reason: String,
    io: String,
    panicked: String,
    malformed: String,
)
    requires
        call_ensures(ExtractError::message, (&ExtractError::Io { path, reason },), io),
        call_ensures(
            ExtractError::message,
            (&ExtractError::Panicked { doc_type: kind, path },),
            panicked,
        ),
        call_ensures(
            ExtractError::message,
            (&ExtractError::Malformed { doc_type: kind, path, reason },),
            malformed,
        ),
    ensures
        io@ == "reading "@ + path@ + ": "@ + reason@,
        ({
            let name = match kind {
                DocType::Unknown => "Unknown"@,
                DocType::Pdf => "Pdf"@,
                DocType::Docx => "Docx"@,
                DocType::Xlsx => "Xlsx"@,
                DocType::Pptx => "Pptx"@,
                DocType::Jpeg => "Jpeg"@,
                DocType::Tiff => "Tiff"@,
                DocType::Text => "Text"@,
            };
            &&& panicked@ == name + " extractor panicked on "@ + path@
            &&& malformed@ == name + " extractor failed on "@ + path@ + ": "@ + reason@
        }),
{
}

/// The limits that are kept: how much is read, kept, shown, tried and waited for.
pub proof fn the_limits_are_these()
    ensures
        api::MAX_BODY_BYTES == 64 * 1024,
        api::MAX_FACET_FILTER_LEN == 256,
        api::DEFAULT_EVENT_LIMIT == 50,
        api::DEFAULT_LOG_LIMIT == 200,
        api::MAX_LOG_LIMIT == 2000,
        crate::control::PAGE_SIZE == 4096,
        embeddings::MAX_ATTEMPTS == 5,
        embeddings::MAX_DIMENSIONS == 8192,
        crate::enrich::ENRICHMENT_VERSION == 1,
        crate::enrich::MAX_INPUT_CHARS == 8000,
        crate::enrich_worker::BATCH == 16,
        crate::enrich_worker::IDLE_POLL_MS == 500,
        enrichment::MAX_ATTEMPTS == 5,
        crate::events::MAX_LIMIT == 500,
        crate::events::DEFAULT_LIMIT == 50,
        crate::extract::EXTRACTOR_VERSION == 1,
        crate::extract::MAX_EXTRACT_BYTES == 64 * 1024 * 1024,
        crate::extract::MAX_BODY_TEXT_CHARS == 8000,
        crate::extract_worker::BATCH == 16,
        crate::extract_worker::EXTRACT_TIMEOUT_SECS == 30,
        crate::extract_worker::IDLE_POLL_MS == 500,
        crate::extract_worker::MIN_CHARS_FOR_ENRICHMENT == 300,
        crate::log_history::CAPACITY == 2000,
        crate::logging::MAX_FILTER_LEN == 1024,
        metadata::MAX_ATTEMPTS == 5,
        crate::office::MIN_CHARS_FOR_LANG_DETECT == 40,
        crate::paths::CACHE_CAPACITY == 16 * 1024,
        crate::paths::MAX_DEPTH == 256,
        crate::queue::MAX_ATTEMPTS == 5,
        crate::scan::BATCH_SIZE == 1024,
        crate::scan::BATCHES_PER_CHECKPOINT == 16,
        crate::search::FACET_FILTER_OVERSAMPLE == 5,
        crate::search::MAX_FACET_CANDIDATE_LIMIT == 500,
        crate::sniff::SNIFF_LEN == 8 * 1024,
        timeline::MAX_FACET_VALUES == 50,
        crate::watch::DEBOUNCE_MS == 500,
        crate::watch::PENDING_RENAME_TTL_MS == 1000,
        crate::watch_control::REPLY_TIMEOUT_SECS == 30,
{
}

/// A scan of a directory that does not exist fails, names it and records nothing; one of an
/// existing directory fails only where its path names nothing.
pub proof fn a_missing_directory_is_named(
    store: &mut Store,
    interner: &mut Interner,
    root: &str,
    found: bool,
    items: &[Walked],
    options: &ScanOptions,
    at: i64,
    r: Result<ScanSummary, ScanError>,
)
    requires
        call_ensures(scan, (store, interner, root, found, items, options, at), r),
    ensures
        !found ==> r is Err && r->Err_0 is MissingRoot && r->Err_0->MissingRoot_0@ == root@,
        found && components_of(root@).len() > 0 ==> r is Ok,
        found && components_of(root@).len() == 0 ==> r is Err && r->Err_0
            == ScanError::Store(StoreError::EmptyPath),
        r is Err ==> final(store)@ == old(store)@,
{
}

} // verus!

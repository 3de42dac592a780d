//! The timeline as it is served.
use vstd::prelude::*;

use crate::enrichment;
use crate::events::{
    answer_keys, count, entry_keys, file_count, is_entry, kind_text, live_files, page_size,
    stored_forms_are_distinct, timeline, EventKind, TimelineEntry, TimelineQuery,
};
use crate::facets::are_facets;
use crate::metadata::{self, FacetColumn};
use crate::queue::waiting;
use crate::ranked::{how_many, is_first_of, lemma_how_many};
use crate::store::{Store, Tables};
use crate::text::{copy_text, same_text, text_view};

verus! {

/// One row of the timeline, as served.
#[derive(Debug, PartialEq, Eq)]
pub struct TimelineItem {
    pub id: i64,
    pub path: String,
    pub kind: String,
    pub at_unix_ms: i64,
    pub size_bytes: Option<i64>,
    pub is_dir: bool,
    pub previous_path: Option<String>,
    pub doc_type: Option<String>,
    pub title: Option<String>,
    pub author: Option<String>,
    pub language: Option<String>,
    pub page_count: Option<i64>,
    pub word_count: Option<i64>,
    pub image_taken_at_unix: Option<i64>,
    pub image_camera_model: Option<String>,
    pub git_branch: Option<String>,
    pub git_head_commit: Option<String>,
    pub git_head_author: Option<String>,
    pub git_head_at_unix: Option<i64>,
    pub summary: Option<String>,
    pub keywords: Option<String>,
    pub entities: Option<String>,
    pub classification: Option<String>,
}

impl Default for TimelineItem {
    fn default() -> (r: TimelineItem)
        ensures
            r.id == 0,
            r.path@ == Seq::<char>::empty(),
            r.kind@ == Seq::<char>::empty(),
            r.at_unix_ms == 0,
            r.size_bytes is None,
            !r.is_dir,
            r.previous_path is None,
            r.doc_type is None,
            r.title is None,
            r.author is None,
            r.language is None,
            r.page_count is None,
            r.word_count is None,
            r.image_taken_at_unix is None,
            r.image_camera_model is None,
            r.git_branch is None,
            r.git_head_commit is None,
            r.git_head_author is None,
            r.git_head_at_unix is None,
            r.summary is None,
            r.keywords is None,
            r.entities is None,
            r.classification is None,
    {
        TimelineItem {
            id: 0,
            path: String::new(),
            kind: String::new(),
            at_unix_ms: 0,
            size_bytes: None,
            is_dir: false,
            previous_path: None,
            doc_type: None,
            title: None,
            author: None,
            language: None,
            page_count: None,
            word_count: None,
            image_taken_at_unix: None,
            image_camera_model: None,
            git_branch: None,
            git_head_commit: None,
            git_head_author: None,
            git_head_at_unix: None,
            summary: None,
            keywords: None,
            entities: None,
            classification: None,
        }
    }
}

impl Clone for TimelineItem {
    fn clone(&self) -> (r: TimelineItem)
        ensures
            r == *self,
    {
        TimelineItem {
            id: self.id,
            path: self.path.clone(),
            kind: self.kind.clone(),
            at_unix_ms: self.at_unix_ms,
            size_bytes: self.size_bytes,
            is_dir: self.is_dir,
            previous_path: copy_text(&self.previous_path),
            doc_type: copy_text(&self.doc_type),
            title: copy_text(&self.title),
            author: copy_text(&self.author),
            language: copy_text(&self.language),
            page_count: self.page_count,
            word_count: self.word_count,
            image_taken_at_unix: self.image_taken_at_unix,
            image_camera_model: copy_text(&self.image_camera_model),
            git_branch: copy_text(&self.git_branch),
            git_head_commit: copy_text(&self.git_head_commit),
            git_head_author: copy_text(&self.git_head_author),
            git_head_at_unix: self.git_head_at_unix,
            summary: copy_text(&self.summary),
            keywords: copy_text(&self.keywords),
            entities: copy_text(&self.entities),
            classification: copy_text(&self.classification),
        }
    }
}

/// Counts for the metrics.
#[derive(Debug, Clone, Copy, PartialEq, Eq, Structural)]
pub struct TimelineStats {
    pub events: i64,
    pub files: i64,
    /// Files in the extraction queue, those tried too often included.
    pub pending_extractions: i64,
}

impl Default for TimelineStats {
    fn default() -> (r: TimelineStats)
        ensures
            r == (TimelineStats { events: 0, files: 0, pending_extractions: 0 }),
    {
        TimelineStats { events: 0, files: 0, pending_extractions: 0 }
    }
}

/// What serving the timeline needs of a store.
pub trait TimelineStore {
    fn timeline(
        &self,
        limit: u32,
        before_id: Option<i64>,
        kind: Option<&str>,
        doc_type: Option<&str>,
        author: Option<&str>,
        language: Option<&str>,
        git_branch: Option<&str>,
        classification: Option<&str>,
    ) -> Result<Vec<TimelineItem>, String>;

    /// Counts for the metrics.
    fn stats(&self) -> Result<TimelineStats, String>;

    /// Distinct values of one facet column with their counts, most common first.
    fn facets(&self, field: &str) -> Result<Vec<(String, i64)>, String>;
}

/// Whether an item shows an entry of the timeline.
pub open spec fn shows(item: TimelineItem, entry: TimelineEntry) -> bool {
    &&& item.kind@ == kind_text(entry.kind)
    &&& item == (TimelineItem {
        kind: item.kind,
        id: entry.id,
        path: entry.path,
        at_unix_ms: entry.at_unix_ms,
        size_bytes: entry.size_bytes,
        is_dir: entry.is_dir,
        previous_path: entry.previous_path,
        doc_type: entry.doc_type,
        title: entry.title,
        author: entry.author,
        language: entry.language,
        page_count: entry.page_count,
        word_count: entry.word_count,
        image_taken_at_unix: entry.image_taken_at_unix,
        image_camera_model: entry.image_camera_model,
        git_branch: entry.git_branch,
        git_head_commit: entry.git_head_commit,
        git_head_author: entry.git_head_author,
        git_head_at_unix: entry.git_head_at_unix,
        summary: entry.summary,
        keywords: entry.keywords,
        entities: entry.entities,
        classification: entry.classification,
    })
}

/// An entry of the timeline as it is served.
pub fn to_dto(entry: TimelineEntry) -> (r: TimelineItem)
    ensures
        shows(r, entry),
{
    TimelineItem {
        kind: entry.kind.as_str().to_owned(),
        id: entry.id,
        path: entry.path,
        at_unix_ms: entry.at_unix_ms,
        size_bytes: entry.size_bytes,
        is_dir: entry.is_dir,
        previous_path: entry.previous_path,
        doc_type: entry.doc_type,
        title: entry.title,
        author: entry.author,
        language: entry.language,
        page_count: entry.page_count,
        word_count: entry.word_count,
        image_taken_at_unix: entry.image_taken_at_unix,
        image_camera_model: entry.image_camera_model,
        git_branch: entry.git_branch,
        git_head_commit: entry.git_head_commit,
        git_head_author: entry.git_head_author,
        git_head_at_unix: entry.git_head_at_unix,
        summary: entry.summary,
        keywords: entry.keywords,
        entities: entry.entities,
        classification: entry.classification,
    }
}

/// Whether items show entries, one for one.
pub open spec fn show_all(items: Seq<TimelineItem>, entries: Seq<TimelineEntry>) -> bool {
    &&& items.len() == entries.len()
    &&& forall|i: int| 0 <= i < items.len() ==> shows(#[trigger] items[i], entries[i])
}

/// Entries of the timeline as they are served.
pub fn to_dtos(entries: Vec<TimelineEntry>) -> (r: Vec<TimelineItem>)
    ensures
        show_all(r@, entries@),
{
    let ghost all = entries@;
    let mut left = entries;
    let mut reversed: Vec<TimelineItem> = Vec::new();
    while left.len() > 0
        invariant
            left@ == all.take(left@.len() as int),
            left@.len() + reversed@.len() == all.len(),
            forall|i: int|
                0 <= i < reversed@.len() ==> shows(
                    #[trigger] reversed@[i],
                    all[all.len() - 1 - i],
                ),
        decreases left.len(),
    {
        let ghost before = left@;
        match left.pop() {
            Some(entry) => {
                assert(before.last() == all[before.len() - 1]);
                reversed.push(to_dto(entry));
                assert(left@ =~= all.take(left@.len() as int));
            },
            None => {},
        }
    }
    let mut out: Vec<TimelineItem> = Vec::new();
    let ghost turned = reversed@;
    while reversed.len() > 0
        invariant
            reversed@ == turned.take(reversed@.len() as int),
            reversed@.len() + out@.len() == turned.len(),
            turned.len() == all.len(),
            forall|i: int|
                0 <= i < turned.len() ==> shows(#[trigger] turned[i], all[all.len() - 1 - i]),
            forall|i: int| 0 <= i < out@.len() ==> shows(#[trigger] out@[i], all[i]),
        decreases reversed.len(),
    {
        let ghost before = reversed@;
        match reversed.pop() {
            Some(item) => {
                assert(before.last() == turned[before.len() - 1]);
                assert(shows(item, all[out@.len() as int]));
                out.push(item);
                assert(reversed@ =~= turned.take(reversed@.len() as int));
            },
            None => {},
        }
    }
    out
}

/// An optional text as optional characters.
pub open spec fn given(text: Option<&str>) -> Option<Seq<char>> {
    match text {
        Some(t) => Some(t@),
        None => None,
    }
}

fn owned(text: Option<&str>) -> (r: Option<String>)
    ensures
        text_view(r) == given(text),
{
    match text {
        Some(t) => Some(t.to_owned()),
        None => None,
    }
}

/// The kind of event that a text names. A text that names none filters nothing.
pub open spec fn is_kind_filter(kind: Option<EventKind>, text: Option<Seq<char>>) -> bool {
    match (kind, text) {
        (Some(k), Some(t)) => kind_text(k) == t,
        (Some(_), None) => false,
        (None, Some(t)) => forall|k: EventKind| kind_text(k) != t,
        (None, None) => true,
    }
}

/// The query for what a caller asked.
pub fn timeline_query(
    limit: u32,
    before_id: Option<i64>,
    kind: Option<&str>,
    doc_type: Option<&str>,
    author: Option<&str>,
    language: Option<&str>,
    git_branch: Option<&str>,
    classification: Option<&str>,
) -> (r: TimelineQuery)
    ensures
        r.limit == Some(limit),
        r.before_id == before_id,
        is_kind_filter(r.kind, given(kind)),
        text_view(r.doc_type) == given(doc_type),
        text_view(r.author) == given(author),
        text_view(r.language) == given(language),
        text_view(r.git_branch) == given(git_branch),
        text_view(r.classification) == given(classification),
{
    let parsed = match kind {
        Some(text) => EventKind::parse(text),
        None => None,
    };
    TimelineQuery {
        limit: Some(limit),
        before_id,
        kind: parsed,
        doc_type: owned(doc_type),
        author: owned(author),
        language: owned(language),
        git_branch: owned(git_branch),
        classification: owned(classification),
    }
}

/// Whether items show the page of the timeline that a query asks for.
pub open spec fn is_page(items: Seq<TimelineItem>, t: Tables, query: TimelineQuery) -> bool {
    exists|entries: Seq<TimelineEntry>| #[trigger]
        show_all(items, entries) && is_first_of(
            entry_keys(entries),
            answer_keys(t, query, t.events.len()),
            page_size(query.limit) as nat,
        ) && (forall|i: int| 0 <= i < entries.len() ==> is_entry(t, #[trigger] entries[i]))
}

/// A page of the timeline, as served.
pub fn timeline_page(store: &Store, query: &TimelineQuery) -> (r: Vec<TimelineItem>)
    requires
        store.wf(),
    ensures
        is_page(r@, store@, *query),
{
    let entries = timeline(store, query);
    let ghost shown = entries@;
    let items = to_dtos(entries);
    assert(show_all(items@, shown));
    items
}

/// Counts for the metrics.
pub fn stats(store: &Store) -> (r: TimelineStats)
    requires
        store.wf(),
    ensures
        r.events == store@.events.len(),
        r.files == live_files(store@, store@.files.len()),
        r.pending_extractions == waiting(
            store@.extraction_queue,
            store@.extraction_queue.len(),
        ),
{
    TimelineStats {
        events: count(store),
        files: file_count(store),
        pending_extractions: metadata::queue_depth(store),
    }
}

/// At most this many values of a facet are given.
pub const MAX_FACET_VALUES: u32 = 50;

/// The values of the facet that a name stands for; none where it stands for
/// none.
pub open spec fn facet_column(t: Tables, field: Seq<char>) -> Option<Seq<Option<Seq<char>>>> {
    if field == "classification"@ {
        Some(enrichment::facet_values(t, enrichment::FacetColumn::Classification))
    } else if field == "doc_type"@ {
        Some(metadata::facet_values(t, FacetColumn::DocType))
    } else if field == "author"@ {
        Some(metadata::facet_values(t, FacetColumn::Author))
    } else if field == "language"@ {
        Some(metadata::facet_values(t, FacetColumn::Language))
    } else if field == "git_branch"@ {
        Some(metadata::facet_values(t, FacetColumn::GitBranch))
    } else {
        None
    }
}

/// Distinct values of the facet with the given name, with their counts.
pub fn facets(store: &Store, field: &str) -> (r: Result<Vec<(String, i64)>, String>)
    requires
        store.wf(),
    ensures
        match facet_column(store@, field@) {
            Some(column) => r matches Ok(values) && are_facets(
                values@,
                column,
                MAX_FACET_VALUES as nat,
            ),
            None => r matches Err(e) && e@ == "unknown facet field: "@ + field@,
        },
{
    if same_text(field, "classification") {
        return Ok(
            enrichment::distinct_facets(
                store,
                enrichment::FacetColumn::Classification,
                MAX_FACET_VALUES,
            ),
        );
    }
    let column = if same_text(field, "doc_type") {
        FacetColumn::DocType
    } else if same_text(field, "author") {
        FacetColumn::Author
    } else if same_text(field, "language") {
        FacetColumn::Language
    } else if same_text(field, "git_branch") {
        FacetColumn::GitBranch
    } else {
        let mut message = "unknown facet field: ".to_owned();
        message.append(field);
        return Err(message);
    };
    Ok(metadata::distinct_facets(store, column, MAX_FACET_VALUES))
}

// Laws.

/// An item that is served shows every field of its entry in its place.
pub proof fn an_item_shows_every_field(item: TimelineItem, entry: TimelineEntry)
    requires
        shows(item, entry),
    ensures
        item.id == entry.id,
        item.path == entry.path,
        item.kind@ == (match entry.kind {
            EventKind::Created => "created"@,
            EventKind::Modified => "modified"@,
            EventKind::Deleted => "deleted"@,
            EventKind::Renamed => "renamed"@,
        }),
        item.at_unix_ms == entry.at_unix_ms,
        item.size_bytes == entry.size_bytes,
        item.is_dir == entry.is_dir,
        item.previous_path == entry.previous_path,
        item.doc_type == entry.doc_type,
        item.title == entry.title,
        item.author == entry.author,
        item.language == entry.language,
        item.page_count == entry.page_count,
        item.word_count == entry.word_count,
        item.image_taken_at_unix == entry.image_taken_at_unix,
        item.image_camera_model == entry.image_camera_model,
        item.git_branch == entry.git_branch,
        item.git_head_commit == entry.git_head_commit,
        item.git_head_author == entry.git_head_author,
        item.git_head_at_unix == entry.git_head_at_unix,
        item.summary == entry.summary,
        item.keywords == entry.keywords,
        item.entities == entry.entities,
        item.classification == entry.classification,
{
}

/// A kind of event is asked for by its stored form, and by nothing else.
pub proof fn a_kind_is_asked_for_by_its_stored_form(kind: EventKind, asked: Option<EventKind>)
    requires
        is_kind_filter(asked, Some(kind_text(kind))),
    ensures
        asked == Some(kind),
        is_kind_filter(None, None),
        !is_kind_filter(Some(kind), None),
{
    stored_forms_are_distinct();
}

/// A facet is asked for by the name of what it counts, and a name that stands for none
/// gives none.
pub proof fn a_facet_is_asked_for_by_its_name(t: Tables, k: int, field: Seq<char>)
    requires
        0 <= k < t.metadata.len(),
        k < t.enrichment.len(),
    ensures
        facet_column(t, "doc_type"@) is Some && facet_column(t, "doc_type"@)->0[k] == (
        match t.metadata[k] {
            Some(m) => text_view(m.doc_type),
            None => None,
        }),
        facet_column(t, "author"@) is Some && facet_column(t, "author"@)->0[k] == (
        match t.metadata[k] {
            Some(m) => text_view(m.author),
            None => None,
        }),
        facet_column(t, "language"@) is Some && facet_column(t, "language"@)->0[k] == (
        match t.metadata[k] {
            Some(m) => text_view(m.language),
            None => None,
        }),
        facet_column(t, "git_branch"@) is Some && facet_column(t, "git_branch"@)->0[k] == (
        match t.metadata[k] {
            Some(m) => text_view(m.git_branch),
            None => None,
        }),
        facet_column(t, "classification"@) is Some && facet_column(t, "classification"@)->0[k] == (
        match t.enrichment[k] {
            Some(e) => text_view(e.classification),
            None => None,
        }),
        facet_column(t, field) is Some ==> field == "doc_type"@ || field == "author"@ || field
            == "language"@ || field == "git_branch"@ || field == "classification"@,
{
    reveal_strlit("doc_type");
    reveal_strlit("author");
    reveal_strlit("language");
    reveal_strlit("git_branch");
    reveal_strlit("classification");
    assert("doc_type"@.len() == 8 && "author"@.len() == 6 && "language"@.len() == 8);
    assert("git_branch"@.len() == 10 && "classification"@.len() == 14);
    assert("doc_type"@[0] == 'd' && "language"@[0] == 'l');
}

/// The files that are counted are those that are there and no directories.
pub proof fn live_files_are_counted(t: Tables, n: nat)
    ensures
        live_files(t, n) == how_many(
            n,
            |k: int| t.files[k].deleted_at is None && !t.files[k].is_dir,
        ),
    decreases n,
{
    lemma_how_many(n, |k: int| t.files[k].deleted_at is None && !t.files[k].is_dir);
    if n > 0 {
        live_files_are_counted(t, (n - 1) as nat);
    }
}

/// A page holds as many events as were asked for, at least one and at most five hundred,
/// and fifty where no number was given.
pub proof fn a_page_is_as_long_as_asked_for(n: u32)
    ensures
        1 <= n <= 500 ==> page_size(Some(n)) == n,
        n == 0 ==> page_size(Some(n)) == 1,
        n > 500 ==> page_size(Some(n)) == 500,
        page_size(None) == 50,
{
}

} // verus!

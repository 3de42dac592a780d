//! The event log: append-only writes, and the timeline query that reads them.
//!
//! An event is written once and never updated in place. There is deliberately
//! no way to change one here: a correction is a new event.
use vstd::prelude::*;

use crate::enrichment::FileEnrichment;
use crate::metadata::FileMetadata;
use crate::paths::{path_of, resolve_path};
use crate::ranked::{first_of_is_unique, in_order, is_first_of, keep_first, Ranked};
use crate::store::{ComponentId, FileId, Store, StoreError, Tables};
use crate::text::{copy_text, same_text, text_view};

verus! {

/// What happened to a file.
#[derive(Debug, Clone, Copy, PartialEq, Eq, Structural)]
pub enum EventKind {
    Created,
    Modified,
    Deleted,
    Renamed,
}

/// The stored form of a kind.
pub open spec fn kind_text(kind: EventKind) -> Seq<char> {
    match kind {
        EventKind::Created => "created"@,
        EventKind::Modified => "modified"@,
        EventKind::Deleted => "deleted"@,
        EventKind::Renamed => "renamed"@,
    }
}

impl EventKind {
    /// The stored form.
    pub fn as_str(self) -> (r: &'static str)
        ensures
            r@ == kind_text(self),
    {
        match self {
            EventKind::Created => "created",
            EventKind::Modified => "modified",
            EventKind::Deleted => "deleted",
            EventKind::Renamed => "renamed",
        }
    }

    /// The kind with this stored form, if there is one.
    pub fn parse(s: &str) -> (r: Option<EventKind>)
        ensures
            r matches Some(kind) ==> kind_text(kind) == s@,
            r is None ==> forall|kind: EventKind| kind_text(kind) != s@,
            forall|kind: EventKind| kind_text(kind) == s@ ==> r == Some(kind),
    {
        proof {
            stored_forms_are_distinct();
        }
        let parsed = if same_text(s, "created") {
            Some(EventKind::Created)
        } else if same_text(s, "modified") {
            Some(EventKind::Modified)
        } else if same_text(s, "deleted") {
            Some(EventKind::Deleted)
        } else if same_text(s, "renamed") {
            Some(EventKind::Renamed)
        } else {
            None
        };
        assert(parsed matches Some(kind) ==> kind_text(kind) == s@);
        parsed
    }

    /// The kind that an event in the database is shown as: one that is not known
    /// here says at least that something changed.
    pub fn of_stored(s: &str) -> (r: EventKind)
        ensures
            kind_text(r) == s@ || (r == EventKind::Modified && forall|kind: EventKind|
                kind_text(kind) != s@),
    {
        match EventKind::parse(s) {
            Some(kind) => kind,
            None => EventKind::Modified,
        }
    }
}

/// Two kinds never share a stored form, so that what is written is read back.
pub proof fn stored_forms_are_distinct()
    ensures
        forall|a: EventKind, b: EventKind| kind_text(a) == kind_text(b) ==> a == b,
{
    reveal_strlit("created");
    reveal_strlit("modified");
    reveal_strlit("deleted");
    reveal_strlit("renamed");
    assert("created"@[0] == 'c');
    assert("modified"@[0] == 'm');
    assert("deleted"@[0] == 'd');
    assert("renamed"@[0] == 'r');
}

/// One row of the timeline, with its path already resolved and what is known
/// of its file.
#[derive(Debug)]
pub struct TimelineEntry {
    pub id: i64,
    pub file_id: FileId,
    pub path: String,
    pub kind: EventKind,
    pub at_unix_ms: i64,
    pub size_bytes: Option<i64>,
    pub is_dir: bool,
    /// Previous path, for renames.
    pub previous_path: Option<String>,
    pub doc_type: Option<String>,
    pub title: Option<String>,
    pub author: Option<String>,
    pub language: Option<String>,
    pub page_count: Option<i64>,
    pub word_count: Option<i64>,
    pub image_taken_at_unix: Option<i64>,
    pub image_camera_model: Option<String>,
    pub git_branch: Option<String>,
    pub git_head_commit: Option<String>,
    pub git_head_author: Option<String>,
    pub git_head_at_unix: Option<i64>,
    pub summary: Option<String>,
    pub keywords: Option<String>,
    pub entities: Option<String>,
    pub classification: Option<String>,
}

/// An event to append.
#[derive(Debug, Clone, Copy, PartialEq, Eq)]
pub struct NewEvent {
    pub file_id: FileId,
    pub kind: EventKind,
    pub at_unix_ms: i64,
    pub size_bytes: Option<i64>,
    pub prev_parent_id: Option<FileId>,
    pub prev_component_id: Option<ComponentId>,
}

impl NewEvent {
    /// An event about `file_id` happening now.
    pub fn now(file_id: FileId, kind: EventKind) -> (r: NewEvent)
        ensures
            r.file_id == file_id,
            r.kind == kind,
            r.size_bytes is None,
            r.prev_parent_id is None,
            r.prev_component_id is None,
            is_clock_time(r.at_unix_ms),
    {
        NewEvent {
            file_id,
            kind,
            at_unix_ms: now_unix_ms(),
            size_bytes: None,
            prev_parent_id: None,
            prev_component_id: None,
        }
    }

    pub fn with_size(self, size: Option<i64>) -> (r: NewEvent)
        ensures
            r == (NewEvent { size_bytes: size, ..self }),
    {
        NewEvent { size_bytes: size, ..self }
    }

    pub fn at(self, at_unix_ms: i64) -> (r: NewEvent)
        ensures
            r == (NewEvent { at_unix_ms: at_unix_ms, ..self }),
    {
        NewEvent { at_unix_ms, ..self }
    }
}

/// `SystemTime::now`, as the milliseconds since the unix epoch; nothing where
/// the clock stands before it. Nothing is said of the reading.
#[verifier::external_body]
fn clock_ms() -> (r: Option<u128>) {
    std::time::SystemTime::now().duration_since(std::time::UNIX_EPOCH).ok().map(|d| d.as_millis())
}

/// A clock reading as a timestamp: a clock before the epoch reads as the
/// epoch.
pub fn reading_to_unix_ms(reading: Option<u128>) -> (r: i64)
    ensures
        match reading {
            Some(ms) => r == ms as i64,
            None => r == 0,
        },
{
    match reading {
        Some(ms) => ms as i64,
        None => 0,
    }
}

/// Whether the clock can have been read so.
pub closed spec fn is_reading(reading: Option<u128>) -> bool {
    call_ensures(clock_ms, (), reading)
}

/// Whether a timestamp is a time at which the clock was read: the very milliseconds
/// of the reading, or the epoch where the clock stands before it.
pub open spec fn is_clock_time(at: i64) -> bool {
    exists|reading: Option<u128>| #[trigger]
        is_reading(reading) && match reading {
            Some(ms) => at == ms as i64,
            None => at == 0,
        }
}

/// The time now, in unix milliseconds: that of one reading of the clock.
pub fn now_unix_ms() -> (r: i64)
    ensures
        is_clock_time(r),
{
    let reading = clock_ms();
    assert(is_reading(reading));
    reading_to_unix_ms(reading)
}

/// Whether everything an event refers to exists.
pub open spec fn references_exist(t: Tables, e: NewEvent) -> bool {
    &&& t.has_file(e.file_id)
    &&& t.parent_ok(e.prev_parent_id)
    &&& e.prev_component_id matches Some(c) ==> t.has_component(c)
}

/// Whether everything that an event refers to exists.
pub(crate) fn check_references(store: &Store, e: &NewEvent) -> (r: bool)
    requires
        store.wf(),
    ensures
        r == references_exist(store@, *e),
{
    let parent_known = match e.prev_parent_id {
        Some(p) => store.has_file(p),
        None => true,
    };
    let component_known = match e.prev_component_id {
        Some(c) => store.has_component(c),
        None => true,
    };
    store.has_file(e.file_id) && parent_known && component_known
}

/// Append one event, giving its id.
pub fn append(store: &mut Store, event: &NewEvent) -> (r: Result<i64, StoreError>)
    requires
        old(store).wf(),
        old(store)@.events.len() < i64::MAX,
    ensures
        final(store).wf(),
        final(store).taken() == old(store).taken(),
        r is Ok <==> references_exist(old(store)@, *event),
        match r {
            Ok(id) => final(store)@ == old(store)@.add_event(*event) && id
                == final(store)@.events.len(),
            Err(e) => e is MissingReference && final(store)@ == old(store)@,
        },
{
    if !check_references(store, event) {
        return Err(StoreError::MissingReference);
    }
    Ok(store.add_event(*event))
}

/// The tables with many events appended.
pub open spec fn with_events(t: Tables, events: Seq<NewEvent>) -> Tables {
    Tables { events: t.events + events, ..t }
}

/// Append many events at once: all of them, or where any refers to something
/// that does not exist, none.
pub fn append_batch(store: &mut Store, events: &[NewEvent]) -> (r: Result<usize, StoreError>)
    requires
        old(store).wf(),
        old(store)@.events.len() + events@.len() <= i64::MAX,
    ensures
        final(store).wf(),
        final(store).taken() == old(store).taken(),
        r is Ok <==> forall|i: int|
            0 <= i < events@.len() ==> references_exist(old(store)@, #[trigger] events@[i]),
        match r {
            Ok(n) => n == events@.len() && final(store)@ == with_events(old(store)@, events@),
            Err(e) => e is MissingReference && final(store)@ == old(store)@,
        },
{
    let ghost t = store@;
    let mut i: usize = 0;
    while i < events.len()
        invariant
            0 <= i <= events@.len(),
            store.wf(),
            store@ == t,
            store.taken() == old(store).taken(),
            t == old(store)@,
            forall|k: int| 0 <= k < i ==> references_exist(t, #[trigger] events@[k]),
        decreases events@.len() - i,
    {
        if !check_references(store, &events[i]) {
            return Err(StoreError::MissingReference);
        }
        i = i + 1;
    }
    let mut n: usize = 0;
    assert(with_events(t, events@.take(0)) =~= t);
    while n < events.len()
        invariant
            0 <= n <= events@.len(),
            store.wf(),
            store.taken() == old(store).taken(),
            t == old(store)@,
            t.events.len() + events@.len() <= i64::MAX,
            store@ =~= with_events(t, events@.take(n as int)),
            forall|k: int| 0 <= k < events@.len() ==> references_exist(t, #[trigger] events@[k]),
        decreases events@.len() - n,
    {
        assert(references_exist(t, events@[n as int]));
        let added = store.add_event(events[n]);
        n = n + 1;
        assert(store@ =~= with_events(t, events@.take(n as int)));
    }
    assert(events@.take(n as int) =~= events@);
    Ok(n)
}

/// How many events one page of the timeline may hold.
pub const MAX_LIMIT: u32 = 500;

pub const DEFAULT_LIMIT: u32 = 50;

/// Timeline query parameters.
#[derive(Debug, Clone)]
pub struct TimelineQuery {
    pub limit: Option<u32>,
    /// Return only events strictly older than this id: the pagination cursor.
    ///
    /// An id rather than a timestamp: many events share a millisecond during a
    /// scan, and a timestamp cursor would either skip or repeat them at a page
    /// boundary.
    pub before_id: Option<i64>,
    pub kind: Option<EventKind>,
    pub doc_type: Option<String>,
    pub author: Option<String>,
    pub language: Option<String>,
    pub git_branch: Option<String>,
    pub classification: Option<String>,
}

impl Default for TimelineQuery {
    fn default() -> (r: TimelineQuery)
        ensures
            r == (TimelineQuery {
                limit: None,
                before_id: None,
                kind: None,
                doc_type: None,
                author: None,
                language: None,
                git_branch: None,
                classification: None,
            }),
    {
        TimelineQuery {
            limit: None,
            before_id: None,
            kind: None,
            doc_type: None,
            author: None,
            language: None,
            git_branch: None,
            classification: None,
        }
    }
}

/// The page size a requested limit stands for: 50 where none is given, never
/// less than 1, never more than [`MAX_LIMIT`].
pub open spec fn page_size(limit: Option<u32>) -> u32 {
    match limit {
        None => DEFAULT_LIMIT,
        Some(n) => if n < 1 {
            1u32
        } else if n > MAX_LIMIT {
            MAX_LIMIT
        } else {
            n
        },
    }
}

impl TimelineQuery {
    /// The page size of this query.
    pub fn effective_limit(&self) -> (r: u32)
        ensures
            r == page_size(self.limit),
            1 <= r <= MAX_LIMIT,
    {
        match self.limit {
            None => DEFAULT_LIMIT,
            Some(n) => if n < 1 {
                1
            } else if n > MAX_LIMIT {
                MAX_LIMIT
            } else {
                n
            },
        }
    }
}

/// Whether a value passes a filter: no filter passes everything, a filter
/// passes only a value that is there and equal.
pub open spec fn passes(filter: Option<String>, value: Option<String>) -> bool {
    match filter {
        None => true,
        Some(f) => value matches Some(v) && v@ == f@,
    }
}

pub(crate) fn check_filter(filter: &Option<String>, value: &Option<String>) -> (r: bool)
    ensures
        r == passes(*filter, *value),
{
    match filter {
        None => true,
        Some(f) => match value {
            Some(v) => same_text(v.as_str(), f.as_str()),
            None => false,
        },
    }
}

/// Whether the event at position `k` of the log answers the query.
pub open spec fn answers(t: Tables, q: TimelineQuery, k: int) -> bool {
    let e = t.events[k];
    &&& q.before_id matches Some(before) ==> k + 1 < before
    &&& q.kind matches Some(kind) ==> e.kind == kind
    &&& facets_pass(t.metadata[e.file_id - 1], t.enrichment[e.file_id - 1], q)
}

/// Whether what is known of a file passes the query's facet filters.
pub open spec fn facets_pass(
    m: Option<FileMetadata>,
    e: Option<FileEnrichment>,
    q: TimelineQuery,
) -> bool {
    &&& match m {
        Some(m) => passes(q.doc_type, m.doc_type) && passes(q.author, m.author) && passes(
            q.language,
            m.language,
        ) && passes(q.git_branch, m.git_branch),
        None => q.doc_type is None && q.author is None && q.language is None && q.git_branch
            is None,
    }
    &&& match e {
        Some(e) => passes(q.classification, e.classification),
        None => q.classification is None,
    }
}

fn check_facets(m: &Option<FileMetadata>, e: &Option<FileEnrichment>, q: &TimelineQuery) -> (r: bool)
    ensures
        r == facets_pass(*m, *e, *q),
{
    let extracted = match m {
        Some(m) => check_filter(&q.doc_type, &m.doc_type) && check_filter(&q.author, &m.author)
            && check_filter(&q.language, &m.language) && check_filter(
            &q.git_branch,
            &m.git_branch,
        ),
        None => q.doc_type.is_none() && q.author.is_none() && q.language.is_none()
            && q.git_branch.is_none(),
    };
    let enriched = match e {
        Some(e) => check_filter(&q.classification, &e.classification),
        None => q.classification.is_none(),
    };
    extracted && enriched
}

/// What the timeline is ordered by: most recent first, and of the events of
/// one millisecond the one appended last first.
#[derive(Debug, Clone, Copy, PartialEq, Eq)]
pub struct EventKey {
    pub at_unix_ms: i64,
    pub id: i64,
}

impl Ranked for EventKey {
    open spec fn before(self, other: EventKey) -> bool {
        self.at_unix_ms > other.at_unix_ms || (self.at_unix_ms == other.at_unix_ms && self.id
            > other.id)
    }

    proof fn before_is_strict(a: EventKey, b: EventKey) {
    }

    proof fn before_is_transitive(a: EventKey, b: EventKey, c: EventKey) {
    }

    fn is_before(&self, other: &EventKey) -> (r: bool) {
        self.at_unix_ms > other.at_unix_ms || (self.at_unix_ms == other.at_unix_ms && self.id
            > other.id)
    }
}

pub open spec fn event_key(t: Tables, k: int) -> EventKey {
    EventKey { at_unix_ms: t.events[k].at_unix_ms, id: (k + 1) as i64 }
}

/// The keys of the first `n` events of the log that answer the query.
pub open spec fn answer_keys(t: Tables, q: TimelineQuery, n: nat) -> Seq<EventKey>
    decreases n,
{
    if n == 0 {
        Seq::empty()
    } else {
        let before = answer_keys(t, q, (n - 1) as nat);
        if answers(t, q, n - 1) {
            before.push(event_key(t, n - 1))
        } else {
            before
        }
    }
}

/// Where a renamed file used to be.
pub open spec fn previous_path_of(
    t: Tables,
    parent: Option<FileId>,
    component: Option<ComponentId>,
) -> Option<Seq<char>> {
    match component {
        None => None,
        Some(c) => if !t.has_component(c) {
            None
        } else {
            match parent {
                Some(p) => Some(path_of(t, p) + seq!['/'] + t.components[c - 1]),
                None => Some(seq!['/'] + t.components[c - 1]),
            }
        },
    }
}

/// Whether `e` is the timeline row of the event with its id.
pub open spec fn is_entry(t: Tables, e: TimelineEntry) -> bool {
    &&& t.has_event(e.id)
    &&& ({
        let event = t.events[e.id - 1];
        let m = t.metadata[event.file_id - 1];
        let n = t.enrichment[event.file_id - 1];
        &&& e.file_id == event.file_id
        &&& e.path@ == path_of(t, event.file_id)
        &&& e.kind == event.kind
        &&& e.at_unix_ms == event.at_unix_ms
        &&& e.size_bytes == event.size_bytes
        &&& e.is_dir == t.file(event.file_id).is_dir
        &&& text_view(e.previous_path) == previous_path_of(
            t,
            event.prev_parent_id,
            event.prev_component_id,
        )
        &&& match m {
            Some(m) => {
                &&& e.doc_type == m.doc_type
                &&& e.title == m.title
                &&& e.author == m.author
                &&& e.language == m.language
                &&& e.page_count == m.page_count
                &&& e.word_count == m.word_count
                &&& e.image_taken_at_unix == m.image_taken_at_unix
                &&& e.image_camera_model == m.image_camera_model
                &&& e.git_branch == m.git_branch
                &&& e.git_head_commit == m.git_head_commit
                &&& e.git_head_author == m.git_head_author
                &&& e.git_head_at_unix == m.git_head_at_unix
            },
            None => {
                &&& e.doc_type is None
                &&& e.title is None
                &&& e.author is None
                &&& e.language is None
                &&& e.page_count is None
                &&& e.word_count is None
                &&& e.image_taken_at_unix is None
                &&& e.image_camera_model is None
                &&& e.git_branch is None
                &&& e.git_head_commit is None
                &&& e.git_head_author is None
                &&& e.git_head_at_unix is None
            },
        }
        &&& match n {
            Some(n) => {
                &&& e.summary == n.summary
                &&& e.keywords == n.keywords
                &&& e.entities == n.entities
                &&& e.classification == n.classification
            },
            None => {
                &&& e.summary is None
                &&& e.keywords is None
                &&& e.entities is None
                &&& e.classification is None
            },
        }
    })
}

pub open spec fn entry_keys(entries: Seq<TimelineEntry>) -> Seq<EventKey> {
    entries.map_values(|e: TimelineEntry| EventKey { at_unix_ms: e.at_unix_ms, id: e.id })
}

/// Reconstruct where a renamed file used to be.
fn previous_path(store: &Store, parent: Option<FileId>, component: Option<ComponentId>) -> (r:
    Option<String>)
    requires
        store.wf(),
    ensures
        text_view(r) == previous_path_of(store@, parent, component),
{
    match component {
        None => None,
        Some(c) => {
            if !store.has_component(c) {
                return None;
            }
            let mut path = match parent {
                Some(p) => resolve_path(store, p),
                None => String::new(),
            };
            path.push('/');
            path.append(store.component_name(c).as_str());
            proof {
                let name = store@.components[c - 1];
                match parent {
                    Some(p) => {
                        assert(path@ =~= path_of(store@, p) + seq!['/'] + name);
                    },
                    None => {
                        assert(path@ =~= seq!['/'] + name);
                    },
                }
            }
            Some(path)
        },
    }
}

/// The timeline row of one event.
fn entry_of(store: &Store, id: i64) -> (r: TimelineEntry)
    requires
        store.wf(),
        store@.has_event(id),
    ensures
        is_entry(store@, r),
        r.id == id,
{
    let event = store.event(id);
    assert(store@.has_file(store@.events[id - 1].file_id));
    let path = resolve_path(store, event.file_id);
    let previous = previous_path(store, event.prev_parent_id, event.prev_component_id);
    let row = store.file(event.file_id);
    let mut e = TimelineEntry {
        id,
        file_id: event.file_id,
        path,
        kind: event.kind,
        at_unix_ms: event.at_unix_ms,
        size_bytes: event.size_bytes,
        is_dir: row.is_dir,
        previous_path: previous,
        doc_type: None,
        title: None,
        author: None,
        language: None,
        page_count: None,
        word_count: None,
        image_taken_at_unix: None,
        image_camera_model: None,
        git_branch: None,
        git_head_commit: None,
        git_head_author: None,
        git_head_at_unix: None,
        summary: None,
        keywords: None,
        entities: None,
        classification: None,
    };
    if let Some(m) = store.metadata_of(event.file_id) {
        e.doc_type = copy_text(&m.doc_type);
        e.title = copy_text(&m.title);
        e.author = copy_text(&m.author);
        e.language = copy_text(&m.language);
        e.page_count = m.page_count;
        e.word_count = m.word_count;
        e.image_taken_at_unix = m.image_taken_at_unix;
        e.image_camera_model = copy_text(&m.image_camera_model);
        e.git_branch = copy_text(&m.git_branch);
        e.git_head_commit = copy_text(&m.git_head_commit);
        e.git_head_author = copy_text(&m.git_head_author);
        e.git_head_at_unix = m.git_head_at_unix;
    }
    if let Some(n) = store.enrichment_of(event.file_id) {
        e.summary = copy_text(&n.summary);
        e.keywords = copy_text(&n.keywords);
        e.entities = copy_text(&n.entities);
        e.classification = copy_text(&n.classification);
    }
    e
}

/// Read the timeline, most recent first.
pub fn timeline(store: &Store, query: &TimelineQuery) -> (r: Vec<TimelineEntry>)
    requires
        store.wf(),
    ensures
        is_first_of(
            entry_keys(r@),
            answer_keys(store@, *query, store@.events.len()),
            page_size(query.limit) as nat,
        ),
        forall|i: int| 0 <= i < r.len() ==> is_entry(store@, #[trigger] r@[i]),
{
    let limit = query.effective_limit() as usize;
    let ghost t = store@;
    let total = store.events_len();
    let mut keys: Vec<EventKey> = Vec::new();
    let mut k: usize = 0;
    while k < total
        invariant
            0 <= k <= total,
            total == t.events.len(),
            t == store@,
            store.wf(),
            1 <= limit <= MAX_LIMIT,
            is_first_of(keys@, answer_keys(t, *query, k as nat), limit as nat),
        decreases total - k,
    {
        let id = k as i64 + 1;
        let event = store.event(id);
        assert(t.has_file(t.events[k as int].file_id));
        let newer = match query.before_id {
            Some(before) => id < before,
            None => true,
        };
        let right_kind = match query.kind {
            Some(kind) => event.kind == kind,
            None => true,
        };
        if newer && right_kind && check_facets(
            store.metadata_of(event.file_id),
            store.enrichment_of(event.file_id),
            query,
        ) {
            let key = EventKey { at_unix_ms: event.at_unix_ms, id };
            proof {
                lemma_answer_keys(t, *query, k as nat);
            }
            keep_first(&mut keys, key, limit, Ghost(answer_keys(t, *query, k as nat)));
        }
        k = k + 1;
    }
    let mut out: Vec<TimelineEntry> = Vec::new();
    let mut i: usize = 0;
    while i < keys.len()
        invariant
            0 <= i <= keys.len(),
            t == store@,
            store.wf(),
            is_first_of(keys@, answer_keys(t, *query, t.events.len()), limit as nat),
            out.len() == i,
            forall|j: int| 0 <= j < i ==> is_entry(t, #[trigger] out@[j]),
            forall|j: int| 0 <= j < i ==> #[trigger] entry_keys(out@)[j] == keys@[j],
        decreases keys.len() - i,
    {
        proof {
            lemma_answer_keys(t, *query, t.events.len());
            assert(answer_keys(t, *query, t.events.len()).contains(keys@[i as int]));
        }
        let entry = entry_of(store, keys[i].id);
        let ghost before = out@;
        out.push(entry);
        proof {
            assert forall|j: int| 0 <= j < i + 1 implies #[trigger] entry_keys(out@)[j] == keys@[j] by {
                if j < i {
                    assert(entry_keys(before)[j] == keys@[j]);
                }
            }
        }
        i = i + 1;
    }
    assert(entry_keys(out@) =~= keys@);
    out
}

/// Every key listed is that of an event that answers, and comes from among the
/// first `n`.
pub proof fn lemma_answer_keys(t: Tables, q: TimelineQuery, n: nat)
    requires
        t.wf(),
        n <= t.events.len(),
    ensures
        forall|j: int|
            0 <= j < answer_keys(t, q, n).len() ==> {
                let key = #[trigger] answer_keys(t, q, n)[j];
                &&& 1 <= key.id <= n
                &&& answers(t, q, key.id - 1)
                &&& key == event_key(t, key.id - 1)
            },
    decreases n,
{
    if n > 0 {
        lemma_answer_keys(t, q, (n - 1) as nat);
        let before = answer_keys(t, q, (n - 1) as nat);
        let after = answer_keys(t, q, n);
        assert forall|j: int| 0 <= j < after.len() implies {
            let key = #[trigger] after[j];
            &&& 1 <= key.id <= n
            &&& answers(t, q, key.id - 1)
            &&& key == event_key(t, key.id - 1)
        } by {
            if j < before.len() {
                assert(after[j] == before[j]);
            }
        }
    }
}

/// Total events recorded.
pub fn count(store: &Store) -> (r: i64)
    requires
        store.wf(),
    ensures
        r == store@.events.len(),
{
    store.events_len() as i64
}

/// How many of the first `n` rows are live files.
pub open spec fn live_files(t: Tables, n: nat) -> nat
    decreases n,
{
    if n == 0 {
        0
    } else {
        let row = t.files[n - 1];
        live_files(t, (n - 1) as nat) + (if row.deleted_at is None && !row.is_dir {
            1nat
        } else {
            0nat
        })
    }
}

/// Total files known, excluding directories and tombstones.
pub fn file_count(store: &Store) -> (r: i64)
    requires
        store.wf(),
    ensures
        r == live_files(store@, store@.files.len()),
{
    let total = store.files_len();
    let mut found: i64 = 0;
    let mut k: usize = 0;
    while k < total
        invariant
            0 <= k <= total,
            total == store@.files.len(),
            store.wf(),
            found == live_files(store@, k as nat),
            found <= k,
        decreases total - k,
    {
        let row = store.file(k as i64 + 1);
        if row.deleted_at.is_none() && !row.is_dir {
            found = found + 1;
        }
        k = k + 1;
    }
    found
}

/// Whether the event at position `k` is the latest of its file.
pub open spec fn is_latest(t: Tables, id: FileId, k: int) -> bool {
    &&& 0 <= k < t.events.len()
    &&& t.events[k].file_id == id
    &&& forall|j: int|
        0 <= j < t.events.len() && j != k && (#[trigger] t.events[j]).file_id == id
            ==> event_key(t, k).before(event_key(t, j))
}

/// Whether `entries` are the latest entries of the files in `ids`, in the
/// order of `ids`, passing over a file that nothing has happened to.
pub open spec fn are_latest(t: Tables, ids: Seq<FileId>, entries: Seq<TimelineEntry>) -> bool
    decreases ids.len(),
{
    if ids.len() == 0 {
        entries.len() == 0
    } else if exists|k: int| is_latest(t, ids.last(), k) {
        &&& entries.len() > 0
        &&& is_entry(t, entries.last())
        &&& is_latest(t, ids.last(), entries.last().id - 1)
        &&& are_latest(t, ids.drop_last(), entries.drop_last())
    } else {
        are_latest(t, ids.drop_last(), entries)
    }
}

fn latest_event(store: &Store, id: FileId) -> (r: Option<i64>)
    requires
        store.wf(),
    ensures
        match r {
            Some(e) => store@.has_event(e) && is_latest(store@, id, e - 1),
            None => !(exists|k: int| is_latest(store@, id, k)),
        },
{
    let ghost t = store@;
    let total = store.events_len();
    let mut best: Option<EventKey> = None;
    let mut k: usize = 0;
    while k < total
        invariant
            0 <= k <= total,
            total == t.events.len(),
            t == store@,
            store.wf(),
            match best {
                Some(b) => {
                    &&& 1 <= b.id <= k
                    &&& b == event_key(t, b.id - 1)
                    &&& t.events[b.id - 1].file_id == id
                    &&& forall|j: int|
                        0 <= j < k && j != b.id - 1 && (#[trigger] t.events[j]).file_id == id
                            ==> b.before(event_key(t, j))
                },
                None => forall|j: int| 0 <= j < k ==> (#[trigger] t.events[j]).file_id != id,
            },
        decreases total - k,
    {
        let event = store.event(k as i64 + 1);
        if event.file_id == id {
            let key = EventKey { at_unix_ms: event.at_unix_ms, id: k as i64 + 1 };
            let newer = match &best {
                Some(b) => key.is_before(b),
                None => true,
            };
            if newer {
                best = Some(key);
            }
        }
        k = k + 1;
    }
    match best {
        Some(b) => {
            assert(is_latest(t, id, b.id - 1));
            Some(b.id)
        },
        None => None,
    }
}

/// The latest timeline row of each of the given files, in the order given.
pub fn latest_for_file_ids(store: &Store, ids: &[FileId]) -> (r: Vec<TimelineEntry>)
    requires
        store.wf(),
    ensures
        are_latest(store@, ids@, r@),
{
    let mut out: Vec<TimelineEntry> = Vec::new();
    let mut i: usize = 0;
    while i < ids.len()
        invariant
            0 <= i <= ids@.len(),
            store.wf(),
            are_latest(store@, ids@.take(i as int), out@),
        decreases ids@.len() - i,
    {
        proof {
            assert(ids@.take(i + 1).drop_last() =~= ids@.take(i as int));
            assert(ids@.take(i + 1).last() == ids@[i as int]);
        }
        if let Some(event) = latest_event(store, ids[i]) {
            let ghost before = out@;
            let entry = entry_of(store, event);
            out.push(entry);
            assert(out@.drop_last() =~= before);
        }
        i = i + 1;
    }
    assert(ids@.take(i as int) =~= ids@);
    out
}

// Laws.

/// A time that is stamped on an event is one that the clock was read at, to the
/// millisecond; only a clock that stands before the epoch reads as the epoch.
pub proof fn a_stamp_is_what_the_clock_said(at: i64)
    requires
        is_clock_time(at),
    ensures
        exists|reading: Option<u128>| #[trigger]
            is_reading(reading) && (reading is None ==> at == 0) && (reading matches Some(ms)
                ==> (ms <= i64::MAX ==> at as int == ms as int)),
{
}

/// Paging by id neither skips nor repeats: where later events never carry an
/// earlier time, what is left to show after a page is exactly what answered
/// the query and was not on the page, however many events share a
/// millisecond.
pub proof fn paging_covers_every_event_once(
    t: Tables,
    q: TimelineQuery,
    page: Seq<EventKey>,
    next: TimelineQuery,
)
    requires
        t.wf(),
        forall|i: int, j: int|
            0 <= i < j < t.events.len() ==> (#[trigger] t.events[i]).at_unix_ms <= (
            #[trigger] t.events[j]).at_unix_ms,
        is_first_of(page, answer_keys(t, q, t.events.len()), page_size(q.limit) as nat),
        page.len() > 0,
        next == (TimelineQuery { before_id: Some(page.last().id), ..q }),
    ensures
        forall|k: int|
            0 <= k < t.events.len() ==> (#[trigger] answers(t, next, k) <==> answers(t, q, k)
                && !page.contains(event_key(t, k))),
{
    let all = answer_keys(t, q, t.events.len());
    lemma_answer_keys(t, q, t.events.len());
    let last = page.last();
    assert(all.contains(page[page.len() - 1]));
    assert(last == event_key(t, last.id - 1));
    assert forall|k: int| 0 <= k < t.events.len() implies (#[trigger] answers(t, next, k)
        <==> answers(t, q, k) && !page.contains(event_key(t, k))) by {
        let key = event_key(t, k);
        if answers(t, q, k) {
            lemma_answer_is_listed(t, q, t.events.len(), k);
            let p = choose|p: int| 0 <= p < all.len() && all[p] == key;
            if page.contains(key) {
                let i = choose|i: int| 0 <= i < page.len() && page[i] == key;
                if i < page.len() - 1 {
                    assert(page[i].before(page[page.len() - 1]));
                    if key.id <= last.id {
                        assert(t.events[k].at_unix_ms <= t.events[last.id - 1].at_unix_ms);
                    }
                }
                assert(key.id >= last.id);
            } else {
                assert(page[page.len() - 1].before(all[p]));
                if key.id >= last.id {
                    assert(t.events[last.id - 1].at_unix_ms <= t.events[k].at_unix_ms);
                }
                assert(key.id < last.id);
                assert(answers(t, next, k));
            }
        }
        if answers(t, next, k) {
            assert(k + 1 < last.id);
            assert(q.before_id matches Some(b) ==> last.id < b) by {
                assert(answers(t, q, last.id - 1));
            }
            assert(answers(t, q, k));
        }
    }
}

/// Whether `pages` are all the pages that a query is answered by, one after the
/// other: each is what the timeline gives, behind each comes the one that its last
/// row leads to, and the last one is empty.
pub open spec fn are_pages(t: Tables, q: TimelineQuery, pages: Seq<Seq<EventKey>>) -> bool
    decreases pages.len(),
{
    &&& pages.len() > 0
    &&& is_first_of(pages[0], answer_keys(t, q, t.events.len()), page_size(q.limit) as nat)
    &&& if pages[0].len() == 0 {
        pages.len() == 1
    } else {
        are_pages(
            t,
            TimelineQuery { before_id: Some(pages[0].last().id), ..q },
            pages.drop_first(),
        )
    }
}

/// Whoever reads page after page to the end has read every event that answers the
/// query once, the most recent first, and nothing else, where later events never
/// carry an earlier time.
pub proof fn all_pages_cover_every_event_once(
    t: Tables,
    q: TimelineQuery,
    pages: Seq<Seq<EventKey>>,
)
    requires
        t.wf(),
        forall|i: int, j: int|
            0 <= i < j < t.events.len() ==> (#[trigger] t.events[i]).at_unix_ms <= (
            #[trigger] t.events[j]).at_unix_ms,
        are_pages(t, q, pages),
    ensures
        pages.flatten() == answer_keys(t, q, t.events.len()).reverse(),
{
    let all = answer_keys(t, q, t.events.len());
    let read = pages.flatten();
    let backwards = all.reverse();
    lemma_pages(t, q, pages);
    lemma_keys_in_log_order(t, q, t.events.len());
    let most = read.len() + all.len();
    assert forall|k: int| 0 <= k < all.len() implies backwards.contains(#[trigger] all[k]) by {
        assert(backwards[all.len() - 1 - k] == all[k]);
    }
    assert forall|i: int| 0 <= i < backwards.len() implies all.contains(
        #[trigger] backwards[i],
    ) by {
        assert(backwards[i] == all[all.len() - 1 - i]);
    }
    assert forall|i: int, j: int| 0 <= i < j < backwards.len() implies (
    #[trigger] backwards[i]).before(#[trigger] backwards[j]) by {
        let a = all.len() - 1 - j;
        let b = all.len() - 1 - i;
        assert(all[a].id < all[b].id && all[a].at_unix_ms <= all[b].at_unix_ms);
    }
    assert(is_first_of(backwards, all, most));
    assert(is_first_of(read, all, most));
    first_of_is_unique(read, backwards, all, most);
}

/// What is on the pages is in order, answers the query, and is all that does.
proof fn lemma_pages(t: Tables, q: TimelineQuery, pages: Seq<Seq<EventKey>>)
    requires
        t.wf(),
        forall|i: int, j: int|
            0 <= i < j < t.events.len() ==> (#[trigger] t.events[i]).at_unix_ms <= (
            #[trigger] t.events[j]).at_unix_ms,
        are_pages(t, q, pages),
    ensures
        ({
            let all = answer_keys(t, q, t.events.len());
            let read = pages.flatten();
            &&& in_order(read)
            &&& forall|i: int| 0 <= i < read.len() ==> all.contains(#[trigger] read[i])
            &&& forall|k: int| 0 <= k < all.len() ==> read.contains(#[trigger] all[k])
        }),
    decreases pages.len(),
{
    let all = answer_keys(t, q, t.events.len());
    let page = pages[0];
    let rest = pages.drop_first();
    let read = pages.flatten();
    let behind = rest.flatten();
    assert(read =~= page + behind);
    lemma_answer_keys(t, q, t.events.len());
    if page.len() == 0 {
        assert(behind.len() == 0);
        if all.len() > 0 {
            assert(page.contains(all[0]));
        }
    } else {
        let next = TimelineQuery { before_id: Some(page.last().id), ..q };
        let left = answer_keys(t, next, t.events.len());
        lemma_pages(t, next, rest);
        lemma_answer_keys(t, next, t.events.len());
        paging_covers_every_event_once(t, q, page, next);
        // what is behind the page answers the query too, and is not on the page
        assert forall|i: int| 0 <= i < behind.len() implies all.contains(#[trigger] behind[i])
            && forall|j: int| 0 <= j < page.len() ==> (#[trigger] page[j]).before(behind[i]) by {
            let key = behind[i];
            assert(left.contains(key));
            assert(answers(t, next, key.id - 1));
            lemma_answer_is_listed(t, q, t.events.len(), key.id - 1);
            let k = choose|k: int| 0 <= k < all.len() && all[k] == key;
            assert(!page.contains(all[k]));
        }
        assert forall|i: int, j: int| 0 <= i < j < read.len() implies (#[trigger] read[i]).before(
            #[trigger] read[j],
        ) by {
            if i >= page.len() {
                assert(behind[i - page.len()].before(behind[j - page.len()]));
            } else if j >= page.len() {
                assert(page[i].before(behind[j - page.len()]));
            } else {
                assert(page[i].before(page[j]));
            }
        }
        assert forall|i: int| 0 <= i < read.len() implies all.contains(#[trigger] read[i]) by {
            if i < page.len() {
                assert(all.contains(page[i]));
            } else {
                assert(all.contains(behind[i - page.len()]));
            }
        }
        assert forall|k: int| 0 <= k < all.len() implies read.contains(#[trigger] all[k]) by {
            let key = all[k];
            if page.contains(key) {
                let i = choose|i: int| 0 <= i < page.len() && page[i] == key;
                assert(read[i] == key);
            } else {
                assert(answers(t, next, key.id - 1));
                lemma_answer_is_listed(t, next, t.events.len(), key.id - 1);
                let l = choose|l: int| 0 <= l < left.len() && left[l] == key;
                assert(behind.contains(left[l]));
                let i = choose|i: int| 0 <= i < behind.len() && behind[i] == key;
                assert(read[page.len() + i] == key);
            }
        }
    }
}

/// The keys are listed in the order of the log.
proof fn lemma_keys_in_log_order(t: Tables, q: TimelineQuery, n: nat)
    requires
        t.wf(),
        n <= t.events.len(),
        forall|i: int, j: int|
            0 <= i < j < t.events.len() ==> (#[trigger] t.events[i]).at_unix_ms <= (
            #[trigger] t.events[j]).at_unix_ms,
    ensures
        forall|a: int, b: int|
            0 <= a < b < answer_keys(t, q, n).len() ==> (#[trigger] answer_keys(t, q, n)[a]).id < (
            #[trigger] answer_keys(t, q, n)[b]).id && answer_keys(t, q, n)[a].at_unix_ms
                <= answer_keys(t, q, n)[b].at_unix_ms,
    decreases n,
{
    if n > 0 {
        lemma_keys_in_log_order(t, q, (n - 1) as nat);
        lemma_answer_keys(t, q, (n - 1) as nat);
        let before = answer_keys(t, q, (n - 1) as nat);
        let keys = answer_keys(t, q, n);
        assert forall|a: int, b: int| 0 <= a < b < keys.len() implies (#[trigger] keys[a]).id < (
        #[trigger] keys[b]).id && keys[a].at_unix_ms <= keys[b].at_unix_ms by {
            assert(keys[a] == before[a]);
            if b < before.len() {
                assert(keys[b] == before[b]);
            }
        }
    }
}

/// Whether a value is the one that a filter names, where it names one.
pub open spec fn is_that(filter: Option<String>, value: Option<String>) -> bool {
    filter matches Some(wanted) ==> (value matches Some(v) && v@ == wanted@)
}

/// What extraction found out about a file, as far as a filter can name it: nothing where
/// the file was not extracted.
pub open spec fn extracted(t: Tables, id: FileId) -> (
    Option<String>,
    Option<String>,
    Option<String>,
    Option<String>,
) {
    match t.metadata[id - 1] {
        Some(m) => (m.doc_type, m.author, m.language, m.git_branch),
        None => (None, None, None, None),
    }
}

/// How a file was classified, if it was.
pub open spec fn classified(t: Tables, id: FileId) -> Option<String> {
    match t.enrichment[id - 1] {
        Some(e) => e.classification,
        None => None,
    }
}

/// Whether the event with an id is what a query asks for: of the kind that is named,
/// older than the cursor, and about a file that every facet filter that is set is true
/// of.
pub open spec fn is_asked_for(t: Tables, q: TimelineQuery, id: i64) -> bool {
    let e = t.events[id - 1];
    let (doc_type, author, language, git_branch) = extracted(t, e.file_id);
    &&& t.has_event(id)
    &&& q.before_id matches Some(before) ==> id < before
    &&& q.kind matches Some(kind) ==> e.kind == kind
    &&& is_that(q.doc_type, doc_type)
    &&& is_that(q.author, author)
    &&& is_that(q.language, language)
    &&& is_that(q.git_branch, git_branch)
    &&& is_that(q.classification, classified(t, e.file_id))
}

/// A page of the timeline holds just the most recent of the events that were asked for,
/// as many as were asked for: 50 where nothing is said, never none and never more than
/// 500. They stand with the most recent first, and of two of one millisecond the one
/// that came later first. Whatever else was asked for is older than all of them, and
/// there is none where the page is not full.
pub proof fn a_page_holds_what_was_asked_for(t: Tables, q: TimelineQuery, page: Seq<EventKey>)
    requires
        t.wf(),
        is_first_of(page, answer_keys(t, q, t.events.len()), page_size(q.limit) as nat),
    ensures
        ({
            let most: int = match q.limit {
                None => 50,
                Some(n) => if n == 0 {
                    1
                } else if n > 500 {
                    500
                } else {
                    n as int
                },
            };
            &&& page.len() <= most
            &&& forall|i: int|
                0 <= i < page.len() ==> is_asked_for(t, q, (#[trigger] page[i]).id)
                    && page[i].at_unix_ms == t.events[page[i].id - 1].at_unix_ms
            &&& forall|i: int, j: int|
                0 <= i < j < page.len() ==> (#[trigger] page[i]).at_unix_ms > (
                #[trigger] page[j]).at_unix_ms || (page[i].at_unix_ms == page[j].at_unix_ms
                    && page[i].id > page[j].id)
            &&& forall|id: i64| #[trigger]
                is_asked_for(t, q, id) ==> (exists|i: int|
                    0 <= i < page.len() && (#[trigger] page[i]).id == id) || (page.len() == most
                    && forall|i: int|
                    0 <= i < page.len() ==> (#[trigger] page[i]).at_unix_ms
                        > t.events[id - 1].at_unix_ms || (page[i].at_unix_ms
                        == t.events[id - 1].at_unix_ms && page[i].id > id))
        }),
{
    let all = answer_keys(t, q, t.events.len());
    lemma_answer_keys(t, q, t.events.len());
    assert forall|i: int| 0 <= i < page.len() implies is_asked_for(t, q, (#[trigger] page[i]).id)
        && page[i].at_unix_ms == t.events[page[i].id - 1].at_unix_ms by {
        assert(all.contains(page[i]));
        let k = choose|k: int| 0 <= k < all.len() && all[k] == page[i];
        assert(answers(t, q, all[k].id - 1));
    }
    assert forall|id: i64| #[trigger] is_asked_for(t, q, id) implies (exists|i: int|
        0 <= i < page.len() && (#[trigger] page[i]).id == id) || (page.len() == page_size(q.limit)
        && forall|i: int|
        0 <= i < page.len() ==> (#[trigger] page[i]).at_unix_ms > t.events[id - 1].at_unix_ms || (
        page[i].at_unix_ms == t.events[id - 1].at_unix_ms && page[i].id > id)) by {
        assert(answers(t, q, id - 1));
        lemma_answer_is_listed(t, q, t.events.len(), id - 1);
        let key = event_key(t, id - 1);
        let k = choose|k: int| 0 <= k < all.len() && all[k] == key;
        if page.contains(all[k]) {
            let i = choose|i: int| 0 <= i < page.len() && page[i] == all[k];
            assert(page[i].id == id);
        } else {
            assert forall|i: int| 0 <= i < page.len() implies (#[trigger] page[i]).at_unix_ms
                > t.events[id - 1].at_unix_ms || (page[i].at_unix_ms
                == t.events[id - 1].at_unix_ms && page[i].id > id) by {
                assert(page[i].before(all[k]));
            }
        }
    }
}

/// An event that answers is among the keys.
proof fn lemma_answer_is_listed(t: Tables, q: TimelineQuery, n: nat, k: int)
    requires
        0 <= k < n <= t.events.len(),
        answers(t, q, k),
    ensures
        answer_keys(t, q, n).contains(event_key(t, k)),
    decreases n,
{
    let after = answer_keys(t, q, n);
    if k == n - 1 {
        assert(after[after.len() - 1] == event_key(t, k));
    } else {
        lemma_answer_is_listed(t, q, (n - 1) as nat, k);
        let before = answer_keys(t, q, (n - 1) as nat);
        let p = choose|p: int| 0 <= p < before.len() && before[p] == event_key(t, k);
        assert(after[p] == event_key(t, k));
    }
}

/// An entry of the timeline says what its event says, where its file is now and, for a file
/// that was renamed, where it was; and of the file what was extracted and what a model said,
/// each in its place.
pub proof fn an_entry_says_what_is_known_of_its_event(t: Tables, e: TimelineEntry)
    requires
        is_entry(t, e),
    ensures
        ({
            let event = t.events[e.id - 1];
            let m = t.metadata[event.file_id - 1];
            let n = t.enrichment[event.file_id - 1];
            &&& e.file_id == event.file_id
            &&& e.path@ == path_of(t, event.file_id)
            &&& e.kind == event.kind
            &&& e.at_unix_ms == event.at_unix_ms
            &&& e.size_bytes == event.size_bytes
            &&& e.is_dir == t.file(event.file_id).is_dir
            &&& event.prev_component_id is None ==> e.previous_path is None
            &&& event.prev_component_id is Some && t.has_component(event.prev_component_id->0)
                && event.prev_parent_id is Some ==> e.previous_path is Some && e.previous_path->0@
                == path_of(t, event.prev_parent_id->0) + seq!['/']
                + t.components[event.prev_component_id->0 - 1]
            &&& e.title == (if m is Some {
                m->0.title
            } else {
                None
            })
            &&& e.author == (if m is Some {
                m->0.author
            } else {
                None
            })
            &&& e.doc_type == (if m is Some {
                m->0.doc_type
            } else {
                None
            })
            &&& e.language == (if m is Some {
                m->0.language
            } else {
                None
            })
            &&& e.page_count == (if m is Some {
                m->0.page_count
            } else {
                None
            })
            &&& e.word_count == (if m is Some {
                m->0.word_count
            } else {
                None
            })
            &&& e.image_taken_at_unix == (if m is Some {
                m->0.image_taken_at_unix
            } else {
                None
            })
            &&& e.image_camera_model == (if m is Some {
                m->0.image_camera_model
            } else {
                None
            })
            &&& e.git_branch == (if m is Some {
                m->0.git_branch
            } else {
                None
            })
            &&& e.git_head_commit == (if m is Some {
                m->0.git_head_commit
            } else {
                None
            })
            &&& e.git_head_author == (if m is Some {
                m->0.git_head_author
            } else {
                None
            })
            &&& e.git_head_at_unix == (if m is Some {
                m->0.git_head_at_unix
            } else {
                None
            })
            &&& e.summary == (if n is Some {
                n->0.summary
            } else {
                None
            })
            &&& e.keywords == (if n is Some {
                n->0.keywords
            } else {
                None
            })
            &&& e.entities == (if n is Some {
                n->0.entities
            } else {
                None
            })
            &&& e.classification == (if n is Some {
                n->0.classification
            } else {
                None
            })
        }),
{
}

/// Many events that are appended at once stand in the log in their order, behind all that
/// were there.
pub proof fn many_events_are_appended_in_their_order(t: Tables, events: Seq<NewEvent>)
    ensures
        t.events.is_prefix_of(with_events(t, events).events),
        with_events(t, events).events.skip(t.events.len() as int) == events,
        with_events(t, events) == (Tables { events: with_events(t, events).events, ..t }),
{
    assert(with_events(t, events).events.skip(t.events.len() as int) =~= events);
}

} // verus!

//! What the HTTP interface answers.
//!
//! Every function here takes what a request holds and what the daemon found
//! out, and gives a status with a body. Sending it is someone else's work.
use vstd::prelude::*;

use vstd::utf8::encode_utf8;

use crate::events::{kind_text, EventKind};
use crate::fspath::texts;
use crate::log_history::{last_of, LogHistory};
use crate::text::{decimal, push_number, push_signed, same_text, signed_decimal, text_view};
use crate::timeline::{TimelineItem, TimelineStats, TimelineStore};
use crate::watch_control::{WatchChangeRequest, WatchControl, WatchMode};

verus! {

/// At most this many bytes of a request's body are taken.
pub const MAX_BODY_BYTES: usize = 65_536;

/// The longest facet filter that is accepted, in bytes.
pub const MAX_FACET_FILTER_LEN: usize = 256;

/// How many events are given where none are asked for.
pub const DEFAULT_EVENT_LIMIT: u32 = 50;

/// How many lines of the log are given where none are asked for.
pub const DEFAULT_LOG_LIMIT: u32 = 200;

/// The most lines of the log that are given.
pub const MAX_LOG_LIMIT: u32 = 2000;

/// What is sent back.
#[derive(Debug)]
pub enum Body {
    /// What went wrong.
    Error(String),
    /// A page of the timeline, and where the next one begins.
    Events { events: Vec<TimelineItem>, next_before_id: Option<i64> },
    /// Values of a facet with their counts.
    Facets(Vec<(String, i64)>),
    /// The log filter.
    Filter(String),
    /// The watched directories.
    Roots(Vec<String>),
    /// Lines of the log.
    Lines(Vec<String>),
    /// That the daemon is alive.
    Alive,
    /// Whether it is ready, and the version of its schema.
    Readiness { ready: bool, schema_version: u32 },
    /// Its versions, and for how long it has run.
    Version { version: String, schema_version: u32, uptime_seconds: u64 },
}

/// A status and a body.
#[derive(Debug)]
pub struct Reply {
    pub status: u16,
    pub body: Body,
}

/// Whether a reply says that something went wrong, in the given words.
pub open spec fn is_error(r: Reply, status: u16, words: Seq<char>) -> bool {
    r.status == status && match r.body {
        Body::Error(e) => e@ == words,
        _ => false,
    }
}

/// Say that something went wrong.
pub fn error(status: u16, words: &str) -> (r: Reply)
    ensures
        is_error(r, status, words@),
{
    Reply { status, body: Body::Error(words.to_owned()) }
}

/// There is nothing at this address.
pub fn not_found() -> (r: Reply)
    ensures
        is_error(r, 404, "not found"@),
{
    error(404, "not found")
}

// Health.

/// The daemon is alive as long as it answers at all, ready or not.
pub fn healthz() -> (r: Reply)
    ensures
        r == (Reply { status: 200, body: Body::Alive }),
{
    Reply { status: 200, body: Body::Alive }
}

/// Whether the daemon is ready: not before its database can be used.
pub fn readyz(ready: bool, schema_version: u32) -> (r: Reply)
    ensures
        r == (Reply {
            status: if ready {
                200
            } else {
                503
            },
            body: Body::Readiness { ready, schema_version },
        }),
{
    let status: u16 = if ready {
        200
    } else {
        503
    };
    Reply { status, body: Body::Readiness { ready, schema_version } }
}

/// The daemon's versions, and for how long it has run.
pub fn version(release: &str, schema_version: u32, uptime_seconds: u64) -> (r: Reply)
    ensures
        r.status == 200,
        match r.body {
            Body::Version { version: v, schema_version: s, uptime_seconds: u } => v@ == release@
                && s == schema_version && u == uptime_seconds,
            _ => false,
        },
{
    Reply {
        status: 200,
        body: Body::Version { version: release.to_owned(), schema_version, uptime_seconds },
    }
}

// The timeline.

/// What a caller asks of the timeline.
#[derive(Debug)]
pub struct EventsQuery {
    pub limit: Option<u32>,
    pub before_id: Option<i64>,
    pub kind: Option<String>,
    pub doc_type: Option<String>,
    pub author: Option<String>,
    pub language: Option<String>,
    pub git_branch: Option<String>,
    pub classification: Option<String>,
}

impl Default for EventsQuery {
    fn default() -> (r: EventsQuery)
        ensures
            r == (EventsQuery {
                limit: None,
                before_id: None,
                kind: None,
                doc_type: None,
                author: None,
                language: None,
                git_branch: None,
                classification: None,
            }),
    {
        EventsQuery {
            limit: None,
            before_id: None,
            kind: None,
            doc_type: None,
            author: None,
            language: None,
            git_branch: None,
            classification: None,
        }
    }
}

/// Whether a text names a kind of event.
pub open spec fn names_kind(text: Seq<char>) -> bool {
    exists|kind: EventKind| #[trigger] kind_text(kind) == text
}

/// Whether an optional text is too long for a filter.
pub open spec fn too_long(text: Option<String>) -> bool {
    match text {
        Some(t) => encode_utf8(t@).len() as usize > MAX_FACET_FILTER_LEN,
        None => false,
    }
}

/// Whether one of a query's filters is too long.
pub open spec fn has_long_filter(q: EventsQuery) -> bool {
    too_long(q.doc_type) || too_long(q.author) || too_long(q.language) || too_long(q.git_branch)
        || too_long(q.classification)
}

fn is_too_long(text: &Option<String>) -> (r: bool)
    ensures
        r == too_long(*text),
{
    match text {
        Some(t) => t.as_str().len() > MAX_FACET_FILTER_LEN,
        None => false,
    }
}

/// Why a query of the timeline is turned away, if it is: the status and the
/// words. A query that makes no sense is an error, never an empty page.
pub open spec fn events_refusal(attached: bool, q: EventsQuery) -> Option<(u16, Seq<char>)> {
    if !attached {
        Some((503u16, "timeline store not attached"@))
    } else if q.kind is Some && !names_kind(q.kind.unwrap()@) {
        Some((400u16, "unknown event kind"@))
    } else if has_long_filter(q) {
        Some((400u16, "facet filter too long"@))
    } else {
        None
    }
}

/// Turn a query of the timeline away, where that is called for.
pub fn refuse_events(attached: bool, query: &EventsQuery) -> (r: Option<Reply>)
    ensures
        match events_refusal(attached, *query) {
            Some((status, words)) => r is Some && is_error(r.unwrap(), status, words),
            None => r is None,
        },
{
    if !attached {
        return Some(error(503, "timeline store not attached"));
    }
    if let Some(kind) = &query.kind {
        match EventKind::parse(kind.as_str()) {
            Some(found) => {
                assert(kind_text(found) == kind@);
            },
            None => {
                return Some(error(400, "unknown event kind"));
            },
        }
    }
    if is_too_long(&query.doc_type) || is_too_long(&query.author) || is_too_long(&query.language)
        || is_too_long(&query.git_branch) || is_too_long(&query.classification) {
        return Some(error(400, "facet filter too long"));
    }
    None
}

/// Where the next page begins: behind the last item of this one.
pub open spec fn next_page(items: Seq<TimelineItem>) -> Option<i64> {
    if items.len() == 0 {
        None
    } else {
        Some(items.last().id)
    }
}

/// Whether a reply shows what the store answered: a page with where the next
/// one begins, or that the query failed.
pub open spec fn shows_events(r: Reply, outcome: Result<Vec<TimelineItem>, String>) -> bool {
    match outcome {
        Ok(items) => r == (Reply {
            status: 200,
            body: Body::Events { events: items, next_before_id: next_page(items@) },
        }),
        Err(_) => is_error(r, 500, "timeline query failed"@),
    }
}

/// Show what the store answered.
pub fn show_events(outcome: Result<Vec<TimelineItem>, String>) -> (r: Reply)
    ensures
        shows_events(r, outcome),
{
    match outcome {
        Ok(items) => {
            let next_before_id = if items.len() == 0 {
                None
            } else {
                Some(items[items.len() - 1].id)
            };
            Reply { status: 200, body: Body::Events { events: items, next_before_id } }
        },
        Err(_) => error(500, "timeline query failed"),
    }
}

fn borrowed(text: &Option<String>) -> (r: Option<&str>)
    ensures
        crate::timeline::given(r) == text_view(*text),
{
    match text {
        Some(t) => Some(t.as_str()),
        None => None,
    }
}

/// Whether `outcome` is an answer that the store can give to a query.
pub open spec fn can_answer<S: TimelineStore>(
    store: &S,
    q: EventsQuery,
    outcome: Result<Vec<TimelineItem>, String>,
) -> bool {
    exists|
        kind: Option<&str>,
        doc_type: Option<&str>,
        author: Option<&str>,
        language: Option<&str>,
        git_branch: Option<&str>,
        classification: Option<&str>,
    |
        #![trigger call_ensures(
            S::timeline,
            (
                store,
                asked_for(q.limit, DEFAULT_EVENT_LIMIT),
                q.before_id,
                kind,
                doc_type,
                author,
                language,
                git_branch,
                classification,
            ),
            outcome,
        )]
        crate::timeline::given(kind) == text_view(q.kind) && crate::timeline::given(doc_type)
            == text_view(q.doc_type) && crate::timeline::given(author) == text_view(q.author)
            && crate::timeline::given(language) == text_view(q.language)
            && crate::timeline::given(git_branch) == text_view(q.git_branch)
            && crate::timeline::given(classification) == text_view(q.classification)
            && call_ensures(
            S::timeline,
            (
                store,
                asked_for(q.limit, DEFAULT_EVENT_LIMIT),
                q.before_id,
                kind,
                doc_type,
                author,
                language,
                git_branch,
                classification,
            ),
            outcome,
        )
}

/// What was asked for, or else the usual.
pub open spec fn asked_for(limit: Option<u32>, usual: u32) -> u32 {
    match limit {
        Some(n) => n,
        None => usual,
    }
}

fn limit_or(limit: Option<u32>, usual: u32) -> (r: u32)
    ensures
        r == asked_for(limit, usual),
{
    match limit {
        Some(n) => n,
        None => usual,
    }
}

/// Answer a query of the timeline: turn it away, or show what the store says
/// to exactly what was asked.
pub fn events<S: TimelineStore>(store: Option<&S>, query: &EventsQuery) -> (r: Reply)
    ensures
        match events_refusal(store is Some, *query) {
            Some((status, words)) => is_error(r, status, words),
            None => exists|outcome: Result<Vec<TimelineItem>, String>| #[trigger]
                can_answer(store.unwrap(), *query, outcome) && shows_events(r, outcome),
        },
{
    if let Some(reply) = refuse_events(store.is_some(), query) {
        return reply;
    }
    match store {
        Some(s) => {
            let kind = borrowed(&query.kind);
            let doc_type = borrowed(&query.doc_type);
            let author = borrowed(&query.author);
            let language = borrowed(&query.language);
            let git_branch = borrowed(&query.git_branch);
            let classification = borrowed(&query.classification);
            let limit = limit_or(query.limit, DEFAULT_EVENT_LIMIT);
            let outcome = s.timeline(
                limit,
                query.before_id,
                kind,
                doc_type,
                author,
                language,
                git_branch,
                classification,
            );
            assert(can_answer(s, *query, outcome));
            show_events(outcome)
        },
        None => error(503, "timeline store not attached"),
    }
}

// Facets.

/// Whether a name stands for a facet.
pub open spec fn names_facet(field: Seq<char>) -> bool {
    field == "doc_type"@ || field == "author"@ || field == "language"@ || field == "git_branch"@
        || field == "classification"@
}

/// Why a query of a facet is turned away, if it is.
pub open spec fn facets_refusal(attached: bool, field: Seq<char>) -> Option<(u16, Seq<char>)> {
    if !attached {
        Some((503u16, "timeline store not attached"@))
    } else if !names_facet(field) {
        Some((400u16, "unknown facet field"@))
    } else {
        None
    }
}

/// Whether a reply shows what the store answered.
pub open spec fn shows_facets(r: Reply, outcome: Result<Vec<(String, i64)>, String>) -> bool {
    match outcome {
        Ok(values) => r == (Reply { status: 200, body: Body::Facets(values) }),
        Err(_) => is_error(r, 500, "facets query failed"@),
    }
}

/// Show what the store answered.
pub fn show_facets(outcome: Result<Vec<(String, i64)>, String>) -> (r: Reply)
    ensures
        shows_facets(r, outcome),
{
    match outcome {
        Ok(values) => Reply { status: 200, body: Body::Facets(values) },
        Err(_) => error(500, "facets query failed"),
    }
}

/// Answer a query of a facet: turn it away, or show what the store says.
pub fn facets<S: TimelineStore>(store: Option<&S>, field: &str) -> (r: Reply)
    ensures
        match facets_refusal(store is Some, field@) {
            Some((status, words)) => is_error(r, status, words),
            None => exists|outcome: Result<Vec<(String, i64)>, String>| #[trigger]
                call_ensures(S::facets, (store.unwrap(), field), outcome) && shows_facets(
                    r,
                    outcome,
                ),
        },
{
    match store {
        None => error(503, "timeline store not attached"),
        Some(s) => {
            let known = same_text(field, "doc_type") || same_text(field, "author") || same_text(
                field,
                "language",
            ) || same_text(field, "git_branch") || same_text(field, "classification");
            if !known {
                return error(400, "unknown facet field");
            }
            let outcome = s.facets(field);
            show_facets(outcome)
        },
    }
}

// The log.

/// The log filter that is in force.
pub fn get_log_level(current: &Option<String>) -> (r: Reply)
    ensures
        match *current {
            Some(filter) => r.status == 200 && match r.body {
                Body::Filter(f) => f@ == filter@,
                _ => false,
            },
            None => is_error(r, 503, "log level control not attached"@),
        },
{
    match current {
        Some(filter) => Reply { status: 200, body: Body::Filter(filter.clone()) },
        None => error(503, "log level control not attached"),
    }
}

/// What came of a request to change the log filter: the filter in force, or
/// that the request was refused.
pub fn set_log_level(outcome: &Option<Result<String, String>>) -> (r: Reply)
    ensures
        match *outcome {
            Some(Ok(filter)) => r.status == 200 && match r.body {
                Body::Filter(f) => f@ == filter@,
                _ => false,
            },
            Some(Err(_)) => is_error(r, 400, "invalid log filter"@),
            None => is_error(r, 503, "log level control not attached"@),
        },
{
    match outcome {
        Some(Ok(filter)) => Reply { status: 200, body: Body::Filter(filter.clone()) },
        Some(Err(_)) => error(400, "invalid log filter"),
        None => error(503, "log level control not attached"),
    }
}

/// How many lines of the log are given: never more than [`MAX_LOG_LIMIT`].
pub open spec fn line_limit(limit: Option<u32>) -> nat {
    if asked_for(limit, DEFAULT_LOG_LIMIT) <= MAX_LOG_LIMIT {
        asked_for(limit, DEFAULT_LOG_LIMIT) as nat
    } else {
        MAX_LOG_LIMIT as nat
    }
}

/// The last lines of the log.
pub fn get_logs(history: Option<&LogHistory>, limit: Option<u32>) -> (r: Reply)
    ensures
        match history {
            Some(h) => r.status == 200 && match r.body {
                Body::Lines(lines) => texts(lines@) == last_of(h@, line_limit(limit)),
                _ => false,
            },
            None => is_error(r, 503, "log history not attached"@),
        },
{
    match history {
        Some(h) => {
            let wanted = limit_or(limit, DEFAULT_LOG_LIMIT);
            let n: u32 = if wanted <= MAX_LOG_LIMIT {
                wanted
            } else {
                MAX_LOG_LIMIT
            };
            Reply { status: 200, body: Body::Lines(h.recent(n as usize)) }
        },
        None => error(503, "log history not attached"),
    }
}

// The watched directories.

/// The watched directories.
pub fn get_watch<W: WatchControl>(control: Option<&W>) -> (r: Reply)
    ensures
        match control {
            Some(c) => r.status == 200 && match r.body {
                Body::Roots(roots) => call_ensures(W::roots, (c,), roots),
                _ => false,
            },
            None => is_error(r, 503, "watch control not attached"@),
        },
{
    match control {
        Some(c) => Reply { status: 200, body: Body::Roots(c.roots()) },
        None => error(503, "watch control not attached"),
    }
}

/// Why a request to change the watched directories is turned away, if it is:
/// without a directory it could mean nothing or everything.
pub open spec fn watch_refusal(attached: bool, named: nat) -> Option<(u16, Seq<char>)> {
    if !attached {
        Some((503u16, "watch control not attached"@))
    } else if named == 0 {
        Some((400u16, "roots must not be empty"@))
    } else {
        None
    }
}

/// Turn a request to change the watched directories away, where that is called
/// for.
pub fn refuse_watch(attached: bool, request: &WatchChangeRequest) -> (r: Option<Reply>)
    ensures
        match watch_refusal(attached, request.roots@.len()) {
            Some((status, words)) => r is Some && is_error(r.unwrap(), status, words),
            None => r is None,
        },
{
    if !attached {
        Some(error(503, "watch control not attached"))
    } else if request.roots.len() == 0 {
        Some(error(400, "roots must not be empty"))
    } else {
        None
    }
}

/// Show what came of a change: the directories watched by then, or what the
/// daemon had against it.
pub fn show_watch(outcome: Result<Vec<String>, String>) -> (r: Reply)
    ensures
        match outcome {
            Ok(roots) => r == (Reply { status: 200, body: Body::Roots(roots) }),
            Err(e) => r == (Reply { status: 400, body: Body::Error(e) }),
        },
{
    match outcome {
        Ok(roots) => Reply { status: 200, body: Body::Roots(roots) },
        Err(e) => Reply { status: 400, body: Body::Error(e) },
    }
}

/// Whether `r` shows what came of a change: `roots`, which are read after it, or what
/// the daemon had against it.
pub open spec fn shows(r: Reply, outcome: Result<(), String>, roots: Vec<String>) -> bool {
    match outcome {
        Ok(_) => r == (Reply { status: 200, body: Body::Roots(roots) }),
        Err(e) => r == (Reply { status: 400, body: Body::Error(e) }),
    }
}

/// Answer a request to change the watched directories: turn it away, or have
/// exactly that change made, once, and show what came of it. The directories that
/// are shown are those that the control gives as it is after the change.
pub fn put_watch<W: WatchControl>(control: Option<&mut W>, request: WatchChangeRequest) -> (r:
    Reply)
    ensures
        match watch_refusal(control is Some, request.roots@.len()) {
            Some((status, words)) => is_error(r, status, words) && (control matches Some(c)
                ==> *final(c) == *c),
            None => match request.mode {
                WatchMode::Add => exists|
                    c: &mut W,
                    outcome: Result<(), String>,
                    roots: Vec<String>,
                |
                    *c == *control->0 && *final(c) == *final(control->0)
                        && #[trigger] call_ensures(W::add_roots, (c, request.roots), outcome)
                        && #[trigger] shows(r, outcome, roots) && (outcome is Ok ==> call_ensures(
                        W::roots,
                        (final(control->0),),
                        roots,
                    )),
                WatchMode::Replace => exists|
                    c: &mut W,
                    outcome: Result<(), String>,
                    roots: Vec<String>,
                |
                    *c == *control->0 && *final(c) == *final(control->0)
                        && #[trigger] call_ensures(W::replace_roots, (c, request.roots), outcome)
                        && #[trigger] shows(r, outcome, roots) && (outcome is Ok ==> call_ensures(
                        W::roots,
                        (final(control->0),),
                        roots,
                    )),
            },
        },
{
    if let Some(reply) = refuse_watch(control.is_some(), &request) {
        return reply;
    }
    match control {
        Some(c) => {
            let outcome = match request.mode {
                WatchMode::Add => c.add_roots(request.roots),
                WatchMode::Replace => c.replace_roots(request.roots),
            };
            let shown = match outcome {
                Ok(_) => Ok(c.roots()),
                Err(e) => Err(e),
            };
            let ghost roots = shown->Ok_0;
            let r = show_watch(shown);
            assert(shows(r, outcome, roots));
            r
        },
        None => error(503, "watch control not attached"),
    }
}

// Metrics.

/// One metric: what it is, of which kind, and its value.
pub open spec fn metric(
    name: Seq<char>,
    help: Seq<char>,
    kind: Seq<char>,
    value: Seq<char>,
) -> Seq<char> {
    "# HELP "@ + name + " "@ + help + "\n# TYPE "@ + name + " "@ + kind + "\n"@ + name + " "@
        + value + "\n"@
}

fn push_head(out: &mut String, name: &str, help: &str, kind: &str)
    ensures
        final(out)@ == old(out)@ + ("# HELP "@ + name@ + " "@ + help@ + "\n# TYPE "@ + name@ + " "@
            + kind@ + "\n"@ + name@ + " "@),
{
    let ghost before = out@;
    out.append("# HELP ");
    out.append(name);
    out.append(" ");
    out.append(help);
    out.append("\n# TYPE ");
    out.append(name);
    out.append(" ");
    out.append(kind);
    out.append("\n");
    out.append(name);
    out.append(" ");
    assert(out@ =~= before + ("# HELP "@ + name@ + " "@ + help@ + "\n# TYPE "@ + name@ + " "@
        + kind@ + "\n"@ + name@ + " "@));
}

fn push_metric(out: &mut String, name: &str, help: &str, kind: &str, value: u64)
    ensures
        final(out)@ == old(out)@ + metric(name@, help@, kind@, decimal(value as nat)),
{
    let ghost before = out@;
    push_head(out, name, help, kind);
    push_number(out, value);
    out.append("\n");
    assert(out@ =~= before + metric(name@, help@, kind@, decimal(value as nat)));
}

fn push_signed_metric(out: &mut String, name: &str, help: &str, kind: &str, value: i64)
    ensures
        final(out)@ == old(out)@ + metric(name@, help@, kind@, signed_decimal(value as int)),
{
    let ghost before = out@;
    push_head(out, name, help, kind);
    push_signed(out, value);
    out.append("\n");
    assert(out@ =~= before + metric(name@, help@, kind@, signed_decimal(value as int)));
}

/// The metrics of the process.
pub open spec fn process_metrics(
    ready: bool,
    schema_version: u32,
    uptime_seconds: u64,
    resident_bytes: Option<u64>,
) -> Seq<char> {
    metric(
        "dafs_ready"@,
        "Whether the daemon has finished startup work."@,
        "gauge"@,
        decimal(
            if ready {
                1
            } else {
                0
            },
        ),
    ) + metric(
        "dafs_schema_version"@,
        "Applied metadata schema version."@,
        "gauge"@,
        decimal(schema_version as nat),
    ) + metric(
        "dafs_uptime_seconds"@,
        "Seconds since process start."@,
        "counter"@,
        decimal(uptime_seconds as nat),
    ) + (match resident_bytes {
        Some(n) => metric(
            "dafs_resident_bytes"@,
            "Process resident set size."@,
            "gauge"@,
            decimal(n as nat),
        ),
        None => Seq::empty(),
    })
}

/// The metrics of the store; none where they could not be had.
pub open spec fn store_metrics(stats: Option<TimelineStats>) -> Seq<char> {
    match stats {
        Some(s) => metric(
            "dafs_events_total"@,
            "Events recorded in the store."@,
            "counter"@,
            signed_decimal(s.events as int),
        ) + metric(
            "dafs_files_known"@,
            "Files currently known, excluding deleted."@,
            "gauge"@,
            signed_decimal(s.files as int),
        ) + metric(
            "dafs_extraction_queue_depth"@,
            "Files waiting for metadata extraction."@,
            "gauge"@,
            signed_decimal(s.pending_extractions as int),
        ),
        None => Seq::empty(),
    }
}

/// The metrics, in the format that Prometheus reads. A store that fails takes
/// nothing from the rest.
pub fn metrics(
    ready: bool,
    schema_version: u32,
    uptime_seconds: u64,
    resident_bytes: Option<u64>,
    stats: Option<TimelineStats>,
) -> (r: String)
    ensures
        r@ == process_metrics(ready, schema_version, uptime_seconds, resident_bytes)
            + store_metrics(stats),
{
    let mut out = String::new();
    let flag: u64 = if ready {
        1
    } else {
        0
    };
    push_metric(
        &mut out,
        "dafs_ready",
        "Whether the daemon has finished startup work.",
        "gauge",
        flag,
    );
    push_metric(
        &mut out,
        "dafs_schema_version",
        "Applied metadata schema version.",
        "gauge",
        schema_version as u64,
    );
    push_metric(
        &mut out,
        "dafs_uptime_seconds",
        "Seconds since process start.",
        "counter",
        uptime_seconds,
    );
    if let Some(n) = resident_bytes {
        push_metric(&mut out, "dafs_resident_bytes", "Process resident set size.", "gauge", n);
    }
    assert(out@ =~= process_metrics(ready, schema_version, uptime_seconds, resident_bytes));
    if let Some(s) = stats {
        push_signed_metric(
            &mut out,
            "dafs_events_total",
            "Events recorded in the store.",
            "counter",
            s.events,
        );
        push_signed_metric(
            &mut out,
            "dafs_files_known",
            "Files currently known, excluding deleted.",
            "gauge",
            s.files,
        );
        push_signed_metric(
            &mut out,
            "dafs_extraction_queue_depth",
            "Files waiting for metadata extraction.",
            "gauge",
            s.pending_extractions,
        );
    }
    assert(out@ =~= process_metrics(ready, schema_version, uptime_seconds, resident_bytes)
        + store_metrics(stats));
    out
}

/// The metrics, with the counts that a store gives where one is attached and
/// answers.
pub fn metrics_with<S: TimelineStore>(
    ready: bool,
    schema_version: u32,
    uptime_seconds: u64,
    resident_bytes: Option<u64>,
    store: Option<&S>,
) -> (r: String)
    ensures
        match store {
            None => r@ == process_metrics(ready, schema_version, uptime_seconds, resident_bytes),
            Some(s) => exists|outcome: Result<TimelineStats, String>| #[trigger]
                call_ensures(S::stats, (s,), outcome) && r@ == process_metrics(
                    ready,
                    schema_version,
                    uptime_seconds,
                    resident_bytes,
                ) + store_metrics(
                    match outcome {
                        Ok(stats) => Some(stats),
                        Err(_) => None,
                    },
                ),
        },
{
    let stats = match store {
        None => None,
        Some(s) => match s.stats() {
            Ok(found) => Some(found),
            Err(_) => None,
        },
    };
    let out = metrics(ready, schema_version, uptime_seconds, resident_bytes, stats);
    assert(store_metrics(None) =~= Seq::<char>::empty());
    assert(out@ =~= process_metrics(ready, schema_version, uptime_seconds, resident_bytes)
        + store_metrics(stats));
    out
}

// Laws.

/// A query of the timeline is turned away only where there is no timeline, where it names
/// a kind of event that there is not, or where a filter is longer than 256 bytes; and then
/// always. A timeline that is missing is not the caller's fault, the other two are.
pub proof fn a_query_is_turned_away_for_a_reason(attached: bool, q: EventsQuery)
    ensures
        ({
            let unknown = q.kind is Some && !names_kind(q.kind->0@);
            let long = is_longer_than(q.doc_type, 256) || is_longer_than(q.author, 256)
                || is_longer_than(q.language, 256) || is_longer_than(q.git_branch, 256)
                || is_longer_than(q.classification, 256);
            &&& events_refusal(attached, q) is None <==> attached && !unknown && !long
            &&& !attached ==> (events_refusal(attached, q)->0).0 == 503
            &&& attached && (unknown || long) ==> (events_refusal(attached, q)->0).0 == 400
        }),
{
}

/// Whether an optional text has more bytes than allowed.
pub open spec fn is_longer_than(text: Option<String>, most: usize) -> bool {
    text is Some && encode_utf8(text->0@).len() as usize > most
}

/// A kind of event is named by one of four words.
pub proof fn four_words_name_a_kind(word: Seq<char>)
    ensures
        names_kind(word) <==> word == "created"@ || word == "modified"@ || word == "deleted"@
            || word == "renamed"@,
{
    assert(kind_text(EventKind::Created) == "created"@);
    assert(kind_text(EventKind::Modified) == "modified"@);
    assert(kind_text(EventKind::Deleted) == "deleted"@);
    assert(kind_text(EventKind::Renamed) == "renamed"@);
}

/// The next page begins behind the last item that was shown; behind an empty page there
/// is none. A query that fails shows nothing.
pub proof fn the_next_page_begins_behind_the_last_item(
    r: Reply,
    outcome: Result<Vec<TimelineItem>, String>,
)
    requires
        shows_events(r, outcome),
    ensures
        outcome is Err ==> r.status == 500 && r.body is Error,
        outcome matches Ok(items) ==> r.status == 200 && r.body == (Body::Events {
            events: items,
            next_before_id: if items@.len() == 0 {
                None
            } else {
                Some(items@[items@.len() - 1].id)
            },
        }),
{
}

/// As many lines of the log are given as were asked for, at most two thousand, and two
/// hundred where no number was given.
pub proof fn lines_are_given_as_asked_for(n: u32)
    ensures
        line_limit(None) == 200,
        n <= 2000 ==> line_limit(Some(n)) == n,
        n > 2000 ==> line_limit(Some(n)) == 2000,
        asked_for(Some(n), DEFAULT_EVENT_LIMIT) == n,
        asked_for(None, DEFAULT_EVENT_LIMIT) == 50,
{
}

/// A change of the watched directories is turned away where there is nothing to change, or
/// where it names no directory, and nowhere else.
pub proof fn a_change_names_a_directory(attached: bool, named: nat)
    ensures
        watch_refusal(attached, named) is None <==> attached && named > 0,
        !attached ==> (watch_refusal(attached, named)->0).0 == 503,
        attached && named == 0 ==> (watch_refusal(attached, named)->0).0 == 400,
{
}

/// A facet is asked for by one of five names, where there is a timeline.
pub proof fn five_names_stand_for_facets(attached: bool, field: Seq<char>)
    ensures
        facets_refusal(attached, field) is None <==> attached && (field == "doc_type"@ || field
            == "author"@ || field == "language"@ || field == "git_branch"@ || field
            == "classification"@),
        !attached ==> (facets_refusal(attached, field)->0).0 == 503,
        attached && facets_refusal(attached, field) is Some ==> (facets_refusal(
            attached,
            field,
        )->0).0 == 400,
{
}

/// The words in front of a metric and the line with its value.
pub open spec fn with_line(before: Seq<char>, name: Seq<char>, value: Seq<char>) -> Seq<char> {
    before + "\n"@ + name + " "@ + value + "\n"@
}

/// Whether the daemon is ready, as a number.
pub open spec fn as_number(ready: bool) -> nat {
    if ready {
        1
    } else {
        0
    }
}

/// Each metric stands on a line of its own under its name, with its own value: what the
/// process says of itself, and behind it what the store says, where it says anything.
pub proof fn every_metric_has_its_own_value(
    ready: bool,
    schema_version: u32,
    uptime_seconds: u64,
    resident: u64,
    stats: TimelineStats,
)
    ensures
        exists|a: Seq<char>, b: Seq<char>, c: Seq<char>, d: Seq<char>|
            {
                let shown = #[trigger] with_line(
                    a,
                    "dafs_ready"@,
                    decimal(as_number(ready)),
                ) + #[trigger] with_line(
                    b,
                    "dafs_schema_version"@,
                    decimal(schema_version as nat),
                ) + #[trigger] with_line(
                    c,
                    "dafs_uptime_seconds"@,
                    decimal(uptime_seconds as nat),
                );
                &&& process_metrics(ready, schema_version, uptime_seconds, None) == shown
                &&& process_metrics(ready, schema_version, uptime_seconds, Some(resident)) == shown
                    + #[trigger] with_line(
                    d,
                    "dafs_resident_bytes"@,
                    decimal(resident as nat),
                )
            },
        exists|a: Seq<char>, b: Seq<char>, c: Seq<char>|
            store_metrics(Some(stats)) == #[trigger] with_line(
                a,
                "dafs_events_total"@,
                signed_decimal(stats.events as int),
            ) + #[trigger] with_line(
                b,
                "dafs_files_known"@,
                signed_decimal(stats.files as int),
            ) + #[trigger] with_line(
                c,
                "dafs_extraction_queue_depth"@,
                signed_decimal(stats.pending_extractions as int),
            ),
        store_metrics(None).len() == 0,
{
    let flag = decimal(as_number(ready));
    let a = lemma_metric_line(
        "dafs_ready"@,
        "Whether the daemon has finished startup work."@,
        "gauge"@,
        flag,
    );
    let b = lemma_metric_line(
        "dafs_schema_version"@,
        "Applied metadata schema version."@,
        "gauge"@,
        decimal(schema_version as nat),
    );
    let c = lemma_metric_line(
        "dafs_uptime_seconds"@,
        "Seconds since process start."@,
        "counter"@,
        decimal(uptime_seconds as nat),
    );
    let d = lemma_metric_line(
        "dafs_resident_bytes"@,
        "Process resident set size."@,
        "gauge"@,
        decimal(resident as nat),
    );
    let shown = with_line(a, "dafs_ready"@, flag) + with_line(
        b,
        "dafs_schema_version"@,
        decimal(schema_version as nat),
    ) + with_line(c, "dafs_uptime_seconds"@, decimal(uptime_seconds as nat));
    assert(process_metrics(ready, schema_version, uptime_seconds, None) =~= shown);
    assert(process_metrics(ready, schema_version, uptime_seconds, Some(resident)) =~= shown
        + with_line(d, "dafs_resident_bytes"@, decimal(resident as nat)));
    let e = lemma_metric_line(
        "dafs_events_total"@,
        "Events recorded in the store."@,
        "counter"@,
        signed_decimal(stats.events as int),
    );
    let f = lemma_metric_line(
        "dafs_files_known"@,
        "Files currently known, excluding deleted."@,
        "gauge"@,
        signed_decimal(stats.files as int),
    );
    let g = lemma_metric_line(
        "dafs_extraction_queue_depth"@,
        "Files waiting for metadata extraction."@,
        "gauge"@,
        signed_decimal(stats.pending_extractions as int),
    );
    assert(store_metrics(Some(stats)) =~= with_line(
        e,
        "dafs_events_total"@,
        signed_decimal(stats.events as int),
    ) + with_line(f, "dafs_files_known"@, signed_decimal(stats.files as int)) + with_line(
        g,
        "dafs_extraction_queue_depth"@,
        signed_decimal(stats.pending_extractions as int),
    ));
}

proof fn lemma_metric_line(
    name: Seq<char>,
    help: Seq<char>,
    kind: Seq<char>,
    value: Seq<char>,
) -> (before: Seq<char>)
    ensures
        metric(name, help, kind, value) == with_line(before, name, value),
{
    let before = "# HELP "@ + name + " "@ + help + "\n# TYPE "@ + name + " "@ + kind;
    assert(metric(name, help, kind, value) =~= with_line(before, name, value));
    before
}

/// A text with the line in it that says of which kind a metric is.
pub open spec fn typed(
    before: Seq<char>,
    name: Seq<char>,
    kind: Seq<char>,
    after: Seq<char>,
) -> Seq<char> {
    before + "# TYPE "@ + name + " "@ + kind + "\n"@ + after
}

/// Whether a text says of which kind a metric is.
pub open spec fn says_kind(text: Seq<char>, name: Seq<char>, kind: Seq<char>) -> bool {
    exists|before: Seq<char>, after: Seq<char>| text == #[trigger] typed(before, name, kind, after)
}

/// What only ever grows is shown as a counter, and what goes up and down as a gauge.
pub proof fn every_metric_says_its_kind(
    ready: bool,
    schema_version: u32,
    uptime_seconds: u64,
    resident: u64,
    stats: TimelineStats,
)
    ensures
        ({
            let process = process_metrics(ready, schema_version, uptime_seconds, Some(resident));
            let store = store_metrics(Some(stats));
            &&& says_kind(process, "dafs_ready"@, "gauge"@)
            &&& says_kind(process, "dafs_schema_version"@, "gauge"@)
            &&& says_kind(process, "dafs_uptime_seconds"@, "counter"@)
            &&& says_kind(process, "dafs_resident_bytes"@, "gauge"@)
            &&& says_kind(store, "dafs_events_total"@, "counter"@)
            &&& says_kind(store, "dafs_files_known"@, "gauge"@)
            &&& says_kind(store, "dafs_extraction_queue_depth"@, "gauge"@)
        }),
{
    let none = Seq::<char>::empty();
    let a = metric(
        "dafs_ready"@,
        "Whether the daemon has finished startup work."@,
        "gauge"@,
        decimal(
            if ready {
                1
            } else {
                0
            },
        ),
    );
    let b = metric(
        "dafs_schema_version"@,
        "Applied metadata schema version."@,
        "gauge"@,
        decimal(schema_version as nat),
    );
    let c = metric(
        "dafs_uptime_seconds"@,
        "Seconds since process start."@,
        "counter"@,
        decimal(uptime_seconds as nat),
    );
    let d = metric(
        "dafs_resident_bytes"@,
        "Process resident set size."@,
        "gauge"@,
        decimal(resident as nat),
    );
    let process = process_metrics(ready, schema_version, uptime_seconds, Some(resident));
    assert(process =~= none + a + (b + c + d));
    assert(process =~= a + b + (c + d));
    assert(process =~= a + b + c + d);
    assert(process =~= (a + b + c) + d + none);
    lemma_kind_said(
        none,
        "dafs_ready"@,
        "Whether the daemon has finished startup work."@,
        "gauge"@,
        decimal(as_number(ready)),
        b + c + d,
    );
    lemma_kind_said(
        a,
        "dafs_schema_version"@,
        "Applied metadata schema version."@,
        "gauge"@,
        decimal(schema_version as nat),
        c + d,
    );
    lemma_kind_said(
        a + b,
        "dafs_uptime_seconds"@,
        "Seconds since process start."@,
        "counter"@,
        decimal(uptime_seconds as nat),
        d,
    );
    lemma_kind_said(
        a + b + c,
        "dafs_resident_bytes"@,
        "Process resident set size."@,
        "gauge"@,
        decimal(resident as nat),
        none,
    );
    let e = metric(
        "dafs_events_total"@,
        "Events recorded in the store."@,
        "counter"@,
        signed_decimal(stats.events as int),
    );
    let f = metric(
        "dafs_files_known"@,
        "Files currently known, excluding deleted."@,
        "gauge"@,
        signed_decimal(stats.files as int),
    );
    let g = metric(
        "dafs_extraction_queue_depth"@,
        "Files waiting for metadata extraction."@,
        "gauge"@,
        signed_decimal(stats.pending_extractions as int),
    );
    let store = store_metrics(Some(stats));
    assert(store =~= none + e + (f + g));
    assert(store =~= e + f + g);
    assert(store =~= (e + f) + g + none);
    lemma_kind_said(
        none,
        "dafs_events_total"@,
        "Events recorded in the store."@,
        "counter"@,
        signed_decimal(stats.events as int),
        f + g,
    );
    lemma_kind_said(
        e,
        "dafs_files_known"@,
        "Files currently known, excluding deleted."@,
        "gauge"@,
        signed_decimal(stats.files as int),
        g,
    );
    lemma_kind_said(
        e + f,
        "dafs_extraction_queue_depth"@,
        "Files waiting for metadata extraction."@,
        "gauge"@,
        signed_decimal(stats.pending_extractions as int),
        none,
    );
}

/// A metric says its kind, whatever stands around it.
proof fn lemma_kind_said(
    front: Seq<char>,
    name: Seq<char>,
    help: Seq<char>,
    kind: Seq<char>,
    value: Seq<char>,
    back: Seq<char>,
)
    ensures
        says_kind(front + metric(name, help, kind, value) + back, name, kind),
{
    reveal_strlit("\n# TYPE ");
    reveal_strlit("# TYPE ");
    reveal_strlit("\n");
    assert("\n# TYPE "@ =~= "\n"@ + "# TYPE "@);
    let before = front + "# HELP "@ + name + " "@ + help + "\n"@;
    let after = name + " "@ + value + "\n"@ + back;
    assert(front + metric(name, help, kind, value) + back =~= typed(before, name, kind, after));
}

} // verus!

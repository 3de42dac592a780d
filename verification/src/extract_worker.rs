//! Working through the extraction queue, one file at a time.
//!
//! An attempt is recorded before any work is done: a crash in the middle of an
//! extraction has to count, or a file that always crashes would be tried for
//! ever.
use vstd::prelude::*;

use crate::extract::{
    is_metadata_of, merge_git_facts, nothing_found, to_file_metadata, with_git_facts, ExtractError,
    Extraction, GitFacts,
};
use crate::fspath::{
    a_path_of_names_has_them_for_parts, are_names, is_absolute, joined, parts_of, path_parts, texts,
};
use crate::metadata::{record_attempt, record_extraction, FileMetadata};
use crate::paths::{path_of, resolve_path};
use crate::pdf::PdfReply;
use crate::queue::{attempted, enqueued};
use crate::sniff::DocType;
use crate::store::{FileId, Store, Tables};
use crate::text::{a_text_begins_with_what_stands_in_front, chars_of, ends, text_view};

verus! {

/// How many files are taken from the queue at a time.
pub const BATCH: u32 = 16;

/// How long one file gets, in seconds.
pub const EXTRACT_TIMEOUT_SECS: u64 = 30;

/// How long to wait before looking again at an empty queue, in milliseconds.
pub const IDLE_POLL_MS: u64 = 500;

/// A file with less text than this is not worth a request to a model.
pub const MIN_CHARS_FOR_ENRICHMENT: usize = 300;

/// The name of the program that reads PDFs.
pub const PDF_WORKER_BIN_NAME: &'static str = "dafs-pdf-worker";

/// Whether metadata holds enough text for a request to a model.
pub open spec fn enough_text(m: FileMetadata) -> bool {
    match m.body_text {
        Some(text) => text@.len() >= MIN_CHARS_FOR_ENRICHMENT,
        None => false,
    }
}

/// Whether metadata holds enough text for a request to a model.
pub fn has_enough_text_to_enrich(metadata: &FileMetadata) -> (r: bool)
    ensures
        r == enough_text(*metadata),
{
    match &metadata.body_text {
        Some(text) => chars_of(text.as_str()).len() >= MIN_CHARS_FOR_ENRICHMENT,
        None => false,
    }
}

/// The tables once a file was queued for enrichment, where that is wanted and
/// worth it.
pub open spec fn enrichment_wanted(
    t: Tables,
    id: FileId,
    m: FileMetadata,
    enabled: bool,
    now: i64,
) -> Tables {
    if enabled && enough_text(m) && t.has_file(id) {
        t.set_enrichment_queue(id, Some(enqueued(t.enrichment_queue[id - 1], now)))
    } else {
        t
    }
}

/// Queue a file for enrichment, where that is wanted and worth it.
pub fn maybe_enqueue_enrichment(
    store: &mut Store,
    file_id: FileId,
    metadata: &FileMetadata,
    enabled: bool,
    now_unix: i64,
)
    requires
        old(store).wf(),
    ensures
        final(store).wf(),
        final(store).taken() == old(store).taken(),
        final(store)@ == enrichment_wanted(old(store)@, file_id, *metadata, enabled, now_unix),
{
    if enabled && has_enough_text_to_enrich(metadata) {
        let _ = crate::enrichment::enqueue(store, file_id, now_unix);
    }
}

/// The tables once a file was queued for embedding, where that is wanted and
/// worth it.
pub open spec fn embedding_wanted(
    t: Tables,
    id: FileId,
    m: FileMetadata,
    enabled: bool,
    now: i64,
) -> Tables {
    if enabled && enough_text(m) && t.has_file(id) {
        t.set_embedding_queue(id, Some(enqueued(t.embedding_queue[id - 1], now)))
    } else {
        t
    }
}

/// Queue a file for embedding, where that is wanted and worth it.
pub fn maybe_enqueue_embedding(
    store: &mut Store,
    file_id: FileId,
    metadata: &FileMetadata,
    enabled: bool,
    now_unix: i64,
)
    requires
        old(store).wf(),
    ensures
        final(store).wf(),
        final(store).taken() == old(store).taken(),
        final(store)@ == embedding_wanted(old(store)@, file_id, *metadata, enabled, now_unix),
{
    if enabled && has_enough_text_to_enrich(metadata) {
        let _ = crate::embeddings::enqueue(store, file_id, now_unix);
    }
}

/// The tables once an attempt at a file's extraction was recorded.
pub open spec fn extraction_attempted(t: Tables, id: FileId) -> Tables {
    if t.has_file(id) {
        match t.extraction_queue[id - 1] {
            Some(entry) => t.set_extraction_queue(id, Some(attempted(entry))),
            None => t,
        }
    } else {
        t
    }
}

/// Begin with a file: record the attempt, and say where the file lies.
pub fn begin_extraction(store: &mut Store, file_id: FileId) -> (r: String)
    requires
        old(store).wf(),
    ensures
        final(store).wf(),
        final(store).taken() == old(store).taken(),
        final(store)@ == extraction_attempted(old(store)@, file_id),
        r@ == path_of(old(store)@, file_id),
{
    let path = resolve_path(store, file_id);
    record_attempt(store, file_id);
    path
}

/// The tables once a file's extraction succeeded.
pub open spec fn extraction_recorded(
    t: Tables,
    id: FileId,
    m: FileMetadata,
    enrich: bool,
    embed: bool,
    now: i64,
) -> Tables {
    if t.has_file(id) {
        let recorded = t.set_metadata(id, m).set_extraction_queue(id, None);
        embedding_wanted(enrichment_wanted(recorded, id, m, enrich, now), id, m, embed, now)
    } else {
        t
    }
}

/// Finish with a file. Only a success changes anything: a failed file, and one
/// that took too long (`None`), stay queued with the attempt on record.
pub fn finish_extraction_of(
    store: &mut Store,
    file_id: FileId,
    outcome: Option<Result<Extraction, ExtractError>>,
    enrich: bool,
    embed: bool,
    now_unix: i64,
)
    requires
        old(store).wf(),
    ensures
        final(store).wf(),
        final(store).taken() == old(store).taken(),
        match outcome {
            Some(Ok(e)) => exists|m: FileMetadata|
                #[trigger] is_metadata_of(m, e, now_unix) && final(store)@ == extraction_recorded(
                    old(store)@,
                    file_id,
                    m,
                    enrich,
                    embed,
                    now_unix,
                ),
            _ => final(store)@ == old(store)@,
        },
{
    if let Some(Ok(e)) = outcome {
        let metadata = to_file_metadata(e, now_unix);
        match record_extraction(store, file_id, &metadata) {
            Ok(()) => {
                maybe_enqueue_enrichment(store, file_id, &metadata, enrich, now_unix);
                maybe_enqueue_embedding(store, file_id, &metadata, embed, now_unix);
            },
            Err(_) => {},
        }
        assert(is_metadata_of(metadata, e, now_unix));
    }
}

// Reading a PDF in a program of its own.

/// How far the conversation with the program has come.
#[derive(Debug, Clone, Copy, PartialEq, Eq, Structural)]
pub enum PdfStage {
    /// The program is to be started.
    Starting,
    /// The program runs, and its answer is awaited.
    Waiting,
    /// The program has answered and is to end.
    Ending,
    /// The answer is to be read.
    Reading,
}

/// What happened.
#[derive(Debug)]
pub enum PdfEvent {
    /// The program was started.
    Started,
    /// The program could not be started.
    NotStarted(String),
    /// A whole answer came.
    Answered,
    /// Writing the request or reading the answer failed.
    PipeFailed(String),
    /// No answer came in time.
    TimedOut,
    /// The program ended well.
    Ended,
    /// The program ended with the given status.
    EndedBadly(String),
    /// The program's end could not be awaited.
    NotAwaited(String),
    /// The answer was read.
    Read(PdfReply),
    /// The answer could not be read.
    NotRead(String),
}

/// What is to be done next.
#[derive(Debug)]
pub enum PdfNext {
    /// Go on with the given stage.
    Go(PdfStage),
    /// Give up: it took too long.
    TimedOut,
    /// This is the outcome.
    Done(Result<Extraction, ExtractError>),
}

/// A step: whether the program is to be killed, and what is to be done next.
#[derive(Debug)]
pub struct PdfStep {
    pub kill: bool,
    pub next: PdfNext,
}

/// Why reading a PDF failed, in words.
pub open spec fn pdf_failure(event: PdfEvent) -> Option<Seq<char>> {
    match event {
        PdfEvent::NotStarted(e) => Some("spawning pdf worker: "@ + e@),
        PdfEvent::PipeFailed(e) => Some("pdf worker I/O: "@ + e@),
        PdfEvent::EndedBadly(e) => Some("pdf worker exited with "@ + e@),
        PdfEvent::NotAwaited(e) => Some("waiting for pdf worker: "@ + e@),
        PdfEvent::NotRead(e) => Some("parsing pdf worker response: "@ + e@),
        PdfEvent::Read(reply) => text_view(reply.error),
        _ => None,
    }
}

/// Whether an event can come at a stage.
pub open spec fn can_come(stage: PdfStage, event: PdfEvent) -> bool {
    match event {
        PdfEvent::Started | PdfEvent::NotStarted(_) => stage == PdfStage::Starting,
        PdfEvent::Answered | PdfEvent::PipeFailed(_) | PdfEvent::TimedOut => stage
            == PdfStage::Waiting,
        PdfEvent::Ended | PdfEvent::EndedBadly(_) | PdfEvent::NotAwaited(_) => stage
            == PdfStage::Ending,
        PdfEvent::Read(_) | PdfEvent::NotRead(_) => stage == PdfStage::Reading,
    }
}

/// What an answer without an error says.
pub open spec fn reply_extraction(reply: PdfReply, facts: Option<GitFacts>) -> Extraction {
    with_git_facts(
        Extraction {
            doc_type: DocType::Pdf,
            title: reply.title,
            author: reply.author,
            language: reply.language,
            page_count: reply.page_count,
            word_count: reply.word_count,
            body_text: reply.body_text,
            ..nothing_found()
        },
        facts,
    )
}

/// Whether a step is the right one for an event.
pub open spec fn is_step(
    s: PdfStep,
    event: PdfEvent,
    path: Seq<char>,
    facts: Option<GitFacts>,
) -> bool {
    &&& s.kill == (event is PipeFailed || event is TimedOut)
    &&& match pdf_failure(event) {
        Some(words) => match s.next {
            PdfNext::Done(Err(ExtractError::Malformed { doc_type, path: p, reason })) => doc_type
                == DocType::Pdf && p@ == path && reason@ == words,
            _ => false,
        },
        None => match event {
            PdfEvent::Started => s.next == PdfNext::Go(PdfStage::Waiting),
            PdfEvent::Answered => s.next == PdfNext::Go(PdfStage::Ending),
            PdfEvent::Ended => s.next == PdfNext::Go(PdfStage::Reading),
            PdfEvent::TimedOut => s.next == PdfNext::TimedOut,
            PdfEvent::Read(reply) => match s.next {
                PdfNext::Done(Ok(e)) => e == reply_extraction(reply, facts),
                _ => false,
            },
            _ => false,
        },
    }
}

fn with_words(words: &str, e: &str) -> (r: String)
    ensures
        r@ == words@ + e@,
{
    let mut out = words.to_owned();
    out.append(e);
    out
}

/// The end of a conversation that failed.
fn failed(path: &str, reason: String, kill: bool) -> (r: PdfStep)
    ensures
        r.kill == kill,
        match r.next {
            PdfNext::Done(Err(ExtractError::Malformed { doc_type, path: p, reason: why })) => doc_type
                == DocType::Pdf && p@ == path@ && why@ == reason@,
            _ => false,
        },
{
    PdfStep {
        kill,
        next: PdfNext::Done(
            Err(ExtractError::Malformed { doc_type: DocType::Pdf, path: path.to_owned(), reason }),
        ),
    }
}

/// What to do when something happened in the conversation with the program
/// that reads PDFs. Every failure but a timeout is an outcome like any other;
/// a program that may still be running is killed.
pub fn pdf_step(event: PdfEvent, path: &str, facts: Option<GitFacts>) -> (r: PdfStep)
    ensures
        is_step(r, event, path@, facts),
{
    match event {
        PdfEvent::Started => PdfStep { kill: false, next: PdfNext::Go(PdfStage::Waiting) },
        PdfEvent::NotStarted(e) => failed(
            path,
            with_words("spawning pdf worker: ", e.as_str()),
            false,
        ),
        PdfEvent::Answered => PdfStep { kill: false, next: PdfNext::Go(PdfStage::Ending) },
        PdfEvent::PipeFailed(e) => failed(path, with_words("pdf worker I/O: ", e.as_str()), true),
        PdfEvent::TimedOut => PdfStep { kill: true, next: PdfNext::TimedOut },
        PdfEvent::Ended => PdfStep { kill: false, next: PdfNext::Go(PdfStage::Reading) },
        PdfEvent::EndedBadly(e) => failed(
            path,
            with_words("pdf worker exited with ", e.as_str()),
            false,
        ),
        PdfEvent::NotAwaited(e) => failed(
            path,
            with_words("waiting for pdf worker: ", e.as_str()),
            false,
        ),
        PdfEvent::NotRead(e) => failed(
            path,
            with_words("parsing pdf worker response: ", e.as_str()),
            false,
        ),
        PdfEvent::Read(reply) => match reply.error {
            Some(reason) => failed(path, reason, false),
            None => {
                let mut e = Extraction::default();
                e.doc_type = DocType::Pdf;
                e.title = reply.title;
                e.author = reply.author;
                e.language = reply.language;
                e.page_count = reply.page_count;
                e.word_count = reply.word_count;
                e.body_text = reply.body_text;
                merge_git_facts(&mut e, facts);
                PdfStep { kill: false, next: PdfNext::Done(Ok(e)) }
            },
        },
    }
}

/// A conversation moves forward and ends: a step leads to a later stage, or it
/// is the last. A program is killed exactly where the conversation ends while
/// its answer was still awaited, so none is left running and none is killed
/// that has answered.
pub proof fn no_program_is_left_running(
    stage: PdfStage,
    event: PdfEvent,
    path: Seq<char>,
    facts: Option<GitFacts>,
    s: PdfStep,
)
    requires
        can_come(stage, event),
        is_step(s, event, path, facts),
    ensures
        s.next matches PdfNext::Go(next) ==> stage_number(next) == stage_number(stage) + 1,
        s.kill <==> stage == PdfStage::Waiting && !(s.next is Go),
        s.next is TimedOut <==> event is TimedOut,
{
}

/// The stages in order.
pub open spec fn stage_number(stage: PdfStage) -> int {
    match stage {
        PdfStage::Starting => 0,
        PdfStage::Waiting => 1,
        PdfStage::Ending => 2,
        PdfStage::Reading => 3,
    }
}

// Where the program lies.

/// A path made of the parts of another.
pub open spec fn path_from(absolute: bool, parts: Seq<Seq<char>>) -> Seq<char>
    decreases parts.len(),
{
    if parts.len() == 0 {
        if absolute {
            seq!['/']
        } else {
            Seq::empty()
        }
    } else if parts.len() == 1 {
        (if absolute {
            seq!['/']
        } else {
            Seq::empty()
        }) + parts[0]
    } else {
        path_from(absolute, parts.drop_last()).push('/') + parts.last()
    }
}

/// The path of a program next to another: in the same directory, or the bare
/// name where that other has no directory.
pub open spec fn sibling_of(exe: Seq<char>, name: Seq<char>) -> Seq<char> {
    let parts = parts_of(exe);
    if parts.len() == 0 || is_absolute(name) {
        name
    } else {
        path_from(is_absolute(exe), parts.drop_last().push(name))
    }
}

/// The path of a program next to another.
pub fn sibling_binary_path(current_exe: &str, name: &str) -> (r: String)
    ensures
        r@ == sibling_of(current_exe@, name@),
{
    let exe = path_parts(current_exe);
    let ghost parts = parts_of(current_exe@);
    assert(parts.len() == exe.parts.len());
    let letters = chars_of(name);
    if exe.parts.len() == 0 || (letters.len() > 0 && letters[0] == '/') {
        return name.to_owned();
    }
    let ghost all = parts.drop_last().push(name@);
    let mut out = String::new();
    if exe.absolute {
        out.push('/');
    }
    let mut k: usize = 0;
    let last: usize = exe.parts.len() - 1;
    while k < last
        invariant
            0 <= k <= last,
            last == exe.parts.len() - 1,
            parts == texts(exe.parts@),
            all == parts.drop_last().push(name@),
            out@ == (if k == 0 {
                path_from(exe.absolute, Seq::empty())
            } else {
                path_from(exe.absolute, all.take(k as int)).push('/')
            }),
        decreases last - k,
    {
        let ghost before = out@;
        assert(all[k as int] == exe.parts@[k as int]@) by {
            assert(texts(exe.parts@)[k as int] == exe.parts@[k as int]@);
        }
        out.append(exe.parts[k].as_str());
        out.push('/');
        proof {
            let next = all.take(k + 1);
            assert(next.drop_last() =~= all.take(k as int));
            assert(next.last() == all[k as int]);
            if k == 0 {
                assert(next[0] == all[0]);
                assert(before =~= path_from(exe.absolute, Seq::empty()));
            }
            assert(out@ =~= path_from(exe.absolute, next).push('/'));
        }
        k = k + 1;
    }
    out.append(name);
    proof {
        assert(all.take(last as int) =~= all.drop_last());
        assert(all.last() == name@);
        assert(out@ =~= path_from(exe.absolute, all));
    }
    out
}

// Laws.

/// A file that was extracted has its metadata and has left the queue. Where models are
/// asked and the file has at least three hundred characters of text, it waits for them
/// from then on, with the attempts it had; otherwise its place in their queues is what it
/// was. Nothing else changes.
pub proof fn an_extraction_is_recorded_and_passed_on(
    t: Tables,
    id: FileId,
    m: FileMetadata,
    enrich: bool,
    embed: bool,
    now: i64,
)
    requires
        t.wf(),
        t.has_file(id),
    ensures
        ({
            let u = extraction_recorded(t, id, m, enrich, embed, now);
            let k = id - 1;
            let enough = m.body_text is Some && m.body_text->0@.len() >= 300;
            &&& u.metadata[k] == Some(m)
            &&& u.extraction_queue[k] is None
            &&& enough && enrich ==> u.enrichment_queue[k] is Some
                && u.enrichment_queue[k]->0.queued_at_unix == now
                && u.enrichment_queue[k]->0.attempt_count == (if t.enrichment_queue[k] is Some {
                t.enrichment_queue[k]->0.attempt_count
            } else {
                0
            })
            &&& !(enough && enrich) ==> u.enrichment_queue == t.enrichment_queue
            &&& enough && embed ==> u.embedding_queue[k] is Some
                && u.embedding_queue[k]->0.queued_at_unix == now
                && u.embedding_queue[k]->0.attempt_count == (if t.embedding_queue[k] is Some {
                t.embedding_queue[k]->0.attempt_count
            } else {
                0
            })
            &&& !(enough && embed) ==> u.embedding_queue == t.embedding_queue
            &&& forall|j: int|
                0 <= j < t.files.len() && j != k ==> #[trigger] u.metadata[j] == t.metadata[j]
                    && u.extraction_queue[j] == t.extraction_queue[j] && u.enrichment_queue[j]
                    == t.enrichment_queue[j] && u.embedding_queue[j] == t.embedding_queue[j]
            &&& u.files == t.files && u.components == t.components && u.events == t.events
                && u.enrichment == t.enrichment && u.embedded == t.embedded
        }),
{
}

/// An attempt is counted before any work is done: a file that stands in the queue has been
/// tried once more, still waits from when it did, and nothing else changes. A file that is
/// not queued is left as it is.
pub proof fn an_attempt_counts_before_the_work(t: Tables, id: FileId)
    requires
        t.wf(),
    ensures
        ({
            let u = extraction_attempted(t, id);
            &&& t.has_file(id) && t.extraction_queue[id - 1] is Some
                && t.extraction_queue[id - 1]->0.attempt_count < i64::MAX
                ==> u.extraction_queue[id - 1] is Some
                && u.extraction_queue[id - 1]->0.attempt_count
                == t.extraction_queue[id - 1]->0.attempt_count + 1
                && u.extraction_queue[id - 1]->0.queued_at_unix
                == t.extraction_queue[id - 1]->0.queued_at_unix
            &&& t.has_file(id) && t.extraction_queue[id - 1] is None
                ==> u.extraction_queue[id - 1] is None
            &&& forall|j: int|
                0 <= j < t.files.len() && j != id - 1 ==> #[trigger] u.extraction_queue[j]
                    == t.extraction_queue[j]
            &&& u == (Tables { extraction_queue: u.extraction_queue, ..t })
        }),
{
}

/// What the program that reads PDFs answers is what is found in the file, each thing in
/// its place, with the facts of the repository. An answer that tells of an error, and every
/// failure but a timeout, is an outcome in whose words the reason stands last.
pub proof fn a_pdf_says_what_the_program_answers(
    s: PdfStep,
    event: PdfEvent,
    path: Seq<char>,
    facts: Option<GitFacts>,
)
    requires
        is_step(s, event, path, facts),
    ensures
        event matches PdfEvent::Read(reply) ==> reply.error is None ==> {
            &&& s.next matches PdfNext::Done(Ok(e))
            &&& e.doc_type == DocType::Pdf
            &&& e.title == reply.title
            &&& e.author == reply.author
            &&& e.language == reply.language
            &&& e.page_count == reply.page_count
            &&& e.word_count == reply.word_count
            &&& e.body_text == reply.body_text
            &&& facts matches Some(f) ==> e.git_branch == f.branch && e.git_head_commit
                == f.head_commit && e.git_head_author == f.head_author && e.git_head_at_unix
                == f.head_at_unix
            &&& facts is None ==> e.git_branch is None && e.git_head_commit is None
            &&& e.image_camera_model is None && e.image_taken_at_unix is None
        },
        (s.next is Done && s.next->Done_0 is Err) <==> (match event {
            PdfEvent::Read(reply) => reply.error is Some,
            PdfEvent::Started | PdfEvent::Answered | PdfEvent::Ended | PdfEvent::TimedOut => false,
            _ => true,
        }),
        s.next matches PdfNext::Done(Err(e)) ==> {
            let why = match event {
                PdfEvent::NotStarted(w) => w@,
                PdfEvent::PipeFailed(w) => w@,
                PdfEvent::EndedBadly(w) => w@,
                PdfEvent::NotAwaited(w) => w@,
                PdfEvent::NotRead(w) => w@,
                PdfEvent::Read(reply) => reply.error->0@,
                _ => Seq::empty(),
            };
            &&& e matches ExtractError::Malformed { doc_type, path: p, reason }
            &&& doc_type == DocType::Pdf
            &&& p@ == path
            &&& ends(reason@, why)
        },
{
    if let PdfNext::Done(Err(ExtractError::Malformed { doc_type: _, path: _, reason })) = s.next {
        match event {
            PdfEvent::NotStarted(w) => {
                a_text_begins_with_what_stands_in_front(reason@, w@, "spawning pdf worker: "@);
            },
            PdfEvent::PipeFailed(w) => {
                a_text_begins_with_what_stands_in_front(reason@, w@, "pdf worker I/O: "@);
            },
            PdfEvent::EndedBadly(w) => {
                a_text_begins_with_what_stands_in_front(reason@, w@, "pdf worker exited with "@);
            },
            PdfEvent::NotAwaited(w) => {
                a_text_begins_with_what_stands_in_front(reason@, w@, "waiting for pdf worker: "@);
            },
            PdfEvent::NotRead(w) => {
                a_text_begins_with_what_stands_in_front(
                    reason@,
                    w@,
                    "parsing pdf worker response: "@,
                );
            },
            PdfEvent::Read(reply) => {
                assert(reason@.skip(0) =~= reason@);
            },
            _ => {},
        }
    }
}

/// A program next to another lies in the same directory.
pub proof fn a_program_lies_next_to_another(dirs: Seq<Seq<char>>, exe: Seq<char>, name: Seq<char>)
    requires
        are_names(dirs.push(exe)),
        !is_absolute(name),
    ensures
        sibling_of(joined(dirs.push(exe)), name) == joined(dirs.push(name)),
{
    a_path_of_names_has_them_for_parts(dirs.push(exe));
    assert(dirs.push(exe).drop_last() =~= dirs);
    lemma_path_from(dirs.push(name));
}

proof fn lemma_path_from(parts: Seq<Seq<char>>)
    requires
        parts.len() > 0,
    ensures
        path_from(true, parts) == joined(parts),
    decreases parts.len(),
{
    if parts.len() == 1 {
        assert(joined(parts.drop_last()) =~= Seq::<char>::empty());
        assert(path_from(true, parts) =~= joined(parts));
    } else {
        lemma_path_from(parts.drop_last());
        assert(path_from(true, parts) =~= joined(parts));
    }
}

} // verus!

//! Working through the queues that lead to a model: one for descriptions, one
//! for vectors.
//!
//! As with extraction, an attempt is recorded before the request is made.
use vstd::prelude::*;

use crate::embeddings::{fits_table, stored};
use crate::enrich::{ENRICHMENT_VERSION, EnrichError, Enrichment};
use crate::enrichment::{record_attempt, record_enrichment, FileEnrichment};
use crate::extract_worker::extraction_recorded;
use crate::fspath::texts;
use crate::metadata::FileMetadata;
use crate::queue::attempted;
use crate::store::{FileId, Store, Tables};
use crate::text::{copy_text, text_view};

verus! {

/// How many files are taken from a queue at a time.
pub const BATCH: u32 = 16;

/// How long to wait before looking again at an empty queue, in milliseconds.
pub const IDLE_POLL_MS: u64 = 500;

// Lists.

/// Whether a text needs nothing escaped in JSON.
pub open spec fn is_plain(text: Seq<char>) -> bool {
    forall|i: int|
        0 <= i < text.len() ==> (#[trigger] text[i]) as int >= 32 && text[i] != '"' && text[i]
            != '\\'
}

/// Texts in quotes, with commas between them.
pub open spec fn quoted(items: Seq<Seq<char>>) -> Seq<char>
    decreases items.len(),
{
    if items.len() == 0 {
        Seq::empty()
    } else if items.len() == 1 {
        seq!['"'] + items[0] + seq!['"']
    } else {
        quoted(items.drop_last()) + seq![',', '"'] + items.last() + seq!['"']
    }
}

/// What `serde_json::to_string` makes of a list of texts in which something has to
/// be escaped.
pub uninterp spec fn escaped_list(items: Seq<Seq<char>>) -> Seq<char>;

/// Whether nothing has to be escaped in any of the texts.
pub open spec fn all_plain(items: Seq<Seq<char>>) -> bool {
    forall|k: int| 0 <= k < items.len() ==> is_plain(#[trigger] items[k])
}

/// A list of texts as a JSON array.
pub open spec fn json_list(items: Seq<Seq<char>>) -> Seq<char> {
    if all_plain(items) {
        seq!['['] + quoted(items) + seq![']']
    } else {
        escaped_list(items)
    }
}

/// `serde_json::to_string` writes a list of texts as a JSON array without white
/// space; texts in which nothing has to be escaped stand in it as they are. How
/// others are escaped is only named. It cannot fail on such a list.
#[verifier::external_body]
pub(crate) fn to_json_list(items: &Vec<String>) -> (r: String)
    ensures
        all_plain(texts(items@)) ==> r@ == seq!['['] + quoted(texts(items@)) + seq![']'],
        !all_plain(texts(items@)) ==> r@ == escaped_list(texts(items@)),
{
    serde_json::to_string(items).expect("a list of strings serializes infallibly")
}

/// The stored form of a list: an empty one is not stored.
pub open spec fn stored_list(items: Seq<Seq<char>>) -> Option<Seq<char>> {
    if items.len() == 0 {
        None
    } else {
        Some(json_list(items))
    }
}

/// The stored form of a list.
pub fn encode_list(items: &Vec<String>) -> (r: Option<String>)
    ensures
        text_view(r) == stored_list(texts(items@)),
{
    assert(texts(items@).len() == items.len());
    if items.len() == 0 {
        None
    } else {
        Some(to_json_list(items))
    }
}

// Descriptions.

/// Whether a stored enrichment says what a model said.
pub open spec fn is_stored_form(f: FileEnrichment, e: Enrichment, enriched_at_unix: i64) -> bool {
    &&& text_view(f.summary) == text_view(e.summary)
    &&& text_view(f.keywords) == stored_list(texts(e.keywords@))
    &&& text_view(f.entities) == stored_list(texts(e.entities@))
    &&& text_view(f.classification) == text_view(e.classification)
    &&& f.enriched_at_unix == enriched_at_unix
    &&& f.enrichment_version == ENRICHMENT_VERSION
}

/// The form in which what a model said is stored.
pub fn to_file_enrichment(e: &Enrichment, enriched_at_unix: i64) -> (r: FileEnrichment)
    ensures
        is_stored_form(r, *e, enriched_at_unix),
{
    FileEnrichment {
        summary: copy_text(&e.summary),
        keywords: encode_list(&e.keywords),
        entities: encode_list(&e.entities),
        classification: copy_text(&e.classification),
        enriched_at_unix,
        enrichment_version: ENRICHMENT_VERSION,
    }
}

/// The text that was extracted from a file.
pub open spec fn extracted_text(t: Tables, id: FileId) -> Option<Seq<char>> {
    if t.has_file(id) {
        match t.metadata[id - 1] {
            Some(m) => text_view(m.body_text),
            None => None,
        }
    } else {
        None
    }
}

fn text_extracted_from(store: &Store, file_id: FileId) -> (r: Option<String>)
    requires
        store.wf(),
    ensures
        text_view(r) == extracted_text(store@, file_id),
{
    match crate::metadata::get(store, file_id) {
        Some(m) => m.body_text,
        None => None,
    }
}

/// The tables once an attempt at a file's enrichment was recorded.
pub open spec fn enrichment_attempted(t: Tables, id: FileId) -> Tables {
    if t.has_file(id) {
        match t.enrichment_queue[id - 1] {
            Some(entry) => t.set_enrichment_queue(id, Some(attempted(entry))),
            None => t,
        }
    } else {
        t
    }
}

/// Begin with a file: record the attempt, and give the text to ask about. A
/// file without text is skipped.
pub fn begin_enrichment(store: &mut Store, file_id: FileId) -> (r: Option<String>)
    requires
        old(store).wf(),
    ensures
        final(store).wf(),
        final(store).taken() == old(store).taken(),
        final(store)@ == enrichment_attempted(old(store)@, file_id),
        text_view(r) == extracted_text(old(store)@, file_id),
{
    let text = text_extracted_from(store, file_id);
    record_attempt(store, file_id);
    text
}

/// The tables once a file's enrichment succeeded.
pub open spec fn enrichment_recorded(t: Tables, id: FileId, f: FileEnrichment) -> Tables {
    if t.has_file(id) {
        t.set_enrichment(id, f).set_enrichment_queue(id, None)
    } else {
        t
    }
}

/// Finish with a file. Only a success changes anything: a failed file stays
/// queued with the attempt on record.
pub fn finish_enrichment(
    store: &mut Store,
    file_id: FileId,
    outcome: Result<Enrichment, EnrichError>,
    now_unix: i64,
)
    requires
        old(store).wf(),
    ensures
        final(store).wf(),
        final(store).taken() == old(store).taken(),
        match outcome {
            Ok(e) => exists|f: FileEnrichment|
                #[trigger] is_stored_form(f, e, now_unix) && final(store)@ == enrichment_recorded(
                    old(store)@,
                    file_id,
                    f,
                ),
            Err(_) => final(store)@ == old(store)@,
        },
{
    if let Ok(e) = outcome {
        let f = to_file_enrichment(&e, now_unix);
        let _ = record_enrichment(store, file_id, &f);
        assert(is_stored_form(f, e, now_unix));
    }
}

// Vectors.

/// The tables once an attempt at a file's embedding was recorded.
pub open spec fn embedding_attempted(t: Tables, id: FileId) -> Tables {
    if t.has_file(id) {
        match t.embedding_queue[id - 1] {
            Some(entry) => t.set_embedding_queue(id, Some(attempted(entry))),
            None => t,
        }
    } else {
        t
    }
}

/// Begin with a file: record the attempt, and give the text to turn into a
/// vector. A file without text is skipped.
pub fn begin_embedding(store: &mut Store, file_id: FileId) -> (r: Option<String>)
    requires
        old(store).wf(),
    ensures
        final(store).wf(),
        final(store).taken() == old(store).taken(),
        final(store)@ == embedding_attempted(old(store)@, file_id),
        text_view(r) == extracted_text(old(store)@, file_id),
{
    let text = text_extracted_from(store, file_id);
    crate::embeddings::record_attempt(store, file_id);
    text
}

/// Finish with a file, given the width of the vector that came back. Says
/// whether the vector is to be kept; where it is not, the file stays queued
/// with the attempt on record.
pub fn finish_embedding(
    store: &mut Store,
    file_id: FileId,
    outcome: &Result<usize, EnrichError>,
) -> (r: bool)
    requires
        old(store).wf(),
    ensures
        final(store).wf(),
        final(store).taken() == old(store).taken(),
        r == (match *outcome {
            Ok(width) => fits_table(old(store)@, width),
            Err(_) => false,
        }),
        final(store)@ == (if r {
            stored(old(store)@, file_id)
        } else {
            old(store)@
        }),
{
    match outcome {
        Ok(width) => crate::embeddings::store(store, file_id, *width).is_ok(),
        Err(_) => false,
    }
}

// Laws.

/// What a model said is stored as it was said, each thing in its place: a list as a list of
/// texts in quotes, and no list where it is empty.
pub proof fn what_a_model_said_is_stored(f: FileEnrichment, e: Enrichment, at: i64)
    requires
        is_stored_form(f, e, at),
    ensures
        text_view(f.summary) == text_view(e.summary),
        text_view(f.classification) == text_view(e.classification),
        f.keywords is None <==> e.keywords@.len() == 0,
        f.entities is None <==> e.entities@.len() == 0,
        f.keywords is Some ==> f.keywords->0@ == json_list(texts(e.keywords@)),
        f.entities is Some ==> f.entities->0@ == json_list(texts(e.entities@)),
        f.enriched_at_unix == at,
        f.enrichment_version == 1,
{
    assert(texts(e.keywords@).len() == e.keywords@.len());
    assert(texts(e.entities@).len() == e.entities@.len());
}

/// A list is written as its texts in quotes with commas between them, in brackets.
pub proof fn a_list_is_its_texts_in_quotes(items: Seq<Seq<char>>, item: Seq<char>)
    requires
        all_plain(items),
        is_plain(item),
    ensures
        json_list(seq![item]) == seq!['[', '"'] + item + seq!['"', ']'],
        items.len() > 0 ==> json_list(items.push(item)) == json_list(items).drop_last() + seq![
            ',',
            '"',
        ] + item + seq!['"', ']'],
{
    assert(json_list(seq![item]) =~= seq!['[', '"'] + item + seq!['"', ']']);
    let more = items.push(item);
    assert(more.drop_last() =~= items);
    assert forall|k: int| 0 <= k < more.len() implies is_plain(#[trigger] more[k]) by {
        if k < items.len() {
            assert(is_plain(items[k]));
        }
    }
    if items.len() > 0 {
        assert(json_list(more) =~= json_list(items).drop_last() + seq![',', '"'] + item + seq![
            '"',
            ']',
        ]);
    }
}

/// A model is asked about the very text that was extracted from the file.
pub proof fn a_model_is_asked_about_what_was_extracted(
    t: Tables,
    id: FileId,
    m: FileMetadata,
    enrich: bool,
    embed: bool,
    now: i64,
)
    requires
        t.wf(),
        t.has_file(id),
    ensures
        extracted_text(extraction_recorded(t, id, m, enrich, embed, now), id) == text_view(
            m.body_text,
        ),
        t.metadata[id - 1] is None ==> extracted_text(t, id) is None,
{
}

/// An attempt at either is counted before the request is made, in its own queue and for
/// its own file. A success is recorded and takes the file out of that queue; nothing else
/// changes.
pub proof fn requests_are_counted_and_their_results_recorded(
    t: Tables,
    id: FileId,
    f: FileEnrichment,
)
    requires
        t.wf(),
        t.has_file(id),
    ensures
        ({
            let asked = enrichment_attempted(t, id);
            let told = enrichment_recorded(t, id, f);
            let sent = embedding_attempted(t, id);
            let k = id - 1;
            &&& t.enrichment_queue[k] is Some && t.enrichment_queue[k]->0.attempt_count < i64::MAX
                ==> asked.enrichment_queue[k] is Some
                && asked.enrichment_queue[k]->0.attempt_count
                == t.enrichment_queue[k]->0.attempt_count + 1
                && asked.enrichment_queue[k]->0.queued_at_unix
                == t.enrichment_queue[k]->0.queued_at_unix
            &&& t.enrichment_queue[k] is None ==> asked == t
            &&& asked == (Tables { enrichment_queue: asked.enrichment_queue, ..t })
            &&& told.enrichment[k] == Some(f) && told.enrichment_queue[k] is None
            &&& told == (Tables {
                enrichment: told.enrichment,
                enrichment_queue: told.enrichment_queue,
                ..t
            })
            &&& t.embedding_queue[k] is Some && t.embedding_queue[k]->0.attempt_count < i64::MAX
                ==> sent.embedding_queue[k] is Some && sent.embedding_queue[k]->0.attempt_count
                == t.embedding_queue[k]->0.attempt_count + 1
                && sent.embedding_queue[k]->0.queued_at_unix
                == t.embedding_queue[k]->0.queued_at_unix
            &&& t.embedding_queue[k] is None ==> sent == t
            &&& sent == (Tables { embedding_queue: sent.embedding_queue, ..t })
            &&& forall|j: int|
                0 <= j < t.files.len() && j != k ==> #[trigger] asked.enrichment_queue[j]
                    == t.enrichment_queue[j] && told.enrichment[j] == t.enrichment[j]
                    && told.enrichment_queue[j] == t.enrichment_queue[j] && sent.embedding_queue[j]
                    == t.embedding_queue[j]
        }),
{
}

} // verus!

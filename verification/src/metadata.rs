//! Extraction output: a replaceable cache keyed by file, plus the durable work
//! queue that fills it.
//!
//! What is extracted is derived from a file's bytes and can always be made
//! again, so extracting once more overwrites rather than adds.
use vstd::prelude::*;

use crate::facets::{are_facets, facets_are_the_most_common_values, facets_of};
use crate::queue::{
    are_pending, attempt_entry, attempted, depth_of, enqueue_entry, enqueued, pending_in, waiting,
    QueueEntry,
};
use crate::ranked::{how_many, lemma_how_many, lemma_how_many_alike};
use crate::store::{FileId, Store, StoreError, Tables};
use crate::text::{copy_text, text_view};

verus! {

/// A file's extracted metadata.
#[derive(Debug, PartialEq)]
pub struct FileMetadata {
    pub doc_type: Option<String>,
    pub title: Option<String>,
    pub author: Option<String>,
    pub language: Option<String>,
    pub page_count: Option<i64>,
    pub word_count: Option<i64>,
    pub image_taken_at_unix: Option<i64>,
    pub image_camera_model: Option<String>,
    pub git_branch: Option<String>,
    pub git_head_commit: Option<String>,
    pub git_head_author: Option<String>,
    pub git_head_at_unix: Option<i64>,
    pub body_text: Option<String>,
    pub extracted_at_unix: i64,
    pub extractor_version: u32,
}

impl Default for FileMetadata {
    fn default() -> (r: FileMetadata)
        ensures
            r == no_metadata(),
    {
        FileMetadata {
            doc_type: None,
            title: None,
            author: None,
            language: None,
            page_count: None,
            word_count: None,
            image_taken_at_unix: None,
            image_camera_model: None,
            git_branch: None,
            git_head_commit: None,
            git_head_author: None,
            git_head_at_unix: None,
            body_text: None,
            extracted_at_unix: 0,
            extractor_version: 0,
        }
    }
}

/// Metadata that says nothing.
pub open spec fn no_metadata() -> FileMetadata {
    FileMetadata {
        doc_type: None,
        title: None,
        author: None,
        language: None,
        page_count: None,
        word_count: None,
        image_taken_at_unix: None,
        image_camera_model: None,
        git_branch: None,
        git_head_commit: None,
        git_head_author: None,
        git_head_at_unix: None,
        body_text: None,
        extracted_at_unix: 0,
        extractor_version: 0,
    }
}

impl Clone for FileMetadata {
    fn clone(&self) -> (r: FileMetadata)
        ensures
            r == *self,
    {
        FileMetadata {
            doc_type: copy_text(&self.doc_type),
            title: copy_text(&self.title),
            author: copy_text(&self.author),
            language: copy_text(&self.language),
            page_count: self.page_count,
            word_count: self.word_count,
            image_taken_at_unix: self.image_taken_at_unix,
            image_camera_model: copy_text(&self.image_camera_model),
            git_branch: copy_text(&self.git_branch),
            git_head_commit: copy_text(&self.git_head_commit),
            git_head_author: copy_text(&self.git_head_author),
            git_head_at_unix: self.git_head_at_unix,
            body_text: copy_text(&self.body_text),
            extracted_at_unix: self.extracted_at_unix,
            extractor_version: self.extractor_version,
        }
    }
}

/// A file is offered for extraction at most this many times before it is left
/// alone.
pub const MAX_ATTEMPTS: i64 = crate::queue::MAX_ATTEMPTS;

/// Which column a facet query aggregates over.
#[derive(Debug, Clone, Copy, PartialEq, Eq, Structural)]
pub enum FacetColumn {
    DocType,
    Author,
    Language,
    GitBranch,
}

impl FacetColumn {
    /// The column's value in a file's metadata.
    pub open spec fn value(self, m: Option<FileMetadata>) -> Option<Seq<char>> {
        match m {
            None => None,
            Some(m) => match self {
                FacetColumn::DocType => text_view(m.doc_type),
                FacetColumn::Author => text_view(m.author),
                FacetColumn::Language => text_view(m.language),
                FacetColumn::GitBranch => text_view(m.git_branch),
            },
        }
    }

    /// The column's name in the database.
    pub fn column(self) -> (r: &'static str)
        ensures
            r@ == (match self {
                FacetColumn::DocType => "doc_type"@,
                FacetColumn::Author => "author"@,
                FacetColumn::Language => "language"@,
                FacetColumn::GitBranch => "git_branch"@,
            }),
    {
        match self {
            FacetColumn::DocType => "doc_type",
            FacetColumn::Author => "author",
            FacetColumn::Language => "language",
            FacetColumn::GitBranch => "git_branch",
        }
    }
}

/// Record one file's extraction result and clear its queue entry, both or
/// neither.
pub fn record_extraction(store: &mut Store, file_id: FileId, m: &FileMetadata) -> (r: Result<
    (),
    StoreError,
>)
    requires
        old(store).wf(),
    ensures
        final(store).wf(),
        final(store).taken() == old(store).taken(),
        match r {
            Ok(_) => final(store)@ == old(store)@.set_metadata(file_id, *m).set_extraction_queue(
                file_id,
                None,
            ),
            Err(e) => e is MissingReference && final(store)@ == old(store)@,
        },
        r is Ok <==> old(store)@.has_file(file_id),
{
    if !store.has_file(file_id) {
        return Err(StoreError::MissingReference);
    }
    store.set_metadata(file_id, m.clone());
    store.set_extraction_queue(file_id, None);
    Ok(())
}

/// Queue a file for extraction. A file already queued waits from now on, with
/// its attempts kept: queuing is not attempting.
pub fn enqueue(store: &mut Store, file_id: FileId, queued_at_unix: i64) -> (r: Result<
    (),
    StoreError,
>)
    requires
        old(store).wf(),
    ensures
        final(store).wf(),
        final(store).taken() == old(store).taken(),
        match r {
            Ok(_) => final(store)@ == old(store)@.set_extraction_queue(
                file_id,
                Some(enqueued(old(store)@.extraction_queue[file_id - 1], queued_at_unix)),
            ),
            Err(e) => e is MissingReference && final(store)@ == old(store)@,
        },
        r is Ok <==> old(store)@.has_file(file_id),
{
    if !store.has_file(file_id) {
        return Err(StoreError::MissingReference);
    }
    let entry = store.extraction_slots()[(file_id - 1) as usize];
    store.set_extraction_queue(file_id, Some(enqueue_entry(entry, queued_at_unix)));
    Ok(())
}

/// Files still waiting for extraction, longest waiting first, without those
/// tried too often.
pub fn pending(store: &Store, limit: u32) -> (r: Vec<FileId>)
    requires
        store.wf(),
    ensures
        are_pending(store@.extraction_queue, r@, limit as nat),
{
    pending_in(store.extraction_slots(), limit)
}

/// Record that a worker picked the file up. A file that is not queued is left
/// as it is.
pub fn record_attempt(store: &mut Store, file_id: FileId)
    requires
        old(store).wf(),
    ensures
        final(store).wf(),
        final(store).taken() == old(store).taken(),
        final(store)@ == (if old(store)@.has_file(file_id) {
            match old(store)@.extraction_queue[file_id - 1] {
                Some(entry) => old(store)@.set_extraction_queue(file_id, Some(attempted(entry))),
                None => old(store)@,
            }
        } else {
            old(store)@
        }),
{
    if store.has_file(file_id) {
        let entry = store.extraction_slots()[(file_id - 1) as usize];
        if let Some(e) = entry {
            store.set_extraction_queue(file_id, Some(attempt_entry(e)));
        }
    }
}

/// Whether the file at position `k` has to be extracted by the version now
/// running: it was extracted by an older one, or it is a live file that was
/// never extracted and is not queued.
pub open spec fn needs_extraction(t: Tables, version: u32, k: int) -> bool {
    match t.metadata[k] {
        Some(m) => m.extractor_version < version,
        None => !t.files[k].is_dir && t.files[k].deleted_at is None && t.extraction_queue[k]
            is None,
    }
}

/// The extraction queue with the first `n` files considered.
pub open spec fn requeued(t: Tables, version: u32, at: i64, n: nat) -> Seq<Option<QueueEntry>> {
    Seq::new(
        t.extraction_queue.len(),
        |k: int|
            if k < n && needs_extraction(t, version, k) {
                Some(QueueEntry { queued_at_unix: at, attempt_count: 0 })
            } else {
                t.extraction_queue[k]
            },
    )
}

/// How many of the first `n` files have to be extracted.
pub open spec fn requeue_count(t: Tables, version: u32, n: nat) -> nat
    decreases n,
{
    if n == 0 {
        0
    } else {
        requeue_count(t, version, (n - 1) as nat) + (if needs_extraction(t, version, n - 1) {
            1nat
        } else {
            0nat
        })
    }
}

/// Queue every file that the running version has to extract, with its attempts
/// set back: an upgrade deserves fresh retries. Gives how many were queued.
pub fn requeue_stale(store: &mut Store, current_version: u32, at_unix: i64) -> (r: usize)
    requires
        old(store).wf(),
    ensures
        final(store).wf(),
        final(store).taken() == old(store).taken(),
        final(store)@ == (Tables {
            extraction_queue: requeued(
                old(store)@,
                current_version,
                at_unix,
                old(store)@.files.len(),
            ),
            ..old(store)@
        }),
        r == requeue_count(old(store)@, current_version, old(store)@.files.len()),
{
    let ghost t = store@;
    let total = store.files_len();
    let mut changed: usize = 0;
    let mut k: usize = 0;
    assert(store@ =~= Tables {
        extraction_queue: requeued(t, current_version, at_unix, 0),
        ..t
    });
    while k < total
        invariant
            0 <= k <= total,
            total == t.files.len(),
            t.wf(),
            t == old(store)@,
            store.wf(),
            store.taken() == old(store).taken(),
            store@ =~= (Tables {
                extraction_queue: requeued(t, current_version, at_unix, k as nat),
                ..t
            }),
            changed == requeue_count(t, current_version, k as nat),
            changed <= k,
        decreases total - k,
    {
        let id = k as i64 + 1;
        let queued = store.extraction_slots()[k].is_some();
        let row = store.file(id);
        let needed = match store.metadata_of(id) {
            Some(m) => m.extractor_version < current_version,
            None => !row.is_dir && row.deleted_at.is_none() && !queued,
        };
        assert(needed == needs_extraction(t, current_version, k as int));
        if needed {
            store.set_extraction_queue(
                id,
                Some(QueueEntry { queued_at_unix: at_unix, attempt_count: 0 }),
            );
            changed = changed + 1;
        }
        k = k + 1;
        assert(store@.extraction_queue =~= requeued(t, current_version, at_unix, k as nat));
    }
    changed
}

/// Files still in the extraction queue, including those tried too often.
pub fn queue_depth(store: &Store) -> (r: i64)
    requires
        store.wf(),
    ensures
        r == waiting(store@.extraction_queue, store@.extraction_queue.len()),
{
    depth_of(store.extraction_slots())
}

/// Read one file's metadata, if any has been recorded.
pub fn get(store: &Store, file_id: FileId) -> (r: Option<FileMetadata>)
    requires
        store.wf(),
    ensures
        r == (if store@.has_file(file_id) {
            store@.metadata[file_id - 1]
        } else {
            None
        }),
{
    if !store.has_file(file_id) {
        return None;
    }
    match store.metadata_of(file_id) {
        Some(m) => Some(m.clone()),
        None => None,
    }
}

/// A facet column of all files.
pub open spec fn facet_values(t: Tables, column: FacetColumn) -> Seq<Option<Seq<char>>> {
    t.metadata.map_values(|m: Option<FileMetadata>| column.value(m))
}

/// Distinct values of one facet column with their counts, most common first.
pub fn distinct_facets(store: &Store, column: FacetColumn, limit: u32) -> (r: Vec<(String, i64)>)
    requires
        store.wf(),
    ensures
        are_facets(r@, facet_values(store@, column), limit as nat),
{
    let ghost t = store@;
    let total = store.files_len();
    let mut values: Vec<Option<String>> = Vec::new();
    let mut k: usize = 0;
    while k < total
        invariant
            0 <= k <= total,
            total == t.files.len(),
            t == store@,
            store.wf(),
            values.len() == k,
            forall|j: int|
                0 <= j < k ==> text_view(#[trigger] values@[j]) == column.value(t.metadata[j]),
        decreases total - k,
    {
        let value = match store.metadata_of(k as i64 + 1) {
            None => None,
            Some(m) => match column {
                FacetColumn::DocType => copy_text(&m.doc_type),
                FacetColumn::Author => copy_text(&m.author),
                FacetColumn::Language => copy_text(&m.language),
                FacetColumn::GitBranch => copy_text(&m.git_branch),
            },
        };
        values.push(value);
        k = k + 1;
    }
    assert(values@.map_values(|v: Option<String>| text_view(v)) =~= facet_values(t, column));
    facets_of(&values, limit)
}

// Laws.

/// What was recorded is what is read, and the file has left the queue.
pub proof fn recording_is_read_back_and_clears_the_queue(t: Tables, id: FileId, m: FileMetadata)
    requires
        t.wf(),
        t.has_file(id),
    ensures
        ({
            let u = t.set_metadata(id, m).set_extraction_queue(id, None);
            &&& u.metadata[id - 1] == Some(m)
            &&& u.extraction_queue[id - 1] is None
            &&& forall|k: int|
                0 <= k < t.files.len() && k != id - 1 ==> #[trigger] u.metadata[k] == t.metadata[k]
                    && u.extraction_queue[k] == t.extraction_queue[k]
        }),
{
}

/// After a requeue every live file either was extracted by the running version
/// or stands in the queue: none is forgotten.
pub proof fn requeue_leaves_no_file_behind(t: Tables, version: u32, at: i64)
    requires
        t.wf(),
    ensures
        forall|k: int|
            0 <= k < t.files.len() && !(#[trigger] t.files[k]).is_dir && t.files[k].deleted_at
                is None ==> (t.metadata[k] matches Some(m) && m.extractor_version >= version)
                || requeued(t, version, at, t.files.len())[k] is Some,
        forall|k: int|
            0 <= k < t.files.len() && t.metadata[k] is Some && (#[trigger] t.metadata[k])->0.extractor_version
                < version ==> requeued(t, version, at, t.files.len())[k] == Some(
                QueueEntry { queued_at_unix: at, attempt_count: 0 },
            ),
{
}

/// A facet's count is the number of files whose metadata holds its value in the column
/// that was asked for.
pub proof fn a_facet_counts_the_files_that_say_it(
    t: Tables,
    column: FacetColumn,
    facets: Seq<(String, i64)>,
    limit: nat,
)
    requires
        are_facets(facets, facet_values(t, column), limit),
    ensures
        forall|i: int|
            0 <= i < facets.len() ==> (#[trigger] facets[i]).1 == how_many(
                t.metadata.len(),
                |k: int|
                    t.metadata[k] matches Some(m) && text_view(
                        match column {
                            FacetColumn::DocType => m.doc_type,
                            FacetColumn::Author => m.author,
                            FacetColumn::Language => m.language,
                            FacetColumn::GitBranch => m.git_branch,
                        },
                    ) == Some(facets[i].0@),
            ),
{
    let values = facet_values(t, column);
    facets_are_the_most_common_values(facets, values, limit);
    assert forall|i: int| 0 <= i < facets.len() implies (#[trigger] facets[i]).1 == how_many(
        t.metadata.len(),
        |k: int|
            t.metadata[k] matches Some(m) && text_view(
                match column {
                    FacetColumn::DocType => m.doc_type,
                    FacetColumn::Author => m.author,
                    FacetColumn::Language => m.language,
                    FacetColumn::GitBranch => m.git_branch,
                },
            ) == Some(facets[i].0@),
    ) by {
        let said = |k: int|
            t.metadata[k] matches Some(m) && text_view(
                match column {
                    FacetColumn::DocType => m.doc_type,
                    FacetColumn::Author => m.author,
                    FacetColumn::Language => m.language,
                    FacetColumn::GitBranch => m.git_branch,
                },
            ) == Some(facets[i].0@);
        lemma_how_many_alike(t.metadata.len(), |k: int| values[k] == Some(facets[i].0@), said);
    }
}

/// Whether a file waits to be extracted by the given version: an older one extracted it,
/// or it is there, no directory, was never extracted and is not queued.
pub open spec fn is_behind(t: Tables, version: u32, k: int) -> bool {
    ||| t.metadata[k] is Some && t.metadata[k]->0.extractor_version < version
    ||| t.metadata[k] is None && t.extraction_queue[k] is None && t.files[k].deleted_at is None
        && !t.files[k].is_dir
}

/// A requeue queues every file that is behind, to be tried afresh, leaves the place of
/// every other file as it is, and says how many it queued.
pub proof fn a_requeue_queues_what_is_behind(t: Tables, version: u32, at: i64)
    requires
        t.wf(),
    ensures
        forall|k: int|
            0 <= k < t.files.len() ==> #[trigger] requeued(t, version, at, t.files.len())[k] == (
            if is_behind(t, version, k) {
                Some(QueueEntry { queued_at_unix: at, attempt_count: 0 })
            } else {
                t.extraction_queue[k]
            }),
        requeue_count(t, version, t.files.len()) == how_many(
            t.files.len(),
            |k: int| is_behind(t, version, k),
        ),
{
    lemma_requeue_count(t, version, t.files.len());
}

proof fn lemma_requeue_count(t: Tables, version: u32, n: nat)
    ensures
        requeue_count(t, version, n) == how_many(n, |k: int| is_behind(t, version, k)),
    decreases n,
{
    lemma_how_many(n, |k: int| is_behind(t, version, k));
    if n > 0 {
        lemma_requeue_count(t, version, (n - 1) as nat);
    }
}

/// What [`record_extraction`] was given [`get`] gives back, of that file and of no other,
/// and the file is no longer among those that [`pending`] gives.
pub proof fn what_was_recorded_is_given_back(
    store: &mut Store,
    id: FileId,
    m: FileMetadata,
    outcome: Result<(), StoreError>,
    later: Store,
    got: Option<FileMetadata>,
    limit: u32,
    waiting: Vec<FileId>,
)
    requires
        store.wf(),
        store@.has_file(id),
        call_ensures(record_extraction, (store, id, &m), outcome),
        later == *final(store),
        call_ensures(get, (&later, id), got),
        call_ensures(pending, (&later, limit), waiting),
    ensures
        outcome is Ok,
        got == Some(m),
        !waiting@.contains(id),
{
    if waiting@.contains(id) {
        let i = choose|i: int| 0 <= i < waiting@.len() && waiting@[i] == id;
        assert(crate::queue::is_offered(later@.extraction_queue, waiting@[i] - 1));
    }
}

} // verus!
